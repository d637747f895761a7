use n2::graph::{BuildOuts, FileId};

fn fileids(ids: Vec<u32>) -> Vec<FileId> {
    ids.into_iter().map(FileId).collect()
}

#[test]
fn remove_dups_explicit() {
    let mut outs = BuildOuts {
        ids: fileids(vec![1, 1, 2]),
        explicit: 2,
    };
    outs.remove_duplicates();
    assert_eq!(outs.ids, fileids(vec![1, 2]));
    assert_eq!(outs.explicit, 1);
}

#[test]
fn remove_dups_implicit() {
    let mut outs = BuildOuts {
        ids: fileids(vec![1, 2, 1]),
        explicit: 2,
    };
    outs.remove_duplicates();
    assert_eq!(outs.ids, fileids(vec![1, 2]));
    assert_eq!(outs.explicit, 2);
}

#[test]
fn remove_dups_none() {
    let mut outs = BuildOuts {
        ids: fileids(vec![3, 4, 5]),
        explicit: 1,
    };
    outs.remove_duplicates();
    assert_eq!(outs.ids, fileids(vec![3, 4, 5]));
    assert_eq!(outs.explicit, 1);
}

/// Each file of a graph is found again by its name, and bears it.
#[test]
fn file_names_round_trip() {
    let text = "
build out/a.o: phony src/a.c
build out/b.o: phony src/b.c out/a.o
";
    let graph = n2::load::parse(b"build.ninja", text.as_bytes().to_vec()).ok().unwrap();
    for i in 0..graph.files.len() {
        let id = FileId(i as u32);
        let name = graph.file(id).name.clone();
        assert_eq!(graph.lookup(&name), Some(id));
    }
    assert_eq!(graph.lookup(b"src/c.c"), None);
    let id = graph.lookup(b"src/b.c").unwrap();
    assert_eq!(graph.file(id).name, b"src/b.c".to_vec());
}

/// Ids handed out by `file_id` are found again by `lookup`; a name never
/// given is not found.
#[test]
fn file_id_then_lookup() {
    let mut graph = n2::graph::Graph::new();
    let a = graph.file_id(b"a.c".to_vec());
    let b = graph.file_id(b"b.c".to_vec());
    let a2 = graph.file_id(b"a.c".to_vec());
    assert_eq!(a, a2);
    assert_ne!(a, b);
    assert_eq!(graph.lookup(b"a.c"), Some(a));
    assert_eq!(graph.lookup(b"b.c"), Some(b));
    assert_eq!(graph.lookup(b"c.c"), None);
}
