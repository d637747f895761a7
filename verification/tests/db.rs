use n2::db;
use n2::graph::{BuildId, Hashes};
use n2::hash::BuildHash;
use n2::load::parse;

const MANIFEST: &str = "
rule cc
  command = cc $in -o $out
build a.o: cc a.c
build b.o b.d: cc b.c
";

/// What a writer records, a later open reads back: the hashes of the
/// builds and the dependencies they discovered.
#[test]
fn read_back_what_was_written() {
    let mut graph = parse(b"build.ninja", MANIFEST.as_bytes().to_vec()).unwrap();
    let mut hashes = Hashes::new();
    let mut w = db::open(None, &mut graph, &mut hashes).unwrap();
    assert!(w.out.starts_with(b"n2db"));

    let b1 = BuildId(1);
    let hdr = graph.lookup(b"b.c").unwrap();
    graph.update_discovered(b1, vec![hdr, graph.lookup(b"a.c").unwrap()]);
    assert!(w.can_write_build(&graph, BuildId(0)) && w.can_write_build(&graph, b1));
    w.write_build(&graph, BuildId(0), BuildHash(0x1234_5678_9abc_def0));
    w.write_build(&graph, b1, BuildHash(7));
    // Writing a build again appends only its build record.
    let before = w.out.len();
    w.write_build(&graph, BuildId(0), BuildHash(9));
    let added = w.out.len() - before;
    assert!(added > 0);

    let mut graph2 = parse(b"build.ninja", MANIFEST.as_bytes().to_vec()).unwrap();
    let mut hashes2 = Hashes::new();
    let w2 = db::open(Some(&w.out), &mut graph2, &mut hashes2).unwrap();
    assert!(w2.out.is_empty());
    assert_eq!(hashes2.get(BuildId(0)).map(|h| h.0), Some(9));
    assert_eq!(hashes2.get(b1).map(|h| h.0), Some(7));
    // b.c is a dirtying input, so only a.c stays discovered.
    let a_c = graph2.lookup(b"a.c").unwrap();
    assert_eq!(graph2.build(b1).discovered_ins, vec![a_c]);
}

#[test]
fn bad_database_is_an_error() {
    let mut graph = parse(b"build.ninja", MANIFEST.as_bytes().to_vec()).unwrap();
    let mut hashes = Hashes::new();
    let err = db::open(Some(b"nope"), &mut graph, &mut hashes).err().unwrap();
    assert!(!err.is_empty());
}

#[test]
fn hashes_get_what_was_set() {
    let mut hashes = Hashes::new();
    assert!(hashes.get(BuildId(3)).is_none());
    hashes.set(BuildId(3), n2::graph::Hash(30));
    hashes.set(BuildId(4), n2::graph::Hash(40));
    hashes.set(BuildId(3), n2::graph::Hash(31));
    assert_eq!(hashes.get(BuildId(3)).map(|h| h.0), Some(31));
    assert_eq!(hashes.get(BuildId(4)).map(|h| h.0), Some(40));
}
