use n2::graph::{BuildId, FileState, Graph, MTime};
use n2::hash::hash_build;

fn stamp_all(graph: &Graph, t: u64) -> FileState {
    let mut fs = FileState::new(graph);
    for i in 0..graph.files.len() {
        fs.restat(n2::graph::FileId(i as u32), MTime::Stamp(t));
    }
    fs
}

/// A build's hash depends on the names and mtimes of its files, its command
/// line and its response file, and on nothing else of the graph it is in.
#[test]
fn hash_depends_only_on_listed_files() {
    let one = "
rule cc
  command = cc $in -o $out
build out: cc in
";
    let two = "
rule cc
  command = cc $in -o $out
build other: cc unrelated
build out: cc in
";
    let g1 = n2::load::parse(b"build.ninja", one.as_bytes().to_vec()).ok().unwrap();
    let g2 = n2::load::parse(b"build.ninja", two.as_bytes().to_vec()).ok().unwrap();
    let fs1 = stamp_all(&g1, 7);
    let fs2 = stamp_all(&g2, 7);
    let h1 = hash_build(&g1, &fs1, g1.build(BuildId(0)));
    let h2 = hash_build(&g2, &fs2, g2.build(BuildId(1)));
    assert_eq!(h1, h2);
    let fs3 = stamp_all(&g2, 8);
    let h3 = hash_build(&g2, &fs3, g2.build(BuildId(1)));
    assert_ne!(h1, h3);
}
