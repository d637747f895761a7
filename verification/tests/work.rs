use n2::graph::FileId;
use n2::smallmap::SmallMap;
use n2::work::BuildStates;

#[test]
fn build_cycle() {
    let file = "
build a: phony b
build b: phony c
build c: phony a
";
    let graph = n2::load::parse(b"build.ninja", file.as_bytes().to_vec()).ok().unwrap();
    let a_id: FileId = graph.lookup(b"a").unwrap();
    let mut states = BuildStates::new(n2::graph::BuildId(graph.builds.len() as u32), SmallMap::new());
    let mut stack = Vec::new();
    match states.want_file(&graph, &mut stack, a_id) {
        Ok(_) => panic!("expected build cycle error"),
        Err(err) => assert_eq!(String::from_utf8(err).unwrap(), "dependency cycle: a -> b -> c -> a"),
    }
}

/// Builds made ready one after another come out of the ready list in that
/// order, each once, and then nothing.
#[test]
fn ready_list_first_in_first_out() {
    let file = "
build a: phony
build b: phony
build c: phony
";
    let graph = n2::load::parse(b"build.ninja", file.as_bytes().to_vec()).ok().unwrap();
    let mut states = BuildStates::new(n2::graph::BuildId(graph.builds.len() as u32), SmallMap::new());
    let order = [2u32, 0, 1];
    for &b in &order {
        states.set(&graph, n2::graph::BuildId(b), n2::work::BuildState::Ready);
    }
    for &b in &order {
        assert_eq!(states.pop_ready(&graph), Some(n2::graph::BuildId(b)));
    }
    assert_eq!(states.pop_ready(&graph), None);
}
