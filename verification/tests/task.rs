use n2::task::depfile_deps;
use n2::load::NoFiles;
use n2::task::{exit_termination, extract_showincludes, find_last_line, read_depfile, task_result, Runner, Termination};

#[test]
fn show_includes() {
    let (includes, output) = extract_showincludes(
        b"some text
Note: including file: a
other text
Note: including file: b\r
more text
"
        .to_vec(),
    );
    assert_eq!(includes, vec![b"a".to_vec(), b"b".to_vec()]);
    assert_eq!(
        output,
        b"some text
other text
more text
"
    );
}

#[test]
fn find_last() {
    assert_eq!(find_last_line(b""), b"");
    assert_eq!(find_last_line(b"\n"), b"");

    assert_eq!(find_last_line(b"hello"), b"hello");
    assert_eq!(find_last_line(b"hello\n"), b"hello");

    assert_eq!(find_last_line(b"hello\nt"), b"t");
    assert_eq!(find_last_line(b"hello\nt\n"), b"t");

    assert_eq!(find_last_line(b"hello\n\n"), b"hello");
    assert_eq!(find_last_line(b"hello\nt\n\n"), b"t");
}

#[test]
fn missing_depfile_allowed() {
    let deps = read_depfile(&NoFiles, b"/missing/dep/file").unwrap();
    assert_eq!(deps.len(), 0);
}

#[test]
fn task_result_strips_showincludes() {
    let r = task_result(&NoFiles, Termination::Failure, b"x\nNote: including file:   inc.h\ny".to_vec(), None, true);
    assert_eq!(r.termination, Termination::Failure);
    assert_eq!(r.output, b"x\ny".to_vec());
    assert_eq!(r.discovered_deps, Some(vec![b"inc.h".to_vec()]));
}

#[test]
fn task_result_missing_depfile_lists_nothing() {
    let r = task_result(&NoFiles, Termination::Success, b"ok\n".to_vec(), Some(b"out.d"), false);
    assert_eq!(r.termination, Termination::Success);
    assert_eq!(r.output, b"ok\n".to_vec());
    assert_eq!(r.discovered_deps, Some(vec![]));
}

#[test]
fn runner_thread_ids_are_reused() {
    let mut runner = Runner::new(2);
    assert!(runner.can_start_more());
    assert!(!runner.is_running());
    let a = runner.start();
    let b = runner.start();
    assert_eq!((a, b), (0, 1));
    assert!(!runner.can_start_more());
    let done = n2::task::FinishedTask {
        tid: a,
        buildid: n2::graph::BuildId(0),
        span: (0, 1),
        result: n2::task::TaskResult { termination: Termination::Success, output: vec![], discovered_deps: None },
    };
    runner.finish(&done);
    assert!(runner.can_start_more());
    assert_eq!(runner.start(), 0);
}

#[test]
fn exit_status_to_termination() {
    let (t, note) = exit_termination(true, None, 2);
    assert_eq!(t, Termination::Success);
    assert!(note.is_empty());
    let (t, note) = exit_termination(false, None, 2);
    assert_eq!(t, Termination::Failure);
    assert!(note.is_empty());
    let (t, note) = exit_termination(false, Some(2), 2);
    assert_eq!(t, Termination::Interrupted);
    assert_eq!(note, b"interrupted");
    let (t, note) = exit_termination(false, Some(15), 2);
    assert_eq!(t, Termination::Failure);
    assert_eq!(note, b"signal 15");
}

/// What reading a depfile came to, for each outcome of the read.
#[test]
fn depfile_deps_by_read_outcome() {
    assert_eq!(depfile_deps(b"x.d", Ok(None)), Ok(vec![]));
    assert_eq!(depfile_deps(b"x.d", Err(b"denied".to_vec())), Err(b"read x.d: denied".to_vec()));
    assert_eq!(
        depfile_deps(b"x.d", Ok(Some(b"out: a b\nout2: c\n".to_vec()))),
        Ok(vec![b"a".to_vec(), b"b".to_vec(), b"c".to_vec()])
    );
    let err = depfile_deps(b"x.d", Ok(Some(b"foo bar".to_vec()))).unwrap_err();
    let text = String::from_utf8(err).unwrap();
    assert!(text.starts_with("parse error: expected ':', got 'b'\nx.d:1: foo bar"), "{:?}", text);
    assert!(text.ends_with("\n           ^\n"), "{:?}", text);
}
