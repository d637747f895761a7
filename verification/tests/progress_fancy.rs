use n2::graph::BuildId;
use n2::progress_fancy::{progress_bar, task_message, truncate, FancyState, Task};
use n2::work::{BuildState, StateCounts};

fn bar(counts: &StateCounts, n: usize) -> String {
    String::from_utf8(progress_bar(counts, n)).unwrap()
}

fn msg(m: &str, secs: usize, cols: usize) -> String {
    String::from_utf8(task_message(m.as_bytes(), secs, cols)).unwrap()
}

#[test]
fn progress_bar_rendering() {
    let mut counts = StateCounts::new();

    // Don't crash if we show progress before having any tasks.
    assert_eq!(bar(&counts, 10), "          ");

    counts.add(BuildState::Want, 100);
    assert_eq!(bar(&counts, 10), "          ");

    // Half want -> ready.
    counts.add(BuildState::Want, -50);
    counts.add(BuildState::Ready, 50);
    assert_eq!(bar(&counts, 10), "-----     ");

    // One ready -> done.
    counts.add(BuildState::Ready, -1);
    counts.add(BuildState::Done, 1);
    assert_eq!(bar(&counts, 10), "=----     ");

    // All but one want -> ready.
    counts.add(BuildState::Want, -49);
    counts.add(BuildState::Ready, 49);
    assert_eq!(bar(&counts, 10), "=-------- ");

    // All want -> ready.
    counts.add(BuildState::Want, -1);
    counts.add(BuildState::Ready, 1);
    assert_eq!(bar(&counts, 10), "=---------");
}

#[test]
fn task_rendering() {
    assert_eq!(msg("building foo.o", 0, 80), "building foo.o");
    assert_eq!(msg("building foo.o", 0, 10), "buildin...");
    assert_eq!(msg("building foo.o", 0, 5), "bu...");
}

#[test]
fn task_rendering_with_time() {
    assert_eq!(msg("building foo.o", 5, 80), "building foo.o (5s)");
    assert_eq!(msg("building foo.o", 5, 10), "bu... (5s)");
}

#[test]
fn truncate_utf8() {
    let text = "utf8 progress bar: ━━━━━━━━━━━━";
    for len in 10..text.len() {
        // test passes if this doesn't panic
        let t = truncate(text.as_bytes(), len);
        assert!(std::str::from_utf8(t).is_ok());
        assert!(t.len() <= len);
    }
}

#[test]
fn progress_bar_width_is_bar_size() {
    let mut counts = StateCounts::new();
    counts.add(BuildState::Want, 3);
    counts.add(BuildState::Running, 1);
    counts.add(BuildState::Failed, 2);
    for n in [0usize, 1, 7, 40] {
        assert_eq!(progress_bar(&counts, n).len(), n);
    }
}

#[test]
fn task_message_fits_columns() {
    for cols in 8..30 {
        assert!(task_message(b"building something rather long.o", 7, cols).len() <= cols);
    }
    assert_eq!(msg("building foo.o", 2, 80), "building foo.o");
    assert_eq!(msg("building foo.o", 3, 80), "building foo.o (3s)");
}

/// The status moves the cursor back up over exactly the lines it printed.
#[test]
fn status_cursor_returns_to_first_line() {
    for ntasks in [0usize, 1, 3, 8, 9, 12] {
        let mut state = FancyState::new(false);
        let mut counts = StateCounts::new();
        counts.add(BuildState::Running, ntasks as isize);
        counts.add(BuildState::Want, 5);
        state.update(&counts);
        for i in 0..ntasks {
            state.tasks.push(Task {
                id: BuildId(i as u32),
                start: 0,
                message: format!("building thing {}", i).into_bytes(),
                last_line: if i % 2 == 0 { Some(b"compiling".to_vec()) } else { None },
            });
        }
        let text = String::from_utf8(state.print_progress(5000, 40)).unwrap();
        let (body, up) = text.rsplit_once("\x1b[").unwrap();
        let lines: usize = up.trim_end_matches('A').parse().unwrap();
        assert_eq!(body.matches('\n').count(), lines);
        assert!(body.starts_with('['));
        assert_eq!(state.pending, b"\r\x1b[J");
    }
}
