use n2::run::{regen_step, Regen};
use n2::run::{parse_items, LexItem};
use n2::run::{apply_arg, parse_args, summary, Arg, BuildArgs};

fn argv(args: &[&str]) -> Vec<Vec<u8>> {
    args.iter().map(|a| a.as_bytes().to_vec()).collect()
}

#[test]
fn apply_each_kind_of_argument() {
    let mut args = BuildArgs::new(false);
    let mut out = Vec::new();
    assert_eq!(apply_arg(&mut args, Arg::Short('j'), Some(b"8".to_vec()), &mut out), Ok(None));
    assert_eq!(args.options.parallelism, 8);
    assert_eq!(apply_arg(&mut args, Arg::Short('k'), Some(b"+3".to_vec()), &mut out), Ok(None));
    assert_eq!(args.options.failures_left, Some(3));
    assert_eq!(apply_arg(&mut args, Arg::Short('v'), None, &mut out), Ok(None));
    assert!(args.verbose);
    assert_eq!(apply_arg(&mut args, Arg::Short('f'), Some(b"x.ninja".to_vec()), &mut out), Ok(None));
    assert_eq!(args.build_filename, Some(b"x.ninja".to_vec()));
    assert_eq!(apply_arg(&mut args, Arg::Short('C'), Some(b"out".to_vec()), &mut out), Ok(None));
    assert_eq!(args.chdir, Some(b"out".to_vec()));
    assert_eq!(apply_arg(&mut args, Arg::Value(b"all".to_vec()), None, &mut out), Ok(None));
    assert_eq!(args.targets, vec![b"all".to_vec()]);
    assert!(out.is_empty());

    assert!(apply_arg(&mut args, Arg::Short('j'), Some(b"many".to_vec()), &mut out).is_err());
    assert_eq!(
        apply_arg(&mut args, Arg::Short('x'), None, &mut out),
        Err(b"invalid option '-x'".to_vec())
    );
    assert_eq!(
        apply_arg(&mut args, Arg::Long(b"frob".to_vec()), None, &mut out),
        Err(b"invalid option '--frob'".to_vec())
    );
    assert_eq!(
        apply_arg(&mut args, Arg::Short('t'), Some(b"clean".to_vec()), &mut out),
        Err(b"unknown -t \"clean\", use -t list to list".to_vec())
    );
}

#[test]
fn flags_that_exit_at_once() {
    let mut out = Vec::new();
    let mut args = BuildArgs::new(true);
    assert_eq!(apply_arg(&mut args, Arg::Long(b"version".to_vec()), None, &mut out), Ok(Some(0)));
    assert_eq!(out, b"1.10.2\n");

    let mut out = Vec::new();
    let mut args = BuildArgs::new(false);
    assert_eq!(apply_arg(&mut args, Arg::Short('d'), Some(b"list".to_vec()), &mut out), Ok(Some(1)));
    assert!(out.starts_with(b"debug tools:\n"));

    let mut out = Vec::new();
    assert!(matches!(parse_args(&argv(&["n2", "-h"]), &mut out).unwrap(), Err(0)));
    assert!(out.starts_with(b"n2: a ninja-compatible build tool\n"));
}

#[test]
fn restat_only_when_mimicking_ninja() {
    let mut out = Vec::new();
    let mut args = BuildArgs::new(false);
    assert!(apply_arg(&mut args, Arg::Short('t'), Some(b"restat".to_vec()), &mut out).is_err());

    let parsed = parse_args(&argv(&["/usr/bin/ninja", "-t", "restat", "a", "b"]), &mut out).unwrap();
    let args = parsed.ok().unwrap();
    assert!(args.fake_ninja_compat);
    assert!(args.options.adopt);
    assert_eq!(args.targets, vec![b"a".to_vec(), b"b".to_vec()]);
}

#[test]
fn combined_short_flags_and_values() {
    let mut out = Vec::new();
    let args = parse_args(&argv(&["n2", "-vj4", "-dexplain", "-k", "2", "out"]), &mut out).unwrap().ok().unwrap();
    assert!(args.verbose);
    assert_eq!(args.options.parallelism, 4);
    assert!(args.options.explain);
    assert_eq!(args.options.failures_left, Some(2));
    assert_eq!(args.targets, vec![b"out".to_vec()]);
}

#[test]
fn summary_texts() {
    assert_eq!(summary(None), (1, Vec::new()));
    assert_eq!(summary(Some(0)), (0, b"n2: no work to do\n".to_vec()));
    assert_eq!(summary(Some(1)), (0, b"n2: ran 1 task, now up to date\n".to_vec()));
    assert_eq!(summary(Some(12)), (0, b"n2: ran 12 tasks, now up to date\n".to_vec()));
}

/// The command line as lexopt hands it out: arguments apply in order until
/// one asks to exit, and the end gives the arguments.
#[test]
fn parse_items_in_order() {
    let mut out = Vec::new();
    let items = vec![
        LexItem::Item(Arg::Short('v'), None),
        LexItem::Item(Arg::Value(b"all".to_vec()), None),
        LexItem::Item(Arg::Short('j'), Some(b"3".to_vec())),
        LexItem::End,
    ];
    let args = parse_items(false, items, &mut out).unwrap().unwrap();
    assert!(args.verbose);
    assert_eq!(args.targets, vec![b"all".to_vec()]);
    assert_eq!(args.options.parallelism, 3);
    assert!(out.is_empty());

    let items = vec![LexItem::Item(Arg::Short('h'), None), LexItem::Fail(b"later".to_vec())];
    assert!(matches!(parse_items(false, items, &mut out), Ok(Err(0))));
    assert!(out.starts_with(b"n2: a ninja-compatible build tool\n"));

    let mut out = Vec::new();
    let items = vec![LexItem::Item(Arg::Short('v'), None), LexItem::Fail(b"bad".to_vec())];
    assert_eq!(parse_items(false, items, &mut out).err(), Some(b"bad".to_vec()));

    let items = vec![LexItem::Item(Arg::Short('v'), None)];
    assert_eq!(parse_items(true, items, &mut out).err(), Some(b"too many arguments".to_vec()));
}

/// After the build file's own run: a failure stops, nothing run keeps what
/// is loaded, and tasks run mean the build file was regenerated.
#[test]
fn regen_decision() {
    assert_eq!(regen_step(None), Regen::Stop);
    assert_eq!(regen_step(Some(0)), Regen::Keep);
    assert_eq!(regen_step(Some(3)), Regen::Reload(3));
}

/// `-k 0`, as in Ninja, sets no limit on failures; other counts set one.
#[test]
fn keep_going_zero_means_no_limit() {
    let mut out = Vec::new();
    let args = parse_args(&argv(&["n2", "-k", "0"]), &mut out).unwrap().ok().unwrap();
    assert_eq!(args.options.failures_left, None);
    let args = parse_args(&argv(&["n2", "-k5"]), &mut out).unwrap().ok().unwrap();
    assert_eq!(args.options.failures_left, Some(5));
}

/// Every argument of the command line is read in order: targets keep their
/// order, and each count goes to its own option.
#[test]
fn parse_args_reads_every_argument() {
    let mut out = Vec::new();
    let args = parse_args(&argv(&["n2", "-j", "3", "-k", "7", "a", "b", "c"]), &mut out).unwrap().ok().unwrap();
    assert_eq!(args.options.parallelism, 3);
    assert_eq!(args.options.failures_left, Some(7));
    assert_eq!(args.targets, vec![b"a".to_vec(), b"b".to_vec(), b"c".to_vec()]);
    assert!(parse_args(&argv(&["n2", "-j"]), &mut out).is_err());
    assert!(parse_args(&argv(&["n2", "--frob"]), &mut out).is_err());
}
