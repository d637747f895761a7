//! End-to-end builds: the library driven as the n2 program drives it, over
//! an in-memory file system whose commands a small shell runs.

use std::cell::{Cell, RefCell};
use std::collections::{BTreeMap, VecDeque};

use n2::db::Writer;
use n2::fs::FileSystem;
use n2::graph::{BuildId, MTime};
use n2::progress_dumb::DumbConsoleProgress;
use n2::run::{parse_args, summary, want_targets, BuildArgs};
use n2::task::{task_result, FinishedTask, Runner, Termination};
use n2::work::{Step, Work};

// ---------------------------------------------------------------------------
// An in-memory file system.

struct MemFs {
    files: RefCell<BTreeMap<Vec<u8>, (Vec<u8>, u64)>>,
    dirs: RefCell<BTreeMap<Vec<u8>, u64>>,
    clock: Cell<u64>,
}

fn norm(path: &[u8]) -> Vec<u8> {
    let mut p = path.to_vec();
    while p.starts_with(b"./") {
        p.drain(0..2);
    }
    while p.len() > 1 && p.ends_with(b"/") {
        p.pop();
    }
    if p == b"." {
        p.clear();
    }
    p
}

fn parent_of(path: &[u8]) -> Vec<u8> {
    match path.iter().rposition(|&c| c == b'/') {
        Some(i) => path[..i].to_vec(),
        None => Vec::new(),
    }
}

impl MemFs {
    fn new() -> MemFs {
        let fs = MemFs { files: RefCell::new(BTreeMap::new()), dirs: RefCell::new(BTreeMap::new()), clock: Cell::new(1000) };
        fs.dirs.borrow_mut().insert(Vec::new(), 1000);
        fs
    }

    /// File times are coarse, as a file system's are: everything written
    /// within one step (a run of the program, or one write by the test)
    /// gets the same stamp.
    fn tick(&self) -> u64 {
        self.clock.get()
    }

    fn advance(&self) {
        self.clock.set(self.clock.get() + 1000);
    }

    fn is_dir(&self, path: &[u8]) -> bool {
        self.dirs.borrow().contains_key(&norm(path))
    }

    fn touch_dir(&self, dir: &[u8]) {
        let t = self.tick();
        self.dirs.borrow_mut().insert(dir.to_vec(), t);
    }

    /// Write a file, as the test's set-up or a command does.
    fn write(&self, path: &str, content: &str) {
        self.advance();
        self.put(path.as_bytes(), content.as_bytes().to_vec());
    }

    fn put(&self, path: &[u8], content: Vec<u8>) -> bool {
        let p = norm(path);
        let parent = parent_of(&p);
        if !self.is_dir(&parent) {
            return false;
        }
        let existed = self.files.borrow().contains_key(&p);
        let t = self.tick();
        self.files.borrow_mut().insert(p, (content, t));
        if !existed {
            self.touch_dir(&parent);
        }
        true
    }

    fn append(&self, path: &[u8], content: &[u8]) -> bool {
        let mut old = self.get(path).unwrap_or_default();
        old.extend_from_slice(content);
        self.put(path, old)
    }

    fn get(&self, path: &[u8]) -> Option<Vec<u8>> {
        self.files.borrow().get(&norm(path)).map(|f| f.0.clone())
    }

    fn read(&self, path: &str) -> Option<Vec<u8>> {
        self.get(path.as_bytes())
    }

    fn touch(&self, path: &[u8]) -> bool {
        match self.get(path) {
            Some(c) => self.put(path, c),
            None => self.put(path, Vec::new()),
        }
    }

    fn list(&self, dir: &[u8]) -> Vec<Vec<u8>> {
        let d = norm(dir);
        let mut names: Vec<Vec<u8>> = Vec::new();
        let within = |p: &Vec<u8>| -> Option<Vec<u8>> {
            if p.is_empty() {
                return None;
            }
            let rest = if d.is_empty() {
                p.clone()
            } else if p.starts_with(&d) && p.get(d.len()) == Some(&b'/') {
                p[d.len() + 1..].to_vec()
            } else {
                return None;
            };
            if rest.contains(&b'/') {
                None
            } else {
                Some(rest)
            }
        };
        for p in self.files.borrow().keys() {
            if let Some(n) = within(p) {
                names.push(n);
            }
        }
        for p in self.dirs.borrow().keys() {
            if let Some(n) = within(p) {
                names.push(n);
            }
        }
        names.retain(|n| !n.starts_with(b"."));
        names.sort();
        names
    }
}

impl FileSystem for MemFs {
    fn read(&self, path: &[u8]) -> Result<Option<Vec<u8>>, Vec<u8>> {
        if self.is_dir(path) {
            return Err(b"Is a directory (os error 21)".to_vec());
        }
        Ok(self.get(path))
    }

    fn stat(&self, path: &[u8]) -> Result<MTime, Vec<u8>> {
        let p = norm(path);
        if let Some(f) = self.files.borrow().get(&p) {
            return Ok(MTime::Stamp(f.1));
        }
        if let Some(t) = self.dirs.borrow().get(&p) {
            return Ok(MTime::Stamp(*t));
        }
        Ok(MTime::Missing)
    }

    fn create_dir_all(&self, path: &[u8]) -> Result<(), Vec<u8>> {
        let p = norm(path);
        if p.is_empty() || self.is_dir(&p) {
            return Ok(());
        }
        self.create_dir_all(&parent_of(&p))?;
        let parent = parent_of(&p);
        self.touch_dir(&p);
        self.touch_dir(&parent);
        Ok(())
    }
}

// ---------------------------------------------------------------------------
// A small shell: `&&`, double quotes, `>` and `>>`, and the few commands
// the build files below use.

fn words(cmd: &[u8]) -> Vec<Vec<u8>> {
    let mut out = Vec::new();
    let mut cur: Option<Vec<u8>> = None;
    let mut i = 0;
    while i < cmd.len() {
        let c = cmd[i];
        if c == b'"' {
            let w = cur.get_or_insert_with(Vec::new);
            i += 1;
            while i < cmd.len() && cmd[i] != b'"' {
                if cmd[i] == b'\\' && i + 1 < cmd.len() && (cmd[i + 1] == b'\\' || cmd[i + 1] == b'"') {
                    i += 1;
                }
                w.push(cmd[i]);
                i += 1;
            }
        } else if c == b' ' || c == b'\t' {
            if let Some(w) = cur.take() {
                out.push(w);
            }
        } else {
            cur.get_or_insert_with(Vec::new).push(c);
        }
        i += 1;
    }
    if let Some(w) = cur.take() {
        out.push(w);
    }
    out
}

fn split_and(cmd: &[u8]) -> Vec<Vec<u8>> {
    let mut parts = Vec::new();
    let mut cur = Vec::new();
    let mut quoted = false;
    let mut i = 0;
    while i < cmd.len() {
        if cmd[i] == b'"' {
            quoted = !quoted;
        }
        if !quoted && cmd[i..].starts_with(b"&&") {
            parts.push(std::mem::take(&mut cur));
            i += 2;
            continue;
        }
        cur.push(cmd[i]);
        i += 1;
    }
    parts.push(cur);
    parts
}

fn run_simple(fs: &MemFs, cmd: &[u8], out: &mut Vec<u8>) -> bool {
    let mut args = words(cmd);
    let mut redirect: Option<(Vec<u8>, bool)> = None;
    let mut k = 0;
    while k < args.len() {
        if args[k] == b">" || args[k] == b">>" {
            let append = args[k] == b">>";
            let target = args[k + 1].clone();
            args.drain(k..k + 2);
            redirect = Some((target, append));
        } else {
            k += 1;
        }
    }
    if let Some((target, append)) = &redirect {
        if !append && !fs.put(target, Vec::new()) {
            return false;
        }
    }
    if args.is_empty() {
        return true;
    }
    let mut text: Vec<u8> = Vec::new();
    let ok = match args[0].as_slice() {
        b"touch" => args[1..].iter().all(|a| fs.touch(a)),
        b"echo" => {
            text.extend_from_slice(&args[1..].join(&b' '));
            text.push(b'\n');
            true
        }
        b"cat" => {
            let mut ok = true;
            for a in &args[1..] {
                match fs.get(a) {
                    Some(c) => text.extend_from_slice(&c),
                    None => ok = false,
                }
            }
            ok
        }
        b"cp" => match fs.get(&args[1]) {
            Some(c) => fs.put(&args[2], c),
            None => false,
        },
        b"ls" => {
            for n in fs.list(&args[1]) {
                text.extend_from_slice(&n);
                text.push(b'\n');
            }
            true
        }
        b"exit" => args.get(1).map(|a| a.as_slice()) == Some(b"0"),
        b"true" => true,
        b"sh" => match fs.get(&args[1]) {
            Some(script) => {
                let mut ok = true;
                for line in script.split(|&c| c == b'\n') {
                    if !line.is_empty() && !shell(fs, line, out) {
                        ok = false;
                        break;
                    }
                }
                ok
            }
            None => false,
        },
        _ => false,
    };
    match redirect {
        Some((target, _)) => {
            if !fs.append(&target, &text) {
                return false;
            }
        }
        None => out.extend_from_slice(&text),
    }
    ok
}

/// A command of the form `until [ -f X ]; do sleep ..; done; rest` waits
/// for file X: the file it waits for, and the rest to run once it is there.
fn waits_for(cmdline: &[u8]) -> Option<(Vec<u8>, Vec<u8>)> {
    let head = b"until [ -f ";
    if !cmdline.starts_with(head) {
        return None;
    }
    let rest = &cmdline[head.len()..];
    let close = rest.windows(2).position(|w| w == b" ]")?;
    let file = rest[..close].to_vec();
    let done = rest.windows(5).position(|w| w == b"done;")?;
    Some((file, rest[done + 5..].to_vec()))
}

fn shell(fs: &MemFs, cmdline: &[u8], out: &mut Vec<u8>) -> bool {
    let cmdline = match waits_for(cmdline) {
        Some((_, rest)) => rest,
        None => cmdline.to_vec(),
    };
    for stmt in cmdline.split(|&c| c == b';') {
        for part in split_and(stmt) {
            if !run_simple(fs, &part, out) {
                return false;
            }
        }
    }
    true
}

/// Whether a command could make progress now.
fn runnable(fs: &MemFs, cmdline: &[u8]) -> bool {
    match waits_for(cmdline) {
        Some((file, _)) => fs.get(&file).is_some(),
        None => true,
    }
}

// ---------------------------------------------------------------------------
// The program: arguments, loading, building, reporting.

struct Output {
    status: i32,
    stdout: String,
}

impl Output {
    fn success(&self) -> bool {
        self.status == 0
    }
}

fn flush_logs(work: &mut Work, out: &mut Vec<u8>) {
    for line in work.logs.drain(..) {
        out.extend_from_slice(&line);
        out.push(b'\n');
    }
}

fn flush_db(fs: &MemFs, work: &mut Work, db: &mut Writer, db_path: &[u8]) {
    let records: Vec<_> = work.records.drain(..).collect();
    for (id, hash) in records {
        assert!(db.can_write_build(&work.graph, id));
        db.write_build(&work.graph, id, hash);
    }
    if !db.out.is_empty() {
        fs.append(db_path, &db.out);
        db.out.clear();
    }
}

fn run_work(
    fs: &MemFs,
    work: &mut Work,
    db: &mut Writer,
    db_path: &[u8],
    progress: &mut DumbConsoleProgress,
    parallelism: usize,
    out: &mut Vec<u8>,
) -> Result<Option<usize>, Vec<u8>> {
    let mut runner = Runner::new(parallelism);
    // Started tasks, run when the build waits: a task whose command waits
    // for a file runs once another task has made it.
    let mut started: VecDeque<(usize, BuildId)> = VecDeque::new();
    loop {
        let step = work.poll(fs, runner.can_start_more(), runner.is_running(), false);
        flush_logs(work, out);
        flush_db(fs, work, db, db_path);
        match step? {
            Step::Start(id) => {
                let build = work.graph.build(id);
                work.create_parent_dirs(fs, build.outs())?;
                if let Some(rsp) = &build.rspfile {
                    fs.create_dir_all(&parent_of(&rsp.path))?;
                    fs.put(&rsp.path, rsp.content.clone());
                }
                let tid = runner.start();
                out.extend_from_slice(&progress.task_started(id, build));
                started.push_back((tid, id));
            }
            Step::Continue => {}
            Step::Wait => {
                let pick = started
                    .iter()
                    .position(|&(_, id)| runnable(fs, work.graph.build(id).cmdline.as_ref().unwrap()))
                    .expect("every running task waits on another");
                let (tid, id) = started.remove(pick).unwrap();
                let build = work.graph.build(id);
                let mut output = Vec::new();
                let ok = shell(fs, build.cmdline.as_ref().unwrap(), &mut output);
                let termination = if ok { Termination::Success } else { Termination::Failure };
                let result = task_result(
                    fs,
                    termination,
                    output,
                    build.depfile.as_deref(),
                    build.parse_showincludes(),
                );
                let task = FinishedTask { tid, buildid: id, span: (0, 0), result };
                runner.finish(&task);
                let build = work.graph.build(task.buildid);
                out.extend_from_slice(&progress.task_finished(task.buildid, build, &task.result));
                let step = work.task_finished(fs, task.buildid, task.result);
                flush_logs(work, out);
                flush_db(fs, work, db, db_path);
                if let Step::Finished(None) = step? {
                    return Ok(None);
                }
            }
            Step::Finished(r) => return Ok(r),
        }
    }
}

fn load(fs: &MemFs, build_filename: &[u8], args: &BuildArgs, out: &mut Vec<u8>) -> Result<(Work, Writer, Vec<u8>, Vec<n2::graph::FileId>), Vec<u8>> {
    let mut state = n2::load::read(fs, build_filename)?;
    for w in &state.warnings {
        out.extend_from_slice(w);
        out.push(b'\n');
    }
    fs.append(&state.db_path, &state.db.out);
    state.db.out.clear();
    let work = Work::new(state.graph, state.hashes, &args.options, state.pools);
    Ok((work, state.db, state.db_path, state.default))
}

fn build(fs: &MemFs, args: &BuildArgs, out: &mut Vec<u8>) -> Result<Option<usize>, Vec<u8>> {
    let mut progress = DumbConsoleProgress::new(args.verbose);
    let parallelism = args.options.parallelism;
    let build_filename = args.build_filename.clone().unwrap_or(b"build.ninja".to_vec());
    let (mut work, mut db, mut db_path, mut default) = load(fs, &build_filename, args, out)?;
    let mut tasks_run = 0;

    // Attempt to rebuild build.ninja.
    let build_file_target = work.lookup(&build_filename);
    if let Some(target) = build_file_target {
        work.want_file(target)?;
        match run_work(fs, &mut work, &mut db, &db_path, &mut progress, parallelism, out)? {
            None => return Ok(None),
            Some(0) => {
                // build.ninja already up to date.
            }
            Some(n) => {
                // Regenerated build.ninja; start over.
                tasks_run = n;
                let loaded = load(fs, &build_filename, args, out)?;
                work = loaded.0;
                db = loaded.1;
                db_path = loaded.2;
                default = loaded.3;
            }
        }
    }

    let build_file_target = work.lookup(&build_filename);
    want_targets(&mut work, &args.targets, &default, build_file_target)?;
    match run_work(fs, &mut work, &mut db, &db_path, &mut progress, parallelism, out)? {
        None => Ok(None),
        Some(n) => Ok(Some(tasks_run + n)),
    }
}

fn run_impl(fs: &MemFs, argv: &[Vec<u8>], out: &mut Vec<u8>) -> Result<i32, Vec<u8>> {
    let argv = argv.to_vec();
    let mut args = match parse_args(&argv, out)? {
        Ok(a) => a,
        Err(exit) => return Ok(exit),
    };
    if args.options.parallelism == 0 {
        args.options.parallelism = 4;
    }
    let result = build(fs, &args, out)?;
    let (code, text) = summary(result);
    out.extend_from_slice(&text);
    Ok(code)
}

fn n2(fs: &MemFs, args: &[&str]) -> Output {
    let mut argv: Vec<Vec<u8>> = vec![b"n2".to_vec()];
    argv.extend(args.iter().map(|a| a.as_bytes().to_vec()));
    let mut out = Vec::new();
    fs.advance();
    let status = match run_impl(fs, &argv, &mut out) {
        Ok(code) => code,
        Err(err) => {
            out.extend_from_slice(b"n2: error: ");
            out.extend_from_slice(&err);
            out.push(b'\n');
            1
        }
    };
    Output { status, stdout: String::from_utf8_lossy(&out).into_owned() }
}

fn n2_expect(fs: &MemFs, args: &[&str]) -> Output {
    let out = n2(fs, args);
    if !out.success() {
        panic!("build failed, status {}:\n{}", out.status, out.stdout);
    }
    out
}

fn assert_output_contains(out: &Output, text: &str) {
    if !out.stdout.contains(text) {
        panic!("assertion failed; expected output to contain {:?} but got:\n{}", text, out.stdout);
    }
}

fn assert_output_not_contains(out: &Output, text: &str) {
    if out.stdout.contains(text) {
        panic!("assertion failed; expected output to not contain {:?} but got:\n{}", text, out.stdout);
    }
}

const TOUCH_RULE: &str = "
rule touch
  command = touch $out
  description = touch $out
";

const ECHO_RULE: &str = "
rule echo
  command = echo $text
  description = echo $out
";

// ---------------------------------------------------------------------------
// Basic builds.

#[test]
fn empty_file() {
    let space = MemFs::new();
    space.write("build.ninja", "");
    let out = n2(&space, &[]);
    assert_eq!(out.stdout, "n2: no work to do\n");
}

#[test]
fn basic_empty_file() {
    empty_file();
}

#[test]
fn basic_build() {
    let space = MemFs::new();
    space.write("build.ninja", &[TOUCH_RULE, "build out: touch in", ""].join("\n"));
    space.write("in", "");
    n2_expect(&space, &["out"]);
    assert!(space.read("out").is_some());
}

#[test]
fn basic_basic_build() {
    basic_build();
}

#[test]
fn create_subdir() {
    // Run a build rule that needs a subdir to be automatically created.
    let space = MemFs::new();
    space.write("build.ninja", &[TOUCH_RULE, "build subdir/out: touch in", ""].join("\n"));
    space.write("in", "");
    n2_expect(&space, &["subdir/out"]);
    assert!(space.read("subdir/out").is_some());
}

#[test]
fn basic_create_subdir() {
    create_subdir();
}

#[test]
fn generate_rsp_file() {
    let space = MemFs::new();
    space.write(
        "build.ninja",
        "
rule cat
  command = cat ${out}.rsp > ${out}
  rspfile = ${out}.rsp
  rspfile_content = 1 $in 2 $in_newline 3

rule litter
  command = cat make/me/${out}.rsp > ${out}
  rspfile = make/me/${out}.rsp
  rspfile_content = random stuff

rule touch
  command = touch $out

build main: cat foo bar baz in
build foo: litter bar
build bar: touch baz
build baz: touch in
",
    );
    space.write("in", "go!");

    n2_expect(&space, &["main"]);

    // The 'main' and 'foo' targets copy the contents of their rsp file to their
    // output.
    let main_rsp = space.read("main").unwrap();
    assert_eq!(main_rsp, b"1 foo bar baz in 2 foo\nbar\nbaz\nin 3");
    let foo_rsp = space.read("foo").unwrap();
    assert_eq!(foo_rsp, b"random stuff");

    // The 'make/me' directory was created when writing an rsp file.
    // It should still be there.
    assert!(space.is_dir(b"make/me"));

    // Run again: everything should be up to date.
    let out = n2_expect(&space, &["main"]);
    assert_output_contains(&out, "no work");
}

#[test]
fn basic_generate_rsp_file() {
    generate_rsp_file();
}

/// Run a task that prints something, and verify it shows up.
#[test]
fn spam_output() {
    let space = MemFs::new();
    space.write(
        "build.ninja",
        "
rule quiet
  description = quiet $out
  command = touch $out
rule spam
  description = spam $out
  command = echo greetz from $out && touch $out
build a: quiet
build b: spam a
build c: quiet b
",
    );
    let out = n2_expect(&space, &["c"]);
    assert_output_contains(
        &out,
        "quiet a
spam b
greetz from b
quiet c
",
    );
}

#[test]
fn basic_spam_output() {
    spam_output();
}

#[test]
fn basic_specify_build_file() {
    let space = MemFs::new();
    space.write("build_specified.ninja", &[TOUCH_RULE, "build out: touch in", ""].join("\n"));
    space.write("in", "");
    n2_expect(&space, &["-f", "build_specified.ninja", "out"]);
    assert!(space.read("out").is_some());
}

#[test]
fn specify_build_file() {
    let space = MemFs::new();
    space.write("build_specified.ninja", &[TOUCH_RULE, "build out: touch in", ""].join("\n"));
    space.write("in", "");
    n2_expect(&space, &["-f", "build_specified.ninja", "out"]);
    assert!(space.read("out").is_some());
}

/// Build with the same output listed multiple times.
#[test]
fn repeated_out() {
    let space = MemFs::new();
    space.write(
        "build.ninja",
        &[TOUCH_RULE, "build dup dup: touch in", "build out: touch dup", ""].join("\n"),
    );
    space.write("in", "");
    space.write("dup", "");
    let out = n2_expect(&space, &["out"]);
    assert_output_contains(&out, "is repeated in output list");
}

#[test]
fn basic_repeated_out() {
    repeated_out();
}

/// UTF-8 filename.
#[test]
fn utf8_filename() {
    let space = MemFs::new();
    space.write(
        "build.ninja",
        &[
            "
rule echo
  description = unicode variable: $in
  command = echo unicode command line: $in && touch $out
",
            "build out: echo reykjavík.md",
            "",
        ]
        .join("\n"),
    );
    space.write("reykjavík.md", "");
    let out = n2_expect(&space, &["out"]);
    assert_output_contains(&out, "unicode variable: reykjavík.md");
    assert_output_contains(&out, "unicode command line: reykjavík.md");
}

#[test]
fn basic_utf8_filename() {
    utf8_filename();
}

#[test]
fn explain() {
    let space = MemFs::new();
    space.write("build.ninja", &[TOUCH_RULE, "build out: touch in", ""].join("\n"));
    space.write("in", "");
    let out = n2_expect(&space, &["out"]);
    assert_output_contains(&out, "up to date");

    space.write("in", "");
    let out = n2_expect(&space, &["-d", "explain", "out"]);
    // The main "explain" log line:
    assert_output_contains(&out, "explain: build.ninja:6: manifest changed");
    // The dump of the file manifest after includes mtimes that we don't want
    // to be sensitive to, so just look for some bits we know show up there.
    assert_output_contains(&out, "discovered:");
}

#[test]
fn basic_explain() {
    explain();
}

/// A build step that writes to one of its inputs.
#[test]
fn write_to_input() {
    let touch_input_rule = "
rule touch_in
  description = touch out+in
  command = touch out in
";
    let space = MemFs::new();
    space.write("build.ninja", &[touch_input_rule, "build out: touch_in in", ""].join("\n"));
    space.write("in", "");

    let out = n2_expect(&space, &["out"]);
    assert_output_contains(&out, "ran 1 task");

    let out = n2_expect(&space, &["out"]);
    assert_output_contains(&out, "ran 1 task");
}

#[test]
fn showincludes() {
    let space = MemFs::new();
    space.write(
        "build.ninja",
        &[
            ECHO_RULE,
            "
build out: echo
  text = Note: including file: foo
  deps = msvc
",
        ]
        .join("\n"),
    );
    space.write("foo", "");

    let out = n2_expect(&space, &["out"]);
    assert_output_contains(&out, "ran 1 task");

    space.write("foo", "");
    let out = n2_expect(&space, &["out"]);
    assert_output_contains(&out, "ran 1 task");
}

#[test]
fn basic_eval_twice() {
    let space = MemFs::new();
    space.write(
        "build.ninja",
        &[
            TOUCH_RULE,
            "
var = 123
rule custom
  command = $cmd $var
build out: custom
  cmd = echo $var hello
",
        ]
        .join("\n"),
    );

    let out = n2_expect(&space, &["out"]);
    assert_output_contains(&out, "echo 123 hello 123");
}

#[test]
fn bindings_eval_twice() {
    let space = MemFs::new();
    space.write(
        "build.ninja",
        &[
            TOUCH_RULE,
            "
var = 123
rule custom
  command = $cmd $var
build out: custom
  cmd = echo $var hello
",
        ]
        .join("\n"),
    );

    let out = n2_expect(&space, &["out"]);
    assert_output_contains(&out, "echo 123 hello 123");
}

/// Phony depending on phony.
#[test]
fn phony_depends() {
    let space = MemFs::new();
    space.write(
        "build.ninja",
        &[
            TOUCH_RULE,
            "
build out1: touch
build out2: phony out1
build out3: phony out2
",
        ]
        .join("\n"),
    );
    n2_expect(&space, &["out3"]);
    assert!(space.read("out1").is_some());
}

/// builddir controls where .n2_db is written.
#[test]
fn builddir() {
    let space = MemFs::new();
    space.write("build.ninja", &["builddir = foo", TOUCH_RULE, "build $builddir/bar: touch", ""].join("\n"));
    n2_expect(&space, &["foo/bar"]);
    assert!(space.read("foo/.n2_db").is_some());
}

const BAD_RULE_VARIABLE: &str = "
rule my_rule
    command = touch $out
    my_var = foo

build out: my_rule
";

#[test]
fn basic_bad_rule_variable() {
    let space = MemFs::new();
    space.write("build.ninja", BAD_RULE_VARIABLE);
    let out = n2(&space, &["out"]);
    assert_output_contains(&out, "unexpected variable \"my_var\"");
}

#[test]
fn bindings_bad_rule_variable() {
    let space = MemFs::new();
    space.write("build.ninja", BAD_RULE_VARIABLE);
    let out = n2(&space, &["out"]);
    assert_output_contains(&out, "unexpected variable \"my_var\"");
}

const DEPS_EVALUATE_BUILD_BINDINGS: &str = "
rule touch
    command = touch $out
rule copy
    command = cp $in $out
build foo: copy ${my_dep}
    my_dep = bar
build bar: touch
";

#[test]
fn basic_deps_evaluate_build_bindings() {
    let space = MemFs::new();
    space.write("build.ninja", DEPS_EVALUATE_BUILD_BINDINGS);
    n2_expect(&space, &["foo"]);
    assert!(space.read("foo").is_some());
}

#[test]
fn bindings_deps_evaluate_build_bindings() {
    let space = MemFs::new();
    space.write("build.ninja", DEPS_EVALUATE_BUILD_BINDINGS);
    n2_expect(&space, &["foo"]);
    assert!(space.read("foo").is_some());
}

const LOOKS_UP_VALUES_FROM_BUILD: &str = "
rule copy_rspfile
    command = cp $out.rsp $out
    rspfile = $out.rsp

build foo: copy_rspfile
    rspfile_content = Hello, world!
";

#[test]
fn basic_looks_up_values_from_build() {
    let space = MemFs::new();
    space.write("build.ninja", LOOKS_UP_VALUES_FROM_BUILD);
    n2_expect(&space, &["foo"]);
    assert_eq!(space.read("foo").unwrap(), b"Hello, world!");
}

#[test]
fn bindings_looks_up_values_from_build() {
    let space = MemFs::new();
    space.write("build.ninja", LOOKS_UP_VALUES_FROM_BUILD);
    n2_expect(&space, &["foo"]);
    assert_eq!(space.read("foo").unwrap(), b"Hello, world!");
}

#[test]
fn looks_up_values_from_rule() {
    let space = MemFs::new();
    space.write(
        "build.ninja",
        "
rule copy_rspfile
    command = cp $rspfile $out
    rspfile = $out.rsp
    rspfile_content = Hello, world!

build foo: copy_rspfile
",
    );
    n2_expect(&space, &["foo"]);
    assert_eq!(space.read("foo").unwrap(), b"Hello, world!");
}

const BUILD_BINDINGS_ARENT_RECURSIVE: &str = "
rule write_file
    command = echo $my_var > $out

build foo: write_file
    my_var = Hello,$my_var_2 world!
    my_var_2 = my_var_2_value
";

#[test]
fn basic_build_bindings_arent_recursive() {
    let space = MemFs::new();
    space.write("build.ninja", BUILD_BINDINGS_ARENT_RECURSIVE);
    n2_expect(&space, &["foo"]);
    assert_eq!(space.read("foo").unwrap(), b"Hello, world!\n");
}

#[test]
fn bindings_build_bindings_arent_recursive() {
    let space = MemFs::new();
    space.write("build.ninja", BUILD_BINDINGS_ARENT_RECURSIVE);
    n2_expect(&space, &["foo"]);
    assert_eq!(space.read("foo").unwrap(), b"Hello, world!\n");
}

const EMPTY_VARIABLE_BINDING: &str = "
empty_var =

rule write_file
    command = echo $my_var > $out

build foo: write_file
    my_var = Hello,$empty_var world!
";

#[test]
fn basic_empty_variable_binding() {
    let space = MemFs::new();
    space.write("build.ninja", EMPTY_VARIABLE_BINDING);
    n2_expect(&space, &["foo"]);
    assert_eq!(space.read("foo").unwrap(), b"Hello, world!\n");
}

#[test]
fn bindings_empty_variable_binding() {
    let space = MemFs::new();
    space.write("build.ninja", EMPTY_VARIABLE_BINDING);
    n2_expect(&space, &["foo"]);
    assert_eq!(space.read("foo").unwrap(), b"Hello, world!\n");
}

const EMPTY_BUILD_VARIABLE: &str = "
rule write_file
    command = echo $my_var > $out

build foo: write_file
    empty =
    my_var = Hello, world!
";

#[test]
fn basic_empty_build_variable() {
    let space = MemFs::new();
    space.write("build.ninja", EMPTY_BUILD_VARIABLE);
    n2_expect(&space, &["foo"]);
    assert_eq!(space.read("foo").unwrap(), b"Hello, world!\n");
}

#[test]
fn bindings_empty_build_variable() {
    let space = MemFs::new();
    space.write("build.ninja", EMPTY_BUILD_VARIABLE);
    n2_expect(&space, &["foo"]);
    assert_eq!(space.read("foo").unwrap(), b"Hello, world!\n");
}

/// A variable in one file is visible in an included file.
#[test]
fn across_files() {
    let space = MemFs::new();
    space.write("world.txt", "<t>");
    space.write(
        "build.ninja",
        &[
            ECHO_RULE,
            "
ext = txt
include other.ninja
",
        ]
        .join("\n"),
    );
    space.write(
        "other.ninja",
        "
build hello: echo world.$ext
    text = what a beautiful day
",
    );

    let out = n2_expect(&space, &["hello"]);
    assert_output_contains(&out, "what a beautiful day");
}

// ---------------------------------------------------------------------------
// Directories, discovered dependencies, includes.

#[test]
fn dep_on_current_directory() {
    let space = MemFs::new();
    space.write(
        "build.ninja",
        "
rule list_files
    command = ls $in > $out

build out: list_files .
",
    );
    space.write("foo", "");

    let out = n2_expect(&space, &["-d", "explain", "out"]);
    assert_output_contains(&out, "ran 1 task");
    assert_eq!(space.read("out").unwrap(), b"build.ninja\nfoo\nout\n");

    let out = n2_expect(&space, &["-d", "explain", "out"]);
    assert_output_contains(&out, "no work to do");

    // Expect: writing a file modifies the current directory's mtime, triggering a build.
    space.write("foo2", "");
    let out = n2_expect(&space, &["-d", "explain", "out"]);
    assert_output_contains(&out, "ran 1 task");
    assert_eq!(space.read("out").unwrap(), b"build.ninja\nfoo\nfoo2\nout\n");
}

const GENDEP_RULE: &str = "
rule gendep
  description = gendep $out
  command = echo \"$dep_content\" > $out.d && touch $out
  depfile = $out.d
";

/// depfile contains invalid syntax.
#[test]
fn bad_depfile() {
    let space = MemFs::new();
    space.write(
        "build.ninja",
        &[
            GENDEP_RULE,
            "
build out: gendep
  dep_content = garbage text
",
            "",
        ]
        .join("\n"),
    );
    let out = n2(&space, &["out"]);
    assert_output_contains(&out, "parse error:");
}

/// depfile contains reference to missing file.
#[test]
fn depfile_missing_file() {
    let space = MemFs::new();
    space.write(
        "build.ninja",
        &[
            GENDEP_RULE,
            "
build out: gendep
  dep_content = out: missing_file
",
            "",
        ]
        .join("\n"),
    );
    let out = n2(&space, &["out"]);
    assert_output_contains(&out, "depfile references nonexistent missing_file");
}

/// depfile contains reference to existing order-only dep.
#[test]
fn discover_existing_dep() {
    let space = MemFs::new();
    space.write(
        "build.ninja",
        &[
            GENDEP_RULE,
            TOUCH_RULE,
            "build in: touch",
            "
build out: gendep || in
  dep_content = out: in
",
            "",
        ]
        .join("\n"),
    );
    let out = n2_expect(&space, &["out"]);
    assert_output_contains(&out, "ran 2 tasks");

    let out = n2_expect(&space, &["out"]);
    assert_output_contains(&out, "no work");

    // Even though out only has an order-only dep on 'in' in the build file,
    // we still should rebuild it due to the discovered dep on 'in'.
    space.write("in", "x");
    let out = n2_expect(&space, &["out"]);
    assert_output_contains(&out, "gendep out");
}

#[test]
fn multi_output_depfile() {
    let space = MemFs::new();
    space.write(
        "build.ninja",
        "
rule myrule
    command = echo \"out: foo\" > out.d && echo \"out2: foo2\" >> out.d && echo >> out.d && echo >> out.d && touch out out2
    depfile = out.d

build out out2: myrule
",
    );
    space.write("foo", "");
    space.write("foo2", "");

    let out = n2_expect(&space, &["out"]);
    assert_output_contains(&out, "ran 1 task");
    let out = n2_expect(&space, &["out"]);
    assert_output_contains(&out, "no work");
    space.write("foo", "x");
    let out = n2_expect(&space, &["out"]);
    assert_output_contains(&out, "ran 1 task");
    space.write("foo2", "x");
    let out = n2_expect(&space, &["out"]);
    assert_output_contains(&out, "ran 1 task");
    let out = n2_expect(&space, &["out"]);
    assert_output_contains(&out, "no work");
}

#[test]
fn escaped_newline_in_depfile() {
    let space = MemFs::new();
    space.write(
        "build.ninja",
        "
rule myrule
    command = echo \"out: foo \\\\\" > out.d && echo \"  foo2\" >> out.d && touch out
    depfile = out.d

build out: myrule
",
    );
    space.write("foo", "");
    space.write("foo2", "");

    let out = n2_expect(&space, &["out"]);
    assert_output_contains(&out, "ran 1 task");
    let out = n2_expect(&space, &["out"]);
    assert_output_contains(&out, "no work");
    space.write("foo", "x");
    let out = n2_expect(&space, &["out"]);
    assert_output_contains(&out, "ran 1 task");
    space.write("foo2", "x");
    let out = n2_expect(&space, &["out"]);
    assert_output_contains(&out, "ran 1 task");
    let out = n2_expect(&space, &["out"]);
    assert_output_contains(&out, "no work");
}

#[test]
fn include_creates_new_variable_with_dependency() {
    let space = MemFs::new();
    space.write(
        "build.ninja",
        "
rule write_file
    command = echo $contents > $out

a = foo
include included.ninja
build out: write_file
    contents = $b

",
    );
    space.write(
        "included.ninja",
        "
b = $a bar
",
    );
    n2_expect(&space, &["out"]);
    assert_eq!(space.read("out").unwrap(), b"foo bar\n");
}

#[test]
fn include_creates_edits_existing_variable() {
    let space = MemFs::new();
    space.write(
        "build.ninja",
        "
rule write_file
    command = echo $contents > $out

a = foo
include included.ninja
build out: write_file
    contents = $a

",
    );
    space.write(
        "included.ninja",
        "
a = $a bar
",
    );
    n2_expect(&space, &["out"]);
    assert_eq!(space.read("out").unwrap(), b"foo bar\n");
}

// ---------------------------------------------------------------------------
// Missing files.

#[test]
fn missing_input() {
    let space = MemFs::new();
    space.write("build.ninja", &[TOUCH_RULE, "build out: touch in", ""].join("\n"));
    let out = n2(&space, &["out"]);
    assert_output_contains(&out, "input in missing");
}

#[test]
fn missing_generated() {
    let space = MemFs::new();
    space.write(
        "build.ninja",
        &[
            TOUCH_RULE,
            ECHO_RULE,
            "build mid: echo",      // never writes output
            "build out: touch mid", // uses never-written output
            "",
        ]
        .join("\n"),
    );
    let out = n2_expect(&space, &["out"]);
    assert_output_contains(&out, "echo mid");
    assert_output_contains(&out, "touch out");
}

#[test]
fn missing_phony() {
    let space = MemFs::new();
    space.write(
        "build.ninja",
        &[
            TOUCH_RULE,
            "build order_only: phony",        // never writes output
            "build out: touch || order_only", // uses never-written output
            "",
        ]
        .join("\n"),
    );
    let out = n2_expect(&space, &["out"]);
    assert_output_contains(&out, "touch out");
}

#[test]
fn missing_phony_input() {
    let space = MemFs::new();
    space.write("build.ninja", &[TOUCH_RULE, "build out: phony || no_such_file", ""].join("\n"));
    let out = n2_expect(&space, &["out"]);
    assert_output_contains(&out, "no work to do");
}

#[test]
fn phony_missing_file() {
    let space = MemFs::new();
    space.write(
        "build.ninja",
        &[TOUCH_RULE, "build out: touch | phony_file", "build phony_file: phony", ""].join("\n"),
    );
    // Expect the first build to generate some state...
    let out = n2_expect(&space, &["out"]);
    assert_output_contains(&out, "ran 1 task");
    // ...and, as the program does, a second one runs it again.
    let out = n2_expect(&space, &["out"]);
    assert_output_contains(&out, "ran 1 task");
}

#[test]
fn phony_existing_file() {
    let space = MemFs::new();
    space.write(
        "build.ninja",
        &[TOUCH_RULE, "build out: touch | phony_file", "build phony_file: phony", ""].join("\n"),
    );
    // Despite being a target of a phony rule, the file exists on disk.
    space.write("phony_file", "");
    let out = n2_expect(&space, &["out"]);
    assert_output_contains(&out, "ran 1 task");
    // ...but a second one should be up to date.
    let out = n2_expect(&space, &["out"]);
    assert_output_contains(&out, "no work to do");
}

// ---------------------------------------------------------------------------
// Regenerating the build file.

#[test]
fn shared_regen_input() {
    let space = MemFs::new();
    let build_ninja = "
rule regen
  command = cp build.ninja.in build.ninja
  description = regenerating
  generator = 1
build build.ninja: regen | build.ninja.in sharedinput

rule touch
  command = touch out
build out: touch | sharedinput

build sharedinput: phony
";
    space.write("build.ninja.in", build_ninja);
    space.write("build.ninja", build_ninja);
    space.write("sharedinput", "");

    // Run: expect to regenerate because we don't know how the file was made.
    let out = n2_expect(&space, &["out"]);
    assert_output_contains(&out, "regenerating");
    assert_output_contains(&out, "ran 2 tasks");

    // Run: everything should be up to date.
    let out = n2_expect(&space, &["out"]);
    assert_output_not_contains(&out, "regenerating build.ninja");
    assert_output_contains(&out, "no work");
}

#[test]
fn generate_build_file_failure() {
    let space = MemFs::new();
    space.write(
        "build.ninja",
        &[
            TOUCH_RULE,
            "build out: touch",
            "
rule regen
  command = sh ./gen.sh
  generator = 1",
            "build build.ninja: regen gen.sh",
            "",
        ]
        .join("\n"),
    );
    space.write("gen.sh", "exit 1");

    // Run: regenerate and fail.
    let out = n2(&space, &["out"]);
    assert_output_contains(&out, "failed:");
}

/// Use "-t restat" to mark the build.ninja up to date ahead of time.
#[test]
fn restat() {
    let space = MemFs::new();
    space.write("build.ninja", &[TOUCH_RULE, "build build.ninja: touch in", ""].join("\n"));
    space.write("in", "");
    let out = n2_expect(
        &space,
        &["-d", "ninja_compat", "-t", "restat", "build.ninja", "path_that_does_not_exist"],
    );
    assert_output_not_contains(&out, "touch build.ninja");

    // Building the build file should do nothing, because restat marked it up to date.
    let out = n2_expect(&space, &["build.ninja"]);
    assert_output_not_contains(&out, "touch build.ninja");

    // But modifying the input should cause it to be up to date.
    space.write("in", "");
    let out = n2_expect(&space, &["build.ninja"]);
    assert_output_contains(&out, "touch build.ninja");
}

// ---------------------------------------------------------------------------
// Validations.

#[test]
fn basic_validation() {
    let space = MemFs::new();
    space.write(
        "build.ninja",
        &[TOUCH_RULE, "build my_validation: touch", "build out: touch |@ my_validation", ""].join("\n"),
    );
    n2_expect(&space, &["out"]);
    assert!(space.read("out").is_some());
    assert!(space.read("my_validation").is_some());
}

#[test]
fn build_fails_when_validation_fails() {
    let space = MemFs::new();
    space.write(
        "build.ninja",
        "
rule touch
  command = touch $out
rule fail
  command = exit 1
build out: touch |@ validation_input
build validation_input: fail
",
    );
    let output = n2(&space, &["out"]);
    assert!(!output.success());
}

#[test]
fn validation_inputs_break_cycles() {
    let space = MemFs::new();
    space.write(
        "build.ninja",
        &[TOUCH_RULE, "build out: touch |@ validation_input", "build validation_input: touch out", ""].join("\n"),
    );
    n2_expect(&space, &["out"]);
}

// ---------------------------------------------------------------------------
// Arguments and reports.

#[test]
fn reports_task_counts() {
    let space = MemFs::new();
    space.write("build.ninja", &[TOUCH_RULE, "build a: touch", "build b: touch a", ""].join("\n"));
    let out = n2_expect(&space, &["b"]);
    assert_eq!(out.stdout, "touch a\ntouch b\nn2: ran 2 tasks, now up to date\n");
    let out = n2_expect(&space, &["b"]);
    assert_eq!(out.stdout, "n2: no work to do\n");
}

#[test]
fn unknown_target_is_an_error() {
    let space = MemFs::new();
    space.write("build.ninja", &[TOUCH_RULE, "build a: touch", ""].join("\n"));
    let out = n2(&space, &["nope"]);
    assert_eq!(out.status, 1);
    assert_eq!(out.stdout, "n2: error: unknown path requested: \"nope\"\n");
}

#[test]
fn tool_lists_and_errors() {
    let space = MemFs::new();
    space.write("build.ninja", "");
    let out = n2(&space, &["-t", "list"]);
    assert_eq!(out.status, 1);
    assert!(out.stdout.starts_with("subcommands:\n"));
    let out = n2(&space, &["-t", "bogus"]);
    assert_eq!(out.stdout, "n2: error: unknown -t \"bogus\", use -t list to list\n");
    let out = n2(&space, &["-d", "list"]);
    assert_eq!(out.status, 1);
    assert!(out.stdout.starts_with("debug tools:\n"));
    let out = n2(&space, &["-d", "bogus"]);
    assert_eq!(out.stdout, "n2: error: unknown -d \"bogus\", use -d list to list\n");
}

#[test]
fn failing_task_reports_failure() {
    let space = MemFs::new();
    space.write("build.ninja", "rule fail\n  command = exit 1\nbuild out: fail\n");
    let out = n2(&space, &["out"]);
    assert_eq!(out.status, 1);
    assert_eq!(out.stdout, "exit 1\nfailed: exit 1\n");
}

#[test]
fn build_reads_back_database() {
    // What one run writes to the database, the next reads back: the hash
    // that makes the second run find nothing to do.
    let space = MemFs::new();
    space.write("build.ninja", &[TOUCH_RULE, "build out: touch in", ""].join("\n"));
    space.write("in", "");
    n2_expect(&space, &["out"]);
    let db = space.read(".n2_db").unwrap();
    assert!(db.starts_with(b"n2db"));
    let out = n2_expect(&space, &["out"]);
    assert_output_contains(&out, "no work to do");
}

/// A validation does not hold up the build it validates: here the
/// validation's command waits until the validated output exists.
#[test]
fn build_starts_before_validation_finishes() {
    let space = MemFs::new();
    space.write(
        "build.ninja",
        "
# Waits for the file $wait_for to exist, then touches $out.
rule build_slow
  command = until [ -f $wait_for ]; do sleep 0.1; done; touch $out

rule build_fast
  command = touch $out

build out: build_fast regular_input |@ validation_input
build regular_input: build_fast
build validation_input: build_slow
  wait_for = out
",
    );
    n2_expect(&space, &["out"]);
}

/// Load a build file and build one target with one task at a time.
#[test]
fn basic() {
    let fs = MemFs::new();
    fs.write(
        "build.ninja",
        "
rule touch
  command = touch $out
build out: touch in
",
    );
    fs.write("in", "");
    let mut args = BuildArgs::new(false);
    args.options.parallelism = 1;
    let mut out = Vec::new();
    fs.advance();
    let (mut work, mut db, db_path, _) = load(&fs, b"build.ninja", &args, &mut out).unwrap();
    let target = work.lookup(b"out").unwrap();
    work.want_file(target).unwrap();
    let mut progress = DumbConsoleProgress::new(false);
    let result = run_work(&fs, &mut work, &mut db, &db_path, &mut progress, 1, &mut out).unwrap();
    assert_eq!(result, Some(1));
}
