//! What a build task reports, and the processing of its output.
//! Running the commands themselves is left to the caller.
use vstd::prelude::*;
use vstd::string::StringSliceAdditionalSpecFns;
use crate::depfile::{self, DepEntries, deps_view, spec_parse};
use crate::fs::FileSystem;
use crate::scanner::{Scanner, format_parse_error, spec_format_parse_error};
use crate::text::{bytes_of, push_bytes, push_slice, copy_vec, push_decimal, spec_decimal};

verus! {

/// How a command ended.
#[derive(Clone, Copy, Debug, PartialEq, Eq, Structural)]
pub enum Termination {
    Success,
    Interrupted,
    Failure,
}

/// How a command that ran ended, from its exit status: whether it
/// succeeded, else the number of the signal that ended it, if one did
/// (`sigint` is the number of the interrupt signal); with the text to add
/// to its output.
pub fn exit_termination(success: bool, signal: Option<u32>, sigint: u32) -> (r: (Termination, Vec<u8>))
    ensures
        success ==> r.0 == Termination::Success && r.1@.len() == 0,
        !success && signal == Some(sigint) ==> r.0 == Termination::Interrupted && r.1@
            == "interrupted".spec_bytes(),
        !success && (signal matches Some(n) && n != sigint) ==> r.0 == Termination::Failure && r.1@
            == "signal ".spec_bytes() + spec_decimal(signal.unwrap() as nat),
        !success && signal is None ==> r.0 == Termination::Failure && r.1@.len() == 0,
{
    if success {
        return (Termination::Success, Vec::new());
    }
    match signal {
        Some(n) => {
            if n == sigint {
                (Termination::Interrupted, bytes_of("interrupted"))
            } else {
                let mut msg = bytes_of("signal ");
                push_decimal(&mut msg, n as usize);
                (Termination::Failure, msg)
            }
        },
        None => (Termination::Failure, Vec::new()),
    }
}

/// The result of running a build step.
pub struct TaskResult {
    pub termination: Termination,
    /// Console output.
    pub output: Vec<u8>,
    /// The dependencies the step reported, if it reports any.
    pub discovered_deps: Option<Vec<Vec<u8>>>,
}

pub open spec fn is_nl(c: u8) -> bool {
    c == 0x0d || c == 0x0a
}

/// The last position before `i` whose byte is not a line break, or -1.
pub open spec fn rpos_not_nl(buf: Seq<u8>, i: int) -> int
    decreases i,
{
    if i <= 0 {
        -1
    } else if !is_nl(buf[i - 1]) {
        i - 1
    } else {
        rpos_not_nl(buf, i - 1)
    }
}

/// The last position before `i` whose byte is a line break, or -1.
pub open spec fn rpos_nl(buf: Seq<u8>, i: int) -> int
    decreases i,
{
    if i <= 0 {
        -1
    } else if is_nl(buf[i - 1]) {
        i - 1
    } else {
        rpos_nl(buf, i - 1)
    }
}

/// The span of the last line of text in `buf`, ignoring trailing empty lines.
pub open spec fn spec_last_line(buf: Seq<u8>) -> (int, int) {
    let p = rpos_not_nl(buf, buf.len() as int);
    let end = if p >= 0 {
        p + 1
    } else {
        buf.len() as int
    };
    (rpos_nl(buf, end) + 1, end)
}

proof fn lemma_rpos(buf: Seq<u8>, i: int)
    requires
        0 <= i <= buf.len(),
    ensures
        -1 <= rpos_not_nl(buf, i) < i,
        -1 <= rpos_nl(buf, i) < i,
    decreases i,
{
    if i > 0 {
        lemma_rpos(buf, i - 1);
    }
}

/// Find the span of the last line of text in buf, ignoring trailing empty
/// lines.
pub fn find_last_line(buf: &[u8]) -> (r: &[u8])
    ensures
        r@ == buf@.subrange(spec_last_line(buf@).0, spec_last_line(buf@).1),
{
    proof {
        lemma_rpos(buf@, buf@.len() as int);
    }
    let mut i = buf.len();
    while i > 0 && is_nl_byte(buf[i - 1])
        invariant
            i <= buf@.len(),
            rpos_not_nl(buf@, buf@.len() as int) == rpos_not_nl(buf@, i as int),
        decreases i,
    {
        i = i - 1;
    }
    let end = if i > 0 {
        i
    } else {
        buf.len()
    };
    proof {
        lemma_rpos(buf@, end as int);
    }
    let mut j = end;
    while j > 0 && !is_nl_byte(buf[j - 1])
        invariant
            j <= end <= buf@.len(),
            rpos_nl(buf@, end as int) == rpos_nl(buf@, j as int),
        decreases j,
    {
        j = j - 1;
    }
    vstd::slice::slice_subrange(buf, j, end)
}

fn is_nl_byte(c: u8) -> (r: bool)
    ensures
        r == is_nl(c),
{
    c == 0x0du8 || c == 0x0au8
}

/// Position of the first `\n` at or after `i`, or the length.
pub open spec fn nl_from(s: Seq<u8>, i: int) -> int
    decreases s.len() - i,
{
    if i < 0 || i >= s.len() {
        s.len() as int
    } else if s[i] == 0x0a {
        i
    } else {
        nl_from(s, i + 1)
    }
}

/// The lines of `s` from position `i` on, after those in `acc`: split at
/// each `\n`, so the text after the last one is a line too, possibly empty.
pub open spec fn line_seq(s: Seq<u8>, i: int, acc: Seq<Seq<u8>>) -> Seq<Seq<u8>>
    decreases s.len() - i,
{
    if i < 0 || i > s.len() {
        acc
    } else {
        let e = nl_from(s, i);
        if i <= e < s.len() {
            line_seq(s, e + 1, acc.push(s.subrange(i, e)))
        } else {
            acc.push(s.subrange(i, s.len() as int))
        }
    }
}

proof fn lemma_nl_from(s: Seq<u8>, i: int)
    requires
        0 <= i <= s.len(),
    ensures
        i <= nl_from(s, i) <= s.len(),
        nl_from(s, i) < s.len() ==> s[nl_from(s, i)] == 0x0a,
        forall|j: int| i <= j < nl_from(s, i) ==> s[j] != 0x0a,
    decreases s.len() - i,
{
    if i < s.len() && s[i] != 0x0a {
        lemma_nl_from(s, i + 1);
    }
}

proof fn lemma_non_space_from(s: Seq<u8>, i: int)
    requires
        0 <= i <= s.len(),
    ensures
        i <= non_space_from(s, i) <= s.len(),
        non_space_from(s, i) < s.len() ==> s[non_space_from(s, i)] != 0x20,
    decreases s.len() - i,
{
    if i < s.len() && s[i] == 0x20 {
        lemma_non_space_from(s, i + 1);
    }
}

/// The prefix MSVC and clang-cl print before each included file.
pub open spec fn include_prefix() -> Seq<u8> {
    "Note: including file: ".spec_bytes()
}

/// Position of the first byte at or after `i` that is not a space, or the
/// length.
pub open spec fn non_space_from(s: Seq<u8>, i: int) -> int
    decreases s.len() - i,
{
    if i < 0 || i >= s.len() {
        s.len() as int
    } else if s[i] != 0x20 {
        i
    } else {
        non_space_from(s, i + 1)
    }
}

/// The file named on an include line, after the prefix: leading spaces and
/// a trailing `\r` dropped.
pub open spec fn include_name(rest: Seq<u8>) -> Seq<u8> {
    let n = non_space_from(rest, 0);
    let start = if n < rest.len() {
        n
    } else {
        0
    };
    let end = if rest.len() > 0 && rest.last() == 0x0d {
        rest.len() - 1
    } else {
        rest.len() as int
    };
    if start <= end {
        rest.subrange(start, end)
    } else {
        Seq::empty()
    }
}

/// The included files named on `lines`, and the other lines joined by `\n`
/// (with no separator before the first line written).
pub open spec fn showincludes(lines: Seq<Seq<u8>>) -> (Seq<Seq<u8>>, Seq<u8>)
    decreases lines.len(),
{
    if lines.len() == 0 {
        (Seq::empty(), Seq::empty())
    } else {
        let (inc, out) = showincludes(lines.drop_last());
        let line = lines.last();
        let p = include_prefix();
        if line.len() >= p.len() && line.subrange(0, p.len() as int) == p {
            (inc.push(include_name(line.subrange(p.len() as int, line.len() as int))), out)
        } else if out.len() == 0 {
            (inc, line)
        } else {
            (inc, out + seq![0x0au8] + line)
        }
    }
}

/// Parse some subcommand output to extract "Note: including file:" lines as
/// emitted by MSVC/clang-cl.
pub fn extract_showincludes(output: Vec<u8>) -> (r: (Vec<Vec<u8>>, Vec<u8>))
    ensures
        r.0@.map_values(|v: Vec<u8>| v@) == showincludes(line_seq(output@, 0, Seq::empty())).0,
        r.1@ == showincludes(line_seq(output@, 0, Seq::empty())).1,
{
    let s = output.as_slice();
    let ghost all = line_seq(s@, 0, Seq::empty());
    let ghost mut acc: Seq<Seq<u8>> = Seq::empty();
    let mut includes: Vec<Vec<u8>> = Vec::new();
    let mut filtered: Vec<u8> = Vec::new();
    let prefix = bytes_of("Note: including file: ");
    let mut i: usize = 0;
    assert(includes@.map_values(|v: Vec<u8>| v@) =~= Seq::<Seq<u8>>::empty());
    loop
        invariant_except_break
            line_seq(s@, i as int, acc) == all,
        invariant
            i <= s@.len(),
            all == line_seq(s@, 0, Seq::empty()),
            includes@.map_values(|v: Vec<u8>| v@) == showincludes(acc).0,
            filtered@ == showincludes(acc).1,
            prefix@ == include_prefix(),
        ensures
            acc == all,
        decreases s@.len() - i,
    {
        proof {
            lemma_nl_from(s@, i as int);
        }
        let mut e = i;
        while e < s.len() && s[e] != 0x0au8
            invariant
                i <= e <= s@.len(),
                nl_from(s@, i as int) == nl_from(s@, e as int),
            decreases s@.len() - e,
        {
            e = e + 1;
        }
        let line = vstd::slice::slice_subrange(s, i, e);
        let ghost (inc0, out0) = showincludes(acc);
        let ghost acc2 = acc.push(line@);
        assert(acc2.drop_last() =~= acc);
        assert(acc2.last() == line@);
        let p = prefix.as_slice();
        let is_include = line.len() >= p.len() && crate::text::bytes_eq(
            vstd::slice::slice_subrange(line, 0, p.len()),
            p,
        );
        if is_include {
            let rest = vstd::slice::slice_subrange(line, p.len(), line.len());
            proof {
                lemma_non_space_from(rest@, 0);
            }
            let mut st: usize = 0;
            while st < rest.len() && rest[st] == 0x20u8
                invariant
                    st <= rest@.len(),
                    non_space_from(rest@, 0) == non_space_from(rest@, st as int),
                decreases rest@.len() - st,
            {
                st = st + 1;
            }
            let start = if st < rest.len() {
                st
            } else {
                0
            };
            let end = if rest.len() > 0 && rest[rest.len() - 1] == 0x0du8 {
                rest.len() - 1
            } else {
                rest.len()
            };
            let mut name: Vec<u8> = Vec::new();
            if start <= end {
                push_slice(&mut name, vstd::slice::slice_subrange(rest, start, end));
            }
            assert(name@ =~= include_name(rest@));
            let ghost iv = includes@.map_values(|v: Vec<u8>| v@);
            includes.push(name);
            assert(includes@.map_values(|v: Vec<u8>| v@) =~= iv.push(include_name(rest@)));
        } else {
            if filtered.len() > 0 {
                filtered.push(0x0au8);
            }
            push_slice(&mut filtered, line);
            assert(filtered@ =~= showincludes(acc2).1);
        }
        let ghost old_acc = acc;
        proof {
            acc = acc2;
        }
        assert(line_seq(s@, i as int, old_acc) == if e < s.len() {
            line_seq(s@, e + 1, acc2)
        } else {
            acc2
        });
        if e < s.len() {
            i = e + 1;
        } else {
            break;
        }
    }
    (includes, filtered)
}

/// The dependencies listed in parsed depfile entries, target by target.
pub open spec fn all_deps(e: DepEntries) -> Seq<Seq<u8>>
    decreases e.len(),
{
    if e.len() == 0 {
        Seq::empty()
    } else {
        all_deps(e.drop_last()) + e.last().1
    }
}

/// What reading the depfile at `path` comes to, given what reading the file
/// gave: no dependencies for a missing file, the read error with the path,
/// the dependencies the file lists target by target, or the parse error
/// rendered with its line (the bare message where rendering would not fit in
/// memory).
pub open spec fn depfile_outcome(path: Seq<u8>, read: Result<Option<Vec<u8>>, Vec<u8>>) -> Result<
    Seq<Seq<u8>>,
    Seq<u8>,
> {
    match read {
        Err(e) => Err("read ".spec_bytes() + path + ": ".spec_bytes() + e@),
        Ok(None) => Ok(Seq::empty()),
        Ok(Some(b)) => {
            let buf = b@.push(0u8);
            match spec_parse(buf, 0) {
                Ok(e) => Ok(all_deps(e)),
                Err(err) => Err(
                    if b@.len() + path.len() + 129 < usize::MAX {
                        spec_format_parse_error(0, buf, path, err.1, err.0)
                    } else {
                        err.1
                    },
                ),
            }
        },
    }
}

/// Whether `r` is the outcome `o`, each list of paths and message taken by
/// its bytes.
pub open spec fn deps_result_is(o: Result<Seq<Seq<u8>>, Seq<u8>>, r: Result<Vec<Vec<u8>>, Vec<u8>>) -> bool {
    match o {
        Ok(d) => r matches Ok(v) && v@.map_values(|x: Vec<u8>| x@) == d,
        Err(e) => r matches Err(m) && m@ == e,
    }
}

/// Reads dependencies from a .d file path.  A missing file lists none.
/// What comes back is what `depfile_deps` makes of what reading the file
/// gave, which the file system decides.
pub fn read_depfile<F: FileSystem>(fs: &F, path: &[u8]) -> (r: Result<Vec<Vec<u8>>, Vec<u8>>)
    ensures
        exists|read: Result<Option<Vec<u8>>, Vec<u8>>|
            #![trigger depfile_outcome(path@, read)]
            deps_result_is(depfile_outcome(path@, read), r),
{
    let read = fs.read(path);
    let ghost rd = read;
    let r = depfile_deps(path, read);
    assert(deps_result_is(depfile_outcome(path@, rd), r));
    r
}

/// The dependencies of the depfile at `path`, given what reading it gave.
pub fn depfile_deps(path: &[u8], read: Result<Option<Vec<u8>>, Vec<u8>>) -> (r: Result<Vec<Vec<u8>>, Vec<u8>>)
    ensures
        deps_result_is(depfile_outcome(path@, read), r),
{
    let mut bytes = match read {
        Ok(Some(b)) => b,
        // See discussion of missing depfiles in #80.
        Ok(None) => {
            let v: Vec<Vec<u8>> = Vec::new();
            assert(v@.map_values(|x: Vec<u8>| x@) =~= Seq::<Seq<u8>>::empty());
            return Ok(v);
        },
        Err(e) => {
            let mut msg = bytes_of("read ");
            push_slice(&mut msg, path);
            push_bytes(&mut msg, ": ");
            push_slice(&mut msg, e.as_slice());
            return Err(msg);
        },
    };
    let ghost b0 = bytes@;
    bytes.push(0u8);
    let mut scanner = Scanner::new(bytes.as_slice(), 0);
    match depfile::parse(&mut scanner) {
        Err(err) => {
            if path.len() < usize::MAX - 129 && bytes.len() < usize::MAX - 128 - path.len() {
                Err(format_parse_error(0, bytes.as_slice(), path, err))
            } else {
                Err(err.msg)
            }
        },
        Ok(map) => {
            let ghost e = deps_view(map);
            proof {
                map.lemma_kv();
            }
            let ghost ents = map.entries();
            let entries = map.into_iter();
            let mut deps: Vec<Vec<u8>> = Vec::new();
            let mut k: usize = 0;
            assert(deps@.map_values(|v: Vec<u8>| v@) =~= Seq::<Seq<u8>>::empty());
            assert(e.take(0) =~= Seq::<(Seq<u8>, Seq<Seq<u8>>)>::empty());
            while k < entries.len()
                invariant
                    k <= entries@.len(),
                    entries@ == ents,
                    e.len() == entries@.len(),
                    forall|j: int| 0 <= j < e.len() ==> #[trigger] e[j].1 == entries@[j].1@.map_values(|x: Vec<u8>| x@),
                    deps@.map_values(|v: Vec<u8>| v@) == all_deps(e.take(k as int)),
                decreases entries@.len() - k,
            {
                let list = &entries[k].1;
                let ghost d0 = deps@.map_values(|v: Vec<u8>| v@);
                let mut j: usize = 0;
                assert(list@.take(0).map_values(|x: Vec<u8>| x@) =~= Seq::<Seq<u8>>::empty());
                assert(d0 + list@.take(0).map_values(|x: Vec<u8>| x@) =~= d0);
                while j < list.len()
                    invariant
                        j <= list@.len(),
                        deps@.map_values(|v: Vec<u8>| v@) == d0 + list@.take(j as int).map_values(|x: Vec<u8>| x@),
                    decreases list@.len() - j,
                {
                    let ghost dv = deps@.map_values(|v: Vec<u8>| v@);
                    deps.push(copy_vec(&list[j]));
                    assert(list@.take(j + 1).map_values(|x: Vec<u8>| x@) =~= list@.take(j as int).map_values(|x: Vec<u8>| x@).push(list@[j as int]@));
                    assert(deps@.map_values(|v: Vec<u8>| v@) =~= dv.push(list@[j as int]@));
                    j = j + 1;
                }
                assert(list@.take(j as int) =~= list@);
                assert(e.take(k + 1).drop_last() =~= e.take(k as int));
                assert(e.take(k + 1).last() == e[k as int]);
                k = k + 1;
            }
            assert(e.take(k as int) =~= e);
            Ok(deps)
        },
    }
}

/// Tracks faked "thread ids" -- integers assigned to build tasks to track
/// parallelism in perf trace output.
pub struct ThreadIds {
    /// An entry is true when claimed, false or nonexistent otherwise.
    pub slots: Vec<bool>,
}

/// The first unclaimed slot, or the number of slots.
pub open spec fn first_free(slots: Seq<bool>, i: int) -> int
    decreases slots.len() - i,
{
    if i < 0 || i >= slots.len() {
        slots.len() as int
    } else if !slots[i] {
        i
    } else {
        first_free(slots, i + 1)
    }
}

impl ThreadIds {
    pub fn new() -> (r: ThreadIds)
        ensures
            r.slots@.len() == 0,
    {
        ThreadIds { slots: Vec::new() }
    }

    /// Claims the lowest free slot, adding one when all are claimed.
    pub fn claim(&mut self) -> (r: usize)
        ensures
            r == first_free(old(self).slots@, 0),
            r < old(self).slots@.len() ==> final(self).slots@ == old(self).slots@.update(r as int, true),
            r == old(self).slots@.len() ==> final(self).slots@ == old(self).slots@.push(true),
    {
        let mut i: usize = 0;
        while i < self.slots.len()
            invariant
                i <= self.slots@.len(),
                self.slots@ == old(self).slots@,
                first_free(self.slots@, 0) == first_free(self.slots@, i as int),
            decreases self.slots@.len() - i,
        {
            if !self.slots[i] {
                self.slots.set(i, true);
                return i;
            }
            i = i + 1;
        }
        let idx = self.slots.len();
        self.slots.push(true);
        idx
    }

    pub fn release(&mut self, slot: usize)
        requires
            slot < old(self).slots@.len(),
        ensures
            final(self).slots@ == old(self).slots@.update(slot as int, false),
    {
        self.slots.set(slot, false);
    }
}

/// A build task that has finished.
pub struct FinishedTask {
    /// A (faked) "thread id", used to put different finished builds in different
    /// tracks in a performance trace.
    pub tid: usize,
    pub buildid: crate::graph::BuildId,
    /// When the task started and finished, in microseconds from the start
    /// of the build.
    pub span: (u64, u64),
    pub result: TaskResult,
}

/// The bookkeeping of running build tasks: how many run, the thread ids
/// they hold, and how many may run at once.  The caller runs the commands.
pub struct Runner {
    pub running: usize,
    pub tids: ThreadIds,
    pub parallelism: usize,
}

impl Runner {
    pub fn new(parallelism: usize) -> (r: Runner)
        ensures
            r.running == 0,
            r.tids.slots@.len() == 0,
            r.parallelism == parallelism,
    {
        Runner { running: 0, tids: ThreadIds::new(), parallelism }
    }

    pub fn can_start_more(&self) -> (r: bool)
        ensures
            r == (self.running < self.parallelism),
    {
        self.running < self.parallelism
    }

    pub fn is_running(&self) -> (r: bool)
        ensures
            r == (self.running > 0),
    {
        self.running > 0
    }

    /// A task starts: it takes the lowest free thread id, which is returned.
    pub fn start(&mut self) -> (tid: usize)
        requires
            old(self).running < usize::MAX,
        ensures
            tid == first_free(old(self).tids.slots@, 0),
            tid < old(self).tids.slots@.len() ==> final(self).tids.slots@ == old(self).tids.slots@.update(tid as int, true),
            tid == old(self).tids.slots@.len() ==> final(self).tids.slots@ == old(self).tids.slots@.push(true),
            final(self).running == old(self).running + 1,
            final(self).parallelism == old(self).parallelism,
    {
        let tid = self.tids.claim();
        self.running = self.running + 1;
        tid
    }

    /// A task finished: its thread id is free again.
    pub fn finish(&mut self, task: &FinishedTask)
        requires
            task.tid < old(self).tids.slots@.len(),
            old(self).running > 0,
        ensures
            final(self).tids.slots@ == old(self).tids.slots@.update(task.tid as int, false),
            final(self).running == old(self).running - 1,
            final(self).parallelism == old(self).parallelism,
    {
        self.tids.release(task.tid);
        self.running = self.running - 1;
    }
}

/// What a finished command amounts to, given how it ended and its output:
/// with `parse_showincludes`, the /showIncludes lines go from the output
/// into the dependencies; after a success, a depfile gives the
/// dependencies instead.  A depfile that cannot be read turns the task
/// into a failure whose output is the error.
pub fn task_result<F: FileSystem>(
    fs: &F,
    termination: Termination,
    output: Vec<u8>,
    depfile: Option<&[u8]>,
    parse_showincludes: bool,
) -> (r: TaskResult)
    ensures
        ({
            let sh = showincludes(line_seq(output@, 0, Seq::empty()));
            let out = if parse_showincludes { sh.1 } else { output@ };
            if termination == Termination::Success && depfile is Some {
                exists|read: Result<Option<Vec<u8>>, Vec<u8>>|
                    #![trigger depfile_outcome(depfile.unwrap()@, read)]
                    match depfile_outcome(depfile.unwrap()@, read) {
                        Ok(d) => r.termination == termination && r.output@ == out && (r.discovered_deps matches Some(
                            v,
                        ) && v@.map_values(|x: Vec<u8>| x@) == d),
                        Err(e) => r.termination == Termination::Failure && r.discovered_deps is None && r.output@
                            == e.push(0x0au8),
                    }
            } else {
                &&& r.termination == termination
                &&& r.output@ == out
                &&& if parse_showincludes {
                    r.discovered_deps matches Some(d) && d@.map_values(|v: Vec<u8>| v@) == sh.0
                } else {
                    r.discovered_deps is None
                }
            }
        }),
{
    let mut output = output;
    let mut discovered_deps: Option<Vec<Vec<u8>>> = None;
    if parse_showincludes {
        // Remove /showIncludes lines from output, regardless of success/fail.
        let (includes, filtered) = extract_showincludes(output);
        output = filtered;
        discovered_deps = Some(includes);
    }
    if termination == Termination::Success {
        match depfile {
            Some(path) => {
                let rd = read_depfile(fs, path);
                let ghost read = choose|read: Result<Option<Vec<u8>>, Vec<u8>>|
                    #![trigger depfile_outcome(path@, read)]
                    deps_result_is(depfile_outcome(path@, read), rd);
                assert(deps_result_is(depfile_outcome(path@, read), rd));
                match rd {
                    Ok(deps) => {
                        discovered_deps = Some(deps);
                    },
                    Err(e) => {
                        let mut msg = copy_vec(&e);
                        msg.push(0x0au8);
                        let r = TaskResult { termination: Termination::Failure, output: msg, discovered_deps: None };
                        assert(match depfile_outcome(path@, read) {
                            Ok(d) => false,
                            Err(e) => r.output@ == e.push(0x0au8),
                        });
                        return r;
                    },
                }
            },
            None => {},
        }
    }
    TaskResult { termination, output, discovered_deps }
}

} // verus!
