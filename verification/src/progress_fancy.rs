//! Build progress reporting for a "fancy" console, with progress bar etc.
//!
//! Each time it prints, it clears from the cursor to the end of the console,
//! prints the status text, and then moves moves the cursor back up to the
//! start position.  This means on errors etc. we can clear any status by
//! clearing the console too.  The caller owns the console, the clock and the
//! timer that decides when to print.
use vstd::prelude::*;
use vstd::string::StringSliceAdditionalSpecFns;
use crate::graph::{Build, BuildId};
use crate::progress::{build_message, has_message, spec_build_message};
use crate::task::{TaskResult, Termination};
use crate::text::{bytes_of, push_bytes, push_decimal, push_slice, spec_decimal, count_nl, no_nl, lemma_count_nl_concat, lemma_no_nl_count, lemma_decimal_no_nl};
use crate::work::{BuildState, StateCounts, state_slot};

verus! {

/// Position `i` of `s` starts a UTF-8 character or ends `s`.
pub open spec fn is_boundary(s: Seq<u8>, i: int) -> bool {
    i == 0 || i == s.len() || (0 < i < s.len() && (s[i] & 0xc0u8) != 0x80u8)
}

/// The largest character boundary of `s` at or below `m`.
pub open spec fn boundary_below(s: Seq<u8>, m: int) -> int
    decreases m,
{
    if m <= 0 {
        0
    } else if is_boundary(s, m) {
        m
    } else {
        boundary_below(s, m - 1)
    }
}

proof fn lemma_boundary_below(s: Seq<u8>, m: int)
    requires
        0 <= m,
    ensures
        0 <= boundary_below(s, m) <= m,
    decreases m,
{
    if m > 0 && !is_boundary(s, m) {
        lemma_boundary_below(s, m - 1);
    }
}

/// `s` cut to at most `max` bytes, at a character boundary.
pub open spec fn spec_truncate(s: Seq<u8>, max: int) -> Seq<u8> {
    if max >= s.len() {
        s
    } else {
        s.subrange(0, boundary_below(s, max))
    }
}

/// Cut `s` to at most `max` bytes without splitting a character.
pub fn truncate(s: &[u8], max: usize) -> (r: &[u8])
    ensures
        r@ == spec_truncate(s@, max as int),
{
    if max >= s.len() {
        return s;
    }
    let mut m = max;
    proof {
        lemma_boundary_below(s@, max as int);
    }
    while m > 0 && (s[m] & 0xc0u8) == 0x80u8
        invariant
            m <= max < s@.len(),
            boundary_below(s@, max as int) == boundary_below(s@, m as int),
        decreases m,
    {
        m = m - 1;
    }
    vstd::slice::slice_subrange(s, 0, m)
}

/// ` (Ns)` after a task that has run for more than two seconds.
/// (A width too small for the note leaves nothing of the message.)
pub open spec fn time_note(seconds: nat) -> Seq<u8> {
    if seconds > 2 {
        " (".spec_bytes() + spec_decimal(seconds) + "s)".spec_bytes()
    } else {
        Seq::empty()
    }
}

/// A task's status message with how long it has been running, cut to fit
/// within `max_cols` columns.
pub open spec fn spec_task_message(message: Seq<u8>, seconds: nat, max_cols: int) -> Seq<u8> {
    let note = time_note(seconds);
    if message.len() + note.len() >= max_cols {
        spec_truncate(message, max_cols - note.len() - 3) + "...".spec_bytes() + note
    } else {
        message + note
    }
}

/// Format a task's status message to optionally include how long it has been running
/// and also to fit within a maximum number of terminal columns.
pub fn task_message(message: &[u8], seconds: usize, max_cols: usize) -> (r: Vec<u8>)
    ensures
        r@ == spec_task_message(message@, seconds as nat, max_cols as int),
{
    let mut note: Vec<u8> = Vec::new();
    if seconds > 2 {
        push_bytes(&mut note, " (");
        push_decimal(&mut note, seconds);
        push_bytes(&mut note, "s)");
    }
    assert(note@ =~= time_note(seconds as nat));
    let mut out: Vec<u8> = Vec::new();
    if message.len() >= max_cols || note.len() >= max_cols - message.len() {
        let cut = if note.len() <= max_cols && max_cols - note.len() >= 3 {
            max_cols - note.len() - 3
        } else {
            0
        };
        assert(spec_truncate(message@, cut as int) == spec_truncate(message@, max_cols - note@.len() - 3));
        push_slice(&mut out, truncate(message, cut));
        push_bytes(&mut out, "...");
    } else {
        push_slice(&mut out, message);
    }
    push_slice(&mut out, note.as_slice());
    assert(out@ =~= spec_task_message(message@, seconds as nat, max_cols as int));
    out
}

/// The bar length after a segment of `count` builds, with `sum` builds
/// counted so far: its share of the bar, but at least one more tick for a
/// non-empty segment while there is room.
pub open spec fn bar_step(prev: int, sum: int, count: int, bar_size: int, total: int) -> int {
    let t = sum * bar_size / total;
    let t2 = if count > 0 && t == prev && t < bar_size {
        t + 1
    } else {
        t
    };
    if t2 > prev {
        t2
    } else {
        prev
    }
}

/// `n` copies of byte `c`.
pub open spec fn repeat(c: u8, n: int) -> Seq<u8> {
    Seq::new(if n > 0 {
        n as nat
    } else {
        0
    }, |i: int| c)
}

/// The ASCII progress bar for counts `c`: `=` for finished builds, `-` for
/// ready, queued and running ones, spaces for the rest.
pub open spec fn spec_progress_bar(c: Seq<usize>, bar_size: int) -> Seq<u8> {
    let total = c[0] + c[1] + c[2] + c[3] + c[4] + c[5];
    if total == 0 {
        repeat(0x20u8, bar_size)
    } else {
        let c0 = c[4] + c[5];
        let c1 = c[2] + c[3] + c[1];
        let c2 = c[0] as int;
        let l0 = bar_step(0, c0, c0, bar_size, total);
        let l1 = bar_step(l0, c0 + c1, c1, bar_size, total);
        let l2 = bar_step(l1, c0 + c1 + c2, c2, bar_size, total);
        repeat(0x3du8, l0) + repeat(0x2du8, l1 - l0) + repeat(0x20u8, l2 - l1)
    }
}

fn push_repeat(out: &mut Vec<u8>, c: u8, target: usize)
    ensures
        final(out)@ == old(out)@ + repeat(c, target - old(out)@.len()),
{
    let ghost o = out@;
    while out.len() < target
        invariant
            out@ == o + repeat(c, out@.len() - o.len()),
            out@.len() >= o.len(),
            out@.len() == o.len() || out@.len() <= target,
        decreases target - out@.len(),
    {
        out.push(c);
        assert(out@ =~= o + repeat(c, out@.len() - o.len()));
    }
    assert(out@ =~= o + repeat(c, target - o.len()));
}

/// Render a StateCounts as an ASCII progress bar.
pub fn progress_bar(counts: &StateCounts, bar_size: usize) -> (r: Vec<u8>)
    requires
        counts.0@[0] + counts.0@[1] + counts.0@[2] + counts.0@[3] + counts.0@[4] + counts.0@[5] <= usize::MAX,
        (counts.0@[0] + counts.0@[1] + counts.0@[2] + counts.0@[3] + counts.0@[4] + counts.0@[5]) * bar_size
            <= usize::MAX,
    ensures
        r@ == spec_progress_bar(counts.0@, bar_size as int),
{
    let total = counts.total();
    let mut bar: Vec<u8> = Vec::new();
    if total == 0 {
        push_repeat(&mut bar, 0x20u8, bar_size);
        assert(bar@ =~= repeat(0x20u8, bar_size as int));
        return bar;
    }
    let c0 = counts.get(BuildState::Done) + counts.get(BuildState::Failed);
    let c1 = counts.get(BuildState::Queued) + counts.get(BuildState::Running) + counts.get(BuildState::Ready);
    let c2 = counts.get(BuildState::Want);
    let segments = [(c0, 0x3du8), (c1, 0x2du8), (c2, 0x20u8)];
    let mut sum: usize = 0;
    let ghost s = counts.0@;
    let ghost l0 = bar_step(0, c0 as int, c0 as int, bar_size as int, total as int);
    let ghost l1 = bar_step(l0, c0 + c1, c1 as int, bar_size as int, total as int);
    let ghost l2 = bar_step(l1, c0 + c1 + c2, c2 as int, bar_size as int, total as int);
    let mut k: usize = 0;
    while k < 3
        invariant
            k <= 3,
            segments@ == seq![(c0, 0x3du8), (c1, 0x2du8), (c2, 0x20u8)],
            c0 + c1 + c2 == total,
            total > 0,
            total * bar_size <= usize::MAX,
            sum == if k == 0 {
                0
            } else if k == 1 {
                c0 as int
            } else if k == 2 {
                c0 + c1
            } else {
                c0 + c1 + c2
            },
            l0 == bar_step(0, c0 as int, c0 as int, bar_size as int, total as int),
            l1 == bar_step(l0, c0 + c1, c1 as int, bar_size as int, total as int),
            l2 == bar_step(l1, c0 + c1 + c2, c2 as int, bar_size as int, total as int),
            bar@ == if k == 0 {
                Seq::<u8>::empty()
            } else if k == 1 {
                repeat(0x3du8, l0)
            } else if k == 2 {
                repeat(0x3du8, l0) + repeat(0x2du8, l1 - l0)
            } else {
                repeat(0x3du8, l0) + repeat(0x2du8, l1 - l0) + repeat(0x20u8, l2 - l1)
            },
            bar@.len() == if k == 0 {
                0
            } else if k == 1 {
                l0
            } else if k == 2 {
                l1
            } else {
                l2
            },
            bar@.len() <= bar_size,
        decreases 3 - k,
    {
        let (count, ch) = segments[k];
        sum = sum + count;
        assert(sum * bar_size <= total * bar_size) by (nonlinear_arith)
            requires
                sum <= total,
        ;
        assert((sum * bar_size) as int / (total as int) <= bar_size) by (nonlinear_arith)
            requires
                sum <= total,
                total > 0,
        ;
        let mut target_size = sum * bar_size / total;
        if count > 0 && target_size == bar.len() && target_size < bar_size {
            // Special case: for non-zero count, ensure we always get at least
            // one tick.
            target_size = target_size + 1;
        }
        let ghost before = bar@;
        push_repeat(&mut bar, ch, target_size);
        proof {
            if k == 0 {
                assert(bar@ =~= repeat(0x3du8, l0));
            } else if k == 1 {
                assert(bar@ =~= repeat(0x3du8, l0) + repeat(0x2du8, l1 - l0));
            } else {
                assert(bar@ =~= repeat(0x3du8, l0) + repeat(0x2du8, l1 - l0) + repeat(0x20u8, l2 - l1));
            }
        }
        k = k + 1;
    }
    bar
}

/// Currently running build task, as tracked for progress updates.
pub struct Task {
    pub id: BuildId,
    /// When the task started running, in milliseconds of the caller's clock.
    pub start: u64,
    /// Build status message for the task.
    pub message: Vec<u8>,
    /// Last line of output from the task.
    pub last_line: Option<Vec<u8>>,
}

/// What the fancy console shows: text to print, the counts, and the tasks
/// running, oldest first.
pub struct FancyState {
    pub done: bool,
    /// Text to print on the next update.
    /// Typically starts with the "clear any existing progress bar" sequence.
    pub pending: Vec<u8>,
    /// True when there is new progress to display.
    pub dirty: bool,
    /// Counts of tasks in each state.
    pub counts: StateCounts,
    /// Build tasks that are currently executing.
    /// Pushed to as tasks are started, so it's always in order of age.
    pub tasks: Vec<Task>,
    /// Whether to print command lines of started programs.
    pub verbose: bool,
}

/// Position of the task of build `id` in `tasks`, or the number of tasks.
pub open spec fn task_pos(tasks: Seq<Task>, id: BuildId, i: int) -> int
    decreases tasks.len() - i,
{
    if i < 0 || i >= tasks.len() {
        tasks.len() as int
    } else if tasks[i].id == id {
        i
    } else {
        task_pos(tasks, id, i + 1)
    }
}

/// The text shown after a task ends: nothing for a silent success, else a
/// line naming the build, then its output, ending in a newline.
pub open spec fn finished_text(b: &Build, termination: Termination, output: Seq<u8>) -> Seq<u8> {
    if termination == Termination::Success && output.len() == 0 {
        Seq::empty()
    } else {
        let head = match termination {
            Termination::Success => spec_build_message(b),
            Termination::Interrupted => "interrupted: ".spec_bytes() + spec_build_message(b),
            Termination::Failure => "failed: ".spec_bytes() + spec_build_message(b),
        };
        head + seq![0x0au8] + output + if output.len() > 0 && output.last() == 0x0a {
            Seq::empty()
        } else {
            seq![0x0au8]
        }
    }
}

proof fn lemma_task_pos(tasks: Seq<Task>, id: BuildId, i: int)
    requires
        0 <= i <= tasks.len(),
    ensures
        i <= task_pos(tasks, id, i) <= tasks.len(),
        task_pos(tasks, id, i) < tasks.len() ==> tasks[task_pos(tasks, id, i)].id == id,
    decreases tasks.len() - i,
{
    if i < tasks.len() && tasks[i].id != id {
        lemma_task_pos(tasks, id, i + 1);
    }
}

/// How long a task has run, in whole seconds, at `now`.
pub open spec fn elapsed(t: Task, now: u64) -> nat {
    if now >= t.start {
        (((now - t.start) / 1000) as usize) as nat
    } else {
        0
    }
}

/// The lines shown for `tasks`, and how many there are.
pub open spec fn task_lines(tasks: Seq<Task>, now: u64, max_cols: int) -> (Seq<u8>, nat)
    decreases tasks.len(),
{
    if tasks.len() == 0 {
        (Seq::empty(), 0)
    } else {
        let (text, n) = task_lines(tasks.drop_last(), now, max_cols);
        let t = tasks.last();
        let first = spec_task_message(t.message@, elapsed(t, now), max_cols) + seq![0x0au8];
        match t.last_line {
            Some(line) => (text + first + "  ".spec_bytes() + spec_truncate(line@, max_cols - 2) + seq![0x0au8], n + 2),
            None => (text + first, n + 1),
        }
    }
}

/// The first status line: the bar, the counts, and the running tasks.
pub open spec fn status_head(c: Seq<usize>, ntasks: nat) -> Seq<u8> {
    let failed = c[5];
    let total = c[0] + c[1] + c[2] + c[3] + c[4] + c[5];
    "[".spec_bytes() + spec_progress_bar(c, 40) + "] ".spec_bytes() + spec_decimal((c[4] + failed) as nat)
        + "/".spec_bytes() + spec_decimal(total as nat) + " done, ".spec_bytes() + (if failed > 0 {
        spec_decimal(failed as nat) + " failed, ".spec_bytes()
    } else {
        Seq::empty()
    }) + spec_decimal(ntasks) + "/".spec_bytes() + spec_decimal((c[2] + c[3] + c[1]) as nat)
        + " running\n".spec_bytes()
}

/// How many tasks get lines of their own.
pub open spec fn shown_tasks(n: nat) -> int {
    if n < 8 {
        n as int
    } else {
        8
    }
}

/// The status display for counts `c` and running `tasks`: the head line,
/// up to eight tasks, a count of the others, and the move back up over
/// every line printed.
pub open spec fn status_text(c: Seq<usize>, tasks: Seq<Task>, now: u64, max_cols: int) -> Seq<u8> {
    let (lines_text, n) = task_lines(tasks.take(shown_tasks(tasks.len())), now, max_cols);
    let more = if tasks.len() > 8 {
        "...and ".spec_bytes() + spec_decimal((tasks.len() - 8) as nat) + " more\n".spec_bytes()
    } else {
        Seq::empty()
    };
    let nlines = 1 + n + if tasks.len() > 8 { 1nat } else { 0nat };
    status_head(c, tasks.len()) + lines_text + more + "\x1b[".spec_bytes() + spec_decimal(nlines) + "A".spec_bytes()
}

/// Append the first status line to `buf`.
#[verifier::rlimit(40)]
fn push_status_head(buf: &mut Vec<u8>, counts: &StateCounts, ntasks: usize)
    requires
        (counts.0@[0] + counts.0@[1] + counts.0@[2] + counts.0@[3] + counts.0@[4] + counts.0@[5]) * 40 <= usize::MAX,
    ensures
        final(buf)@ == old(buf)@ + status_head(counts.0@, ntasks as nat),
{
    let ghost start = buf@;
    let ghost c = counts.0@;
    proof {
        let t = c[0] + c[1] + c[2] + c[3] + c[4] + c[5];
        assert(t <= t * 40) by (nonlinear_arith)
            requires
                t >= 0,
        ;
    }
    let failed = counts.get(BuildState::Failed);
    push_bytes(buf, "[");
    let bar = progress_bar(counts, 40);
    push_slice(buf, bar.as_slice());
    push_bytes(buf, "] ");
    let ghost p1 = "[".spec_bytes() + spec_progress_bar(c, 40) + "] ".spec_bytes();
    assert(buf@ =~= start + p1);
    push_decimal(buf, counts.get(BuildState::Done) + failed);
    push_bytes(buf, "/");
    let ghost p2 = p1 + spec_decimal((c[4] + c[5]) as nat) + "/".spec_bytes();
    assert(buf@ =~= start + p2);
    push_decimal(buf, counts.total());
    push_bytes(buf, " done, ");
    let ghost p3 = p2 + spec_decimal((c[0] + c[1] + c[2] + c[3] + c[4] + c[5]) as nat) + " done, ".spec_bytes();
    assert(buf@ =~= start + p3);
    let ghost fpart = if failed > 0 {
        spec_decimal(c[5] as nat) + " failed, ".spec_bytes()
    } else {
        Seq::empty()
    };
    if failed > 0 {
        push_decimal(buf, failed);
        push_bytes(buf, " failed, ");
    }
    let ghost p4 = p3 + fpart;
    assert(buf@ =~= start + p4);
    push_decimal(buf, ntasks);
    push_bytes(buf, "/");
    let ghost p5 = p4 + spec_decimal(ntasks as nat) + "/".spec_bytes();
    assert(buf@ =~= start + p5);
    push_decimal(
        buf,
        counts.get(BuildState::Queued) + counts.get(BuildState::Running) + counts.get(BuildState::Ready),
    );
    push_bytes(buf, " running\n");
    let ghost p6 = p5 + spec_decimal((c[2] + c[3] + c[1]) as nat) + " running\n".spec_bytes();
    assert(buf@ =~= start + p6);
    assert(p6 == status_head(c, ntasks as nat));
}

/// Append the lines of the first `shown` tasks to `buf`; returns how many
/// lines that is.
fn push_task_lines(buf: &mut Vec<u8>, tasks: &Vec<Task>, shown: usize, now: u64, max_cols: usize) -> (lines: usize)
    requires
        shown <= 8,
        shown <= tasks@.len(),
        max_cols >= 2,
    ensures
        final(buf)@ == old(buf)@ + task_lines(tasks@.take(shown as int), now, max_cols as int).0,
        lines == task_lines(tasks@.take(shown as int), now, max_cols as int).1,
        lines <= 16,
{
    let ghost head = buf@;
    let mut lines: usize = 0;
    let mut k: usize = 0;
    assert(tasks@.take(0) =~= Seq::<Task>::empty());
    while k < shown
        invariant
            k <= shown <= 8,
            shown <= tasks@.len(),
            max_cols >= 2,
            buf@ == head + task_lines(tasks@.take(k as int), now, max_cols as int).0,
            lines == task_lines(tasks@.take(k as int), now, max_cols as int).1,
            lines <= 2 * k,
        decreases shown - k,
    {
        let task = &tasks[k];
        let delta: u64 = if now >= task.start {
            (now - task.start) / 1000
        } else {
            0
        };
        let ghost t = tasks@.take(k + 1);
        assert(t.drop_last() =~= tasks@.take(k as int));
        assert(t.last() == *task);
        let ghost prev = task_lines(tasks@.take(k as int), now, max_cols as int);
        let ghost first = spec_task_message(task.message@, elapsed(*task, now), max_cols as int) + seq![0x0au8];
        let msg = task_message(task.message.as_slice(), delta as usize, max_cols);
        push_slice(buf, msg.as_slice());
        buf.push(0x0au8);
        assert(buf@ =~= head + prev.0 + first);
        lines = lines + 1;
        match &task.last_line {
            Some(line) => {
                push_bytes(buf, "  ");
                push_slice(buf, truncate(line.as_slice(), max_cols - 2));
                buf.push(0x0au8);
                lines = lines + 1;
                assert(task_lines(t, now, max_cols as int) == (prev.0 + first + "  ".spec_bytes()
                    + spec_truncate(line@, max_cols - 2) + seq![0x0au8], prev.1 + 2));
            },
            None => {
                assert(task_lines(t, now, max_cols as int) == (prev.0 + first, prev.1 + 1));
            },
        }
        k = k + 1;
        assert(buf@ =~= head + task_lines(tasks@.take(k as int), now, max_cols as int).0);
    }
    lines
}

impl FancyState {
    pub fn new(verbose: bool) -> (r: FancyState)
        ensures
            !r.done,
            r.pending@.len() == 0,
            !r.dirty,
            r.tasks@.len() == 0,
            r.verbose == verbose,
    {
        FancyState {
            done: false,
            pending: Vec::new(),
            dirty: false,
            counts: StateCounts::new(),
            tasks: Vec::new(),
            verbose,
        }
    }

    pub fn update(&mut self, counts: &StateCounts)
        ensures
            final(self).counts.0@ == counts.0@,
            final(self).dirty,
            final(self).tasks == old(self).tasks,
            final(self).pending == old(self).pending,
    {
        self.counts = StateCounts(counts.0);
        self.dirty = true;
    }

    /// A task started at `now`.
    pub fn task_started(&mut self, id: BuildId, build: &Build, now: u64)
        requires
            build.cmdline is Some,
        ensures
            final(self).dirty,
            final(self).tasks@.len() == old(self).tasks@.len() + 1,
            final(self).tasks@.subrange(0, old(self).tasks@.len() as int) == old(self).tasks@,
            final(self).tasks@.last().id == id,
            final(self).tasks@.last().start == now,
            final(self).tasks@.last().message@ == spec_build_message(build),
            final(self).tasks@.last().last_line is None,
            final(self).pending@ == old(self).pending@ + if old(self).verbose {
                build.cmdline.unwrap()@ + seq![0x0au8]
            } else {
                Seq::empty()
            },
    {
        if self.verbose {
            push_slice(&mut self.pending, build.cmdline.as_ref().unwrap().as_slice());
            self.pending.push(0x0au8);
        }
        let mut message: Vec<u8> = Vec::new();
        push_slice(&mut message, build_message(build));
        self.tasks.push(Task { id, start: now, message, last_line: None });
        self.dirty = true;
    }

    fn find_task(&self, id: BuildId) -> (r: usize)
        ensures
            r == task_pos(self.tasks@, id, 0),
            r <= self.tasks@.len(),
    {
        let mut i: usize = 0;
        while i < self.tasks.len()
            invariant
                i <= self.tasks@.len(),
                task_pos(self.tasks@, id, 0) == task_pos(self.tasks@, id, i as int),
            decreases self.tasks@.len() - i,
        {
            if self.tasks[i].id == id {
                return i;
            }
            i = i + 1;
        }
        i
    }

    /// The last line of output of a task changed.
    pub fn task_output(&mut self, id: BuildId, line: Vec<u8>)
        ensures
            final(self).dirty,
            final(self).pending == old(self).pending,
            final(self).tasks@.len() == old(self).tasks@.len(),
            ({
                let p = task_pos(old(self).tasks@, id, 0);
                forall|k: int|
                    0 <= k < old(self).tasks@.len() ==> if k == p {
                        (#[trigger] final(self).tasks@[k]).id == id && final(self).tasks@[k].start == old(
                            self,
                        ).tasks@[k].start && final(self).tasks@[k].message == old(self).tasks@[k].message
                            && final(self).tasks@[k].last_line == Some(line)
                    } else {
                        final(self).tasks@[k] == old(self).tasks@[k]
                    }
            }),
    {
        let p = self.find_task(id);
        proof {
            lemma_task_pos(self.tasks@, id, 0);
        }
        if p < self.tasks.len() {
            let ghost o = self.tasks@;
            let mut t = self.tasks.remove(p);
            t.last_line = Some(line);
            let ghost t2 = t;
            self.tasks.insert(p, t);
            assert(self.tasks@ =~= o.update(p as int, t2));
        }
        self.dirty = true;
    }

    /// A task ended; note its build and output.
    pub fn task_finished(&mut self, id: BuildId, build: &Build, result: &TaskResult)
        requires
            has_message(build),
        ensures
            final(self).tasks@ == if task_pos(old(self).tasks@, id, 0) < old(self).tasks@.len() {
                old(self).tasks@.remove(task_pos(old(self).tasks@, id, 0))
            } else {
                old(self).tasks@
            },
            final(self).pending@ == old(self).pending@ + finished_text(build, result.termination, result.output@),
    {
        let p = self.find_task(id);
        if p < self.tasks.len() {
            self.tasks.remove(p);
        }
        // Show task name, status, and output.
        let ghost p0 = self.pending@;
        match result.termination {
            Termination::Success => {
                if result.output.len() == 0 {
                    // Common case: don't show anything.
                    return;
                }
                push_slice(&mut self.pending, build_message(build));
            },
            Termination::Interrupted => {
                push_bytes(&mut self.pending, "interrupted: ");
                push_slice(&mut self.pending, build_message(build));
            },
            Termination::Failure => {
                push_bytes(&mut self.pending, "failed: ");
                push_slice(&mut self.pending, build_message(build));
            },
        }
        self.pending.push(0x0au8);
        push_slice(&mut self.pending, result.output.as_slice());
        let n = result.output.len();
        if !(n > 0 && result.output[n - 1] == 0x0au8) {
            self.pending.push(0x0au8);
        }
        assert(self.pending@ =~= p0 + finished_text(build, result.termination, result.output@));
        self.dirty = true;
    }

    /// Log a line of output without corrupting the progress display.
    pub fn log(&mut self, msg: &[u8])
        ensures
            final(self).pending@ == old(self).pending@ + msg@ + seq![0x0au8],
            final(self).dirty,
            final(self).tasks == old(self).tasks,
    {
        push_slice(&mut self.pending, msg);
        self.pending.push(0x0au8);
        self.dirty = true;
    }

    /// Renders the status: any pending text, the progress line, up to
    /// eight running tasks with their last output line, and a cursor move
    /// back up to the first line.  Returns the text to print; afterwards the
    /// pending text clears the status before anything else is printed.
    #[verifier::rlimit(60)]
    pub fn print_progress(&mut self, now: u64, max_cols: usize) -> (r: Vec<u8>)
        requires
            (old(self).counts.0@[0] + old(self).counts.0@[1] + old(self).counts.0@[2] + old(self).counts.0@[3]
                + old(self).counts.0@[4] + old(self).counts.0@[5]) * 40 <= usize::MAX,
            max_cols >= 2,
        ensures
            r@ == old(self).pending@ + status_text(old(self).counts.0@, old(self).tasks@, now, max_cols as int),
            final(self).pending@ == "\r\x1b[J".spec_bytes(),
            !final(self).dirty,
            final(self).tasks == old(self).tasks,
            final(self).counts == old(self).counts,
    {
        let mut buf: Vec<u8> = Vec::new();
        push_slice(&mut buf, self.pending.as_slice());
        push_status_head(&mut buf, &self.counts, self.tasks.len());
        let ghost p0 = self.pending@ + status_head(self.counts.0@, self.tasks@.len());
        let max_tasks: usize = 8;
        let shown = if self.tasks.len() < max_tasks {
            self.tasks.len()
        } else {
            max_tasks
        };
        let task_count = push_task_lines(&mut buf, &self.tasks, shown, now, max_cols);
        let ghost tl = task_lines(self.tasks@.take(shown as int), now, max_cols as int);
        let ghost p1 = p0 + tl.0;
        assert(buf@ =~= p1);
        let mut lines: usize = 1 + task_count;
        let ghost more = if self.tasks@.len() > 8 {
            "...and ".spec_bytes() + spec_decimal((self.tasks@.len() - 8) as nat) + " more\n".spec_bytes()
        } else {
            Seq::empty()
        };
        if self.tasks.len() > max_tasks {
            let remaining = self.tasks.len() - max_tasks;
            push_bytes(&mut buf, "...and ");
            push_decimal(&mut buf, remaining);
            push_bytes(&mut buf, " more\n");
            lines = lines + 1;
        }
        let ghost p2 = p1 + more;
        assert(buf@ =~= p2);
        // Move cursor up to the first printed line, for overprinting.
        push_bytes(&mut buf, "\x1b[");
        push_decimal(&mut buf, lines);
        push_bytes(&mut buf, "A");
        let ghost p3 = p2 + "\x1b[".spec_bytes() + spec_decimal(lines as nat) + "A".spec_bytes();
        assert(buf@ =~= p3);
        proof {
            let st = status_head(self.counts.0@, self.tasks@.len());
            let nl = "\x1b[".spec_bytes() + spec_decimal(lines as nat) + "A".spec_bytes();
            assert(status_text(self.counts.0@, self.tasks@, now, max_cols as int) == st + tl.0 + more + "\x1b[".spec_bytes() + spec_decimal(lines as nat) + "A".spec_bytes());
            assert(p3 =~= self.pending@ + status_text(self.counts.0@, self.tasks@, now, max_cols as int));
        }
        // Set up buf for next print.
        // If the user hit ctl-c, it may have printed something on the line.
        // So \r to go to first column first, then clear anything below.
        self.pending = bytes_of("\r\x1b[J");
        self.dirty = false;
        buf
    }

    pub fn cleanup(&mut self)
        ensures
            final(self).done,
            final(self).dirty,
            final(self).pending == old(self).pending,
    {
        self.done = true;
        self.dirty = true;
    }
}

proof fn lemma_status_literals()
    ensures
        no_nl("[".spec_bytes()),
        no_nl("] ".spec_bytes()),
        no_nl("/".spec_bytes()),
        no_nl(" done, ".spec_bytes()),
        no_nl(" failed, ".spec_bytes()),
        no_nl("...and ".spec_bytes()),
        no_nl("  ".spec_bytes()),
        no_nl("...".spec_bytes()),
        no_nl(" (".spec_bytes()),
        no_nl("s)".spec_bytes()),
        no_nl("\x1b[".spec_bytes()),
        no_nl("A".spec_bytes()),
        count_nl(" running\n".spec_bytes()) == 1,
        count_nl(" more\n".spec_bytes()) == 1,
{
    reveal_strlit("[");
    reveal_strlit("] ");
    reveal_strlit("/");
    reveal_strlit(" done, ");
    reveal_strlit(" failed, ");
    reveal_strlit("...and ");
    reveal_strlit("  ");
    reveal_strlit("...");
    reveal_strlit(" (");
    reveal_strlit("s)");
    reveal_strlit("\x1b[");
    reveal_strlit("A");
    reveal_strlit(" running\n");
    reveal_strlit(" more\n");
    assert(vstd::string::is_ascii("["));
    assert(vstd::string::is_ascii("] "));
    assert(vstd::string::is_ascii("/"));
    assert(vstd::string::is_ascii(" done, "));
    assert(vstd::string::is_ascii(" failed, "));
    assert(vstd::string::is_ascii("...and "));
    assert(vstd::string::is_ascii("  "));
    assert(vstd::string::is_ascii("..."));
    assert(vstd::string::is_ascii(" ("));
    assert(vstd::string::is_ascii("s)"));
    assert(vstd::string::is_ascii("\x1b["));
    assert(vstd::string::is_ascii("A"));
    assert(vstd::string::is_ascii(" running\n"));
    assert(vstd::string::is_ascii(" more\n"));
    vstd::string::is_ascii_spec_bytes("[");
    vstd::string::is_ascii_spec_bytes("] ");
    vstd::string::is_ascii_spec_bytes("/");
    vstd::string::is_ascii_spec_bytes(" done, ");
    vstd::string::is_ascii_spec_bytes(" failed, ");
    vstd::string::is_ascii_spec_bytes("...and ");
    vstd::string::is_ascii_spec_bytes("  ");
    vstd::string::is_ascii_spec_bytes("...");
    vstd::string::is_ascii_spec_bytes(" (");
    vstd::string::is_ascii_spec_bytes("s)");
    vstd::string::is_ascii_spec_bytes("\x1b[");
    vstd::string::is_ascii_spec_bytes("A");
    vstd::string::is_ascii_spec_bytes(" running\n");
    vstd::string::is_ascii_spec_bytes(" more\n");
    let t = " running\n".spec_bytes();
    assert(no_nl(t.drop_last()));
    lemma_no_nl_count(t.drop_last());
    let t = " more\n".spec_bytes();
    assert(no_nl(t.drop_last()));
    lemma_no_nl_count(t.drop_last());
}

proof fn lemma_repeat_no_nl(c: u8, n: int)
    requires
        c != 0x0a,
    ensures
        no_nl(repeat(c, n)),
{
}

proof fn lemma_bar_no_nl(c: Seq<usize>, bar_size: int)
    ensures
        no_nl(spec_progress_bar(c, bar_size)),
{
    let total = c[0] + c[1] + c[2] + c[3] + c[4] + c[5];
    if total != 0 {
        let c0 = c[4] + c[5];
        let c1 = c[2] + c[3] + c[1];
        let c2 = c[0] as int;
        let l0 = bar_step(0, c0, c0, bar_size, total);
        let l1 = bar_step(l0, c0 + c1, c1, bar_size, total);
        let l2 = bar_step(l1, c0 + c1 + c2, c2, bar_size, total);
        let a = repeat(0x3du8, l0);
        let b = repeat(0x2du8, l1 - l0);
        let d = repeat(0x20u8, l2 - l1);
        assert forall|i: int| 0 <= i < (a + b + d).len() implies (a + b + d)[i] != 0x0a by {
            if i < a.len() {
            } else if i < a.len() + b.len() {
                assert((a + b + d)[i] == b[i - a.len()]);
            } else {
                assert((a + b + d)[i] == d[i - a.len() - b.len()]);
            }
        }
    }
}

proof fn lemma_truncate_no_nl(s: Seq<u8>, max: int)
    requires
        no_nl(s),
    ensures
        no_nl(spec_truncate(s, max)),
{
    if max < s.len() {
        if max >= 0 {
            lemma_boundary_below(s, max);
        }
    }
}

proof fn lemma_concat_no_nl(a: Seq<u8>, b: Seq<u8>)
    requires
        no_nl(a),
        no_nl(b),
    ensures
        no_nl(a + b),
{
    assert forall|i: int| 0 <= i < (a + b).len() implies (a + b)[i] != 0x0a by {
        if i >= a.len() {
            assert((a + b)[i] == b[i - a.len()]);
        }
    }
}

proof fn lemma_task_message_no_nl(message: Seq<u8>, seconds: nat, max_cols: int)
    requires
        no_nl(message),
    ensures
        no_nl(spec_task_message(message, seconds, max_cols)),
{
    lemma_status_literals();
    let note = time_note(seconds);
    lemma_decimal_no_nl(seconds);
    if seconds > 2 {
        lemma_concat_no_nl(" (".spec_bytes(), spec_decimal(seconds));
        lemma_concat_no_nl(" (".spec_bytes() + spec_decimal(seconds), "s)".spec_bytes());
    }
    assert(no_nl(note));
    if message.len() + note.len() >= max_cols {
        let t = spec_truncate(message, max_cols - note.len() - 3);
        lemma_truncate_no_nl(message, max_cols - note.len() - 3);
        lemma_concat_no_nl(t, "...".spec_bytes());
        lemma_concat_no_nl(t + "...".spec_bytes(), note);
    } else {
        lemma_concat_no_nl(message, note);
    }
}

/// Every running task's message and last line of output hold no `\n`.
pub open spec fn tasks_single_line(tasks: Seq<Task>) -> bool {
    forall|i: int|
        0 <= i < tasks.len() ==> no_nl((#[trigger] tasks[i]).message@) && (tasks[i].last_line matches Some(l) ==> no_nl(
            l@,
        ))
}

proof fn lemma_task_lines_count(tasks: Seq<Task>, now: u64, max_cols: int)
    requires
        tasks_single_line(tasks),
    ensures
        count_nl(task_lines(tasks, now, max_cols).0) == task_lines(tasks, now, max_cols).1,
    decreases tasks.len(),
{
    if tasks.len() > 0 {
        let rest = tasks.drop_last();
        assert(tasks_single_line(rest)) by {
            assert forall|i: int| 0 <= i < rest.len() implies no_nl((#[trigger] rest[i]).message@) && (
            rest[i].last_line matches Some(l) ==> no_nl(l@)) by {
                assert(rest[i] == tasks[i]);
            }
        }
        lemma_task_lines_count(rest, now, max_cols);
        let (text, n) = task_lines(rest, now, max_cols);
        let t = tasks.last();
        assert(t == tasks[tasks.len() - 1]);
        let m = spec_task_message(t.message@, elapsed(t, now), max_cols);
        lemma_task_message_no_nl(t.message@, elapsed(t, now), max_cols);
        lemma_no_nl_count(m);
        let first = m + seq![0x0au8];
        lemma_count_nl_concat(m, seq![0x0au8]);
        assert(count_nl(seq![0x0au8]) == 1) by {
            let one = seq![0x0au8];
            assert(one.drop_last() =~= Seq::<u8>::empty());
            assert(count_nl(one.drop_last()) == 0);
            assert(one.last() == 0x0a);
        }
        lemma_count_nl_concat(text, first);
        match t.last_line {
            Some(line) => {
                lemma_status_literals();
                let tl = spec_truncate(line@, max_cols - 2);
                lemma_truncate_no_nl(line@, max_cols - 2);
                lemma_concat_no_nl("  ".spec_bytes(), tl);
                lemma_no_nl_count("  ".spec_bytes() + tl);
                lemma_count_nl_concat("  ".spec_bytes() + tl, seq![0x0au8]);
                lemma_count_nl_concat(text + first, "  ".spec_bytes() + tl + seq![0x0au8]);
                assert(text + first + "  ".spec_bytes() + tl + seq![0x0au8] =~= (text + first) + ("  ".spec_bytes()
                    + tl + seq![0x0au8]));
            },
            None => {},
        }
    }
}

/// The status ends by moving the cursor up over exactly the lines it
/// printed, so that the next status overprints it, provided no task's
/// message or last line of output holds a line break.
pub proof fn law_status_cursor_returns(c: Seq<usize>, tasks: Seq<Task>, now: u64, max_cols: int)
    requires
        c.len() == 6,
        tasks_single_line(tasks),
    ensures
        ({
            let shown = task_lines(tasks.take(shown_tasks(tasks.len())), now, max_cols);
            let lines = 1 + shown.1 + if tasks.len() > 8 { 1nat } else { 0nat };
            let more = if tasks.len() > 8 {
                "...and ".spec_bytes() + spec_decimal((tasks.len() - 8) as nat) + " more\n".spec_bytes()
            } else {
                Seq::empty()
            };
            &&& status_text(c, tasks, now, max_cols) == status_head(c, tasks.len()) + shown.0 + more
                + "\x1b[".spec_bytes() + spec_decimal(lines) + "A".spec_bytes()
            &&& count_nl(status_head(c, tasks.len()) + shown.0 + more) == lines
        }),
{
    lemma_status_literals();
    let k = shown_tasks(tasks.len());
    let shown_seq = tasks.take(k);
    assert(tasks_single_line(shown_seq)) by {
        assert forall|i: int| 0 <= i < shown_seq.len() implies no_nl((#[trigger] shown_seq[i]).message@) && (
        shown_seq[i].last_line matches Some(l) ==> no_nl(l@)) by {
            assert(shown_seq[i] == tasks[i]);
        }
    }
    lemma_task_lines_count(shown_seq, now, max_cols);
    let shown = task_lines(shown_seq, now, max_cols);
    // The head line.
    let failed = c[5];
    let total = c[0] + c[1] + c[2] + c[3] + c[4] + c[5];
    lemma_bar_no_nl(c, 40);
    lemma_decimal_no_nl((c[4] + failed) as nat);
    lemma_decimal_no_nl(total as nat);
    lemma_decimal_no_nl(failed as nat);
    lemma_decimal_no_nl(tasks.len());
    lemma_decimal_no_nl((c[2] + c[3] + c[1]) as nat);
    let fpart = if failed > 0 {
        spec_decimal(failed as nat) + " failed, ".spec_bytes()
    } else {
        Seq::empty()
    };
    if failed > 0 {
        lemma_concat_no_nl(spec_decimal(failed as nat), " failed, ".spec_bytes());
    }
    let h0 = "[".spec_bytes() + spec_progress_bar(c, 40) + "] ".spec_bytes() + spec_decimal((c[4] + failed) as nat)
        + "/".spec_bytes() + spec_decimal(total as nat) + " done, ".spec_bytes() + fpart + spec_decimal(tasks.len())
        + "/".spec_bytes() + spec_decimal((c[2] + c[3] + c[1]) as nat);
    lemma_concat_no_nl("[".spec_bytes(), spec_progress_bar(c, 40));
    lemma_concat_no_nl("[".spec_bytes() + spec_progress_bar(c, 40), "] ".spec_bytes());
    let h1 = "[".spec_bytes() + spec_progress_bar(c, 40) + "] ".spec_bytes();
    lemma_concat_no_nl(h1, spec_decimal((c[4] + failed) as nat));
    let h2 = h1 + spec_decimal((c[4] + failed) as nat);
    lemma_concat_no_nl(h2, "/".spec_bytes());
    let h3 = h2 + "/".spec_bytes();
    lemma_concat_no_nl(h3, spec_decimal(total as nat));
    let h4 = h3 + spec_decimal(total as nat);
    lemma_concat_no_nl(h4, " done, ".spec_bytes());
    let h5 = h4 + " done, ".spec_bytes();
    lemma_concat_no_nl(h5, fpart);
    let h6 = h5 + fpart;
    lemma_concat_no_nl(h6, spec_decimal(tasks.len()));
    let h7 = h6 + spec_decimal(tasks.len());
    lemma_concat_no_nl(h7, "/".spec_bytes());
    let h8 = h7 + "/".spec_bytes();
    lemma_concat_no_nl(h8, spec_decimal((c[2] + c[3] + c[1]) as nat));
    assert(h0 == h8 + spec_decimal((c[2] + c[3] + c[1]) as nat));
    lemma_no_nl_count(h0);
    lemma_count_nl_concat(h0, " running\n".spec_bytes());
    assert(status_head(c, tasks.len()) == h0 + " running\n".spec_bytes());
    // The lines after it.
    let more = if tasks.len() > 8 {
        "...and ".spec_bytes() + spec_decimal((tasks.len() - 8) as nat) + " more\n".spec_bytes()
    } else {
        Seq::empty()
    };
    if tasks.len() > 8 {
        lemma_decimal_no_nl((tasks.len() - 8) as nat);
        lemma_concat_no_nl("...and ".spec_bytes(), spec_decimal((tasks.len() - 8) as nat));
        lemma_no_nl_count("...and ".spec_bytes() + spec_decimal((tasks.len() - 8) as nat));
        lemma_count_nl_concat("...and ".spec_bytes() + spec_decimal((tasks.len() - 8) as nat), " more\n".spec_bytes());
    } else {
        assert(count_nl(more) == 0);
    }
    lemma_count_nl_concat(status_head(c, tasks.len()), shown.0);
    lemma_count_nl_concat(status_head(c, tasks.len()) + shown.0, more);
}

/// A truncated text is a prefix of the text, at most `max` long, that
/// ends on a character boundary.
pub proof fn law_truncate(s: Seq<u8>, max: int)
    requires
        max >= 0,
    ensures
        max < s.len() ==> spec_truncate(s, max).len() <= max,
        max >= s.len() ==> spec_truncate(s, max) == s,
        spec_truncate(s, max) == s.subrange(0, spec_truncate(s, max).len() as int),
        is_boundary(s, spec_truncate(s, max).len() as int),
{
    if max < s.len() {
        lemma_boundary_below(s, max);
        lemma_boundary_below_is(s, max);
    } else {
        assert(s.subrange(0, s.len() as int) =~= s);
    }
}

proof fn lemma_boundary_below_is(s: Seq<u8>, m: int)
    requires
        0 <= m,
    ensures
        is_boundary(s, boundary_below(s, m)),
    decreases m,
{
    if m > 0 && !is_boundary(s, m) {
        lemma_boundary_below_is(s, m - 1);
    }
}

/// A task's status line fits within `max_cols` columns when they have room
/// for the time note and the ellipsis.
pub proof fn law_task_message_fits(message: Seq<u8>, seconds: nat, max_cols: int)
    requires
        max_cols >= time_note(seconds).len() + 3,
    ensures
        spec_task_message(message, seconds, max_cols).len() <= max_cols,
{
    let note = time_note(seconds);
    if message.len() + note.len() >= max_cols {
        let m = max_cols - note.len() - 3;
        law_truncate(message, m);
        reveal_strlit("...");
        assert(vstd::string::is_ascii("..."));
        vstd::string::is_ascii_spec_bytes("...");
        assert("...".spec_bytes().len() == 3);
        let t = spec_truncate(message, m);
        if m >= message.len() {
            assert(false);
        }
        assert(t.len() <= m);
        assert(spec_task_message(message, seconds, max_cols) == t + "...".spec_bytes() + note);
    }
}

/// The progress bar always covers all build steps: it is exactly
/// `bar_size` wide.
pub proof fn law_progress_bar_width(c: Seq<usize>, bar_size: int)
    requires
        c.len() == 6,
        bar_size >= 0,
    ensures
        spec_progress_bar(c, bar_size).len() == bar_size,
{
    let total = c[0] + c[1] + c[2] + c[3] + c[4] + c[5];
    if total > 0 {
        let c0 = c[4] + c[5];
        let c1 = c[2] + c[3] + c[1];
        let c2 = c[0] as int;
        let l0 = bar_step(0, c0, c0, bar_size, total);
        let l1 = bar_step(l0, c0 + c1, c1, bar_size, total);
        let l2 = bar_step(l1, c0 + c1 + c2, c2, bar_size, total);
        lemma_bar_step(0, c0, c0, bar_size, total);
        lemma_bar_step(l0, c0 + c1, c1, bar_size, total);
        lemma_bar_step(l1, c0 + c1 + c2, c2, bar_size, total);
        assert((c0 + c1 + c2) * bar_size / total == bar_size) by (nonlinear_arith)
            requires
                c0 + c1 + c2 == total,
                total > 0,
        ;
    }
}

proof fn lemma_bar_step(prev: int, sum: int, count: int, bar_size: int, total: int)
    requires
        0 <= prev <= bar_size,
        0 <= sum <= total,
        total > 0,
        bar_size >= 0,
    ensures
        prev <= bar_step(prev, sum, count, bar_size, total) <= bar_size,
{
    assert(sum * bar_size / total <= bar_size) by (nonlinear_arith)
        requires
            0 <= sum <= total,
            total > 0,
            bar_size >= 0,
    ;
}

} // verus!
