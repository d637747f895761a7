//! Build runner, choosing and executing tasks as determined by out of date inputs.
use vstd::prelude::*;
use vstd::string::StringSliceAdditionalSpecFns;
use std::collections::VecDeque;
use crate::densemap::DenseMap;
use crate::graph::{Build, BuildId, FileId, FileState, Graph, Hashes, MTime, build_ok, ids_below, spec_loc_text, contains_id};
use crate::hash::{BuildHash, hash_build, explain_hash_build, hashable, manifest, all_stamped, dirtying};
use crate::fs::FileSystem;
use crate::task::{TaskResult, Termination};
use std::collections::hash_map::DefaultHasher;
use vstd::std_specs::hash::DefaultHasherAdditionalSpecFns;
use crate::smallmap::{SmallMap, find_key, lemma_find_key};
use crate::text::{bytes_eq, bytes_of, push_bytes, push_slice};

verus! {

/// Build steps go through this sequence of states.
/// See "Build states" in the design notes.
#[derive(Clone, Copy, Debug, PartialEq, Eq, Structural)]
pub enum BuildState {
    /// Default initial state, for Builds unneeded by the current build.
    Unknown,
    /// Builds we want to ensure are up to date, but which aren't ready yet.
    Want,
    /// Builds whose dependencies are up to date and are ready to be
    /// checked.  This is purely a function of whether all builds before
    /// it have have run, and is independent of any file state.
    Ready,
    /// Builds who have been determined not up to date and which are ready
    /// to be executed.
    Queued,
    /// Currently executing.
    Running,
    /// Finished executing successfully.
    Done,
    /// Finished executing but failed.
    Failed,
}

/// The counter slot of a state other than `Unknown`.
pub open spec fn state_slot(s: BuildState) -> int {
    match s {
        BuildState::Unknown => -1,
        BuildState::Want => 0,
        BuildState::Ready => 1,
        BuildState::Queued => 2,
        BuildState::Running => 3,
        BuildState::Done => 4,
        BuildState::Failed => 5,
    }
}

/// How many of the positions `0..n` satisfy `p`.
pub open spec fn count_where(n: int, p: spec_fn(int) -> bool) -> nat
    decreases n,
{
    if n <= 0 {
        0
    } else {
        count_where(n - 1, p) + if p(n - 1) {
            1nat
        } else {
            0nat
        }
    }
}

/// A position that fails `p` is not counted.
pub proof fn lemma_count_lt(n: int, p: spec_fn(int) -> bool, i: int)
    requires
        0 <= i < n,
        !p(i),
    ensures
        count_where(n, p) < n,
    decreases n,
{
    if n - 1 > i {
        lemma_count_lt(n - 1, p, i);
    } else {
        lemma_count_le(n - 1, p);
    }
}

/// Counting a predicate that implies another counts no more.
pub proof fn lemma_count_mono(n: int, p: spec_fn(int) -> bool, q: spec_fn(int) -> bool)
    requires
        forall|j: int| 0 <= j < n && #[trigger] p(j) ==> q(j),
    ensures
        count_where(n, p) <= count_where(n, q),
    decreases n,
{
    if n > 0 {
        lemma_count_mono(n - 1, p, q);
    }
}

/// Nothing is counted when nothing satisfies `p`.
pub proof fn lemma_count_none(n: int, p: spec_fn(int) -> bool)
    requires
        forall|j: int| 0 <= j < n ==> !#[trigger] p(j),
    ensures
        count_where(n, p) == 0,
    decreases n,
{
    if n > 0 {
        lemma_count_none(n - 1, p);
    }
}

pub proof fn lemma_count_le(n: int, p: spec_fn(int) -> bool)
    requires
        n >= 0,
    ensures
        count_where(n, p) <= n,
    decreases n,
{
    if n > 0 {
        lemma_count_le(n - 1, p);
    }
}

/// Changing the predicate at one position changes the count by at most one,
/// as that position says.
pub proof fn lemma_count_update(n: int, p: spec_fn(int) -> bool, q: spec_fn(int) -> bool, i: int)
    requires
        0 <= i < n,
        forall|j: int| 0 <= j < n && j != i ==> #[trigger] p(j) == q(j),
    ensures
        count_where(n, q) + (if p(i) {
            1int
        } else {
            0int
        }) == count_where(n, p) + (if q(i) {
            1int
        } else {
            0int
        }),
    decreases n,
{
    if n - 1 > i {
        lemma_count_update(n - 1, p, q, i);
    } else {
        lemma_count_same(n - 1, p, q);
    }
}

/// Predicates that agree on `0..n` count the same.
pub proof fn lemma_count_same(n: int, p: spec_fn(int) -> bool, q: spec_fn(int) -> bool)
    requires
        forall|j: int| 0 <= j < n ==> #[trigger] p(j) == q(j),
    ensures
        count_where(n, q) == count_where(n, p),
    decreases n,
{
    if n > 0 {
        lemma_count_same(n - 1, p, q);
    }
}

/// A position that satisfies `p` is counted.
pub proof fn lemma_count_pos(n: int, p: spec_fn(int) -> bool, i: int)
    requires
        0 <= i < n,
        p(i),
    ensures
        count_where(n, p) >= 1,
    decreases n,
{
    if n - 1 > i {
        lemma_count_pos(n - 1, p, i);
    }
}

/// Counters that track builds in each state, excluding phony builds.
/// This is only for display to the user and should not be used as a source of
/// truth for tracking progress.
/// Only covers builds not in the "unknown" state, which means it's only builds
/// that are considered part of the current build.
#[derive(Clone, Copy)]
pub struct StateCounts(pub [usize; 6]);

impl StateCounts {
    pub fn new() -> (r: StateCounts)
        ensures
            forall|k: int| 0 <= k < 6 ==> r.0@[k] == 0,
    {
        StateCounts([0usize; 6])
    }

    fn idx(state: BuildState) -> (r: usize)
        requires
            state != BuildState::Unknown,
        ensures
            r == state_slot(state),
    {
        match state {
            BuildState::Unknown => 0,
            BuildState::Want => 0,
            BuildState::Ready => 1,
            BuildState::Queued => 2,
            BuildState::Running => 3,
            BuildState::Done => 4,
            BuildState::Failed => 5,
        }
    }

    pub fn add(&mut self, state: BuildState, delta: isize)
        requires
            state != BuildState::Unknown,
            0 <= old(self).0@[state_slot(state)] + delta <= usize::MAX,
        ensures
            final(self).0@ == old(self).0@.update(
                state_slot(state),
                (old(self).0@[state_slot(state)] + delta) as usize,
            ),
    {
        let i = StateCounts::idx(state);
        if delta >= 0 {
            self.0[i] = self.0[i] + (delta as usize);
        } else {
            let d: usize = (0isize - (delta + 1)) as usize + 1;
            self.0[i] = self.0[i] - d;
        }
    }

    pub fn get(&self, state: BuildState) -> (r: usize)
        requires
            state != BuildState::Unknown,
        ensures
            r == self.0@[state_slot(state)],
    {
        self.0[StateCounts::idx(state)]
    }

    pub fn total(&self) -> (r: usize)
        requires
            self.0@[0] + self.0@[1] + self.0@[2] + self.0@[3] + self.0@[4] + self.0@[5] <= usize::MAX,
        ensures
            r == self.0@[0] + self.0@[1] + self.0@[2] + self.0@[3] + self.0@[4] + self.0@[5],
    {
        self.0[0] + self.0[1] + self.0[2] + self.0[3] + self.0[4] + self.0[5]
    }
}

/// Pools gather collections of running builds.
/// Each running build is running "in" a pool; there's a default unbounded
/// pool for builds that don't specify one.
pub struct PoolState {
    /// A queue of builds that are ready to be executed in this pool.
    pub queued: VecDeque<BuildId>,
    /// The number of builds currently running in this pool.
    pub running: usize,
    /// The total depth of the pool.  0 means unbounded.
    pub depth: usize,
}

impl PoolState {
    pub fn new(depth: usize) -> (r: PoolState)
        ensures
            r.queued@.len() == 0,
            r.running == 0,
            r.depth == depth,
    {
        PoolState { queued: VecDeque::new(), running: 0, depth }
    }
}

/// The name of the pool a build runs in; the unnamed pool when it names none.
pub open spec fn pool_key(b: &Build) -> Seq<u8> {
    match b.pool {
        Some(p) => p@,
        None => Seq::empty(),
    }
}

/// Position of the first of `keys` equal to `k`, at or after `i`, or the
/// number of keys.
pub open spec fn key_index(keys: Seq<Seq<u8>>, k: Seq<u8>, i: int) -> int
    decreases keys.len() - i,
{
    if i < 0 || i >= keys.len() {
        keys.len() as int
    } else if keys[i] == k {
        i
    } else {
        key_index(keys, k, i + 1)
    }
}

pub proof fn lemma_key_index(keys: Seq<Seq<u8>>, k: Seq<u8>, i: int)
    requires
        0 <= i <= keys.len(),
    ensures
        i <= key_index(keys, k, i) <= keys.len(),
        key_index(keys, k, i) < keys.len() ==> keys[key_index(keys, k, i)] == k,
        forall|j: int| i <= j < key_index(keys, k, i) ==> keys[j] != k,
    decreases keys.len() - i,
{
    if i < keys.len() && keys[i] != k {
        lemma_key_index(keys, k, i + 1);
    }
}

/// Builds counted in state `s`: those in it that are not phony.
pub open spec fn counted_in(states: Seq<BuildState>, g: Graph, s: BuildState) -> spec_fn(int) -> bool {
    |i: int| states[i] == s && g.builds.view()[i].cmdline is Some
}

/// Builds not wanted (yet) by the current build.
pub open spec fn unknown_in(states: Seq<BuildState>) -> spec_fn(int) -> bool {
    |i: int| states[i] == BuildState::Unknown
}

/// `b` is `a` with some builds moved from unknown to wanted or ready.
pub open spec fn only_wanted(a: Seq<BuildState>, b: Seq<BuildState>) -> bool {
    &&& a.len() == b.len()
    &&& forall|x: int|
        0 <= x < a.len() ==> #[trigger] b[x] == a[x] || (a[x] == BuildState::Unknown && (b[x]
            == BuildState::Want || b[x] == BuildState::Ready))
}

/// The build that generates file `f`, if any, is wanted in `sts`.
pub open spec fn file_wanted(g: Graph, sts: Seq<BuildState>, f: int) -> bool {
    match g.files.view()[f].input {
        Some(b) => sts[b.0 as int] != BuildState::Unknown,
        None => true,
    }
}

/// File `b` is needed before the build that generates file `a`.
pub open spec fn edge(g: Graph, a: FileId, b: FileId) -> bool {
    match g.files.view()[a.0 as int].input {
        Some(bid) => {
            let bb = g.builds.view()[bid.0 as int];
            bb.ins.ids@.subrange(0, bb.ins.explicit + bb.ins.implicit + bb.ins.order_only).contains(b)
        },
        None => false,
    }
}

/// The error `e` reports the cycle met along the search path `stack + ext`:
/// the path comes back to its file at `p`, and `e` names the files from
/// there on, that file again last.
pub open spec fn search_cycle(g: Graph, stack: Seq<FileId>, ext: Seq<FileId>, p: int, e: Seq<u8>) -> bool {
    let sp = stack + ext;
    &&& 0 <= p < sp.len()
    &&& is_path(g, sp.push(sp[p]))
    &&& e == cycle_msg(g, sp.subrange(p, sp.len() as int).push(sp[p]))
}

/// File `f` is a validation input of some build of `g`.
pub open spec fn is_validation(g: Graph, f: FileId) -> bool {
    exists|b: int, k: int|
        0 <= b < g.build_count() && g.builds.view()[b].ins.explicit + g.builds.view()[b].ins.implicit
            + g.builds.view()[b].ins.order_only <= k < g.builds.view()[b].ins.ids@.len()
            && #[trigger] g.builds.view()[b].ins.ids@[k] == f
}

/// The error `e` reports the cycle met along a search that starts afresh at
/// a validation input.
pub open spec fn validation_cycle(g: Graph, e: Seq<u8>) -> bool {
    exists|ext: Seq<FileId>, p: int|
        #[trigger] search_cycle(g, Seq::empty(), ext, p, e) && ext.len() > 0 && is_validation(g, ext[0])
}

/// Each file of `s` is needed by the build of the file before it.
pub open spec fn is_path(g: Graph, s: Seq<FileId>) -> bool {
    forall|t: int| 0 <= t < s.len() - 1 ==> edge(g, #[trigger] s[t], s[t + 1])
}

/// A path that comes back to where it started.
pub open spec fn is_cycle(g: Graph, c: Seq<FileId>) -> bool {
    &&& c.len() >= 2
    &&& is_path(g, c)
    &&& c[0] == c[c.len() - 1]
}

/// The names of `c` joined by ` -> `.
pub open spec fn arrow_names(g: Graph, c: Seq<FileId>) -> Seq<u8>
    decreases c.len(),
{
    if c.len() == 0 {
        Seq::empty()
    } else if c.len() == 1 {
        g.name_of(c[0].0 as int)
    } else {
        arrow_names(g, c.drop_last()) + " -> ".spec_bytes() + g.name_of(c.last().0 as int)
    }
}

/// Each name of `s` followed by ` -> `.
pub open spec fn arrow_prefix(g: Graph, s: Seq<FileId>) -> Seq<u8>
    decreases s.len(),
{
    if s.len() == 0 {
        Seq::empty()
    } else {
        arrow_prefix(g, s.drop_last()) + g.name_of(s.last().0 as int) + " -> ".spec_bytes()
    }
}

pub proof fn lemma_arrow_prefix(g: Graph, s: Seq<FileId>, x: FileId)
    ensures
        arrow_prefix(g, s) + g.name_of(x.0 as int) == arrow_names(g, s.push(x)),
    decreases s.len(),
{
    if s.len() == 0 {
        assert(arrow_prefix(g, s) + g.name_of(x.0 as int) =~= g.name_of(x.0 as int));
        assert(s.push(x)[0] == x);
    } else {
        lemma_arrow_prefix(g, s.drop_last(), s.last());
        assert(s.drop_last().push(s.last()) =~= s);
        assert(s.push(x).drop_last() =~= s);
        assert(arrow_prefix(g, s) + g.name_of(x.0 as int) =~= arrow_names(g, s) + " -> ".spec_bytes()
            + g.name_of(x.0 as int));
    }
}

/// The error for dependency cycle `c`.
pub open spec fn cycle_msg(g: Graph, c: Seq<FileId>) -> Seq<u8> {
    "dependency cycle: ".spec_bytes() + arrow_names(g, c)
}

/// Builds that have finished, successfully or not.
pub open spec fn finished_in(states: Seq<BuildState>) -> spec_fn(int) -> bool {
    |i: int| states[i] == BuildState::Done || states[i] == BuildState::Failed
}

/// Builds that are part of the current build and not finished.
pub open spec fn pending_in(states: Seq<BuildState>) -> spec_fn(int) -> bool {
    |i: int|
        states[i] == BuildState::Want || states[i] == BuildState::Ready || states[i]
            == BuildState::Queued || states[i] == BuildState::Running
}

/// Builds running in the pool at position `j` of `keys`.
pub open spec fn running_in(states: Seq<BuildState>, g: Graph, keys: Seq<Seq<u8>>, j: int) -> spec_fn(
    int,
) -> bool {
    |i: int| states[i] == BuildState::Running && key_index(keys, pool_key(&g.builds.view()[i]), 0) == j
}

/// A pool that may start another build and has one queued.
pub open spec fn startable(v: PoolState) -> bool {
    (v.depth == 0 || v.running < v.depth) && v.queued@.len() > 0
}

/// Position of the first startable pool at or after `j`, or the number of pools.
pub open spec fn first_startable(vals: Seq<PoolState>, j: int) -> int
    decreases vals.len() - j,
{
    if j < 0 || j >= vals.len() {
        vals.len() as int
    } else if startable(vals[j]) {
        j
    } else {
        first_startable(vals, j + 1)
    }
}

pub proof fn lemma_first_startable(vals: Seq<PoolState>, j: int)
    requires
        0 <= j <= vals.len(),
    ensures
        j <= first_startable(vals, j) <= vals.len(),
        first_startable(vals, j) < vals.len() ==> startable(vals[first_startable(vals, j)]),
        forall|k: int| j <= k < first_startable(vals, j) ==> !startable(#[trigger] vals[k]),
    decreases vals.len() - j,
{
    if j < vals.len() && !startable(vals[j]) {
        lemma_first_startable(vals, j + 1);
    }
}

/// BuildStates tracks progress of each Build step through the build.
/// See "Tracking build state" in the design notes.
pub struct BuildStates {
    pub states: DenseMap<BuildId, BuildState>,
    /// Counts of builds in each state.
    pub counts: StateCounts,
    /// Total number of builds that haven't been driven to completion
    /// (done or failed).
    pub total_pending: usize,
    /// Builds in the ready state, stored redundantly for quick access.
    pub ready: VecDeque<BuildId>,
    /// Named pools of queued and running builds.
    /// Builds otherwise default to using an unnamed infinite pool.
    pub pools: SmallMap<Vec<u8>, PoolState>,
}

impl BuildStates {
    pub open spec fn sts(&self) -> Seq<BuildState> {
        self.states.view()
    }

    /// The pool names, in order.
    pub open spec fn pool_keys(&self) -> Seq<Seq<u8>> {
        self.pools.kv().map_values(|p: (Seq<u8>, PoolState)| p.0)
    }

    /// The pools' states, in order.
    pub open spec fn pool_vals(&self) -> Seq<PoolState> {
        self.pools.kv().map_values(|p: (Seq<u8>, PoolState)| p.1)
    }

    /// The position of the pool build `i` of `g` runs in.
    pub open spec fn pool_of(&self, g: Graph, i: int) -> int {
        key_index(self.pool_keys(), pool_key(&g.builds.view()[i]), 0)
    }

    /// The counters, the pending total and the pools' running counts agree
    /// with the states, every queued id is a build of `g`, and every running
    /// build's pool exists.
    pub open spec fn inv(&self, g: Graph) -> bool {
        let n = self.sts().len() as int;
        &&& n == g.build_count()
        &&& n <= u32::MAX
        &&& self.pool_keys().len() >= 1
        &&& self.pool_keys()[0] == Seq::<u8>::empty()
        &&& forall|s: BuildState|
            s != BuildState::Unknown ==> #[trigger] self.counts.0@[state_slot(s)] == count_where(
                n,
                counted_in(self.sts(), g, s),
            )
        &&& self.total_pending == count_where(n, pending_in(self.sts()))
        &&& forall|k: int| 0 <= k < self.ready@.len() ==> (#[trigger] self.ready@[k]).0 < n
        &&& forall|j: int|
            0 <= j < self.pool_vals().len() ==> (#[trigger] self.pool_vals()[j]).running == count_where(
                n,
                running_in(self.sts(), g, self.pool_keys(), j),
            )
        &&& forall|j: int, k: int|
            0 <= j < self.pool_vals().len() && 0 <= k < self.pool_vals()[j].queued@.len() ==> (
            #[trigger] self.pool_vals()[j].queued@[k]).0 < n
        &&& forall|i: int|
            0 <= i < n && self.sts()[i] == BuildState::Running ==> #[trigger] self.pool_of(g, i)
                < self.pool_keys().len()
        &&& forall|k: int| 0 <= k < self.ready@.len() ==> self.sts()[(#[trigger] self.ready@[k]).0 as int] == BuildState::Ready
        &&& forall|k1: int, k2: int|
            0 <= k1 < k2 < self.ready@.len() ==> #[trigger] self.ready@[k1] != #[trigger] self.ready@[k2]
        &&& forall|j: int, k: int|
            0 <= j < self.pool_vals().len() && 0 <= k < self.pool_vals()[j].queued@.len() ==> {
                let q = #[trigger] self.pool_vals()[j].queued@[k];
                &&& self.pool_of(g, q.0 as int) == j
                &&& self.sts()[q.0 as int] == BuildState::Queued
            }
        &&& forall|j: int, k1: int, k2: int|
            0 <= j < self.pool_vals().len() && 0 <= k1 < k2 < self.pool_vals()[j].queued@.len() ==> #[trigger] self.pool_vals()[j].queued@[k1]
                != #[trigger] self.pool_vals()[j].queued@[k2]
    }

    /// Build `i` waits in the queue of its pool.
    pub open spec fn in_queue(&self, g: Graph, i: int) -> bool {
        let p = self.pool_of(g, i);
        0 <= p < self.pool_vals().len() && exists|k: int|
            0 <= k < self.pool_vals()[p].queued@.len() && (#[trigger] self.pool_vals()[p].queued@[k]).0 == i
    }

    /// No build wanted yet; the unnamed pool is unbounded, `console` has
    /// depth one, then each of `depths` with its depth, replacing a pool of
    /// the same name.
    pub fn new(size: BuildId, depths: SmallMap<Vec<u8>, usize>) -> (r: BuildStates)
        ensures
            r.sts() == Seq::new(size.0 as nat, |i: int| BuildState::Unknown),
            forall|k: int| 0 <= k < 6 ==> r.counts.0@[k] == 0,
            r.total_pending == 0,
            r.ready@.len() == 0,
            forall|j: int|
                0 <= j < r.pool_vals().len() ==> (#[trigger] r.pool_vals()[j]).running == 0
                    && r.pool_vals()[j].queued@.len() == 0,
            r.pools.kv().len() >= 1,
            r.pool_keys()[0] == Seq::<u8>::empty(),
    {
        let mut pools: SmallMap<Vec<u8>, PoolState> = SmallMap::new();
        proof {
            pools.lemma_kv();
        }
        let ghost e0 = pools.kv();
        let unnamed: Vec<u8> = Vec::new();
        assert(unnamed@ =~= Seq::<u8>::empty());
        pools.insert(unnamed, PoolState::new(0));
        proof {
            crate::smallmap::lemma_find_key(e0, Seq::<u8>::empty(), 0);
            assert(pools.kv().len() == 1);
        }
        let ghost e1 = pools.kv();
        let console = bytes_of("console");
        let ghost ck = console@;
        pools.insert(console, PoolState::new(1));
        proof {
            crate::smallmap::lemma_find_key(e1, ck, 0);
        }
        let entries = depths.into_iter();
        let mut i: usize = 0;
        while i < entries.len()
            invariant
                i <= entries@.len(),
                pools.kv().len() >= 1,
                pools.kv()[0].0 == Seq::<u8>::empty(),
                forall|j: int|
                    0 <= j < pools.kv().len() ==> (#[trigger] pools.kv()[j]).1.running == 0
                        && pools.kv()[j].1.queued@.len() == 0,
            decreases entries@.len() - i,
        {
            let name = crate::text::copy_vec(&entries[i].0);
            let ghost e0 = pools.kv();
            pools.insert(name, PoolState::new(entries[i].1));
            proof {
                crate::smallmap::lemma_find_key(e0, name@, 0);
            }
            i = i + 1;
        }
        let r = BuildStates {
            states: DenseMap::new_sized(size.0 as usize, BuildState::Unknown),
            counts: StateCounts::new(),
            total_pending: 0,
            ready: VecDeque::new(),
            pools,
        };
        assert(r.sts() =~= Seq::new(size.0 as nat, |i: int| BuildState::Unknown));
        r
    }

    /// A fresh set of states satisfies the invariant.
    pub proof fn lemma_fresh_inv(&self, g: Graph)
        requires
            self.sts().len() == g.build_count(),
            g.build_count() <= u32::MAX,
            forall|i: int| 0 <= i < self.sts().len() ==> self.sts()[i] == BuildState::Unknown,
            forall|k: int| 0 <= k < 6 ==> self.counts.0@[k] == 0,
            self.total_pending == 0,
            self.ready@.len() == 0,
            forall|j: int|
                0 <= j < self.pool_vals().len() ==> (#[trigger] self.pool_vals()[j]).running == 0
                    && self.pool_vals()[j].queued@.len() == 0,
            self.pools.kv().len() >= 1,
            self.pool_keys()[0] == Seq::<u8>::empty(),
        ensures
            self.inv(g),
    {
        let n = self.sts().len() as int;
        assert forall|s: BuildState| s != BuildState::Unknown implies #[trigger] self.counts.0@[state_slot(s)]
            == count_where(n, counted_in(self.sts(), g, s)) by {
            lemma_count_none(n, counted_in(self.sts(), g, s));
        }
        lemma_count_none(n, pending_in(self.sts()));
        assert forall|j: int| 0 <= j < self.pool_vals().len() implies (#[trigger] self.pool_vals()[j]).running
            == count_where(n, running_in(self.sts(), g, self.pool_keys(), j)) by {
            lemma_count_none(n, running_in(self.sts(), g, self.pool_keys(), j));
        }
    }

    /// The position of the pool that `build` runs in, or the number of
    /// pools if there is no such pool.
    pub fn pool_pos(&self, build: &Build) -> (r: usize)
        ensures
            r == key_index(self.pool_keys(), pool_key(build), 0),
            r <= self.pool_keys().len(),
    {
        let unnamed: Vec<u8> = Vec::new();
        let name: &[u8] = match &build.pool {
            Some(p) => p.as_slice(),
            None => unnamed.as_slice(),
        };
        assert(name@ == pool_key(build));
        proof {
            self.pools.lemma_kv();
            lemma_key_index(self.pool_keys(), name@, 0);
        }
        let mut i: usize = 0;
        while i < self.pools.len()
            invariant
                i <= self.pool_keys().len(),
                self.pool_keys().len() == self.pools.entries().len(),
                forall|j: int| 0 <= j < self.pool_keys().len() ==> #[trigger] self.pool_keys()[j] == self.pools.entries()[j].0@,
                key_index(self.pool_keys(), name@, 0) == key_index(self.pool_keys(), name@, i as int),
                name@ == pool_key(build),
            decreases self.pool_keys().len() - i,
        {
            assert(self.pool_keys()[i as int] == self.pools.entries()[i as int].0@);
            if bytes_eq(self.pools.entry(i).0.as_slice(), name) {
                return i;
            }
            i = i + 1;
        }
        i
    }

    /// Count a build more (`up`) or less in the running count of pool `p`.
    fn bump_running(&mut self, p: usize, up: bool)
        requires
            p < old(self).pool_vals().len(),
            up ==> old(self).pool_vals()[p as int].running < usize::MAX,
            !up ==> old(self).pool_vals()[p as int].running > 0,
        ensures
            final(self).pool_keys() == old(self).pool_keys(),
            final(self).pool_vals().len() == old(self).pool_vals().len(),
            forall|j: int|
                0 <= j < final(self).pool_vals().len() && j != p ==> #[trigger] final(self).pool_vals()[j]
                    == old(self).pool_vals()[j],
            final(self).pool_vals()[p as int].queued == old(self).pool_vals()[p as int].queued,
            final(self).pool_vals()[p as int].depth == old(self).pool_vals()[p as int].depth,
            final(self).pool_vals()[p as int].running == if up {
                old(self).pool_vals()[p as int].running + 1
            } else {
                old(self).pool_vals()[p as int].running - 1
            },
            final(self).states == old(self).states,
            final(self).counts == old(self).counts,
            final(self).total_pending == old(self).total_pending,
            final(self).ready == old(self).ready,
    {
        proof {
            self.pools.lemma_kv();
        }
        let pool = self.pools.value_mut(p);
        if up {
            pool.running = pool.running + 1;
        } else {
            pool.running = pool.running - 1;
        }
        proof {
            self.pools.lemma_kv();
            old(self).pools.lemma_kv();
            assert(self.pool_keys() =~= old(self).pool_keys());
        }
    }

    /// Move build `id` to `state`, keeping the counters and pools in step.
    pub fn set(&mut self, g: &Graph, id: BuildId, state: BuildState)
        requires
            old(self).inv(*g),
            id.0 < old(self).sts().len(),
            state != BuildState::Unknown,
            old(self).sts()[id.0 as int] != BuildState::Done,
            old(self).sts()[id.0 as int] != BuildState::Failed,
            state == BuildState::Running ==> old(self).pool_of(*g, id.0 as int) < old(self).pool_keys().len(),
            old(self).sts()[id.0 as int] == BuildState::Ready ==> !old(self).ready@.contains(id),
            old(self).sts()[id.0 as int] == BuildState::Queued && state != BuildState::Queued ==> !old(
                self,
            ).in_queue(*g, id.0 as int),
            state == BuildState::Ready ==> old(self).sts()[id.0 as int] != BuildState::Ready,
        ensures
            final(self).inv(*g),
            final(self).sts() == old(self).sts().update(id.0 as int, state),
            final(self).ready@ == if state == BuildState::Ready {
                old(self).ready@.push(id)
            } else {
                old(self).ready@
            },
            final(self).pool_keys() == old(self).pool_keys(),
            final(self).pool_vals().len() == old(self).pool_vals().len(),
            forall|j: int|
                0 <= j < final(self).pool_vals().len() ==> (#[trigger] final(self).pool_vals()[j]).queued
                    == old(self).pool_vals()[j].queued && final(self).pool_vals()[j].depth == old(
                    self,
                ).pool_vals()[j].depth,
            count_where(final(self).sts().len() as int, finished_in(final(self).sts())) == count_where(
                old(self).sts().len() as int,
                finished_in(old(self).sts()),
            ) + if state == BuildState::Done || state == BuildState::Failed {
                1int
            } else {
                0int
            },
    {
        let ghost o = *self;
        let ghost n = o.sts().len() as int;
        let ghost i = id.0 as int;
        let build = g.build(id);
        let prev = self.states.replace(&id, state);
        let ghost ns = self.sts();
        let skip = build.cmdline.is_none();
        let ghost p = o.pool_of(*g, i);
        proof {
            lemma_count_le(n, pending_in(o.sts()));
            if prev == BuildState::Running {
                lemma_count_pos(n, running_in(o.sts(), *g, o.pool_keys(), p), i);
            }
            if !skip && prev != BuildState::Unknown {
                lemma_count_pos(n, counted_in(o.sts(), *g, prev), i);
            }
            if prev == BuildState::Unknown {
                lemma_count_lt(n, pending_in(o.sts()), i);
            } else {
                lemma_count_pos(n, pending_in(o.sts()), i);
            }
            if state == BuildState::Running {
                lemma_count_le(n, running_in(o.sts(), *g, o.pool_keys(), p));
                if prev != BuildState::Running {
                    lemma_count_lt(n, running_in(o.sts(), *g, o.pool_keys(), p), i);
                }
            }
            if !skip {
                lemma_count_le(n, counted_in(o.sts(), *g, state));
                if prev != state {
                    lemma_count_lt(n, counted_in(o.sts(), *g, state), i);
                }
            }
        }
        proof {
            o.pools.lemma_kv();
            assert(o.pool_vals().len() == o.pool_keys().len());
        }
        if prev == BuildState::Unknown {
            self.total_pending = self.total_pending + 1;
        } else {
            if prev == BuildState::Running {
                let pp = self.pool_pos(build);
                assert(pp == p);
                assert(o.pool_vals()[p].running == count_where(n, running_in(o.sts(), *g, o.pool_keys(), p)));
                self.bump_running(pp, false);
            }
            if !skip {
                self.counts.add(prev, -1);
            }
        }
        assert(forall|j: int|
            0 <= j < self.pool_vals().len() ==> #[trigger] self.pool_vals()[j].running == o.pool_vals()[j].running
                - (if prev == BuildState::Running && j == p {
                1int
            } else {
                0int
            }));
        match state {
            BuildState::Ready => {
                self.ready.push_back(id);
            },
            BuildState::Running => {
                let pp = self.pool_pos(build);
                assert(pp == p);
                assert(o.pool_vals()[p].running == count_where(n, running_in(o.sts(), *g, o.pool_keys(), p)));
                self.bump_running(pp, true);
            },
            BuildState::Done | BuildState::Failed => {
                self.total_pending = self.total_pending - 1;
            },
            _ => {},
        }
        assert(forall|j: int|
            0 <= j < self.pool_vals().len() ==> #[trigger] self.pool_vals()[j].running == o.pool_vals()[j].running
                - (if prev == BuildState::Running && j == p {
                1int
            } else {
                0int
            }) + (if state == BuildState::Running && j == p {
                1int
            } else {
                0int
            }));
        if !skip {
            self.counts.add(state, 1);
        }
        proof {
            assert(self.sts() == ns);
            lemma_count_update(n, finished_in(o.sts()), finished_in(ns), i);
            assert forall|s: BuildState| s != BuildState::Unknown implies #[trigger] self.counts.0@[state_slot(s)]
                == count_where(n, counted_in(self.sts(), *g, s)) by {
                lemma_count_update(n, counted_in(o.sts(), *g, s), counted_in(ns, *g, s), i);
            }
            lemma_count_update(n, pending_in(o.sts()), pending_in(ns), i);
            assert forall|j: int| 0 <= j < self.pool_vals().len() implies (#[trigger] self.pool_vals()[j]).running
                == count_where(n, running_in(self.sts(), *g, self.pool_keys(), j)) by {
                lemma_count_update(
                    n,
                    running_in(o.sts(), *g, o.pool_keys(), j),
                    running_in(ns, *g, o.pool_keys(), j),
                    i,
                );
            }
            assert forall|x: int| 0 <= x < n && self.sts()[x] == BuildState::Running implies #[trigger] self.pool_of(
                *g,
                x,
            ) < self.pool_keys().len() by {
                assert(self.pool_keys() == o.pool_keys());
                if x != i {
                    assert(o.sts()[x] == BuildState::Running);
                    assert(o.pool_of(*g, x) < o.pool_keys().len());
                }
            }
            assert forall|k: int| 0 <= k < self.ready@.len() implies self.sts()[(#[trigger] self.ready@[k]).0 as int]
                == BuildState::Ready by {
                if k < o.ready@.len() {
                    assert(self.ready@[k] == o.ready@[k]);
                    let q = o.ready@[k];
                    assert(o.sts()[q.0 as int] == BuildState::Ready);
                    if q == id {
                        assert(o.ready@.contains(id));
                    }
                }
            }
            assert forall|k1: int, k2: int| 0 <= k1 < k2 < self.ready@.len() implies #[trigger] self.ready@[k1]
                != #[trigger] self.ready@[k2] by {
                if k2 < o.ready@.len() {
                    assert(self.ready@[k1] == o.ready@[k1]);
                    assert(self.ready@[k2] == o.ready@[k2]);
                } else {
                    assert(self.ready@[k2] == id);
                    assert(o.sts()[o.ready@[k1].0 as int] == BuildState::Ready);
                }
            }
            assert forall|j: int, k: int|
                0 <= j < self.pool_vals().len() && 0 <= k < self.pool_vals()[j].queued@.len() implies {
                    let q = #[trigger] self.pool_vals()[j].queued@[k];
                    &&& self.pool_of(*g, q.0 as int) == j
                    &&& self.sts()[q.0 as int] == BuildState::Queued
                } by {
                let q = o.pool_vals()[j].queued@[k];
                assert(self.pool_vals()[j].queued == o.pool_vals()[j].queued);
                assert(o.pool_of(*g, q.0 as int) == j);
                if q == id && state != BuildState::Queued {
                    assert(o.in_queue(*g, i));
                }
            }
            assert forall|j: int, k1: int, k2: int|
                0 <= j < self.pool_vals().len() && 0 <= k1 < k2 < self.pool_vals()[j].queued@.len() implies #[trigger] self.pool_vals()[j].queued@[k1]
                    != #[trigger] self.pool_vals()[j].queued@[k2] by {
                assert(self.pool_vals()[j].queued == o.pool_vals()[j].queued);
                assert(o.pool_vals()[j].queued@[k1] != o.pool_vals()[j].queued@[k2]);
            }
        }
    }

    /// Visits a BuildId that is an input to the desired output.
    /// Will recursively visit its own inputs.  It is ready at once when each
    /// input it waits for is a source file or already built.
    fn want_build(&mut self, g: &Graph, stack: &mut Vec<FileId>, id: BuildId) -> (r: Result<(), Vec<u8>>)
        requires
            old(self).inv(*g),
            g.wf(),
            id.0 < g.build_count(),
            is_path(*g, old(stack)@),
            ids_below(old(stack)@, g.file_count()),
            old(stack)@.len() > 0 ==> g.files.view()[old(stack)@.last().0 as int].input == Some(id),
            ordered(*g, old(self).sts()),
        ensures
            final(self).inv(*g),
            ordered(*g, final(self).sts()),
            only_wanted(old(self).sts(), final(self).sts()),
            final(self).pool_keys() == old(self).pool_keys(),
            final(self).pool_vals().len() == old(self).pool_vals().len(),
            r is Ok ==> final(stack)@ == old(stack)@,
            r is Ok ==> final(self).sts()[id.0 as int] != BuildState::Unknown,
            r matches Err(e) ==> exists|c: Seq<FileId>| is_cycle(*g, c) && e@ == cycle_msg(*g, c),
            r matches Err(e) ==> (exists|ext: Seq<FileId>, p: int| #[trigger] search_cycle(*g, old(stack)@, ext, p, e@))
                || validation_cycle(*g, e@),
        decreases count_where(old(self).sts().len() as int, unknown_in(old(self).sts())), 0int,
    {
        if self.get(id) != BuildState::Unknown {
            return Ok(());
        }
        let ghost n = self.sts().len() as int;
        let ghost s0 = self.sts();
        let build = g.build(id);
        assert(build_ok(build, g.file_count()));
        self.set(g, id, BuildState::Want);
        proof {
            lemma_count_update(n, unknown_in(s0), unknown_in(self.sts()), id.0 as int);
            lemma_ordered_update(*g, s0, id.0 as int, BuildState::Want);
        }
        let ghost s1 = self.sts();
        let ghost c1 = count_where(n, unknown_in(s1));
        let mut ready = true;
        let ins = build.ordering_ins();
        let mut k: usize = 0;
        while k < ins.len()
            invariant
                self.inv(*g),
                g.wf(),
                id.0 < g.build_count(),
                build == &g.builds.view()[id.0 as int],
                ins@ == build.ins.ids@.subrange(0, build.ins.explicit + build.ins.implicit + build.ins.order_only),
                build_ok(build, g.file_count()),
                k <= ins@.len(),
                n == self.sts().len(),
                only_wanted(s0, self.sts()),
                self.sts()[id.0 as int] == BuildState::Want,
                count_where(n, unknown_in(self.sts())) <= c1,
                c1 < count_where(n, unknown_in(s0)),
                self.pool_keys() == old(self).pool_keys(),
                self.pool_vals().len() == old(self).pool_vals().len(),
                stack@ == old(stack)@,
                is_path(*g, stack@),
                ids_below(stack@, g.file_count()),
                stack@.len() > 0 ==> g.files.view()[stack@.last().0 as int].input == Some(id),
                s0 == old(self).sts(),
                ordered(*g, self.sts()),
                ready == forall|j: int| 0 <= j < k ==> input_done(*g, self.sts(), #[trigger] ins@[j]),
            decreases ins@.len() - k,
        {
            let fid = ins[k];
            assert(ins@[k as int] == build.ins.ids@[k as int]);
            proof {
                if stack@.len() > 0 {
                    assert(ins@.contains(fid));
                }
            }
            let ghost sb = self.sts();
            let ghost sf = stack@;
            match self.want_file(g, stack, fid) {
                Ok(()) => {},
                Err(e) => {
                    proof {
                        if !validation_cycle(*g, e@) {
                            let (ext, p) = choose|ext: Seq<FileId>, p: int|
                                #[trigger] search_cycle(*g, sf, ext, p, e@) && (ext.len() > 0 ==> ext[0] == fid) && (
                                ext.len() == 0 ==> sf[p] == fid);
                            assert(search_cycle(*g, old(stack)@, ext, p, e@));
                        }
                    }
                    return Err(e);
                },
            }
            proof {
                lemma_count_mono(n, unknown_in(self.sts()), unknown_in(sb));
                assert forall|x: int| 0 <= x < n implies #[trigger] self.sts()[x] == s0[x] || (s0[x]
                    == BuildState::Unknown && (self.sts()[x] == BuildState::Want || self.sts()[x]
                    == BuildState::Ready)) by {
                    assert(self.sts()[x] == sb[x] || (sb[x] == BuildState::Unknown && (self.sts()[x]
                        == BuildState::Want || self.sts()[x] == BuildState::Ready)));
                }
            }
            let done = match g.file(fid).input {
                None => true,
                Some(b) => self.get(b) == BuildState::Done,
            };
            proof {
                assert forall|j: int| 0 <= j < k implies input_done(*g, self.sts(), #[trigger] ins@[j]) == input_done(
                    *g,
                    sb,
                    ins@[j],
                ) by {
                    match g.files.view()[ins@[j].0 as int].input {
                        Some(b) => {
                            assert(self.sts()[b.0 as int] == sb[b.0 as int] || sb[b.0 as int] == BuildState::Unknown);
                        },
                        None => {},
                    }
                }
            }
            ready = ready && done;
            k = k + 1;
        }
        let ghost sr = self.sts();
        if ready {
            proof {
                assert(inputs_done(*g, sr, id.0 as int)) by {
                    assert forall|k: int| 0 <= k < ordering(&g.builds.view()[id.0 as int]).len() implies input_done(
                        *g,
                        sr,
                        #[trigger] ordering(&g.builds.view()[id.0 as int])[k],
                    ) by {
                        assert(ordering(&g.builds.view()[id.0 as int])[k] == ins@[k]);
                    }
                }
            }
            self.set(g, id, BuildState::Ready);
            proof {
                lemma_ordered_update(*g, sr, id.0 as int, BuildState::Ready);
            }
        }
        proof {
            lemma_count_mono(n, unknown_in(self.sts()), unknown_in(sr));
        }
        let vals = build.validation_ins();
        let mut k: usize = 0;
        while k < vals.len()
            invariant
                self.inv(*g),
                g.wf(),
                id.0 < g.build_count(),
                build_ok(build, g.file_count()),
                build == &g.builds.view()[id.0 as int],
                vals@ == build.ins.ids@.subrange(
                    build.ins.explicit + build.ins.implicit + build.ins.order_only,
                    build.ins.ids@.len() as int,
                ),
                k <= vals@.len(),
                n == self.sts().len(),
                only_wanted(s0, self.sts()),
                self.sts()[id.0 as int] != BuildState::Unknown,
                count_where(n, unknown_in(self.sts())) <= c1,
                c1 < count_where(n, unknown_in(s0)),
                self.pool_keys() == old(self).pool_keys(),
                self.pool_vals().len() == old(self).pool_vals().len(),
                stack@ == old(stack)@,
                s0 == old(self).sts(),
                ordered(*g, self.sts()),
            decreases vals@.len() - k,
        {
            let fid = vals[k];
            assert(fid.0 < g.file_count()) by {
                assert(build.ins.ids@[build.ins.explicit + build.ins.implicit + build.ins.order_only + k]
                    == fid);
            }
            let ghost sb = self.sts();
            let mut fresh: Vec<FileId> = Vec::new();
            match self.want_file(g, &mut fresh, fid) {
                Ok(()) => {},
                Err(e) => {
                    proof {
                        if !validation_cycle(*g, e@) {
                            let (ext, p) = choose|ext: Seq<FileId>, p: int|
                                #[trigger] search_cycle(*g, Seq::<FileId>::empty(), ext, p, e@) && (ext.len() > 0
                                    ==> ext[0] == fid) && (ext.len() == 0 ==> Seq::<FileId>::empty()[p] == fid);
                            let kk = build.ins.explicit + build.ins.implicit + build.ins.order_only + k;
                            assert(build.ins.ids@[kk as int] == fid);
                            assert(ext.len() > 0);
                            assert(ext[0] == fid);
                            let bb = g.builds.view()[id.0 as int];
                            assert(bb.ins.explicit + bb.ins.implicit + bb.ins.order_only <= kk < bb.ins.ids@.len());
                            assert(bb.ins.ids@[kk as int] == ext[0]);
                            assert(is_validation(*g, ext[0]));
                        }
                    }
                    return Err(e);
                },
            }
            proof {
                lemma_count_mono(n, unknown_in(self.sts()), unknown_in(sb));
                assert forall|x: int| 0 <= x < n implies #[trigger] self.sts()[x] == s0[x] || (s0[x]
                    == BuildState::Unknown && (self.sts()[x] == BuildState::Want || self.sts()[x]
                    == BuildState::Ready)) by {
                    assert(self.sts()[x] == sb[x] || (sb[x] == BuildState::Unknown && (self.sts()[x]
                        == BuildState::Want || self.sts()[x] == BuildState::Ready)));
                }
            }
            k = k + 1;
        }
        Ok(())
    }

    /// Visits a FileId that is an input to the desired output.
    /// Will recursively visit its own inputs.  `stack` is the path of files
    /// that led here; a file already on it closes a dependency cycle.
    pub fn want_file(&mut self, g: &Graph, stack: &mut Vec<FileId>, id: FileId) -> (r: Result<(), Vec<u8>>)
        requires
            old(self).inv(*g),
            g.wf(),
            id.0 < g.file_count(),
            is_path(*g, old(stack)@),
            ids_below(old(stack)@, g.file_count()),
            old(stack)@.len() > 0 ==> edge(*g, old(stack)@.last(), id),
            ordered(*g, old(self).sts()),
        ensures
            final(self).inv(*g),
            ordered(*g, final(self).sts()),
            only_wanted(old(self).sts(), final(self).sts()),
            final(self).pool_keys() == old(self).pool_keys(),
            final(self).pool_vals().len() == old(self).pool_vals().len(),
            r is Ok ==> final(stack)@ == old(stack)@,
            r is Ok ==> (g.files.view()[id.0 as int].input matches Some(b) ==> final(self).sts()[b.0 as int]
                != BuildState::Unknown),
            r matches Err(e) ==> exists|c: Seq<FileId>| is_cycle(*g, c) && e@ == cycle_msg(*g, c),
            r matches Err(e) ==> (exists|ext: Seq<FileId>, p: int|
                #[trigger] search_cycle(*g, old(stack)@, ext, p, e@) && (ext.len() > 0 ==> ext[0] == id) && (ext.len()
                    == 0 ==> old(stack)@[p] == id)) || validation_cycle(*g, e@),
            forall|p: int|
                0 <= p < old(stack)@.len() && #[trigger] old(stack)@[p] == id && (forall|t: int|
                    0 <= t < p ==> old(stack)@[t] != id) ==> (r matches Err(e) && e@ == cycle_msg(
                    *g,
                    old(stack)@.subrange(p, old(stack)@.len() as int).push(id),
                )),
        decreases count_where(old(self).sts().len() as int, unknown_in(old(self).sts())), 1int,
    {
        let mut pos: usize = 0;
        while pos < stack.len()
            invariant
                pos <= stack@.len(),
                forall|t: int| 0 <= t < pos ==> stack@[t] != id,
            ensures
                pos <= stack@.len(),
                forall|t: int| 0 <= t < pos ==> stack@[t] != id,
                pos < stack@.len() ==> stack@[pos as int] == id,
            decreases stack@.len() - pos,
        {
            if stack[pos] == id {
                break;
            }
            pos = pos + 1;
        }
        if pos < stack.len() {
            let ghost st = stack@;
            let ghost cyc = st.subrange(pos as int, st.len() as int);
            assert(st[pos as int] == id);
            let mut err = bytes_of("dependency cycle: ");
            let ghost e0 = err@;
            let mut t: usize = pos;
            assert(st.subrange(pos as int, pos as int) =~= Seq::<FileId>::empty());
            while t < stack.len()
                invariant
                    pos <= t <= st.len(),
                    stack@ == st,
                    ids_below(st, g.file_count()),
                    err@ == e0 + arrow_prefix(*g, st.subrange(pos as int, t as int)),
                decreases st.len() - t,
            {
                let ghost pre = st.subrange(pos as int, t as int);
                assert(st.subrange(pos as int, t + 1).drop_last() =~= pre);
                push_slice(&mut err, g.file(stack[t]).name.as_slice());
                push_bytes(&mut err, " -> ");
                t = t + 1;
                assert(err@ =~= e0 + arrow_prefix(*g, st.subrange(pos as int, t as int)));
            }
            push_slice(&mut err, g.file(id).name.as_slice());
            proof {
                lemma_arrow_prefix(*g, cyc, id);
                assert(err@ =~= cycle_msg(*g, cyc.push(id)));
                let c = cyc.push(id);
                assert forall|u: int| 0 <= u < c.len() - 1 implies edge(*g, #[trigger] c[u], c[u + 1]) by {
                    if u < c.len() - 2 {
                        assert(c[u] == st[pos + u]);
                        assert(c[u + 1] == st[pos + u + 1]);
                    } else {
                        assert(c[u] == st.last());
                    }
                }
                assert(is_cycle(*g, c));
                let e0s = Seq::<FileId>::empty();
                assert(st + e0s =~= st);
                assert(st.subrange(pos as int, st.len() as int).push(st[pos as int]) == c);
                assert forall|u: int| 0 <= u < st.push(st[pos as int]).len() - 1 implies edge(
                    *g,
                    #[trigger] st.push(st[pos as int])[u],
                    st.push(st[pos as int])[u + 1],
                ) by {
                    if u < st.len() - 1 {
                        assert(st.push(st[pos as int])[u] == st[u]);
                        assert(st.push(st[pos as int])[u + 1] == st[u + 1]);
                    }
                }
                assert(search_cycle(*g, st, e0s, pos as int, err@));
                assert forall|p: int|
                    0 <= p < st.len() && #[trigger] st[p] == id && (forall|t: int| 0 <= t < p ==> st[t] != id) implies p
                    == pos as int by {
                    if p > pos as int {
                        assert(st[pos as int] == id);
                    }
                }
            }
            return Err(err);
        }
        proof {
            assert(!stack@.contains(id));
        }
        stack.push(id);
        proof {
            let s = stack@;
            assert forall|t: int| 0 <= t < s.len() - 1 implies edge(*g, #[trigger] s[t], s[t + 1]) by {
                if t < s.len() - 2 {
                    assert(s[t] == old(stack)@[t]);
                    assert(s[t + 1] == old(stack)@[t + 1]);
                }
            }
        }
        match g.file(id).input {
            Some(bid) => {
                assert(crate::graph::file_ok(&g.files.view()[id.0 as int], g.build_count()));
                let ghost sb = stack@;
                match self.want_build(g, stack, bid) {
                    Ok(()) => {},
                    Err(e) => {
                        proof {
                            if !validation_cycle(*g, e@) {
                                let (ext, p) = choose|ext: Seq<FileId>, p: int| #[trigger] search_cycle(*g, sb, ext, p, e@);
                                let ext2 = seq![id] + ext;
                                assert(sb + ext =~= old(stack)@ + ext2);
                                assert(search_cycle(*g, old(stack)@, ext2, p, e@));
                            }
                        }
                        return Err(e);
                    },
                }
            },
            None => {},
        }
        stack.pop();
        assert(stack@ =~= old(stack)@);
        Ok(())
    }

    /// The invariant depends on the ready list only through its ids.
    pub proof fn lemma_inv_ready(&self, other: &BuildStates, g: Graph)
        requires
            self.inv(g),
            other.states == self.states,
            other.counts == self.counts,
            other.total_pending == self.total_pending,
            other.pools == self.pools,
            forall|k: int| 0 <= k < other.ready@.len() ==> (#[trigger] other.ready@[k]).0 < self.sts().len(),
            forall|k: int| 0 <= k < other.ready@.len() ==> self.sts()[(#[trigger] other.ready@[k]).0 as int] == BuildState::Ready,
            forall|k1: int, k2: int|
                0 <= k1 < k2 < other.ready@.len() ==> #[trigger] other.ready@[k1] != #[trigger] other.ready@[k2],
        ensures
            other.inv(g),
    {
        let n = self.sts().len() as int;
        assert(other.sts() == self.sts());
        assert(other.pool_vals() == self.pool_vals());
        assert(other.pool_keys() == self.pool_keys());
        assert forall|j: int| 0 <= j < other.pool_vals().len() implies (#[trigger] other.pool_vals()[j]).running
            == count_where(n, running_in(other.sts(), g, other.pool_keys(), j)) by {
            assert(self.pool_vals()[j].running == count_where(n, running_in(self.sts(), g, self.pool_keys(), j)));
        }
        assert forall|j: int, k: int|
            0 <= j < other.pool_vals().len() && 0 <= k < other.pool_vals()[j].queued@.len() implies (
            #[trigger] other.pool_vals()[j].queued@[k]).0 < n by {
            assert(self.pool_vals()[j].queued@[k].0 < n);
        }
        assert forall|i: int| 0 <= i < n && other.sts()[i] == BuildState::Running implies #[trigger] other.pool_of(g, i)
            < other.pool_keys().len() by {
            assert(self.pool_of(g, i) < self.pool_keys().len());
        }
        assert forall|j: int, k: int|
            0 <= j < other.pool_vals().len() && 0 <= k < other.pool_vals()[j].queued@.len() implies {
                let q = #[trigger] other.pool_vals()[j].queued@[k];
                &&& other.pool_of(g, q.0 as int) == j
                &&& other.sts()[q.0 as int] == BuildState::Queued
            } by {
            let q = self.pool_vals()[j].queued@[k];
            assert(self.pool_of(g, q.0 as int) == j);
        }
        assert forall|j: int, k1: int, k2: int|
            0 <= j < other.pool_vals().len() && 0 <= k1 < k2 < other.pool_vals()[j].queued@.len() implies #[trigger] other.pool_vals()[j].queued@[k1]
                != #[trigger] other.pool_vals()[j].queued@[k2] by {
            assert(self.pool_vals()[j].queued@[k1] != self.pool_vals()[j].queued@[k2]);
        }
    }

    /// The invariant survives a change to the queue of one pool that keeps
    /// its ids those of builds.
    pub proof fn lemma_inv_queue(&self, other: &BuildStates, g: Graph, j: int)
        requires
            self.inv(g),
            other.states == self.states,
            other.counts == self.counts,
            other.total_pending == self.total_pending,
            other.ready == self.ready,
            other.pool_keys() == self.pool_keys(),
            other.pool_vals().len() == self.pool_vals().len(),
            0 <= j < self.pool_vals().len(),
            forall|k: int| 0 <= k < self.pool_vals().len() && k != j ==> #[trigger] other.pool_vals()[k] == self.pool_vals()[k],
            other.pool_vals()[j].running == self.pool_vals()[j].running,
            forall|k: int|
                0 <= k < other.pool_vals()[j].queued@.len() ==> (#[trigger] other.pool_vals()[j].queued@[k]).0
                    < self.sts().len(),
            forall|k: int|
                0 <= k < other.pool_vals()[j].queued@.len() ==> {
                    let q = #[trigger] other.pool_vals()[j].queued@[k];
                    &&& self.pool_of(g, q.0 as int) == j
                    &&& self.sts()[q.0 as int] == BuildState::Queued
                },
            forall|k1: int, k2: int|
                0 <= k1 < k2 < other.pool_vals()[j].queued@.len() ==> #[trigger] other.pool_vals()[j].queued@[k1]
                    != #[trigger] other.pool_vals()[j].queued@[k2],
        ensures
            other.inv(g),
    {
        let n = self.sts().len() as int;
        assert(other.sts() == self.sts());
        assert forall|a: int| 0 <= a < other.pool_vals().len() implies (#[trigger] other.pool_vals()[a]).running
            == count_where(n, running_in(other.sts(), g, other.pool_keys(), a)) by {
            assert(self.pool_vals()[a].running == count_where(n, running_in(self.sts(), g, self.pool_keys(), a)));
        }
        assert forall|a: int, k: int|
            0 <= a < other.pool_vals().len() && 0 <= k < other.pool_vals()[a].queued@.len() implies (
            #[trigger] other.pool_vals()[a].queued@[k]).0 < n by {
            if a != j {
                assert(self.pool_vals()[a].queued@[k].0 < n);
            }
        }
        assert forall|i: int| 0 <= i < n && other.sts()[i] == BuildState::Running implies #[trigger] other.pool_of(g, i)
            < other.pool_keys().len() by {
            assert(self.pool_of(g, i) < self.pool_keys().len());
        }
        assert forall|k: int| 0 <= k < other.ready@.len() implies other.sts()[(#[trigger] other.ready@[k]).0 as int]
            == BuildState::Ready by {
            assert(self.sts()[self.ready@[k].0 as int] == BuildState::Ready);
        }
        assert forall|k1: int, k2: int| 0 <= k1 < k2 < other.ready@.len() implies #[trigger] other.ready@[k1]
            != #[trigger] other.ready@[k2] by {
            assert(self.ready@[k1] != self.ready@[k2]);
        }
        assert forall|a: int, k: int|
            0 <= a < other.pool_vals().len() && 0 <= k < other.pool_vals()[a].queued@.len() implies {
                let q = #[trigger] other.pool_vals()[a].queued@[k];
                &&& other.pool_of(g, q.0 as int) == a
                &&& other.sts()[q.0 as int] == BuildState::Queued
            } by {
            if a != j {
                let q = self.pool_vals()[a].queued@[k];
                assert(self.pool_of(g, q.0 as int) == a);
            }
        }
        assert forall|a: int, k1: int, k2: int|
            0 <= a < other.pool_vals().len() && 0 <= k1 < k2 < other.pool_vals()[a].queued@.len() implies #[trigger] other.pool_vals()[a].queued@[k1]
                != #[trigger] other.pool_vals()[a].queued@[k2] by {
            if a != j {
                assert(self.pool_vals()[a].queued@[k1] != self.pool_vals()[a].queued@[k2]);
            }
        }
    }

    /// Adds `id` to the queue of pool `j`.
    fn queue_push(&mut self, j: usize, id: BuildId)
        requires
            j < old(self).pool_vals().len(),
        ensures
            final(self).pool_keys() == old(self).pool_keys(),
            final(self).pool_vals().len() == old(self).pool_vals().len(),
            forall|k: int|
                0 <= k < final(self).pool_vals().len() && k != j ==> #[trigger] final(self).pool_vals()[k]
                    == old(self).pool_vals()[k],
            final(self).pool_vals()[j as int].queued@ == old(self).pool_vals()[j as int].queued@.push(id),
            final(self).pool_vals()[j as int].running == old(self).pool_vals()[j as int].running,
            final(self).pool_vals()[j as int].depth == old(self).pool_vals()[j as int].depth,
            final(self).states == old(self).states,
            final(self).counts == old(self).counts,
            final(self).total_pending == old(self).total_pending,
            final(self).ready == old(self).ready,
    {
        proof {
            self.pools.lemma_kv();
        }
        let pool = self.pools.value_mut(j);
        pool.queued.push_back(id);
        proof {
            self.pools.lemma_kv();
            old(self).pools.lemma_kv();
            assert(self.pool_keys() =~= old(self).pool_keys());
        }
    }

    /// Takes the oldest build from the queue of pool `j`.
    fn queue_pop(&mut self, j: usize) -> (r: Option<BuildId>)
        requires
            j < old(self).pool_vals().len(),
        ensures
            final(self).pool_keys() == old(self).pool_keys(),
            final(self).pool_vals().len() == old(self).pool_vals().len(),
            forall|k: int|
                0 <= k < final(self).pool_vals().len() && k != j ==> #[trigger] final(self).pool_vals()[k]
                    == old(self).pool_vals()[k],
            old(self).pool_vals()[j as int].queued@.len() > 0 ==> r == Some(old(self).pool_vals()[j as int].queued@[0])
                && final(self).pool_vals()[j as int].queued@ == old(self).pool_vals()[j as int].queued@.subrange(
                1,
                old(self).pool_vals()[j as int].queued@.len() as int,
            ),
            old(self).pool_vals()[j as int].queued@.len() == 0 ==> r is None,
            final(self).pool_vals()[j as int].running == old(self).pool_vals()[j as int].running,
            final(self).pool_vals()[j as int].depth == old(self).pool_vals()[j as int].depth,
            final(self).states == old(self).states,
            final(self).counts == old(self).counts,
            final(self).total_pending == old(self).total_pending,
            final(self).ready == old(self).ready,
    {
        proof {
            self.pools.lemma_kv();
        }
        let pool = self.pools.value_mut(j);
        let r = pool.queued.pop_front();
        proof {
            self.pools.lemma_kv();
            old(self).pools.lemma_kv();
            assert(self.pool_keys() =~= old(self).pool_keys());
        }
        r
    }

    /// Takes the oldest build from the ready list.
    pub fn pop_ready(&mut self, g: &Graph) -> (r: Option<BuildId>)
        requires
            old(self).inv(*g),
        ensures
            final(self).inv(*g),
            final(self).sts() == old(self).sts(),
            final(self).pool_keys() == old(self).pool_keys(),
            final(self).pool_vals() == old(self).pool_vals(),
            old(self).ready@.len() == 0 ==> r is None && final(self).ready@ == old(self).ready@,
            old(self).ready@.len() > 0 ==> r == Some(old(self).ready@[0]) && final(self).ready@
                == old(self).ready@.subrange(1, old(self).ready@.len() as int),
            r matches Some(id) ==> id.0 < old(self).sts().len() && old(self).sts()[id.0 as int]
                == BuildState::Ready && !final(self).ready@.contains(id),
    {
        let r = self.ready.pop_front();
        proof {
            let o = old(self).ready@;
            assert forall|k: int| 0 <= k < self.ready@.len() implies (#[trigger] self.ready@[k]).0
                < self.sts().len() by {
                assert(self.ready@[k] == o[k + 1]);
            }
            old(self).lemma_inv_ready(self, *g);
            if r is Some {
                assert(o[0].0 < self.sts().len());
                if self.ready@.contains(o[0]) {
                    let k = choose|k: int| 0 <= k < self.ready@.len() && self.ready@[k] == o[0];
                    assert(o[k + 1] == o[0]);
                }
            }
        }
        r
    }

    /// Mark a build as ready to run in its pool.
    /// Fails if the build names a pool that does not exist.
    pub fn enqueue(&mut self, g: &Graph, id: BuildId) -> (r: Result<(), Vec<u8>>)
        requires
            old(self).inv(*g),
            g.wf(),
            id.0 < old(self).sts().len(),
            old(self).sts()[id.0 as int] != BuildState::Done,
            old(self).sts()[id.0 as int] != BuildState::Failed,
            old(self).sts()[id.0 as int] != BuildState::Queued,
            old(self).sts()[id.0 as int] == BuildState::Ready ==> !old(self).ready@.contains(id),
        ensures
            final(self).inv(*g),
            final(self).sts() == old(self).sts().update(id.0 as int, BuildState::Queued),
            final(self).ready@ == old(self).ready@,
            final(self).pool_keys() == old(self).pool_keys(),
            final(self).pool_vals().len() == old(self).pool_vals().len(),
            ({
                let p = old(self).pool_of(*g, id.0 as int);
                &&& p < old(self).pool_keys().len() ==> r is Ok && final(self).pool_vals()[p].queued@
                    == old(self).pool_vals()[p].queued@.push(id)
                &&& forall|j: int|
                    0 <= j < old(self).pool_vals().len() && j != p ==> (#[trigger] final(self).pool_vals()[j]).queued
                        == old(self).pool_vals()[j].queued
                &&& forall|j: int|
                    0 <= j < old(self).pool_vals().len() ==> (#[trigger] final(self).pool_vals()[j]).depth
                        == old(self).pool_vals()[j].depth
                &&& p >= old(self).pool_keys().len() ==> (r matches Err(e) && e@ == crate::graph::spec_loc_text(
                    &g.builds.view()[id.0 as int].location,
                ) + ": unknown pool ".spec_bytes() + crate::text::quoted(
                    pool_key(&g.builds.view()[id.0 as int]),
                ))
            }),
    {
        let build = g.build(id);
        let ghost o0 = *self;
        self.set(g, id, BuildState::Queued);
        let p = self.pool_pos(build);
        if p >= self.pools.len() {
            proof {
                self.pools.lemma_kv();
                if build.pool is None {
                    assert(self.pool_keys()[0] == pool_key(build));
                    lemma_key_index(self.pool_keys(), pool_key(build), 0);
                }
            }
            let mut msg = build.location.to_text();
            push_bytes(&mut msg, ": unknown pool ");
            let unnamed: Vec<u8> = Vec::new();
            let name: &[u8] = match &build.pool {
                Some(p) => p.as_slice(),
                None => unnamed.as_slice(),
            };
            crate::text::push_quoted(&mut msg, name);
            return Err(msg);
        }
        let ghost o = *self;
        proof {
            self.pools.lemma_kv();
            assert(self.pool_vals().len() == self.pools.entries().len());
        }
        self.queue_push(p, id);
        proof {
            assert forall|k: int| 0 <= k < self.pool_vals()[p as int].queued@.len() implies (
            #[trigger] self.pool_vals()[p as int].queued@[k]).0 < self.sts().len() by {
                if k < o.pool_vals()[p as int].queued@.len() {
                    assert(self.pool_vals()[p as int].queued@[k] == o.pool_vals()[p as int].queued@[k]);
                    assert(o.pool_vals()[p as int].queued@[k].0 < o.sts().len());
                }
            }
            assert forall|k1: int, k2: int|
                0 <= k1 < k2 < self.pool_vals()[p as int].queued@.len() implies #[trigger] self.pool_vals()[p as int].queued@[k1]
                    != #[trigger] self.pool_vals()[p as int].queued@[k2] by {
                let oq = o.pool_vals()[p as int].queued@;
                if k2 < oq.len() {
                    assert(oq[k1] != oq[k2]);
                } else {
                    assert(self.pool_vals()[p as int].queued@[k2] == id);
                    assert(o0.pool_vals()[p as int].queued@[k1] == oq[k1]);
                    assert(o0.sts()[oq[k1].0 as int] == BuildState::Queued);
                }
            }
            o.lemma_inv_queue(self, *g, p as int);
        }
        Ok(())
    }

    /// Pop a ready to run queued build: the oldest queued build of the
    /// first pool that has room for another running build.
    pub fn pop_queued(&mut self, g: &Graph) -> (r: Option<BuildId>)
        requires
            old(self).inv(*g),
        ensures
            final(self).inv(*g),
            final(self).sts() == old(self).sts(),
            final(self).ready == old(self).ready,
            final(self).pool_keys() == old(self).pool_keys(),
            final(self).pool_vals().len() == old(self).pool_vals().len(),
            ({
                let f = first_startable(old(self).pool_vals(), 0);
                &&& f >= old(self).pool_vals().len() ==> r is None && final(self).pool_vals()
                    == old(self).pool_vals()
                &&& f < old(self).pool_vals().len() ==> r == Some(old(self).pool_vals()[f].queued@[0])
                    && final(self).pool_vals()[f].queued@ == old(self).pool_vals()[f].queued@.subrange(
                    1,
                    old(self).pool_vals()[f].queued@.len() as int,
                ) && final(self).pool_vals()[f].running == old(self).pool_vals()[f].running
                    && final(self).pool_vals()[f].depth == old(self).pool_vals()[f].depth && forall|j: int|
                    0 <= j < old(self).pool_vals().len() && j != f ==> #[trigger] final(self).pool_vals()[j]
                        == old(self).pool_vals()[j]
            }),
            r matches Some(id) ==> id.0 < old(self).sts().len() && final(self).sts()[id.0 as int]
                == BuildState::Queued && !final(self).in_queue(*g, id.0 as int) && final(self).pool_of(
                *g,
                id.0 as int,
            ) < final(self).pool_keys().len(),
    {
        proof {
            self.pools.lemma_kv();
            lemma_first_startable(self.pool_vals(), 0);
        }
        let mut j: usize = 0;
        while j < self.pools.len()
            invariant
                j <= self.pool_vals().len(),
                self.pool_vals().len() == self.pools.entries().len(),
                forall|k: int| 0 <= k < self.pool_vals().len() ==> #[trigger] self.pool_vals()[k] == self.pools.entries()[k].1,
                first_startable(self.pool_vals(), 0) == first_startable(self.pool_vals(), j as int),
                *self == *old(self),
                self.inv(*g),
            decreases self.pool_vals().len() - j,
        {
            let pool = &self.pools.entry(j).1;
            assert(*pool == self.pool_vals()[j as int]);
            if (pool.depth == 0 || pool.running < pool.depth) && pool.queued.len() > 0 {
                let ghost o = *self;
                let r = self.queue_pop(j);
                proof {
                    assert forall|k: int| 0 <= k < self.pool_vals()[j as int].queued@.len() implies (
                    #[trigger] self.pool_vals()[j as int].queued@[k]).0 < self.sts().len() by {
                        assert(self.pool_vals()[j as int].queued@[k] == o.pool_vals()[j as int].queued@[k + 1]);
                        assert(o.pool_vals()[j as int].queued@[k + 1].0 < o.sts().len());
                    }
                    o.lemma_inv_queue(self, *g, j as int);
                    let q0 = o.pool_vals()[j as int].queued@[0];
                    assert(q0.0 < o.sts().len());
                    assert(o.pool_of(*g, q0.0 as int) == j);
                    if self.in_queue(*g, q0.0 as int) {
                        let k = choose|k: int|
                            0 <= k < self.pool_vals()[j as int].queued@.len() && (#[trigger] self.pool_vals()[j as int].queued@[k]).0
                                == q0.0;
                        assert(self.pool_vals()[j as int].queued@[k] == o.pool_vals()[j as int].queued@[k + 1]);
                        assert(o.pool_vals()[j as int].queued@[k + 1] != o.pool_vals()[j as int].queued@[0]);
                    }
                }
                return r;
            }
            j = j + 1;
        }
        None
    }

    pub fn get(&self, id: BuildId) -> (r: BuildState)
        requires
            id.0 < self.sts().len(),
        ensures
            r == self.sts()[id.0 as int],
    {
        *self.states.get(&id)
    }

    /// Whether some wanted build is not finished yet.
    pub fn unfinished(&self) -> (r: bool)
        ensures
            r == (self.total_pending > 0),
    {
        self.total_pending > 0
    }
}

/// Options for a build.
pub struct Options {
    /// Stop after this many failed tasks, if given.
    pub failures_left: Option<usize>,
    pub parallelism: usize,
    /// When true, verbosely explain why targets are considered dirty.
    pub explain: bool,
    /// When true, just mark targets up to date without running anything.
    pub adopt: bool,
}

/// `p` without its trailing `/`s.
pub open spec fn trim_slashes(p: Seq<u8>) -> Seq<u8>
    decreases p.len(),
{
    if p.len() > 0 && p.last() == 0x2f {
        trim_slashes(p.drop_last())
    } else {
        p
    }
}

/// The position after the last `/` before `i`, or 0.
pub open spec fn after_last_slash(p: Seq<u8>, i: int) -> int
    decreases i,
{
    if i <= 0 || i > p.len() {
        0
    } else if p[i - 1] == 0x2f {
        i
    } else {
        after_last_slash(p, i - 1)
    }
}

/// The directory a path is in: none for an empty path or the root, the
/// empty path for a bare name, `/` for a name at the root.
pub open spec fn spec_parent(p: Seq<u8>) -> Option<Seq<u8>> {
    let t = trim_slashes(p);
    if t.len() == 0 {
        None
    } else {
        let k = after_last_slash(t, t.len() as int);
        if k == 0 {
            Some(Seq::empty())
        } else {
            let d = trim_slashes(t.subrange(0, k));
            if d.len() == 0 {
                Some(seq![0x2fu8])
            } else {
                Some(d)
            }
        }
    }
}

proof fn lemma_trim_slashes(p: Seq<u8>)
    ensures
        trim_slashes(p).len() <= p.len(),
        trim_slashes(p) == p.subrange(0, trim_slashes(p).len() as int),
        trim_slashes(p).len() > 0 ==> trim_slashes(p).last() != 0x2f,
    decreases p.len(),
{
    if p.len() > 0 && p.last() == 0x2f {
        lemma_trim_slashes(p.drop_last());
        assert(p.drop_last().subrange(0, trim_slashes(p).len() as int) =~= p.subrange(0, trim_slashes(p).len() as int));
    } else {
        assert(p.subrange(0, p.len() as int) =~= p);
    }
}

proof fn lemma_after_last_slash(p: Seq<u8>, i: int)
    requires
        0 <= i <= p.len(),
    ensures
        0 <= after_last_slash(p, i) <= i,
        forall|k: int| after_last_slash(p, i) <= k < i ==> p[k] != 0x2f,
        after_last_slash(p, i) > 0 ==> p[after_last_slash(p, i) - 1] == 0x2f,
    decreases i,
{
    if i > 0 && p[i - 1] != 0x2f {
        lemma_after_last_slash(p, i - 1);
    }
}

/// The length of `p` without its trailing `/`s.
fn trimmed_len(p: &[u8], n: usize) -> (r: usize)
    requires
        n <= p@.len(),
    ensures
        r == trim_slashes(p@.subrange(0, n as int)).len(),
{
    let mut e = n;
    while e > 0 && p[e - 1] == 0x2fu8
        invariant
            e <= n <= p@.len(),
            trim_slashes(p@.subrange(0, n as int)) == trim_slashes(p@.subrange(0, e as int)),
        decreases e,
    {
        assert(p@.subrange(0, e as int).drop_last() =~= p@.subrange(0, e - 1));
        e = e - 1;
    }
    e
}

/// The directory the path `p` is in, if it has one.
pub fn parent_dir(p: &[u8]) -> (r: Option<Vec<u8>>)
    ensures
        match spec_parent(p@) {
            None => r is None,
            Some(d) => r matches Some(v) && v@ == d,
        },
{
    assert(p@.subrange(0, p@.len() as int) =~= p@);
    let t = trimmed_len(p, p.len());
    if t == 0 {
        return None;
    }
    proof {
        lemma_trim_slashes(p@);
    }
    let ghost ts = trim_slashes(p@);
    let mut k = t;
    while k > 0 && p[k - 1] != 0x2fu8
        invariant
            k <= t <= p@.len(),
            ts == p@.subrange(0, t as int),
            after_last_slash(ts, t as int) == after_last_slash(ts, k as int),
        decreases k,
    {
        k = k - 1;
    }
    if k == 0 {
        return Some(Vec::new());
    }
    proof {
        assert(ts.subrange(0, k as int) =~= p@.subrange(0, k as int));
    }
    let d = trimmed_len(p, k);
    if d == 0 {
        let mut v: Vec<u8> = Vec::new();
        v.push(0x2fu8);
        assert(v@ =~= seq![0x2fu8]);
        Some(v)
    } else {
        proof {
            lemma_trim_slashes(p@.subrange(0, k as int));
        }
        let mut v: Vec<u8> = Vec::new();
        crate::text::push_slice(&mut v, vstd::slice::slice_subrange(p, 0, d));
        assert(v@ =~= trim_slashes(ts.subrange(0, k as int)));
        Some(v)
    }
}

/// The directories of `names`, each once, in the order first met.
pub open spec fn parents_of(names: Seq<Seq<u8>>) -> Seq<Seq<u8>>
    decreases names.len(),
{
    if names.len() == 0 {
        Seq::empty()
    } else {
        let ds = parents_of(names.drop_last());
        match spec_parent(names.last()) {
            Some(d) => if ds.contains(d) {
                ds
            } else {
                ds.push(d)
            },
            None => ds,
        }
    }
}

/// Where in a round of work a build is: each round starts what it can,
/// then checks the ready builds, then waits if neither made progress.
#[derive(Clone, Copy, Debug, PartialEq, Eq, Structural)]
pub enum Phase {
    Top,
    Starting,
    Draining,
}

/// What the caller is to do next while a build runs.
pub enum Step {
    /// Run the command of this build: create the parent directories of its
    /// outputs, write its response file and start it.
    Start(BuildId),
    /// Ask again.
    Continue,
    /// Wait for a running task to finish and report it with `task_finished`.
    Wait,
    /// The build is over: the number of tasks run when it succeeded.
    Finished(Option<usize>),
}

/// The state of a build in progress.  The caller runs the commands, writes
/// the database and shows progress; this decides what runs when.
pub struct Work {
    pub graph: Graph,
    pub file_state: FileState,
    pub last_hashes: Hashes,
    pub build_states: BuildStates,
    pub failures_left: Option<usize>,
    pub explain: bool,
    pub adopt: bool,
    pub tasks_done: usize,
    pub tasks_failed: usize,
    /// Something was started or checked since the caller last waited.
    pub made_progress: bool,
    /// Where in a round of starting and checking builds the build is.
    pub phase: Phase,
    /// Messages for the user, oldest first.
    pub logs: Vec<Vec<u8>>,
    /// Builds that finished, with their hashes, to record in the database.
    pub records: Vec<(BuildId, BuildHash)>,
}

/// Every recorded stamp is still recorded as a stamp.
pub open spec fn stamps_kept(a: &FileState, b: &FileState) -> bool {
    forall|i: int| (#[trigger] a.spec_get(i)) matches Some(MTime::Stamp(_)) ==> b.spec_get(i) matches Some(MTime::Stamp(_))
}

/// Error `e` is what checking file `f`, not yet stat()ed, can give: a file
/// some build makes must have been made before, else stat() failed on it.
pub open spec fn unstat_error(w: &Work, f: FileId, e: Seq<u8>) -> bool {
    unstat_error_in(w.graph, w.file_state, f, e)
}

/// `unstat_error` for graph `g` with stat()ed files `fs`.
pub open spec fn unstat_error_in(g: Graph, fs: FileState, f: FileId, e: Seq<u8>) -> bool {
    let file = g.files.view()[f.0 as int];
    &&& fs.spec_get(f.0 as int) is None
    &&& (file.input is Some ==> e == "used generated file ".spec_bytes() + file.name@
        + ", but has no dependency path to it".spec_bytes())
    &&& (file.input is None ==> crate::text::has_prefix(e, "stat ".spec_bytes() + file.name@ + ": ".spec_bytes()))
}

/// The ready list after `set` made the builds `ids` ready one after
/// another, starting from `q`.
pub open spec fn pushed(q: Seq<BuildId>, ids: Seq<BuildId>) -> Seq<BuildId>
    decreases ids.len(),
{
    if ids.len() == 0 {
        q
    } else {
        pushed(q, ids.drop_last()).push(ids.last())
    }
}

/// What `pop_ready` gives, call after call, from the ready list `q` until
/// it gives nothing: the front, then what the rest gives.
pub open spec fn popped(q: Seq<BuildId>) -> Seq<BuildId>
    decreases q.len(),
{
    if q.len() == 0 {
        Seq::empty()
    } else {
        seq![q[0]] + popped(q.subrange(1, q.len() as int))
    }
}

proof fn lemma_pushed(q: Seq<BuildId>, ids: Seq<BuildId>)
    ensures
        pushed(q, ids) == q + ids,
    decreases ids.len(),
{
    if ids.len() > 0 {
        lemma_pushed(q, ids.drop_last());
        assert((q + ids.drop_last()).push(ids.last()) =~= q + ids);
    }
}

proof fn lemma_popped(q: Seq<BuildId>)
    ensures
        popped(q) == q,
    decreases q.len(),
{
    if q.len() > 0 {
        lemma_popped(q.subrange(1, q.len() as int));
        assert(seq![q[0]] + q.subrange(1, q.len() as int) =~= q);
    }
}

/// The ready list is first in, first out: builds made ready one after
/// another come out of `pop_ready`, call after call, after those already
/// waiting and in the order they went in, each once.
pub proof fn law_ready_fifo(q: Seq<BuildId>, ids: Seq<BuildId>)
    ensures
        popped(pushed(q, ids)) == q + ids,
{
    lemma_pushed(q, ids);
    lemma_popped(q + ids);
}

/// What `set(.., id, BuildState::Ready)` does to the ready list of `b0`,
/// giving `b1`: `id` goes at its end.
pub open spec fn set_ready_step(b0: BuildStates, id: BuildId, b1: BuildStates) -> bool {
    b1.ready@ == b0.ready@.push(id)
}

/// What `pop_ready` does to the ready list of `b0`, giving `b1` and `r`:
/// none from an empty list, else the front, taken off.
pub open spec fn pop_ready_step(b0: BuildStates, r: Option<BuildId>, b1: BuildStates) -> bool {
    &&& b0.ready@.len() == 0 ==> r is None && b1.ready@ == b0.ready@
    &&& b0.ready@.len() > 0 ==> r == Some(b0.ready@[0]) && b1.ready@ == b0.ready@.subrange(1, b0.ready@.len() as int)
}

proof fn lemma_sets_ready(sets: Seq<BuildStates>, ids: Seq<BuildId>)
    requires
        sets.len() == ids.len() + 1,
        sets[0].ready@.len() == 0,
        forall|k: int| 0 <= k < ids.len() ==> set_ready_step(#[trigger] sets[k], ids[k], sets[k + 1]),
    ensures
        sets.last().ready@ == ids,
    decreases ids.len(),
{
    if ids.len() > 0 {
        let n = ids.len() - 1;
        let s2 = sets.drop_last();
        let i2 = ids.drop_last();
        assert forall|k: int| 0 <= k < i2.len() implies set_ready_step(#[trigger] s2[k], i2[k], s2[k + 1]) by {
            assert(set_ready_step(sets[k], ids[k], sets[k + 1]));
        }
        lemma_sets_ready(s2, i2);
        assert(set_ready_step(sets[n], ids[n], sets[n + 1]));
        assert(i2.push(ids[n]) =~= ids);
    }
}

/// A series of `set(.., BuildState::Ready)` and `pop_ready` calls (the
/// states `sets` and `pops`): builds made ready in the order `ids` on an
/// empty ready list, none popped in between, come out of successive
/// `pop_ready` calls in that order, each once, and then none.
pub proof fn law_ready_queue_fifo(
    sets: Seq<BuildStates>,
    ids: Seq<BuildId>,
    pops: Seq<BuildStates>,
    rs: Seq<Option<BuildId>>,
)
    requires
        sets.len() == ids.len() + 1,
        sets[0].ready@.len() == 0,
        forall|k: int| 0 <= k < ids.len() ==> set_ready_step(#[trigger] sets[k], ids[k], sets[k + 1]),
        pops.len() == rs.len() + 1,
        pops[0].ready@ == sets.last().ready@,
        forall|j: int| 0 <= j < rs.len() ==> pop_ready_step(#[trigger] pops[j], rs[j], pops[j + 1]),
    ensures
        forall|j: int| 0 <= j < rs.len() ==> #[trigger] rs[j] == if j < ids.len() {
            Some(ids[j])
        } else {
            None::<BuildId>
        },
{
    lemma_sets_ready(sets, ids);
    lemma_pops(pops, rs, ids);
}

proof fn lemma_pops(pops: Seq<BuildStates>, rs: Seq<Option<BuildId>>, ids: Seq<BuildId>)
    requires
        pops.len() == rs.len() + 1,
        pops[0].ready@ == ids,
        forall|j: int| 0 <= j < rs.len() ==> pop_ready_step(#[trigger] pops[j], rs[j], pops[j + 1]),
    ensures
        forall|j: int| 0 <= j < rs.len() ==> #[trigger] rs[j] == if j < ids.len() {
            Some(ids[j])
        } else {
            None::<BuildId>
        },
    decreases rs.len(),
{
    if rs.len() > 0 {
        assert(pop_ready_step(pops[0], rs[0], pops[1]));
        let rest = if ids.len() > 0 {
            ids.subrange(1, ids.len() as int)
        } else {
            ids
        };
        let p2 = pops.subrange(1, pops.len() as int);
        let r2 = rs.subrange(1, rs.len() as int);
        assert forall|j: int| 0 <= j < r2.len() implies pop_ready_step(#[trigger] p2[j], r2[j], p2[j + 1]) by {
            assert(pop_ready_step(pops[j + 1], rs[j + 1], pops[j + 2]));
        }
        lemma_pops(p2, r2, rest);
        assert forall|j: int| 0 <= j < rs.len() implies #[trigger] rs[j] == if j < ids.len() {
            Some(ids[j])
        } else {
            None::<BuildId>
        } by {
            if j > 0 {
                assert(rs[j] == r2[j - 1]);
                if ids.len() > 0 {
                    assert(j - 1 < rest.len() ==> rest[j - 1] == ids[j]);
                }
            }
        }
    }
}

/// Error `e` is what recording a finished build `id` can give, `g` being
/// the graph with the dependencies it discovered and `w` the state before:
/// a dependency name that is empty or one file too many, a discovered
/// dependency not yet stat()ed that could not be, or that is missing, or an
/// output stat() failed on.
pub open spec fn finish_error(w: &Work, g: Graph, id: BuildId, e: Seq<u8>) -> bool {
    finish_error_in(g, w.file_state, id, e)
}

/// `finish_error` for graph `g` with stat()ed files `fs`.
pub open spec fn finish_error_in(g: Graph, fs: FileState, id: BuildId, e: Seq<u8>) -> bool {
    let b = g.builds.view()[id.0 as int];
    ||| e == "empty path".spec_bytes()
    ||| e == "too many files".spec_bytes()
    ||| exists|k: int|
        0 <= k < b.discovered_ins@.len() && unstat_error_in(g, fs, #[trigger] b.discovered_ins@[k], e)
    ||| exists|k: int|
        0 <= k < b.discovered_ins@.len() && e == spec_loc_text(&b.location) + " depfile references nonexistent ".spec_bytes()
            + g.files.view()[(#[trigger] b.discovered_ins@[k]).0 as int].name@
    ||| exists|k: int|
        0 <= k < b.outs.ids@.len() && crate::text::has_prefix(
            e,
            "stat ".spec_bytes() + g.files.view()[(#[trigger] b.outs.ids@[k]).0 as int].name@ + ": ".spec_bytes(),
        )
}

/// Error `e` is what checking the files of build `id` can give: an input
/// not yet stat()ed that could not be, a source input of a build that runs
/// found missing, or an output stat() failed on.
pub open spec fn files_missing_error(w: &Work, id: BuildId, e: Seq<u8>) -> bool {
    let b = w.graph.builds.view()[id.0 as int];
    ||| exists|k: int| 0 <= k < dirtying(&b).len() && unstat_error(w, #[trigger] dirtying(&b)[k], e)
    ||| exists|k: int| 0 <= k < b.discovered_ins@.len() && unstat_error(w, #[trigger] b.discovered_ins@[k], e)
    ||| exists|k: int|
        0 <= k < dirtying(&b).len() && b.cmdline is Some && w.graph.files.view()[(#[trigger] dirtying(&b)[k]).0 as int].input
            is None && e == spec_loc_text(&b.location) + ": input ".spec_bytes() + w.graph.files.view()[dirtying(
            &b,
        )[k].0 as int].name@ + " missing".spec_bytes()
    ||| exists|k: int|
        0 <= k < b.outs.ids@.len() && crate::text::has_prefix(
            e,
            "stat ".spec_bytes() + w.graph.files.view()[(#[trigger] b.outs.ids@[k]).0 as int].name@ + ": ".spec_bytes(),
        )
}

/// The error for a build that names a pool no one declared.
pub open spec fn unknown_pool_error(b: &Build) -> Seq<u8> {
    spec_loc_text(&b.location) + ": unknown pool ".spec_bytes() + crate::text::quoted(pool_key(b))
}

/// Error `e` is what checking the ready build `id` can give, `w` being the
/// state before and `g` the graph after: a missing or unreadable file, or,
/// when adopting an out-of-date build, an error recording it, or else a pool
/// that does not exist.
pub open spec fn ready_error(w: &Work, g: Graph, id: BuildId, e: Seq<u8>) -> bool {
    ||| files_missing_error(w, id, e)
    ||| (w.adopt && exists|fs: FileState| finish_error_in(g, fs, id, e))
    ||| (!w.adopt && e == unknown_pool_error(&w.graph.builds.view()[id.0 as int]))
}

/// The inputs of `b` that `ensure_input_files` goes through.
pub open spec fn input_list(b: &Build, discovered: bool) -> Seq<FileId> {
    if discovered {
        b.discovered_ins@
    } else {
        dirtying(b)
    }
}

impl Work {
    pub open spec fn inv(&self) -> bool {
        &&& self.graph.wf()
        &&& self.build_states.inv(self.graph)
        &&& ordered(self.graph, self.build_states.sts())
        &&& self.tasks_done + self.tasks_failed <= count_where(
            self.build_states.sts().len() as int,
            finished_in(self.build_states.sts()),
        )
    }

    /// Whether build `id` must run: not phony, and some file it lists is
    /// missing, or there is no record of it, or its manifest changed.
    pub open spec fn spec_dirty(&self, id: BuildId) -> bool {
        let b = self.graph.builds.view()[id.0 as int];
        &&& b.cmdline is Some
        &&& (!hashable(&self.graph, &self.file_state, &b) || !self.last_hashes.view().contains_key(id.0)
            || self.last_hashes.view()[id.0].0 != DefaultHasher::spec_finish(
            manifest(&self.graph, &self.file_state, &b),
        ))
    }

    /// When a build must run: a phony build (one without a command) never
    /// runs; one with a command runs when it has never been recorded, and
    /// does not when all its files are present and the hash recorded for it
    /// is the hash of its current manifest.
    pub proof fn law_dirty_rules(&self, id: BuildId)
        ensures
            ({
                let b = self.graph.builds.view()[id.0 as int];
                &&& b.cmdline is None ==> !self.spec_dirty(id)
                &&& (b.cmdline is Some && !self.last_hashes.view().contains_key(id.0)) ==> self.spec_dirty(id)
                &&& (b.cmdline is Some && !hashable(&self.graph, &self.file_state, &b)) ==> self.spec_dirty(id)
                &&& (hashable(&self.graph, &self.file_state, &b) && self.last_hashes.view().contains_key(id.0)
                    && self.last_hashes.view()[id.0].0 == DefaultHasher::spec_finish(
                    manifest(&self.graph, &self.file_state, &b),
                )) ==> !self.spec_dirty(id)
            }),
    {
    }

    pub fn new(graph: Graph, last_hashes: Hashes, options: &Options, pools: SmallMap<Vec<u8>, usize>) -> (r: Work)
        requires
            graph.wf(),
        ensures
            r.inv(),
            r.graph == graph,
            r.last_hashes == last_hashes,
            r.build_states.sts() == Seq::new(graph.build_count() as nat, |i: int| BuildState::Unknown),
            r.failures_left == options.failures_left,
            r.explain == options.explain,
            r.adopt == options.adopt,
            r.tasks_done == 0,
            r.tasks_failed == 0,
            r.logs@.len() == 0,
            r.records@.len() == 0,
    {
        let file_state = FileState::new(&graph);
        let n = graph.builds.len();
        let build_states = BuildStates::new(BuildId(n as u32), pools);
        proof {
            build_states.lemma_fresh_inv(graph);
        }
        Work {
            graph,
            file_state,
            last_hashes,
            build_states,
            failures_left: options.failures_left,
            explain: options.explain,
            adopt: options.adopt,
            tasks_done: 0,
            tasks_failed: 0,
            made_progress: false,
            phase: Phase::Top,
            logs: Vec::new(),
            records: Vec::new(),
        }
    }

    /// The file of the given name, after making the name canonical.
    pub fn lookup(&self, name: &[u8]) -> (r: Option<FileId>)
        requires
            self.graph.wf(),
        ensures
            name@.len() == 0 ==> r is None,
            name@.len() > 0 ==> r == self.graph.spec_lookup(crate::canon::spec_canon_path(name@)),
    {
        if name.len() == 0 {
            return None;
        }
        let canon = crate::canon::canon_path(name);
        self.graph.lookup(canon.as_slice())
    }

    /// Want `id` built, and everything it needs.
    pub fn want_file(&mut self, id: FileId) -> (r: Result<(), Vec<u8>>)
        requires
            old(self).inv(),
            id.0 < old(self).graph.file_count(),
        ensures
            final(self).inv(),
            final(self).graph == old(self).graph,
            only_wanted(old(self).build_states.sts(), final(self).build_states.sts()),
            r is Ok ==> (old(self).graph.files.view()[id.0 as int].input matches Some(b) ==> final(self).build_states.sts()[b.0 as int]
                != BuildState::Unknown),
            r matches Err(e) ==> exists|c: Seq<FileId>| is_cycle(old(self).graph, c) && e@ == cycle_msg(old(self).graph, c),
            r matches Err(e) ==> (exists|ext: Seq<FileId>, p: int|
                #[trigger] search_cycle(old(self).graph, Seq::empty(), ext, p, e@) && ext.len() > 0 && ext[0] == id)
                || validation_cycle(old(self).graph, e@),
    {
        let mut stack: Vec<FileId> = Vec::new();
        let ghost s0 = self.build_states.sts();
        let r = self.build_states.want_file(&self.graph, &mut stack, id);
        let ghost rr = r;
        proof {
            if let Err(e) = rr {
                if !validation_cycle(self.graph, e@) {
                    let (ext, p) = choose|ext: Seq<FileId>, p: int|
                        #[trigger] search_cycle(self.graph, Seq::<FileId>::empty(), ext, p, e@) && (ext.len() > 0
                            ==> ext[0] == id) && (ext.len() == 0 ==> Seq::<FileId>::empty()[p] == id);
                    assert(ext.len() > 0);
                }
            }
        }
        proof {
            lemma_only_wanted_finished(s0, self.build_states.sts());
        }
        r
    }

    /// The directories of the files `ids`, each once, in the order first met.
    pub fn parent_dirs(&self, ids: &[FileId]) -> (r: Vec<Vec<u8>>)
        requires
            self.graph.wf(),
            ids_below(ids@, self.graph.file_count()),
        ensures
            r@.map_values(|v: Vec<u8>| v@) == parents_of(ids@.map_values(|f: FileId| self.graph.name_of(f.0 as int))),
    {
        let ghost names = ids@.map_values(|f: FileId| self.graph.name_of(f.0 as int));
        let mut dirs: Vec<Vec<u8>> = Vec::new();
        let mut i: usize = 0;
        assert(names.take(0) =~= Seq::<Seq<u8>>::empty());
        assert(dirs@.map_values(|v: Vec<u8>| v@) =~= Seq::<Seq<u8>>::empty());
        while i < ids.len()
            invariant
                self.graph.wf(),
                ids_below(ids@, self.graph.file_count()),
                names == ids@.map_values(|f: FileId| self.graph.name_of(f.0 as int)),
                i <= ids@.len(),
                dirs@.map_values(|v: Vec<u8>| v@) == parents_of(names.take(i as int)),
            decreases ids@.len() - i,
        {
            let ghost dv = dirs@.map_values(|v: Vec<u8>| v@);
            proof {
                assert(names.take(i + 1).drop_last() =~= names.take(i as int));
                assert(names.take(i + 1).last() == self.graph.name_of(ids@[i as int].0 as int));
            }
            match parent_dir(self.graph.file(ids[i]).name.as_slice()) {
                None => {},
                Some(d) => {
                    let mut j: usize = 0;
                    let mut seen = false;
                    while j < dirs.len()
                        invariant
                            j <= dirs@.len(),
                            dv == dirs@.map_values(|v: Vec<u8>| v@),
                            seen == exists|x: int| 0 <= x < j && dirs@[x]@ == d@,
                        decreases dirs@.len() - j,
                    {
                        if bytes_eq(dirs[j].as_slice(), d.as_slice()) {
                            seen = true;
                        }
                        j = j + 1;
                    }
                    proof {
                        if seen {
                            let x = choose|x: int| 0 <= x < j && dirs@[x]@ == d@;
                            assert(dv[x] == d@);
                        } else {
                            assert forall|x: int| 0 <= x < dv.len() implies dv[x] != d@ by {
                                assert(dv[x] == dirs@[x]@);
                            }
                        }
                    }
                    if !seen {
                        let ghost dd = d@;
                        dirs.push(d);
                        assert(dirs@.map_values(|v: Vec<u8>| v@) =~= dv.push(dd));
                    }
                },
            }
            i = i + 1;
        }
        assert(names.take(i as int) =~= names);
        dirs
    }

    /// Create the directories the files `ids` go in, through `fs`.
    pub fn create_parent_dirs<F: FileSystem>(&self, fs: &F, ids: &[FileId]) -> (r: Result<(), Vec<u8>>)
        requires
            self.graph.wf(),
            ids_below(ids@, self.graph.file_count()),
        ensures
            parents_of(ids@.map_values(|f: FileId| self.graph.name_of(f.0 as int))).len() == 0 ==> r is Ok,
    {
        let dirs = self.parent_dirs(ids);
        let ghost n = parents_of(ids@.map_values(|f: FileId| self.graph.name_of(f.0 as int))).len();
        assert(dirs@.len() == n) by {
            assert(dirs@.map_values(|v: Vec<u8>| v@).len() == dirs@.len());
        }
        let mut i: usize = 0;
        while i < dirs.len()
            invariant
                i <= dirs@.len(),
                dirs@.len() == n,
                n == parents_of(ids@.map_values(|f: FileId| self.graph.name_of(f.0 as int))).len(),
            decreases dirs@.len() - i,
        {
            fs.create_dir_all(dirs[i].as_slice())?;
            i = i + 1;
        }
        Ok(())
    }

    /// Want every file built, but `exclude` if given.
    pub fn want_every_file(&mut self, exclude: Option<FileId>) -> (r: Result<(), Vec<u8>>)
        requires
            old(self).inv(),
        ensures
            final(self).inv(),
            final(self).graph == old(self).graph,
            only_wanted(old(self).build_states.sts(), final(self).build_states.sts()),
            r is Ok ==> forall|f: int|
                0 <= f < old(self).graph.file_count() && exclude != Some(FileId(f as u32)) ==> #[trigger] file_wanted(
                    old(self).graph,
                    final(self).build_states.sts(),
                    f,
                ),
            r matches Err(e) ==> exists|c: Seq<FileId>| is_cycle(old(self).graph, c) && e@ == cycle_msg(old(self).graph, c),
    {
        let n = self.graph.files.len();
        let ghost s0 = self.build_states.sts();
        let mut i: usize = 0;
        while i < n
            invariant
                self.inv(),
                self.graph == old(self).graph,
                n == self.graph.file_count(),
                i <= n,
                only_wanted(s0, self.build_states.sts()),
                s0 == old(self).build_states.sts(),
                forall|f: int|
                    0 <= f < i && exclude != Some(FileId(f as u32)) ==> #[trigger] file_wanted(
                        self.graph,
                        self.build_states.sts(),
                        f,
                    ),
            decreases n - i,
        {
            let id = FileId(i as u32);
            let skip = match exclude {
                Some(x) => x == id,
                None => false,
            };
            if !skip {
                let ghost s1 = self.build_states.sts();
                self.want_file(id)?;
                proof {
                    assert forall|f: int|
                        0 <= f < i + 1 && exclude != Some(FileId(f as u32)) implies #[trigger] file_wanted(
                            self.graph,
                            self.build_states.sts(),
                            f,
                        ) by {
                        if f < i {
                            assert(file_wanted(self.graph, s1, f));
                        } else {
                            assert(FileId(f as u32) == id);
                        }
                    }
                }
            }
            i = i + 1;
        }
        Ok(())
    }

    /// Check whether a given build is ready, generally after one of its inputs
    /// has been updated: every input it needs first that another build
    /// generates has been generated.
    fn recheck_ready(&self, id: BuildId) -> (r: bool)
        requires
            self.inv(),
            id.0 < self.graph.build_count(),
        ensures
            r == forall|k: int|
                0 <= k < ordering(&self.graph.builds.view()[id.0 as int]).len() ==> (self.graph.files.view()[(
                #[trigger] ordering(&self.graph.builds.view()[id.0 as int])[k]).0 as int].input matches Some(b)
                ==> self.build_states.sts()[b.0 as int] == BuildState::Done),
    {
        let build = self.graph.build(id);
        let ins = build.ordering_ins();
        let mut k: usize = 0;
        while k < ins.len()
            invariant
                self.inv(),
                build == &self.graph.builds.view()[id.0 as int],
                build_ok(build, self.graph.file_count()),
                ins@ == ordering(build),
                k <= ins@.len(),
                forall|j: int|
                    0 <= j < k ==> (self.graph.files.view()[(#[trigger] ins@[j]).0 as int].input matches Some(b)
                        ==> self.build_states.sts()[b.0 as int] == BuildState::Done),
            decreases ins@.len() - k,
        {
            let fid = ins[k];
            assert(ins@[k as int] == build.ins.ids@[k as int]);
            match self.graph.file(fid).input {
                None => {},
                Some(b) => {
                    assert(crate::graph::file_ok(&self.graph.files.view()[fid.0 as int], self.graph.build_count()));
                    if self.build_states.get(b) != BuildState::Done {
                        return false;
                    }
                },
            }
            k = k + 1;
        }
        true
    }

    /// Return the id of any input file to a ready build step that is missing.
    /// Assumes the input dependencies have already executed, but otherwise
    /// may stat the file on disk.
    fn ensure_input_files<F: FileSystem>(&mut self, fs: &F, id: BuildId, discovered: bool) -> (r: Result<
        Option<FileId>,
        Vec<u8>,
    >)
        requires
            old(self).inv(),
            id.0 < old(self).graph.build_count(),
        ensures
            final(self).graph == old(self).graph,
            final(self).build_states == old(self).build_states,
            final(self).last_hashes == old(self).last_hashes,
            final(self).logs == old(self).logs,
            final(self).records == old(self).records,
            final(self).tasks_done == old(self).tasks_done,
            final(self).tasks_failed == old(self).tasks_failed,
            final(self).failures_left == old(self).failures_left,
            final(self).explain == old(self).explain,
            final(self).adopt == old(self).adopt,
            final(self).made_progress == old(self).made_progress,
            final(self).phase == old(self).phase,
            stamps_kept(&old(self).file_state, &final(self).file_state),
            forall|x: int| #[trigger] final(self).file_state.spec_get(x) is None ==> old(self).file_state.spec_get(x) is None,
            r matches Ok(Some(f)) ==> input_list(&old(self).graph.builds.view()[id.0 as int], discovered).contains(f)
                && final(self).file_state.spec_get(f.0 as int) == Some(MTime::Missing),
            r matches Ok(None) ==> all_stamped(
                &final(self).graph,
                &final(self).file_state,
                input_list(&old(self).graph.builds.view()[id.0 as int], discovered),
            ),
            (forall|k: int|
                0 <= k < input_list(&old(self).graph.builds.view()[id.0 as int], discovered).len()
                    ==> old(self).file_state.spec_get(
                    (#[trigger] input_list(&old(self).graph.builds.view()[id.0 as int], discovered)[k]).0 as int,
                ) is Some) ==> r is Ok,
            r matches Err(e) ==> exists|k: int|
                0 <= k < input_list(&old(self).graph.builds.view()[id.0 as int], discovered).len()
                    && unstat_error(
                    &old(self),
                    #[trigger] input_list(&old(self).graph.builds.view()[id.0 as int], discovered)[k],
                    e@,
                ),
    {
        let build = self.graph.build(id);
        assert(build_ok(build, self.graph.file_count()));
        let ids = if discovered {
            build.discovered_ins()
        } else {
            build.dirtying_ins()
        };
        let ghost fs0 = self.file_state;
        let mut k: usize = 0;
        while k < ids.len()
            invariant
                self.graph.wf(),
                build == &self.graph.builds.view()[id.0 as int],
                build_ok(build, self.graph.file_count()),
                ids@ == input_list(build, discovered),
                k <= ids@.len(),
                stamps_kept(&fs0, &self.file_state),
                forall|x: int| #[trigger] fs0.spec_get(x) is Some ==> self.file_state.spec_get(x) is Some,
                forall|x: int| #[trigger] self.file_state.spec_get(x) is None ==> fs0.spec_get(x) is None,
                fs0 == old(self).file_state,
                self.graph == old(self).graph,
                self.build_states == old(self).build_states,
                self.last_hashes == old(self).last_hashes,
                self.logs == old(self).logs,
                self.records == old(self).records,
                self.tasks_done == old(self).tasks_done,
                self.tasks_failed == old(self).tasks_failed,
                self.failures_left == old(self).failures_left,
                self.explain == old(self).explain,
                self.adopt == old(self).adopt,
                self.made_progress == old(self).made_progress,
                self.phase == old(self).phase,
                forall|j: int|
                    0 <= j < k ==> (#[trigger] self.file_state.spec_get(ids@[j].0 as int)) matches Some(
                        MTime::Stamp(_),
                    ),
            decreases ids@.len() - k,
        {
            let fid = ids[k];
            assert(fid.0 < self.graph.file_count()) by {
                if discovered {
                    assert(build.discovered_ins@[k as int] == fid);
                } else {
                    assert(build.ins.ids@[k as int] == fid);
                }
            }
            let mtime = match self.file_state.get(fid) {
                Some(m) => m,
                None => {
                    let file = self.graph.file(fid);
                    if file.input.is_some() {
                        let mut msg = bytes_of("used generated file ");
                        push_slice(&mut msg, file.name.as_slice());
                        push_bytes(&mut msg, ", but has no dependency path to it");
                        proof {
                            assert(ids@[k as int] == fid);
                            assert(unstat_error(&*old(self), ids@[k as int], msg@));
                        }
                        return Err(msg);
                    }
                    match fs.stat(file.name.as_slice()) {
                        Ok(m) => {
                            let ghost before = self.file_state;
                            let r = self.file_state.restat(fid, m);
                            proof {
                                assert forall|x: int| #[trigger] fs0.spec_get(x) is Some implies self.file_state.spec_get(x) is Some by {
                                    assert(before.spec_get(x) is Some);
                                }
                                assert forall|x: int| #[trigger] self.file_state.spec_get(x) is None implies fs0.spec_get(x) is None by {
                                    assert(before.spec_get(x) is None);
                                }
                                assert forall|x: int| (#[trigger] fs0.spec_get(x)) matches Some(MTime::Stamp(_)) implies self.file_state.spec_get(
                                    x,
                                ) matches Some(MTime::Stamp(_)) by {
                                    assert(before.spec_get(x) matches Some(MTime::Stamp(_)));
                                    if x == fid.0 {
                                        assert(before.spec_get(x) is None);
                                    }
                                }
                            }
                            r
                        },
                        Err(e) => {
                            let mut msg = bytes_of("stat ");
                            push_slice(&mut msg, file.name.as_slice());
                            push_bytes(&mut msg, ": ");
                            let ghost pre = msg@;
                            push_slice(&mut msg, e.as_slice());
                            proof {
                                assert(msg@.subrange(0, pre.len() as int) =~= pre);
                                assert(ids@[k as int] == fid);
                                assert(unstat_error(&*old(self), ids@[k as int], msg@));
                            }
                            return Err(msg);
                        },
                    }
                },
            };
            if mtime == MTime::Missing {
                proof {
                    assert(ids@[k as int] == fid);
                    assert(ids@.contains(fid));
                }
                return Ok(Some(fid));
            }
            proof {
                assert forall|j: int| 0 <= j < k + 1 implies (#[trigger] self.file_state.spec_get(
                    ids@[j].0 as int,
                )) matches Some(MTime::Stamp(_)) by {
                    if j < k {
                        assert(self.file_state.spec_get(ids@[j].0 as int) matches Some(MTime::Stamp(_)));
                    } else {
                        assert(ids@[j] == fid);
                    }
                }
            }
            k = k + 1;
        }
        proof {
            assert forall|j: int| 0 <= j < ids@.len() implies (#[trigger] ids@[j]).0 < self.graph.file_count() by {
                if discovered {
                    assert(build.discovered_ins@[j] == ids@[j]);
                } else {
                    assert(build.ins.ids@[j] == ids@[j]);
                }
            }
        }
        Ok(None)
    }
}

/// The fields of `b` other than the file states, logs and records are
/// those of `a`.
pub open spec fn same_run_state(a: &Work, b: &Work) -> bool {
    &&& b.graph == a.graph
    &&& b.build_states == a.build_states
    &&& b.last_hashes == a.last_hashes
    &&& b.tasks_done == a.tasks_done
    &&& b.tasks_failed == a.tasks_failed
    &&& b.failures_left == a.failures_left
    &&& b.explain == a.explain
    &&& b.adopt == a.adopt
    &&& b.made_progress == a.made_progress
    &&& b.phase == a.phase
}

impl Work {
    /// Stat all the input/output files for a given build in anticipation of
    /// deciding whether it needs to be run again.
    /// Prereq: any dependent input is already generated.
    /// Returns a build error if any required input files are missing.
    /// Otherwise returns the missing id if any expected but not required files,
    /// e.g. outputs, are missing, implying that the build needs to be executed.
    fn check_build_files_missing<F: FileSystem>(&mut self, fs: &F, id: BuildId) -> (r: Result<
        Option<FileId>,
        Vec<u8>,
    >)
        requires
            old(self).inv(),
            id.0 < old(self).graph.build_count(),
        ensures
            same_run_state(old(self), final(self)),
            final(self).logs == old(self).logs,
            final(self).records == old(self).records,
            r matches Ok(Some(f)) ==> f.0 < final(self).graph.file_count() && final(self).file_state.spec_get(
                f.0 as int,
            ) == Some(MTime::Missing) && !hashable(
                &final(self).graph,
                &final(self).file_state,
                &final(self).graph.builds.view()[id.0 as int],
            ),
            r matches Ok(None) ==> hashable(
                &final(self).graph,
                &final(self).file_state,
                &final(self).graph.builds.view()[id.0 as int],
            ),
            r matches Err(e) ==> files_missing_error(&*old(self), id, e@),
    {
        let phony = self.graph.build(id).cmdline.is_none();
        match self.ensure_input_files(fs, id, false) {
            Err(e) => {
                return Err(e);
            },
            Ok(Some(missing)) => {
                let build = self.graph.build(id);
                assert(build_ok(build, self.graph.file_count()));
                proof {
                    let d = dirtying(build);
                    let k = choose|k: int| 0 <= k < d.len() && d[k] == missing;
                    assert(build.ins.ids@[k] == missing);
                }
                let file = self.graph.file(missing);
                if file.input.is_none() && !phony {
                    let mut msg = build.location.to_text();
                    push_bytes(&mut msg, ": input ");
                    push_slice(&mut msg, file.name.as_slice());
                    push_bytes(&mut msg, " missing");
                    proof {
                        let d = dirtying(build);
                        let k = choose|k: int| 0 <= k < d.len() && d[k] == missing;
                        assert(d[k] == missing);
                        assert(files_missing_error(&*old(self), id, msg@));
                    }
                    return Err(msg);
                }
                return Ok(Some(missing));
            },
            Ok(None) => {},
        }
        let ghost fs1 = self.file_state;
        let ghost w1 = *self;
        match self.ensure_input_files(fs, id, true) {
            Err(e) => {
                proof {
                    let di = self.graph.builds.view()[id.0 as int].discovered_ins@;
                    let k = choose|k: int| 0 <= k < di.len() && unstat_error(&w1, #[trigger] di[k], e@);
                    assert(unstat_error(&*old(self), di[k], e@));
                }
                return Err(e);
            },
            Ok(Some(missing)) => {
                proof {
                    let build = self.graph.builds.view()[id.0 as int];
                    assert(build_ok(&build, self.graph.file_count()));
                    let d = build.discovered_ins@;
                    let k = choose|k: int| 0 <= k < d.len() && d[k] == missing;
                }
                return Ok(Some(missing));
            },
            Ok(None) => {},
        }
        let build = self.graph.build(id);
        assert(build_ok(build, self.graph.file_count()));
        let ghost fs2 = self.file_state;
        proof {
            let d = dirtying(build);
            assert forall|k: int| 0 <= k < d.len() implies (#[trigger] self.file_state.spec_get(d[k].0 as int)) matches Some(
                MTime::Stamp(_),
            ) by {
                assert(fs1.spec_get(d[k].0 as int) matches Some(MTime::Stamp(_)));
            }
        }
        // Stat all the outputs.
        // We know this build is solely responsible for updating these outputs,
        // and if we're checking if it's dirty we are visiting it the first
        // time, so we stat unconditionally.
        let outs = build.outs();
        let mut k: usize = 0;
        while k < outs.len()
            invariant
                self.graph.wf(),
                build == &self.graph.builds.view()[id.0 as int],
                build_ok(build, self.graph.file_count()),
                outs@ == build.outs.ids@,
                k <= outs@.len(),
                stamps_kept(&fs2, &self.file_state),
                all_stamped(&self.graph, &fs2, dirtying(build)),
                all_stamped(&self.graph, &fs2, build.discovered_ins@),
                same_run_state(old(self), self),
                self.logs == old(self).logs,
                self.records == old(self).records,
                forall|j: int|
                    0 <= j < k ==> (#[trigger] self.file_state.spec_get(outs@[j].0 as int)) matches Some(
                        MTime::Stamp(_),
                    ),
            decreases outs@.len() - k,
        {
            let fid = outs[k];
            let file = self.graph.file(fid);
            let mtime = match fs.stat(file.name.as_slice()) {
                Ok(m) => m,
                Err(e) => {
                    let mut msg = bytes_of("stat ");
                    push_slice(&mut msg, file.name.as_slice());
                    push_bytes(&mut msg, ": ");
                    let ghost pre = msg@;
                    push_slice(&mut msg, e.as_slice());
                    proof {
                        assert(msg@.subrange(0, pre.len() as int) =~= pre);
                        assert(outs@[k as int] == fid);
                        assert(files_missing_error(&*old(self), id, msg@));
                    }
                    return Err(msg);
                },
            };
            let ghost before = self.file_state;
            self.file_state.restat(fid, mtime);
            if mtime == MTime::Missing {
                proof {
                    assert(outs@[k as int] == fid);
                    assert(!(self.file_state.spec_get(outs@[k as int].0 as int) matches Some(MTime::Stamp(_))));
                }
                return Ok(Some(fid));
            }
            proof {
                assert forall|x: int| (#[trigger] fs2.spec_get(x)) matches Some(MTime::Stamp(_)) implies self.file_state.spec_get(
                    x,
                ) matches Some(MTime::Stamp(_)) by {
                    assert(before.spec_get(x) matches Some(MTime::Stamp(_)));
                }
                assert forall|j: int| 0 <= j < k + 1 implies (#[trigger] self.file_state.spec_get(
                    outs@[j].0 as int,
                )) matches Some(MTime::Stamp(_)) by {
                    if j < k {
                        assert(before.spec_get(outs@[j].0 as int) matches Some(MTime::Stamp(_)));
                    }
                }
            }
            k = k + 1;
        }
        proof {
            let d = dirtying(build);
            assert forall|j: int| 0 <= j < d.len() implies (#[trigger] self.file_state.spec_get(d[j].0 as int)) matches Some(
                MTime::Stamp(_),
            ) by {
                assert(fs2.spec_get(d[j].0 as int) matches Some(MTime::Stamp(_)));
            }
            let di = build.discovered_ins@;
            assert forall|j: int| 0 <= j < di.len() implies (#[trigger] self.file_state.spec_get(di[j].0 as int)) matches Some(
                MTime::Stamp(_),
            ) by {
                assert(fs2.spec_get(di[j].0 as int) matches Some(MTime::Stamp(_)));
            }
        }
        Ok(None)
    }

    /// Check a ready build for whether it needs to run, returning true if so.
    /// Prereq: any dependent input is already generated.
    pub fn check_build_dirty<F: FileSystem>(&mut self, fs: &F, id: BuildId) -> (r: Result<bool, Vec<u8>>)
        requires
            old(self).inv(),
            id.0 < old(self).graph.build_count(),
        ensures
            same_run_state(old(self), final(self)),
            final(self).records == old(self).records,
            !old(self).explain ==> final(self).logs == old(self).logs,
            r matches Ok(d) ==> d == final(self).spec_dirty(id),
            r matches Err(e) ==> files_missing_error(&*old(self), id, e@),
    {
        let file_missing = match self.check_build_files_missing(fs, id) {
            Ok(m) => m,
            Err(e) => {
                return Err(e);
            },
        };
        let build = self.graph.build(id);
        // A phony build can never be dirty.
        if build.cmdline.is_none() {
            return Ok(false);
        }
        // If any files are missing, the build is dirty without needing
        // to consider hashes.
        match file_missing {
            Some(missing) => {
                if self.explain {
                    let mut msg = bytes_of("explain: ");
                    let loc = build.location.to_text();
                    push_slice(&mut msg, loc.as_slice());
                    push_bytes(&mut msg, ": input ");
                    push_slice(&mut msg, self.graph.file(missing).name.as_slice());
                    push_bytes(&mut msg, " missing");
                    self.logs.push(msg);
                }
                return Ok(true);
            },
            None => {},
        }
        // If we get here, all the relevant files are present and stat()ed,
        // so compare the hash against the last hash.
        let prev_hash = match self.last_hashes.get(id) {
            None => {
                if self.explain {
                    let mut msg = bytes_of("explain: ");
                    let loc = build.location.to_text();
                    push_slice(&mut msg, loc.as_slice());
                    push_bytes(&mut msg, ": no previous state known");
                    self.logs.push(msg);
                }
                return Ok(true);
            },
            Some(h) => h,
        };
        let hash = hash_build(&self.graph, &self.file_state, build);
        if prev_hash.0 != hash.0 {
            if self.explain {
                let mut msg = bytes_of("explain: ");
                let loc = build.location.to_text();
                push_slice(&mut msg, loc.as_slice());
                push_bytes(&mut msg, ": manifest changed");
                self.logs.push(msg);
                let text = explain_hash_build(&self.graph, &self.file_state, build);
                self.logs.push(text);
            }
            return Ok(true);
        }
        Ok(false)
    }
}

/// Wanting builds finishes none.
pub proof fn lemma_only_wanted_finished(a: Seq<BuildState>, b: Seq<BuildState>)
    requires
        only_wanted(a, b),
    ensures
        count_where(b.len() as int, finished_in(b)) == count_where(a.len() as int, finished_in(a)),
{
    assert forall|j: int| 0 <= j < a.len() implies #[trigger] finished_in(a)(j) == finished_in(b)(j) by {
        assert(b[j] == a[j] || (a[j] == BuildState::Unknown && (b[j] == BuildState::Want || b[j]
            == BuildState::Ready)));
    }
    lemma_count_same(a.len() as int, finished_in(a), finished_in(b));
}

/// The states' invariant holds in any graph with the same builds, as far
/// as phoniness and pools go.
pub proof fn lemma_inv_graph(bs: &BuildStates, g1: Graph, g2: Graph)
    requires
        bs.inv(g1),
        g2.build_count() == g1.build_count(),
        forall|b: int|
            0 <= b < g1.build_count() ==> (#[trigger] g2.builds.view()[b]).cmdline == g1.builds.view()[b].cmdline
                && g2.builds.view()[b].pool == g1.builds.view()[b].pool,
    ensures
        bs.inv(g2),
{
    let n = bs.sts().len() as int;
    assert forall|s: BuildState| s != BuildState::Unknown implies #[trigger] bs.counts.0@[state_slot(s)]
        == count_where(n, counted_in(bs.sts(), g2, s)) by {
        assert forall|j: int| 0 <= j < n implies #[trigger] counted_in(bs.sts(), g1, s)(j) == counted_in(
            bs.sts(),
            g2,
            s,
        )(j) by {
            assert(g2.builds.view()[j].cmdline == g1.builds.view()[j].cmdline);
        }
        lemma_count_same(n, counted_in(bs.sts(), g1, s), counted_in(bs.sts(), g2, s));
    }
    assert forall|i: int| 0 <= i < n implies #[trigger] bs.pool_of(g2, i) == bs.pool_of(g1, i) by {
        assert(g2.builds.view()[i].pool == g1.builds.view()[i].pool);
    }
    assert forall|j: int| 0 <= j < bs.pool_vals().len() implies (#[trigger] bs.pool_vals()[j]).running
        == count_where(n, running_in(bs.sts(), g2, bs.pool_keys(), j)) by {
        assert forall|x: int| 0 <= x < n implies #[trigger] running_in(bs.sts(), g1, bs.pool_keys(), j)(x)
            == running_in(bs.sts(), g2, bs.pool_keys(), j)(x) by {
            assert(bs.pool_of(g2, x) == bs.pool_of(g1, x));
        }
        lemma_count_same(n, running_in(bs.sts(), g1, bs.pool_keys(), j), running_in(bs.sts(), g2, bs.pool_keys(), j));
    }
    assert forall|i: int| 0 <= i < n && bs.sts()[i] == BuildState::Running implies #[trigger] bs.pool_of(g2, i)
        < bs.pool_keys().len() by {
        assert(bs.pool_of(g1, i) < bs.pool_keys().len());
    }
    assert forall|j: int, k: int|
        0 <= j < bs.pool_vals().len() && 0 <= k < bs.pool_vals()[j].queued@.len() implies {
            let q = #[trigger] bs.pool_vals()[j].queued@[k];
            &&& bs.pool_of(g2, q.0 as int) == j
            &&& bs.sts()[q.0 as int] == BuildState::Queued
        } by {
        let q = bs.pool_vals()[j].queued@[k];
        assert(bs.pool_of(g1, q.0 as int) == j);
        assert(bs.pool_of(g2, q.0 as int) == bs.pool_of(g1, q.0 as int));
    }
}

impl Work {
    /// Given a build that just finished, check whether its dependent builds are now ready.
    fn ready_dependents(&mut self, id: BuildId)
        requires
            old(self).inv(),
            id.0 < old(self).graph.build_count(),
            old(self).build_states.sts()[id.0 as int] == BuildState::Running || (old(self).build_states.sts()[id.0 as int]
                == BuildState::Ready && !old(self).build_states.ready@.contains(id)),
        ensures
            final(self).inv(),
            final(self).graph == old(self).graph,
            final(self).file_state == old(self).file_state,
            final(self).last_hashes == old(self).last_hashes,
            final(self).tasks_done == old(self).tasks_done,
            final(self).tasks_failed == old(self).tasks_failed,
            final(self).failures_left == old(self).failures_left,
            final(self).explain == old(self).explain,
            final(self).adopt == old(self).adopt,
            final(self).made_progress == old(self).made_progress,
            final(self).phase == old(self).phase,
            final(self).logs == old(self).logs,
            final(self).records == old(self).records,
            final(self).build_states.sts()[id.0 as int] == BuildState::Done,
            count_where(final(self).build_states.sts().len() as int, finished_in(final(self).build_states.sts()))
                == count_where(old(self).build_states.sts().len() as int, finished_in(old(self).build_states.sts()))
                + 1,
            forall|x: int|
                0 <= x < old(self).graph.build_count() && x != id.0 ==> #[trigger] final(self).build_states.sts()[x]
                    == old(self).build_states.sts()[x] || (old(self).build_states.sts()[x] == BuildState::Want
                    && final(self).build_states.sts()[x] == BuildState::Ready),
    {
        let ghost s0 = self.build_states.sts();
        let ghost n = s0.len() as int;
        self.build_states.set(&self.graph, id, BuildState::Done);
        let ghost c1 = count_where(n, finished_in(self.build_states.sts()));
        let mut dependents: Vec<BuildId> = Vec::new();
        let build = self.graph.build(id);
        assert(build_ok(build, self.graph.file_count()));
        let outs = build.outs();
        let mut k: usize = 0;
        while k < outs.len()
            invariant
                self.inv(),
                build == &self.graph.builds.view()[id.0 as int],
                build_ok(build, self.graph.file_count()),
                outs@ == build.outs.ids@,
                k <= outs@.len(),
                forall|j: int| 0 <= j < dependents@.len() ==> (#[trigger] dependents@[j]).0 < self.graph.build_count(),
            decreases outs@.len() - k,
        {
            let file = self.graph.file(outs[k]);
            assert(crate::graph::file_ok(&self.graph.files.view()[outs@[k as int].0 as int], self.graph.build_count()));
            let mut j: usize = 0;
            while j < file.dependents.len()
                invariant
                    self.inv(),
                    crate::graph::file_ok(file, self.graph.build_count()),
                    j <= file.dependents@.len(),
                    forall|x: int| 0 <= x < dependents@.len() ==> (#[trigger] dependents@[x]).0 < self.graph.build_count(),
                decreases file.dependents@.len() - j,
            {
                let d = file.dependents[j];
                if self.build_states.get(d) == BuildState::Want && !contains_build(dependents.as_slice(), d) {
                    dependents.push(d);
                }
                j = j + 1;
            }
            k = k + 1;
        }
        let mut k: usize = 0;
        while k < dependents.len()
            invariant
                self.inv(),
                k <= dependents@.len(),
                forall|x: int| 0 <= x < dependents@.len() ==> (#[trigger] dependents@[x]).0 < self.graph.build_count(),
                self.graph == old(self).graph,
                self.file_state == old(self).file_state,
                self.last_hashes == old(self).last_hashes,
                self.tasks_done == old(self).tasks_done,
                self.tasks_failed == old(self).tasks_failed,
                self.failures_left == old(self).failures_left,
                self.explain == old(self).explain,
                self.adopt == old(self).adopt,
                self.made_progress == old(self).made_progress,
                self.phase == old(self).phase,
                self.logs == old(self).logs,
                self.records == old(self).records,
                self.build_states.sts()[id.0 as int] == BuildState::Done,
                count_where(n, finished_in(self.build_states.sts())) == c1,
                c1 == count_where(n, finished_in(s0)) + 1,
                n == self.build_states.sts().len(),
                id.0 < n,
                s0 == old(self).build_states.sts(),
                forall|x: int|
                    0 <= x < n && x != id.0 ==> #[trigger] self.build_states.sts()[x] == s0[x] || (s0[x]
                        == BuildState::Want && self.build_states.sts()[x] == BuildState::Ready),
            decreases dependents@.len() - k,
        {
            let d = dependents[k];
            if self.recheck_ready(d) && self.build_states.get(d) == BuildState::Want {
                let ghost sb = self.build_states.sts();
                assert(d.0 != id.0);
                self.build_states.set(&self.graph, d, BuildState::Ready);
                proof {
                    assert forall|x: int| 0 <= x < n && x != id.0 implies #[trigger] self.build_states.sts()[x]
                        == s0[x] || (s0[x] == BuildState::Want && self.build_states.sts()[x] == BuildState::Ready) by {
                        if x == d.0 {
                            assert(sb[x] == BuildState::Want);
                        } else {
                            assert(self.build_states.sts()[x] == sb[x]);
                        }
                    }
                }
            }
            k = k + 1;
        }
    }
}

impl Work {
    /// The file id for a reported dependency name, adding a file when it is new.
    fn dep_id(&mut self, name: &Vec<u8>) -> (r: Result<FileId, Vec<u8>>)
        requires
            old(self).inv(),
        ensures
            final(self).inv(),
            crate::load::names_kept(&old(self).graph, &final(self).graph),
            final(self).graph.builds.view() == old(self).graph.builds.view(),
            final(self).file_state == old(self).file_state,
            final(self).build_states == old(self).build_states,
            final(self).last_hashes == old(self).last_hashes,
            final(self).tasks_done == old(self).tasks_done,
            final(self).tasks_failed == old(self).tasks_failed,
            final(self).failures_left == old(self).failures_left,
            final(self).explain == old(self).explain,
            final(self).adopt == old(self).adopt,
            final(self).made_progress == old(self).made_progress,
            final(self).phase == old(self).phase,
            final(self).logs == old(self).logs,
            final(self).records == old(self).records,
            r matches Ok(f) ==> name@.len() > 0 && f.0 < final(self).graph.file_count() && final(self).graph.name_of(
                f.0 as int,
            ) == crate::canon::spec_canon_path(name@),
            name@.len() == 0 ==> (r matches Err(e) && e@ == "empty path".spec_bytes()),
            name@.len() > 0 && old(self).graph.spec_lookup(crate::canon::spec_canon_path(name@)) is Some ==> r == Ok::<
                FileId,
                Vec<u8>,
            >(old(self).graph.spec_lookup(crate::canon::spec_canon_path(name@)).unwrap()),
            name@.len() > 0 && old(self).graph.file_count() < u32::MAX ==> r is Ok,
            r matches Err(e) ==> (name@.len() == 0 && e@ == "empty path".spec_bytes()) || (name@.len() > 0
                && e@ == "too many files".spec_bytes() && old(self).graph.file_count() >= u32::MAX),
            final(self).graph.file_count() <= old(self).graph.file_count() + 1,
    {
        if name.len() == 0 {
            return Err(bytes_of("empty path"));
        }
        let canon = crate::canon::canon_path(name.as_slice());
        match self.graph.lookup(canon.as_slice()) {
            Some(f) => Ok(f),
            None => {
                if self.graph.files.len() >= 0xffff_ffffusize {
                    return Err(bytes_of("too many files"));
                }
                let ghost g0 = self.graph;
                let f = self.graph.file_id(canon);
                proof {
                    lemma_inv_graph(&self.build_states, g0, self.graph);
                    assert forall|i: int| 0 <= i < g0.file_count() implies #[trigger] self.graph.name_of(i)
                        == g0.name_of(i) by {
                        assert(self.graph.files.view()[i] == g0.files.view()[i]);
                    }
                }
                Ok(f)
            },
        }
    }

    /// Given a task that just finished, record any discovered deps and hash.
    /// Postcondition: all outputs have been stat()ed.
    pub fn record_finished<F: FileSystem>(&mut self, fs: &F, id: BuildId, result: TaskResult) -> (r: Result<
        (),
        Vec<u8>,
    >)
        requires
            old(self).inv(),
            id.0 < old(self).graph.build_count(),
        ensures
            final(self).inv(),
            crate::load::names_kept(&old(self).graph, &final(self).graph),
            final(self).graph.build_count() == old(self).graph.build_count(),
            final(self).build_states == old(self).build_states,
            final(self).last_hashes == old(self).last_hashes,
            final(self).tasks_done == old(self).tasks_done,
            final(self).tasks_failed == old(self).tasks_failed,
            final(self).failures_left == old(self).failures_left,
            final(self).explain == old(self).explain,
            final(self).adopt == old(self).adopt,
            final(self).made_progress == old(self).made_progress,
            final(self).phase == old(self).phase,
            final(self).logs == old(self).logs,
            r is Ok ==> {
                let b = final(self).graph.builds.view()[id.0 as int];
                &&& final(self).records@ == old(self).records@ || (hashable(
                    &final(self).graph,
                    &final(self).file_state,
                    &b,
                ) && final(self).records@ == old(self).records@.push(
                    (id, BuildHash(DefaultHasher::spec_finish(manifest(&final(self).graph, &final(self).file_state, &b)))),
                ))
                &&& forall|k: int|
                    0 <= k < b.discovered_ins@.len() ==> !dirtying(&b).contains(#[trigger] b.discovered_ins@[k])
            },
            result.discovered_deps matches Some(names) && (exists|k: int|
                0 <= k < names@.len() && (#[trigger] names@[k])@.len() == 0) && old(self).graph.file_count()
                + names@.len() < u32::MAX ==> (r matches Err(e) && e@ == "empty path".spec_bytes()),
            r matches Err(e) ==> finish_error(&*old(self), final(self).graph, id, e@),
    {
        // Clean up the deps discovered from the task.
        let mut deps: Vec<FileId> = Vec::new();
        match &result.discovered_deps {
            Some(names) => {
                let mut k: usize = 0;
                while k < names.len()
                    invariant
                        self.inv(),
                        k <= names@.len(),
                        id.0 < self.graph.build_count(),
                        ids_below(deps@, self.graph.file_count()),
                        crate::load::names_kept(&old(self).graph, &self.graph),
                        self.graph.builds.view() == old(self).graph.builds.view(),
                        self.file_state == old(self).file_state,
                        self.build_states == old(self).build_states,
                        self.last_hashes == old(self).last_hashes,
                        self.tasks_done == old(self).tasks_done,
                        self.tasks_failed == old(self).tasks_failed,
                        self.failures_left == old(self).failures_left,
                        self.explain == old(self).explain,
                        self.adopt == old(self).adopt,
                        self.made_progress == old(self).made_progress,
                        self.phase == old(self).phase,
                        self.logs == old(self).logs,
                        self.records == old(self).records,
                        self.graph.file_count() <= old(self).graph.file_count() + k,
                        forall|j: int| 0 <= j < k ==> (#[trigger] names@[j])@.len() > 0,
                        result.discovered_deps == Some(*names),
                    decreases names@.len() - k,
                {
                    let ghost g1 = self.graph;
                    let fid = match self.dep_id(&names[k]) {
                        Ok(f) => f,
                        Err(e) => {
                            proof {
                                if old(self).graph.file_count() + names@.len() < u32::MAX {
                                    assert(g1.file_count() < u32::MAX);
                                    assert(names@[k as int]@.len() == 0);
                                    assert(e@ == "empty path".spec_bytes());
                                }
                            }
                            return Err(e);
                        },
                    };
                    proof {
                        assert forall|i: int| 0 <= i < old(self).graph.file_count() implies #[trigger] self.graph.name_of(i)
                            == old(self).graph.name_of(i) by {
                            assert(g1.name_of(i) == old(self).graph.name_of(i));
                        }
                    }
                    let build = self.graph.build(id);
                    assert(build_ok(build, self.graph.file_count()));
                    // Filter duplicates from the file list, and any deps that were
                    // already dirtying in the build file.
                    if !contains_id(deps.as_slice(), fid) && !contains_id(build.dirtying_ins(), fid) {
                        deps.push(fid);
                    }
                    k = k + 1;
                }
                proof {
                    assert(forall|j: int| 0 <= j < names@.len() ==> (#[trigger] names@[j])@.len() > 0);
                }
            },
            None => {},
        }
        assert(result.discovered_deps matches Some(names) ==> forall|j: int|
            0 <= j < names@.len() ==> (#[trigger] names@[j])@.len() > 0);
        // We may have discovered new deps, so ensure we have mtimes for those.
        let ghost g2 = self.graph;
        let deps_changed = self.graph.update_discovered(id, deps);
        proof {
            lemma_inv_graph(&self.build_states, g2, self.graph);
            assert forall|b: int| 0 <= b < g2.build_count() implies (#[trigger] self.graph.builds.view()[b]).ins
                == g2.builds.view()[b].ins by {
                if b != id.0 {
                    assert(self.graph.builds.view()[b] == g2.builds.view()[b]);
                }
            }
            lemma_ordered_graph(g2, self.graph, self.build_states.sts());
            crate::graph::lemma_without_listed_out(
                deps@,
                dirtying(&g2.builds.view()[id.0 as int]),
            );
            assert forall|i: int| 0 <= i < old(self).graph.file_count() implies #[trigger] self.graph.name_of(i)
                == old(self).graph.name_of(i) by {
                assert(g2.name_of(i) == old(self).graph.name_of(i));
            }
        }
        let ghost fs_mid = self.file_state;
        assert(fs_mid == old(self).file_state);
        let ghost w_mid = *self;
        if deps_changed {
            match self.ensure_input_files(fs, id, true) {
                Err(e) => {
                    proof {
                        let di = self.graph.builds.view()[id.0 as int].discovered_ins@;
                        let k = choose|k: int| 0 <= k < di.len() && unstat_error(&w_mid, #[trigger] di[k], e@);
                        assert(unstat_error_in(self.graph, fs_mid, di[k], e@));
                    }
                    return Err(e);
                },
                Ok(Some(missing)) => {
                    let build = self.graph.build(id);
                    assert(build_ok(build, self.graph.file_count()));
                    proof {
                        let d = build.discovered_ins@;
                        let k = choose|k: int| 0 <= k < d.len() && d[k] == missing;
                    }
                    let mut msg = build.location.to_text();
                    push_bytes(&mut msg, " depfile references nonexistent ");
                    push_slice(&mut msg, self.graph.file(missing).name.as_slice());
                    return Err(msg);
                },
                Ok(None) => {},
            }
        }
        let build = self.graph.build(id);
        assert(build_ok(build, self.graph.file_count()));
        let mut input_was_missing = false;
        let ins = build.dirtying_ins();
        let mut k: usize = 0;
        while k < ins.len()
            invariant
                k <= ins@.len(),
                ins@ == dirtying(build),
                !input_was_missing ==> forall|j: int|
                    0 <= j < k ==> (#[trigger] self.file_state.spec_get(ins@[j].0 as int)) matches Some(MTime::Stamp(_)),
            decreases ins@.len() - k,
        {
            match self.file_state.get(ins[k]) {
                Some(MTime::Stamp(_)) => {},
                _ => {
                    input_was_missing = true;
                },
            }
            k = k + 1;
        }
        // Stat all the outputs.  This step just finished, so we need to update
        // any cached state of the output files to reflect their new state.
        let mut output_missing = false;
        let outs = build.outs();
        let mut k: usize = 0;
        while k < outs.len()
            invariant
                self.inv(),
                build == &self.graph.builds.view()[id.0 as int],
                build_ok(build, self.graph.file_count()),
                outs@ == build.outs.ids@,
                k <= outs@.len(),
                crate::load::names_kept(&old(self).graph, &self.graph),
                self.graph.build_count() == old(self).graph.build_count(),
                self.build_states == old(self).build_states,
                self.last_hashes == old(self).last_hashes,
                self.tasks_done == old(self).tasks_done,
                self.tasks_failed == old(self).tasks_failed,
                self.failures_left == old(self).failures_left,
                self.explain == old(self).explain,
                self.adopt == old(self).adopt,
                self.made_progress == old(self).made_progress,
                self.phase == old(self).phase,
                self.logs == old(self).logs,
                self.records == old(self).records,
                forall|j: int|
                    0 <= j < build.discovered_ins@.len() ==> !dirtying(build).contains(#[trigger] build.discovered_ins@[j]),
                result.discovered_deps matches Some(names) ==> forall|j: int|
                    0 <= j < names@.len() ==> (#[trigger] names@[j])@.len() > 0,
            decreases outs@.len() - k,
        {
            let fid = outs[k];
            let file = self.graph.file(fid);
            let mtime = match fs.stat(file.name.as_slice()) {
                Ok(m) => m,
                Err(e) => {
                    let mut msg = bytes_of("stat ");
                    push_slice(&mut msg, file.name.as_slice());
                    push_bytes(&mut msg, ": ");
                    let ghost pre = msg@;
                    push_slice(&mut msg, e.as_slice());
                    proof {
                        assert(msg@.subrange(0, pre.len() as int) =~= pre);
                        assert(outs@[k as int] == fid);
                    }
                    return Err(msg);
                },
            };
            self.file_state.restat(fid, mtime);
            if mtime == MTime::Missing {
                output_missing = true;
            }
            k = k + 1;
        }
        if input_was_missing || output_missing {
            // If a file is missing, don't record the build in in the db.
            // It will be considered dirty next time anyway due to the missing file.
            return Ok(());
        }
        if !self.all_present(build.dirtying_ins()) || !self.all_present(build.discovered_ins()) || !self.all_present(
            build.outs(),
        ) {
            return Ok(());
        }
        let hash = hash_build(&self.graph, &self.file_state, build);
        self.records.push((id, hash));
        Ok(())
    }

    /// Every file of `ids` is known to be present.
    fn all_present(&self, ids: &[FileId]) -> (r: bool)
        requires
            ids_below(ids@, self.graph.file_count()),
        ensures
            r == all_stamped(&self.graph, &self.file_state, ids@),
    {
        let mut k: usize = 0;
        while k < ids.len()
            invariant
                k <= ids@.len(),
                forall|j: int|
                    0 <= j < k ==> (#[trigger] self.file_state.spec_get(ids@[j].0 as int)) matches Some(MTime::Stamp(_)),
            decreases ids@.len() - k,
        {
            match self.file_state.get(ids[k]) {
                Some(MTime::Stamp(_)) => {},
                _ => {
                    return false;
                },
            }
            k = k + 1;
        }
        true
    }
}

impl Work {
    /// Check a ready build: finish it at once if it is up to date (or, when
    /// adopting, record it as if it ran), else queue it to run.
    fn process_ready<F: FileSystem>(&mut self, fs: &F, id: BuildId) -> (r: Result<(), Vec<u8>>)
        requires
            old(self).inv(),
            id.0 < old(self).graph.build_count(),
            old(self).build_states.sts()[id.0 as int] == BuildState::Ready,
            !old(self).build_states.ready@.contains(id),
        ensures
            final(self).inv(),
            final(self).tasks_done == old(self).tasks_done,
            final(self).tasks_failed == old(self).tasks_failed,
            final(self).failures_left == old(self).failures_left,
            final(self).explain == old(self).explain,
            final(self).adopt == old(self).adopt,
            final(self).made_progress == old(self).made_progress,
            final(self).phase == old(self).phase,
            final(self).graph.build_count() == old(self).graph.build_count(),
            r is Ok ==> final(self).build_states.sts()[id.0 as int] == BuildState::Done
                || final(self).build_states.sts()[id.0 as int] == BuildState::Queued,
            r is Ok && old(self).adopt ==> final(self).build_states.sts()[id.0 as int] == BuildState::Done,
            r is Ok && !old(self).adopt ==> (final(self).build_states.sts()[id.0 as int] == BuildState::Queued
                <==> final(self).spec_dirty(id)),
            r matches Err(e) ==> ready_error(&*old(self), final(self).graph, id, e@),
    {
        let dirty = match self.check_build_dirty(fs, id) {
            Ok(d) => d,
            Err(e) => {
                return Err(e);
            },
        };
        if !dirty {
            // Not dirty; go directly to the Done state.
            self.ready_dependents(id);
        } else if self.adopt {
            // Act as if the target already finished.
            let result = TaskResult { termination: Termination::Success, output: Vec::new(), discovered_deps: None };
            let ghost mid = *self;
            match self.record_finished(fs, id, result) {
                Ok(()) => {},
                Err(e) => {
                    assert(finish_error_in(self.graph, mid.file_state, id, e@));
                    return Err(e);
                },
            }
            self.ready_dependents(id);
        } else {
            let ghost s0 = self.build_states.sts();
            let r = self.build_states.enqueue(&self.graph, id);
            proof {
                lemma_count_update(
                    self.build_states.sts().len() as int,
                    finished_in(s0),
                    finished_in(self.build_states.sts()),
                    id.0 as int,
                );
            }
            match r {
                Ok(()) => {},
                Err(e) => {
                    return Err(e);
                },
            }
        }
        Ok(())
    }

    /// The next step of the build.  `can_start` says whether another task
    /// may run now, `running` whether any task is running, and
    /// `interrupted` whether the user interrupted the build.
    pub fn poll<F: FileSystem>(&mut self, fs: &F, can_start: bool, running: bool, interrupted: bool) -> (r: Result<
        Step,
        Vec<u8>,
    >)
        requires
            old(self).inv(),
        ensures
            final(self).inv(),
            final(self).graph.build_count() == old(self).graph.build_count(),
            r matches Ok(Step::Start(id)) ==> can_start && id.0 < final(self).graph.build_count()
                && old(self).build_states.sts()[id.0 as int] == BuildState::Queued
                && final(self).build_states.sts() == old(self).build_states.sts().update(id.0 as int, BuildState::Running),
            r matches Ok(Step::Start(id)) ==> inputs_done(final(self).graph, final(self).build_states.sts(), id.0 as int),
            r matches Ok(Step::Finished(res)) ==> res == if old(self).tasks_failed == 0 && !interrupted
                && old(self).build_states.total_pending == 0 {
                Some(old(self).tasks_done)
            } else {
                None::<usize>
            },
            r matches Ok(Step::Wait) ==> running,
            ({
                let ob = old(self).build_states;
                let pending = ob.total_pending > 0;
                let starting = old(self).phase == Phase::Starting || (old(self).phase == Phase::Top && pending);
                let f = first_startable(ob.pool_vals(), 0);
                let start = starting && can_start && f < ob.pool_vals().len();
                let made = old(self).phase != Phase::Top && old(self).made_progress;
                let drain = old(self).phase == Phase::Draining || (starting && !start);
                &&& old(self).phase == Phase::Top && !pending ==> r == Ok::<Step, Vec<u8>>(
                    Step::Finished(
                        if old(self).tasks_failed == 0 && !interrupted {
                            Some(old(self).tasks_done)
                        } else {
                            None
                        },
                    ),
                )
                &&& start ==> r == Ok::<Step, Vec<u8>>(Step::Start(ob.pool_vals()[f].queued@[0]))
                &&& drain && ob.ready@.len() > 0 ==> {
                    let id = ob.ready@[0];
                    let st = final(self).build_states.sts()[id.0 as int];
                    &&& r is Ok ==> r == Ok::<Step, Vec<u8>>(Step::Continue)
                    &&& r is Ok && old(self).adopt ==> st == BuildState::Done
                    &&& r is Ok && !old(self).adopt ==> (st == BuildState::Queued <==> final(self).spec_dirty(id))
                        && (st == BuildState::Done <==> !final(self).spec_dirty(id))
                    &&& r matches Err(e) ==> ready_error(&*old(self), final(self).graph, id, e@)
                }
                &&& drain && ob.ready@.len() == 0 && made ==> r == Ok::<Step, Vec<u8>>(Step::Continue)
                &&& drain && ob.ready@.len() == 0 && !made && running ==> r == Ok::<Step, Vec<u8>>(Step::Wait)
                &&& drain && ob.ready@.len() == 0 && !made && !running && old(self).tasks_failed > 0 ==> r == Ok::<
                    Step,
                    Vec<u8>,
                >(Step::Finished(None))
                &&& drain && ob.ready@.len() == 0 && !made && !running && old(self).tasks_failed == 0 ==> (r matches Err(
                    e,
                ) && e@ == "BUG: no work to do and runner not running".spec_bytes())
            }),
    {
        if self.phase == Phase::Top {
            self.made_progress = false;
            if !self.build_states.unfinished() {
                let success = self.tasks_failed == 0 && !interrupted;
                return Ok(
                    Step::Finished(
                        if success {
                            Some(self.tasks_done)
                        } else {
                            None
                        },
                    ),
                );
            }
            self.phase = Phase::Starting;
        }
        if self.phase == Phase::Starting {
            if can_start {
                match self.build_states.pop_queued(&self.graph) {
                    Some(id) => {
                        let ghost s0 = self.build_states.sts();
                        self.build_states.set(&self.graph, id, BuildState::Running);
                        proof {
                            lemma_count_update(
                                s0.len() as int,
                                finished_in(s0),
                                finished_in(self.build_states.sts()),
                                id.0 as int,
                            );
                        }
                        self.made_progress = true;
                        return Ok(Step::Start(id));
                    },
                    None => {},
                }
            }
            self.phase = Phase::Draining;
        }
        match self.build_states.pop_ready(&self.graph) {
            Some(id) => {
                self.made_progress = true;
                let ghost mid = *self;
                match self.process_ready(fs, id) {
                    Ok(()) => {},
                    Err(e) => {
                        assert(ready_error(&mid, self.graph, id, e@));
                        return Err(e);
                    },
                }
                return Ok(Step::Continue);
            },
            None => {},
        }
        self.phase = Phase::Top;
        if self.made_progress {
            return Ok(Step::Continue);
        }
        if !running {
            if self.tasks_failed > 0 {
                // No more progress can be made, hopefully due to tasks that failed.
                return Ok(Step::Finished(None));
            }
            return Err(bytes_of("BUG: no work to do and runner not running"));
        }
        Ok(Step::Wait)
    }

    /// Report how the task of build `id`, started by a `Start` step, ended.
    pub fn task_finished<F: FileSystem>(&mut self, fs: &F, id: BuildId, result: TaskResult) -> (r: Result<
        Step,
        Vec<u8>,
    >)
        requires
            old(self).inv(),
        ensures
            final(self).inv(),
            final(self).graph.build_count() == old(self).graph.build_count(),
            r matches Ok(s) ==> s is Continue || s == Step::Finished(None),
            id.0 < old(self).graph.build_count() && old(self).build_states.sts()[id.0 as int]
                == BuildState::Running && result.termination == Termination::Interrupted ==> r == Ok::<
                Step,
                Vec<u8>,
            >(Step::Finished(None)),
            !(id.0 < old(self).graph.build_count() && old(self).build_states.sts()[id.0 as int] == BuildState::Running)
                ==> (r matches Err(e) && e@ == "BUG: finished task is not running".spec_bytes()
                && final(self).build_states == old(self).build_states),
            ({
                let running = id.0 < old(self).graph.build_count() && old(self).build_states.sts()[id.0 as int]
                    == BuildState::Running;
                let stop = old(self).failures_left matches Some(n) && n <= 1;
                &&& running && result.termination == Termination::Failure && stop ==> r == Ok::<Step, Vec<u8>>(
                    Step::Finished(None),
                ) && final(self).failures_left == Some(0usize)
                &&& running && result.termination == Termination::Failure && !stop ==> {
                    &&& r == Ok::<Step, Vec<u8>>(Step::Continue)
                    &&& final(self).build_states.sts() == old(self).build_states.sts().update(
                        id.0 as int,
                        BuildState::Failed,
                    )
                    &&& final(self).tasks_failed == old(self).tasks_failed + 1
                    &&& final(self).tasks_done == old(self).tasks_done
                    &&& final(self).failures_left == match old(self).failures_left {
                        Some(n) => Some((n - 1) as usize),
                        None => None,
                    }
                }
                &&& running && result.termination == Termination::Success && r is Ok ==> {
                    &&& r == Ok::<Step, Vec<u8>>(Step::Continue)
                    &&& final(self).build_states.sts()[id.0 as int] == BuildState::Done
                    &&& final(self).tasks_done == old(self).tasks_done + 1
                    &&& final(self).tasks_failed == old(self).tasks_failed
                }
            }),
    {
        if id.0 as usize >= self.graph.builds.len() || self.build_states.get(id) != BuildState::Running {
            return Err(bytes_of("BUG: finished task is not running"));
        }
        match result.termination {
            Termination::Failure => {
                match self.failures_left {
                    Some(n) => {
                        let left: usize = if n > 0 {
                            n - 1
                        } else {
                            0
                        };
                        self.failures_left = Some(left);
                        if left == 0 {
                            return Ok(Step::Finished(None));
                        }
                    },
                    None => {},
                }
                self.build_states.set(&self.graph, id, BuildState::Failed);
                proof {
                    lemma_count_le(self.build_states.sts().len() as int, finished_in(self.build_states.sts()));
                }
                self.tasks_failed = self.tasks_failed + 1;
            },
            Termination::Interrupted => {
                // If the task was interrupted bail immediately.
                return Ok(Step::Finished(None));
            },
            Termination::Success => {
                self.record_finished(fs, id, result)?;
                self.ready_dependents(id);
                proof {
                    lemma_count_le(self.build_states.sts().len() as int, finished_in(self.build_states.sts()));
                }
                self.tasks_done = self.tasks_done + 1;
            },
        }
        Ok(Step::Continue)
    }
}

fn contains_build(s: &[BuildId], id: BuildId) -> (r: bool)
    ensures
        r == s@.contains(id),
{
    let mut i: usize = 0;
    while i < s.len()
        invariant
            i <= s@.len(),
            forall|k: int| 0 <= k < i ==> s@[k] != id,
        decreases s@.len() - i,
    {
        if s[i] == id {
            return true;
        }
        i = i + 1;
    }
    false
}

/// File `f` is a source file, or the build that makes it is done.
pub open spec fn input_done(g: Graph, sts: Seq<BuildState>, f: FileId) -> bool {
    match g.files.view()[f.0 as int].input {
        None => true,
        Some(b) => sts[b.0 as int] == BuildState::Done,
    }
}

/// A build in state `s` has been found ready: it is ready, queued,
/// running or done.
pub open spec fn active(s: BuildState) -> bool {
    s == BuildState::Ready || s == BuildState::Queued || s == BuildState::Running || s == BuildState::Done
}

/// Every input build `i` waits for is a source file or made by a build
/// that is done.
pub open spec fn inputs_done(g: Graph, sts: Seq<BuildState>, i: int) -> bool {
    forall|k: int|
        0 <= k < ordering(&g.builds.view()[i]).len() ==> input_done(g, sts, #[trigger] ordering(&g.builds.view()[i])[k])
}

/// No build was found ready before every build it waits for was done.
pub open spec fn ordered(g: Graph, sts: Seq<BuildState>) -> bool {
    forall|i: int| 0 <= i < sts.len() && active(#[trigger] sts[i]) ==> inputs_done(g, sts, i)
}

/// Changing the state of a build that is not done keeps the builds in order,
/// provided that, when it becomes ready, what it waits for is done.
pub proof fn lemma_ordered_update(g: Graph, sts: Seq<BuildState>, i: int, s: BuildState)
    requires
        ordered(g, sts),
        g.wf(),
        sts.len() == g.build_count(),
        0 <= i < sts.len(),
        sts[i] != BuildState::Done,
        active(s) && !active(sts[i]) ==> inputs_done(g, sts, i),
    ensures
        ordered(g, sts.update(i, s)),
{
    let s2 = sts.update(i, s);
    assert forall|x: int| 0 <= x < s2.len() && active(#[trigger] s2[x]) implies inputs_done(g, s2, x) by {
        assert(inputs_done(g, sts, x));
        let o = ordering(&g.builds.view()[x]);
        assert(build_ok(&g.builds.view()[x], g.file_count()));
        assert forall|k: int| 0 <= k < o.len() implies input_done(g, s2, #[trigger] o[k]) by {
            assert(input_done(g, sts, o[k]));
            assert(o[k] == g.builds.view()[x].ins.ids@[k]);
            assert(crate::graph::file_ok(&g.files.view()[o[k].0 as int], g.build_count()));
            match g.files.view()[o[k].0 as int].input {
                Some(b) => {
                    assert(sts[b.0 as int] == BuildState::Done);
                    assert(b.0 != i);
                },
                None => {},
            }
        }
    }
}

/// A build that has been found ready, and so one that is queued, running
/// or done, waits for nothing: every input it waits for is a source file or
/// made by a build that is done.  (Every step of the build keeps this: it is
/// part of `Work::inv`.)
pub proof fn law_ready_after_inputs(w: &Work, id: BuildId)
    requires
        w.inv(),
        id.0 < w.graph.build_count(),
        active(w.build_states.sts()[id.0 as int]),
    ensures
        inputs_done(w.graph, w.build_states.sts(), id.0 as int),
{
}

/// Builds keep their order when the graph changes nothing they wait for.
pub proof fn lemma_ordered_graph(g1: Graph, g2: Graph, sts: Seq<BuildState>)
    requires
        ordered(g1, sts),
        g1.wf(),
        sts.len() == g1.build_count(),
        g2.build_count() == g1.build_count(),
        forall|b: int| 0 <= b < g1.build_count() ==> (#[trigger] g2.builds.view()[b]).ins == g1.builds.view()[b].ins,
        g1.file_count() <= g2.file_count(),
        forall|f: int| 0 <= f < g1.file_count() ==> (#[trigger] g2.files.view()[f]).input == g1.files.view()[f].input,
    ensures
        ordered(g2, sts),
{
    assert forall|x: int| 0 <= x < sts.len() && active(#[trigger] sts[x]) implies inputs_done(g2, sts, x) by {
        assert(inputs_done(g1, sts, x));
        let b1 = g1.builds.view()[x];
        assert(build_ok(&b1, g1.file_count()));
        assert(g2.builds.view()[x].ins == b1.ins);
        let o = ordering(&g1.builds.view()[x]);
        assert(ordering(&g2.builds.view()[x]) == o);
        assert forall|k: int| 0 <= k < o.len() implies input_done(g2, sts, #[trigger] o[k]) by {
            assert(input_done(g1, sts, o[k]));
            assert(o[k] == b1.ins.ids@[k]);
            assert(g2.files.view()[o[k].0 as int].input == g1.files.view()[o[k].0 as int].input);
        }
    }
}

/// The inputs a build needs before it can run.
pub open spec fn ordering(b: &Build) -> Seq<FileId> {
    b.ins.ids@.subrange(0, b.ins.explicit + b.ins.implicit + b.ins.order_only)
}

} // verus!
