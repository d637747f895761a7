//! The build graph, a graph between files and commands.
use vstd::prelude::*;
use vstd::string::StringSliceAdditionalSpecFns;
use std::collections::HashMap;
use std::collections::hash_map::DefaultHasher;
use std::hash::Hasher;
use vstd::std_specs::hash::DefaultHasherAdditionalSpecFns;
use vstd::slice::slice_subrange;
use crate::densemap::{DenseMap, Index};
use crate::text::{bytes_eq, push_bytes, push_slice, push_quoted, push_decimal, spec_decimal, quoted};

verus! {

broadcast use vstd::std_specs::hash::group_hash_axioms;

/// Hash value used to identify a given instance of a Build's execution;
/// compared to verify whether a Build is up to date.
#[derive(Debug, Clone, Copy, PartialEq, Eq, Structural)]
pub struct Hash(pub u64);

/// Id for File nodes in the Graph.
#[derive(Debug, Clone, Copy, PartialEq, Eq, Structural, Hash)]
pub struct FileId(pub u32);

impl Index for FileId {
    open spec fn spec_index(&self) -> int {
        self.0 as int
    }

    fn index(&self) -> (r: usize) {
        self.0 as usize
    }

    fn from_index(u: usize) -> (r: FileId) {
        FileId(u as u32)
    }
}

/// Id for Build nodes in the Graph.
#[derive(Debug, Clone, Copy, PartialEq, Eq, Structural, Hash)]
pub struct BuildId(pub u32);

impl Index for BuildId {
    open spec fn spec_index(&self) -> int {
        self.0 as int
    }

    fn index(&self) -> (r: usize) {
        self.0 as usize
    }

    fn from_index(u: usize) -> (r: BuildId) {
        BuildId(u as u32)
    }
}

/// A single file referenced as part of a build.
pub struct File {
    /// Canonical path to the file.
    pub name: Vec<u8>,
    /// The Build that generates this file, if any.
    pub input: Option<BuildId>,
    /// The Builds that depend on this file as an input.
    pub dependents: Vec<BuildId>,
}

impl File {
    /// The file's path.
    pub fn path(&self) -> (r: &Vec<u8>)
        ensures
            r == &self.name,
    {
        &self.name
    }
}

/// A textual location within a build.ninja file, used in error messages.
pub struct FileLoc {
    pub filename: Vec<u8>,
    pub line: usize,
}

/// `filename:line`.
pub open spec fn spec_loc_text(loc: &FileLoc) -> Seq<u8> {
    loc.filename@ + seq![0x3au8] + spec_decimal(loc.line as nat)
}

impl FileLoc {
    /// The location as `filename:line`.
    pub fn to_text(&self) -> (r: Vec<u8>)
        ensures
            r@ == spec_loc_text(self),
    {
        let mut r: Vec<u8> = Vec::new();
        push_slice(&mut r, self.filename.as_slice());
        r.push(0x3au8);
        push_decimal(&mut r, self.line);
        assert(r@ =~= spec_loc_text(self));
        r
    }
}

/// A response file: its path and the content written to it before the
/// command runs.
pub struct RspFile {
    pub path: Vec<u8>,
    pub content: Vec<u8>,
}

/// Input files to a Build.
pub struct BuildIns {
    /// Explicit, implicit, order-only and validation inputs, in that order.
    pub ids: Vec<FileId>,
    pub explicit: usize,
    pub implicit: usize,
    pub order_only: usize,
}

/// Output files from a Build.
pub struct BuildOuts {
    /// Explicit outputs, then implicit ones.
    pub ids: Vec<FileId>,
    pub explicit: usize,
}

/// The list without repeats, keeping the first occurrence of each id.
pub open spec fn dedup(s: Seq<FileId>) -> Seq<FileId>
    decreases s.len(),
{
    if s.len() == 0 {
        Seq::empty()
    } else if s.drop_last().contains(s.last()) {
        dedup(s.drop_last())
    } else {
        dedup(s.drop_last()).push(s.last())
    }
}

/// Some id occurs twice.
pub open spec fn has_dup(s: Seq<FileId>) -> bool {
    exists|i: int, j: int| 0 <= i < j < s.len() && s[i] == s[j]
}

/// The value of the explicit-output count after the first `i` outputs of
/// `s` have been scanned for repeats: each repeat found at a position below
/// the current count lowers the count by one.
pub open spec fn explicit_after(s: Seq<FileId>, ex: int, i: nat) -> int
    decreases i,
{
    if i == 0 {
        ex
    } else {
        let e = explicit_after(s, ex, (i - 1) as nat);
        if s.take(i - 1).contains(s[i - 1]) && i - 1 < e {
            e - 1
        } else {
            e
        }
    }
}

proof fn lemma_dedup_subset(s: Seq<FileId>)
    ensures
        forall|i: int| 0 <= i < dedup(s).len() ==> s.contains(#[trigger] dedup(s)[i]),
    decreases s.len(),
{
    if s.len() > 0 {
        lemma_dedup_subset(s.drop_last());
        let d = dedup(s.drop_last());
        assert forall|i: int| 0 <= i < d.len() implies s.contains(#[trigger] d[i]) by {
            let j = choose|j: int| 0 <= j < s.drop_last().len() && s.drop_last()[j] == d[i];
            assert(s[j] == d[i]);
        }
        assert(s[s.len() - 1] == s.last());
    }
}

impl BuildOuts {
    /// CMake seems to generate build files with the same output mentioned
    /// multiple times in the outputs list.  Given that Ninja accepts these,
    /// this function removes duplicates from the output list.
    pub fn remove_duplicates(&mut self)
        ensures
            final(self).ids@ == dedup(old(self).ids@),
            final(self).explicit == explicit_after(
                old(self).ids@,
                old(self).explicit as int,
                old(self).ids@.len(),
            ),
    {
        let mut ids: Vec<FileId> = Vec::new();
        let mut explicit = self.explicit;
        let n = self.ids.len();
        let mut i: usize = 0;
        let ghost old_ids = self.ids@;
        let ghost ex0 = self.explicit as int;
        assert(old_ids.take(0) =~= Seq::<FileId>::empty());
        while i < n
            invariant
                n == old_ids.len(),
                self.ids@ == old_ids,
                i <= n,
                ids@ == dedup(old_ids.take(i as int)),
                explicit == explicit_after(old_ids, ex0, i as nat),
            decreases n - i,
        {
            let id = self.ids[i];
            let ghost pre = old_ids.take(i as int);
            let ghost next = old_ids.take(i + 1);
            assert(next.drop_last() =~= pre);
            assert(next.last() == id);
            let mut dup = false;
            let mut k: usize = 0;
            while k < i
                invariant
                    k <= i < n,
                    n == old_ids.len(),
                    self.ids@ == old_ids,
                    pre == old_ids.take(i as int),
                    dup == exists|j: int| 0 <= j < k && pre[j] == id,
                decreases i - k,
            {
                assert(pre[k as int] == self.ids@[k as int]);
                if self.ids[k] == id {
                    dup = true;
                }
                k = k + 1;
            }
            assert(dup == pre.contains(id));
            if dup {
                if i < explicit {
                    explicit = explicit - 1;
                }
            } else {
                ids.push(id);
            }
            i = i + 1;
        }
        assert(old_ids.take(n as int) =~= old_ids);
        self.ids = ids;
        self.explicit = explicit;
    }
}

/// A single build action, generating File outputs from File inputs with a command.
pub struct Build {
    /// Source location this Build was declared.
    pub location: FileLoc,
    /// User-provided description of the build step.
    pub desc: Option<Vec<u8>>,
    /// Command line to run.  Absent for phony builds.
    pub cmdline: Option<Vec<u8>>,
    /// Path to generated `.d` file, if any.
    pub depfile: Option<Vec<u8>>,
    /// The `deps` attribute: `gcc` or `msvc`, if given.
    pub deps: Option<Vec<u8>>,
    /// The path to the rsp file and its contents, if any.
    pub rspfile: Option<RspFile>,
    /// Pool to execute this build in, if any.
    pub pool: Option<Vec<u8>>,
    pub ins: BuildIns,
    /// Additional inputs discovered from a previous build.
    pub discovered_ins: Vec<FileId>,
    /// Output files.
    pub outs: BuildOuts,
    /// Print no output of the command when it succeeds.
    pub hide_success: bool,
    /// Show no progress line for this build.
    pub hide_progress: bool,
}

/// Every id in `s` names one of the first `n` files.
pub open spec fn ids_below(s: Seq<FileId>, n: int) -> bool {
    forall|i: int| 0 <= i < s.len() ==> (#[trigger] s[i]).0 < n
}

/// The input counts fit the inputs, and every id names one of the first
/// `n` files.
pub open spec fn build_ok(b: &Build, n: int) -> bool {
    &&& b.ins.explicit + b.ins.implicit + b.ins.order_only <= b.ins.ids@.len()
    &&& ids_below(b.ins.ids@, n)
    &&& ids_below(b.outs.ids@, n)
    &&& ids_below(b.discovered_ins@, n)
}

/// `deps` with the ids already among `ins` left out, the rest in order.
pub open spec fn without_listed(deps: Seq<FileId>, ins: Seq<FileId>) -> Seq<FileId>
    decreases deps.len(),
{
    if deps.len() == 0 {
        Seq::empty()
    } else if ins.contains(deps.last()) {
        without_listed(deps.drop_last(), ins)
    } else {
        without_listed(deps.drop_last(), ins).push(deps.last())
    }
}

/// The builds are the same but for their discovered inputs.
pub open spec fn same_but_discovered(a: &Build, b: &Build) -> bool {
    &&& b.location == a.location
    &&& b.desc == a.desc
    &&& b.cmdline == a.cmdline
    &&& b.depfile == a.depfile
    &&& b.deps == a.deps
    &&& b.rspfile == a.rspfile
    &&& b.pool == a.pool
    &&& b.ins == a.ins
    &&& b.outs == a.outs
    &&& b.hide_success == a.hide_success
    &&& b.hide_progress == a.hide_progress
}

pub proof fn lemma_without_listed_subset(deps: Seq<FileId>, ins: Seq<FileId>)
    ensures
        forall|k: int| 0 <= k < without_listed(deps, ins).len() ==> deps.contains(#[trigger] without_listed(deps, ins)[k]),
    decreases deps.len(),
{
    if deps.len() > 0 {
        lemma_without_listed_subset(deps.drop_last(), ins);
        let w = without_listed(deps.drop_last(), ins);
        assert forall|k: int| 0 <= k < w.len() implies deps.contains(#[trigger] w[k]) by {
            let j = choose|j: int| 0 <= j < deps.drop_last().len() && deps.drop_last()[j] == w[k];
            assert(deps[j] == w[k]);
        }
        assert(deps[deps.len() - 1] == deps.last());
    }
}

pub proof fn lemma_without_listed_out(deps: Seq<FileId>, ins: Seq<FileId>)
    ensures
        forall|k: int| 0 <= k < without_listed(deps, ins).len() ==> !ins.contains(#[trigger] without_listed(deps, ins)[k]),
    decreases deps.len(),
{
    if deps.len() > 0 {
        lemma_without_listed_out(deps.drop_last(), ins);
        let w = without_listed(deps.drop_last(), ins);
        if !ins.contains(deps.last()) {
            assert forall|k: int| 0 <= k < w.push(deps.last()).len() implies !ins.contains(
                #[trigger] w.push(deps.last())[k],
            ) by {
                if k < w.len() {
                    assert(w.push(deps.last())[k] == w[k]);
                }
            }
        }
    }
}

pub fn contains_id(s: &[FileId], id: FileId) -> (r: bool)
    ensures
        r == s@.contains(id),
{
    let mut i: usize = 0;
    while i < s.len()
        invariant
            i <= s@.len(),
            forall|k: int| 0 <= k < i ==> s@[k] != id,
        decreases s@.len() - i,
    {
        if s[i] == id {
            return true;
        }
        i = i + 1;
    }
    false
}

fn ids_eq(a: &[FileId], b: &[FileId]) -> (r: bool)
    ensures
        r == (a@ == b@),
{
    if a.len() != b.len() {
        return false;
    }
    let mut i: usize = 0;
    while i < a.len()
        invariant
            a@.len() == b@.len(),
            i <= a@.len(),
            forall|k: int| 0 <= k < i ==> a@[k] == b@[k],
        decreases a@.len() - i,
    {
        if a[i] != b[i] {
            return false;
        }
        i = i + 1;
    }
    assert(a@ =~= b@);
    true
}

impl Build {
    pub fn new(loc: FileLoc, ins: BuildIns, outs: BuildOuts) -> (r: Build)
        ensures
            r.location == loc,
            r.ins == ins,
            r.outs == outs,
            r.desc is None,
            r.cmdline is None,
            r.depfile is None,
            r.deps is None,
            r.rspfile is None,
            r.pool is None,
            r.discovered_ins@.len() == 0,
            !r.hide_success,
            !r.hide_progress,
    {
        Build {
            location: loc,
            desc: None,
            cmdline: None,
            depfile: None,
            deps: None,
            rspfile: None,
            pool: None,
            ins,
            discovered_ins: Vec::new(),
            outs,
            hide_success: false,
            hide_progress: false,
        }
    }

    /// Input paths that appear in `$in`.
    pub fn explicit_ins(&self) -> (r: &[FileId])
        requires
            self.ins.explicit <= self.ins.ids@.len(),
        ensures
            r@ == self.ins.ids@.subrange(0, self.ins.explicit as int),
    {
        slice_subrange(self.ins.ids.as_slice(), 0, self.ins.explicit)
    }

    /// Input paths that, if changed, invalidate the output.
    /// Note this omits discovered_ins, which also invalidate the output.
    pub fn dirtying_ins(&self) -> (r: &[FileId])
        requires
            self.ins.explicit + self.ins.implicit <= self.ins.ids@.len(),
        ensures
            r@ == self.ins.ids@.subrange(0, self.ins.explicit + self.ins.implicit),
    {
        let n = self.ins.ids.len();
        assert(n == self.ins.ids@.len());
        slice_subrange(self.ins.ids.as_slice(), 0, self.ins.explicit + self.ins.implicit)
    }

    /// Order-only inputs: inputs that are only used for ordering execution.
    pub fn order_only_ins(&self) -> (r: &[FileId])
        requires
            self.ins.explicit + self.ins.implicit + self.ins.order_only <= self.ins.ids@.len(),
        ensures
            r@ == self.ins.ids@.subrange(
                self.ins.explicit + self.ins.implicit,
                self.ins.explicit + self.ins.implicit + self.ins.order_only,
            ),
    {
        let n = self.ins.ids.len();
        assert(n == self.ins.ids@.len());
        let start = self.ins.explicit + self.ins.implicit;
        slice_subrange(self.ins.ids.as_slice(), start, start + self.ins.order_only)
    }

    /// Validation inputs: wanted whenever this build is, but not needed before it.
    pub fn validation_ins(&self) -> (r: &[FileId])
        requires
            self.ins.explicit + self.ins.implicit + self.ins.order_only <= self.ins.ids@.len(),
        ensures
            r@ == self.ins.ids@.subrange(
                self.ins.explicit + self.ins.implicit + self.ins.order_only,
                self.ins.ids@.len() as int,
            ),
    {
        let n = self.ins.ids.len();
        assert(n == self.ins.ids@.len());
        let start = self.ins.explicit + self.ins.implicit + self.ins.order_only;
        slice_subrange(self.ins.ids.as_slice(), start, self.ins.ids.len())
    }

    /// Inputs that are needed before building.
    /// Distinct from dirtying_ins in that it includes order-only dependencies.
    /// Note that we don't order on discovered_ins, because they're not allowed to
    /// affect build order.
    pub fn ordering_ins(&self) -> (r: &[FileId])
        requires
            self.ins.explicit + self.ins.implicit + self.ins.order_only <= self.ins.ids@.len(),
        ensures
            r@ == self.ins.ids@.subrange(
                0,
                self.ins.explicit + self.ins.implicit + self.ins.order_only,
            ),
    {
        let n = self.ins.ids.len();
        assert(n == self.ins.ids@.len());
        let end = self.ins.explicit + self.ins.implicit + self.ins.order_only;
        slice_subrange(self.ins.ids.as_slice(), 0, end)
    }

    /// Potentially update discovered_ins with a new set of deps, less those
    /// the build file lists as dirtying inputs, returning true if they
    /// changed.  (A dep may repeat an order-only input: it then dirties.)
    pub fn update_discovered(&mut self, deps: Vec<FileId>) -> (r: bool)
        requires
            old(self).ins.explicit + old(self).ins.implicit <= old(self).ins.ids@.len(),
        ensures
            final(self).discovered_ins@ == without_listed(deps@, old(self).ins.ids@.subrange(0, old(self).ins.explicit + old(self).ins.implicit)),
            r == (without_listed(deps@, old(self).ins.ids@.subrange(0, old(self).ins.explicit + old(self).ins.implicit)) != old(self).discovered_ins@),
            final(self).location == old(self).location,
            final(self).desc == old(self).desc,
            final(self).cmdline == old(self).cmdline,
            final(self).depfile == old(self).depfile,
            final(self).deps == old(self).deps,
            final(self).rspfile == old(self).rspfile,
            final(self).pool == old(self).pool,
            final(self).ins == old(self).ins,
            final(self).outs == old(self).outs,
            final(self).hide_success == old(self).hide_success,
            final(self).hide_progress == old(self).hide_progress,
    {
        let mut kept: Vec<FileId> = Vec::new();
        let dirty = self.dirtying_ins();
        let mut i: usize = 0;
        assert(deps@.take(0) =~= Seq::<FileId>::empty());
        while i < deps.len()
            invariant
                i <= deps@.len(),
                kept@ == without_listed(deps@.take(i as int), dirty@),
            decreases deps@.len() - i,
        {
            let id = deps[i];
            assert(deps@.take(i + 1).drop_last() =~= deps@.take(i as int));
            if !contains_id(dirty, id) {
                kept.push(id);
            }
            i = i + 1;
        }
        assert(deps@.take(i as int) =~= deps@);
        if ids_eq(kept.as_slice(), self.discovered_ins.as_slice()) {
            false
        } else {
            self.set_discovered_ins(kept);
            true
        }
    }

    pub fn set_discovered_ins(&mut self, deps: Vec<FileId>)
        ensures
            final(self).discovered_ins == deps,
            final(self).location == old(self).location,
            final(self).desc == old(self).desc,
            final(self).cmdline == old(self).cmdline,
            final(self).depfile == old(self).depfile,
            final(self).deps == old(self).deps,
            final(self).rspfile == old(self).rspfile,
            final(self).pool == old(self).pool,
            final(self).ins == old(self).ins,
            final(self).outs == old(self).outs,
            final(self).hide_success == old(self).hide_success,
            final(self).hide_progress == old(self).hide_progress,
    {
        self.discovered_ins = deps;
    }

    /// Whether the build's command reports its dependencies as MSVC's
    /// /showIncludes lines (`deps = msvc`).
    pub fn parse_showincludes(&self) -> (r: bool)
        ensures
            r == (self.deps matches Some(d) && d@ == "msvc".spec_bytes()),
    {
        match &self.deps {
            Some(d) => bytes_eq(d.as_slice(), "msvc".as_bytes()),
            None => false,
        }
    }

    /// Input paths that were discovered after building, for use in the next build.
    pub fn discovered_ins(&self) -> (r: &[FileId])
        ensures
            r@ == self.discovered_ins@,
    {
        self.discovered_ins.as_slice()
    }

    /// Output paths that appear in `$out`.
    pub fn explicit_outs(&self) -> (r: &[FileId])
        requires
            self.outs.explicit <= self.outs.ids@.len(),
        ensures
            r@ == self.outs.ids@.subrange(0, self.outs.explicit as int),
    {
        slice_subrange(self.outs.ids.as_slice(), 0, self.outs.explicit)
    }

    /// Output paths that are updated when the build runs.
    pub fn outs(&self) -> (r: &[FileId])
        ensures
            r@ == self.outs.ids@,
    {
        self.outs.ids.as_slice()
    }
}

/// The build, if any, is one of the first `nb`, and so are its dependents.
pub open spec fn file_ok(f: &File, nb: int) -> bool {
    &&& (f.input matches Some(b) ==> b.0 < nb)
    &&& forall|k: int| 0 <= k < f.dependents@.len() ==> (#[trigger] f.dependents@[k]).0 < nb
}

/// The hash under which a file name is filed in the graph's name index.
pub open spec fn name_hash(name: Seq<u8>) -> u64 {
    DefaultHasher::spec_finish(seq![name])
}

fn hash_name(name: &[u8]) -> (r: u64)
    ensures
        r == name_hash(name@),
{
    let mut h = DefaultHasher::new();
    h.write(name);
    assert(h@ =~= seq![name@]);
    h.finish()
}

/// How many times `f` occurs in `s`.
pub open spec fn count_id(s: Seq<FileId>, f: FileId) -> nat
    decreases s.len(),
{
    if s.len() == 0 {
        0
    } else {
        count_id(s.drop_last(), f) + if s.last() == f {
            1nat
        } else {
            0nat
        }
    }
}

/// `deps` followed by `n` copies of `b`.
pub open spec fn append_copies(deps: Seq<BuildId>, n: nat, b: BuildId) -> Seq<BuildId> {
    deps + Seq::new(n, |k: int| b)
}

/// `b` with its repeated outputs listed once, as `BuildOuts::remove_duplicates` leaves them.
pub open spec fn outs_after_add(b: Build) -> (Seq<FileId>, int) {
    if has_dup(b.outs.ids@) {
        (dedup(b.outs.ids@), explicit_after(b.outs.ids@, b.outs.explicit as int, b.outs.ids@.len()))
    } else {
        (b.outs.ids@, b.outs.explicit as int)
    }
}

/// `g` is `g0` with `b` added as its newest build.
pub open spec fn self_after_add(g0: Graph, g: Graph, b: Build) -> bool {
    let new_id = BuildId(g0.build_count() as u32);
    let nb = g.builds.view()[g0.build_count()];
    &&& g.build_count() == g0.build_count() + 1
    &&& forall|i: int| 0 <= i < g0.build_count() ==> #[trigger] g.builds.view()[i] == g0.builds.view()[i]
    &&& nb.location == b.location
    &&& nb.desc == b.desc
    &&& nb.cmdline == b.cmdline
    &&& nb.depfile == b.depfile
    &&& nb.deps == b.deps
    &&& nb.rspfile == b.rspfile
    &&& nb.pool == b.pool
    &&& nb.ins == b.ins
    &&& nb.discovered_ins == b.discovered_ins
    &&& nb.hide_success == b.hide_success
    &&& nb.hide_progress == b.hide_progress
    &&& nb.outs.ids@ == outs_after_add(b).0
    &&& nb.outs.explicit == outs_after_add(b).1
    &&& g.file_count() == g0.file_count()
    &&& forall|f: int|
        0 <= f < g0.file_count() ==> {
            &&& (#[trigger] g.files.view()[f]).name == g0.files.view()[f].name
            &&& g.files.view()[f].input == if b.outs.ids@.contains(FileId(f as u32)) {
                Some(new_id)
            } else {
                g0.files.view()[f].input
            }
            &&& g.files.view()[f].dependents@ == append_copies(
                g0.files.view()[f].dependents@,
                count_id(b.ins.ids@, FileId(f as u32)),
                new_id,
            )
        }
}

/// The build graph: owns Files/Builds and maps FileIds/BuildIds to them,
/// as well as mapping filenames to the underlying Files.
pub struct Graph {
    pub files: DenseMap<FileId, File>,
    pub builds: DenseMap<BuildId, Build>,
    /// Name hash to the ids of the files whose names have that hash.
    pub file_to_id: HashMap<u64, Vec<FileId>>,
}

impl Graph {
    pub open spec fn file_count(&self) -> int {
        self.files.view().len() as int
    }

    pub open spec fn build_count(&self) -> int {
        self.builds.view().len() as int
    }

    pub open spec fn name_of(&self, i: int) -> Seq<u8> {
        self.files.view()[i].name@
    }

    /// The id of the file named `name`, if there is one.
    pub open spec fn spec_lookup(&self, name: Seq<u8>) -> Option<FileId> {
        if exists|i: int| 0 <= i < self.file_count() && #[trigger] self.name_of(i) == name {
            Some(
                FileId(
                    (choose|i: int| 0 <= i < self.file_count() && #[trigger] self.name_of(i) == name)
                        as u32,
                ),
            )
        } else {
            None
        }
    }

    /// Ids fit in 32 bits, files and builds refer to each other by valid
    /// ids, and no two files share a name.
    pub open spec fn refs_ok(&self) -> bool {
        &&& self.file_count() <= u32::MAX
        &&& self.build_count() <= u32::MAX
        &&& forall|i: int, j: int|
            0 <= i < self.file_count() && 0 <= j < self.file_count() && i != j ==> #[trigger] self.name_of(i)
                != #[trigger] self.name_of(j)
        &&& forall|b: int|
            0 <= b < self.build_count() ==> build_ok(&#[trigger] self.builds.view()[b], self.file_count())
        &&& forall|f: int|
            0 <= f < self.file_count() ==> file_ok(&#[trigger] self.files.view()[f], self.build_count())
    }

    /// The name index files every file under the hash of its name, and
    /// nothing else.
    pub closed spec fn index_ok(&self) -> bool {
        &&& forall|i: int|
            #![trigger self.name_of(i)]
            0 <= i < self.file_count() ==> self.file_to_id@.contains_key(name_hash(self.name_of(i)))
                && self.file_to_id@[name_hash(self.name_of(i))]@.contains(FileId(i as u32))
        &&& forall|h: u64, k: int|
            #![trigger self.file_to_id@[h]@[k]]
            self.file_to_id@.contains_key(h) && 0 <= k < self.file_to_id@[h]@.len() ==> {
                let id = self.file_to_id@[h]@[k];
                0 <= id.0 < self.file_count() && name_hash(self.name_of(id.0 as int)) == h
            }
    }

    pub open spec fn wf(&self) -> bool {
        self.refs_ok() && self.index_ok()
    }

    /// A name that looks up a file is that file's name.
    pub proof fn lemma_lookup_some(&self, name: Seq<u8>)
        requires
            self.refs_ok(),
        ensures
            self.spec_lookup(name) matches Some(f) ==> 0 <= f.0 < self.file_count() && self.name_of(f.0 as int) == name,
    {
        if exists|i: int| 0 <= i < self.file_count() && #[trigger] self.name_of(i) == name {
            let i = choose|i: int| 0 <= i < self.file_count() && #[trigger] self.name_of(i) == name;
            assert((i as u32) as int == i);
        }
    }

    /// The file at position `i` is what its name looks up.
    pub proof fn lemma_lookup_at(&self, i: int)
        requires
            self.refs_ok(),
            0 <= i < self.file_count(),
        ensures
            self.spec_lookup(self.name_of(i)) == Some(FileId(i as u32)),
    {
        let name = self.name_of(i);
        assert(0 <= i < self.file_count() && self.name_of(i) == name);
        let c = choose|c: int| 0 <= c < self.file_count() && #[trigger] self.name_of(c) == name;
        if c != i {
            assert(self.name_of(c) != self.name_of(i));
        }
    }

    /// An empty graph.
    pub fn new() -> (r: Graph)
        ensures
            r.wf(),
            r.file_count() == 0,
            r.build_count() == 0,
    {
        let g = Graph { files: DenseMap::new(), builds: DenseMap::new(), file_to_id: HashMap::new() };
        assert(g.file_to_id@ =~= Map::<u64, Vec<FileId>>::empty());
        g
    }

    /// Look up a file by its FileId.
    pub fn file(&self, id: FileId) -> (r: &File)
        requires
            id.0 < self.file_count(),
        ensures
            *r == self.files.view()[id.0 as int],
    {
        self.files.get(&id)
    }

    /// Look up a file by its name.  Name must have been canonicalized already.
    pub fn lookup(&self, name: &[u8]) -> (r: Option<FileId>)
        requires
            self.wf(),
        ensures
            r == self.spec_lookup(name@),
            r matches Some(id) ==> id.0 < self.file_count() && self.name_of(id.0 as int) == name@,
    {
        let h = hash_name(name);
        match self.file_to_id.get(&h) {
            None => {
                assert forall|i: int| 0 <= i < self.file_count() implies #[trigger] self.name_of(i)
                    != name@ by {
                    if self.name_of(i) == name@ {
                        assert(self.file_to_id@.contains_key(name_hash(self.name_of(i))));
                    }
                }
                None
            },
            Some(bucket) => {
                let mut k: usize = 0;
                while k < bucket.len()
                    invariant
                        self.wf(),
                        h == name_hash(name@),
                        self.file_to_id@.contains_key(h),
                        bucket@ == self.file_to_id@[h]@,
                        k <= bucket@.len(),
                        forall|j: int|
                            0 <= j < k ==> self.name_of((#[trigger] bucket@[j]).0 as int) != name@,
                    decreases bucket@.len() - k,
                {
                    let id = bucket[k];
                    assert(id == self.file_to_id@[h]@[k as int]);
                    if bytes_eq(self.files.get(&id).name.as_slice(), name) {
                        let ghost i = id.0 as int;
                        assert(self.name_of(i) == name@);
                        proof {
                            let c = choose|c: int|
                                0 <= c < self.file_count() && #[trigger] self.name_of(c) == name@;
                            if c != i {
                                assert(self.name_of(c) != self.name_of(i));
                            }
                        }
                        return Some(id);
                    }
                    k = k + 1;
                }
                assert forall|i: int| 0 <= i < self.file_count() implies #[trigger] self.name_of(i)
                    != name@ by {
                    if self.name_of(i) == name@ {
                        assert(bucket@.contains(FileId(i as u32)));
                        let j = choose|j: int| 0 <= j < bucket@.len() && bucket@[j] == FileId(i as u32);
                        assert(self.name_of(bucket@[j].0 as int) != name@);
                    }
                }
                None
            },
        }
    }

    /// Look up a file by its name, adding it if not already present.
    /// Name must have been canonicalized already.
    pub fn file_id(&mut self, name: Vec<u8>) -> (r: FileId)
        requires
            old(self).wf(),
            old(self).file_count() < u32::MAX,
        ensures
            final(self).wf(),
            final(self).spec_lookup(name@) == Some(r),
            r.0 < final(self).file_count(),
            final(self).name_of(r.0 as int) == name@,
            final(self).builds.view() == old(self).builds.view(),
            old(self).spec_lookup(name@) matches Some(id) ==> r == id && final(self).files.view()
                == old(self).files.view(),
            old(self).spec_lookup(name@) is None ==> {
                &&& r.0 == old(self).file_count()
                &&& final(self).file_count() == old(self).file_count() + 1
                &&& forall|i: int|
                    0 <= i < old(self).file_count() ==> #[trigger] final(self).files.view()[i]
                        == old(self).files.view()[i]
                &&& final(self).files.view()[r.0 as int].input is None
                &&& final(self).files.view()[r.0 as int].dependents@.len() == 0
            },
    {
        match self.lookup(name.as_slice()) {
            Some(id) => id,
            None => {
                let ghost nm = name@;
                let ghost old_g = *self;
                let h = hash_name(name.as_slice());
                let id = self.files.push(File { name, input: None, dependents: Vec::new() });
                let mut bucket = match self.file_to_id.remove(&h) {
                    Some(b) => b,
                    None => Vec::new(),
                };
                let ghost old_bucket = bucket@;
                bucket.push(id);
                self.file_to_id.insert(h, bucket);
                proof {
                    assert(forall|i: int|
                        0 <= i < old_g.file_count() ==> #[trigger] self.name_of(i) == old_g.name_of(i));
                    assert(self.name_of(id.0 as int) == nm);
                    assert forall|i: int| 0 <= i < old_g.file_count() implies #[trigger] old_g.name_of(i)
                        != nm by {
                    }
                    assert forall|i: int, j: int|
                        0 <= i < self.file_count() && 0 <= j < self.file_count() && i != j implies #[trigger] self.name_of(i)
                        != #[trigger] self.name_of(j) by {
                        if i < old_g.file_count() && j < old_g.file_count() {
                            assert(old_g.name_of(i) != old_g.name_of(j));
                        }
                    }
                    assert forall|f: int| 0 <= f < self.file_count() implies file_ok(
                        &#[trigger] self.files.view()[f],
                        self.build_count(),
                    ) by {
                        if f < old_g.file_count() {
                            assert(self.files.view()[f] == old_g.files.view()[f]);
                            assert(file_ok(&old_g.files.view()[f], old_g.build_count()));
                        }
                    }
                    assert forall|b: int| 0 <= b < self.build_count() implies build_ok(
                        &#[trigger] self.builds.view()[b],
                        self.file_count(),
                    ) by {
                        assert(build_ok(&old_g.builds.view()[b], old_g.file_count()));
                    }
                    assert forall|i: int| #![trigger self.name_of(i)] 0 <= i < self.file_count() implies self.file_to_id@.contains_key(
                        name_hash(self.name_of(i)),
                    ) && self.file_to_id@[name_hash(self.name_of(i))]@.contains(FileId(i as u32)) by {
                        if i < old_g.file_count() {
                            assert(old_g.name_of(i) == self.name_of(i));
                            let hi = name_hash(self.name_of(i));
                            assert(old_g.file_to_id@.contains_key(hi));
                            assert(old_g.file_to_id@[hi]@.contains(FileId(i as u32)));
                            if hi == h {
                                let j = choose|j: int| 0 <= j < old_bucket.len() && old_bucket[j] == FileId(i as u32);
                                assert(self.file_to_id@[h]@[j] == FileId(i as u32));
                            }
                        } else {
                            assert(self.file_to_id@[h]@[old_bucket.len() as int] == id);
                        }
                    }
                    assert forall|hh: u64, k: int|
                        #![trigger self.file_to_id@[hh]@[k]]
                        self.file_to_id@.contains_key(hh) && 0 <= k < self.file_to_id@[hh]@.len() implies {
                            let fid = self.file_to_id@[hh]@[k];
                            0 <= fid.0 < self.file_count() && name_hash(self.name_of(fid.0 as int)) == hh
                        } by {
                        if hh == h {
                            if k < old_bucket.len() {
                                assert(old_bucket[k] == old_g.file_to_id@[h]@[k]);
                                let fid = old_bucket[k];
                                assert(self.name_of(fid.0 as int) == old_g.name_of(fid.0 as int));
                            }
                        } else {
                            assert(self.file_to_id@[hh] == old_g.file_to_id@[hh]);
                            let fid = old_g.file_to_id@[hh]@[k];
                            assert(self.name_of(fid.0 as int) == old_g.name_of(fid.0 as int));
                        }
                    }
                    let c = choose|c: int| 0 <= c < self.file_count() && #[trigger] self.name_of(c) == nm;
                    if c != id.0 as int {
                        assert(self.name_of(c) != self.name_of(id.0 as int));
                    }
                }
                id
            },
        }
    }

    /// The first position from `i` on in `outs` whose file already has a
    /// generating build.
    pub open spec fn first_claimed(&self, outs: Seq<FileId>, i: int) -> Option<int>
        decreases outs.len() - i,
    {
        if i < 0 || i >= outs.len() {
            None
        } else if self.files.view()[outs[i].0 as int].input is Some {
            Some(i)
        } else {
            self.first_claimed(outs, i + 1)
        }
    }

    /// The error for an output `f` that another build already generates.
    pub open spec fn claimed_msg(&self, loc: Seq<u8>, f: FileId) -> Seq<u8> {
        let prev = self.files.view()[f.0 as int].input.unwrap();
        loc + ": ".spec_bytes() + quoted(self.name_of(f.0 as int))
            + " is already an output at ".spec_bytes() + spec_loc_text(
            &self.builds.view()[prev.0 as int].location,
        )
    }

    /// One warning for each output listed again after its first mention.
    pub open spec fn repeat_warnings(&self, loc: Seq<u8>, outs: Seq<FileId>) -> Seq<Seq<u8>>
        decreases outs.len(),
    {
        if outs.len() == 0 {
            Seq::empty()
        } else if outs.drop_last().contains(outs.last()) {
            self.repeat_warnings(loc, outs.drop_last()).push(
                "n2: warn: ".spec_bytes() + loc + ": ".spec_bytes() + quoted(
                    self.name_of(outs.last().0 as int),
                ) + " is repeated in output list".spec_bytes(),
            )
        } else {
            self.repeat_warnings(loc, outs.drop_last())
        }
    }

    /// The warnings depend only on the names of the files listed.
    pub proof fn lemma_repeat_warnings_names(&self, other: &Graph, loc: Seq<u8>, outs: Seq<FileId>)
        requires
            forall|k: int|
                0 <= k < outs.len() ==> self.name_of((#[trigger] outs[k]).0 as int) == other.name_of(
                    outs[k].0 as int,
                ),
        ensures
            self.repeat_warnings(loc, outs) == other.repeat_warnings(loc, outs),
        decreases outs.len(),
    {
        if outs.len() > 0 {
            let d = outs.drop_last();
            assert forall|k: int| 0 <= k < d.len() implies self.name_of((#[trigger] d[k]).0 as int)
                == other.name_of(d[k].0 as int) by {
                assert(d[k] == outs[k]);
            }
            self.lemma_repeat_warnings_names(other, loc, d);
            assert(outs.last() == outs[outs.len() - 1]);
        }
    }

    /// A file has at most one build that generates it: adding a build is
    /// refused exactly when one of its outputs already has a generating
    /// build.
    pub proof fn law_refused_iff_claimed(&self, outs: Seq<FileId>)
        ensures
            self.first_claimed(outs, 0) is Some <==> exists|k: int|
                0 <= k < outs.len() && self.files.view()[(#[trigger] outs[k]).0 as int].input is Some,
    {
        self.lemma_first_claimed(outs, 0);
        if let Some(k) = self.first_claimed(outs, 0) {
            assert(self.files.view()[outs[k].0 as int].input is Some);
        }
    }

    proof fn lemma_first_claimed(&self, outs: Seq<FileId>, i: int)
        requires
            0 <= i <= outs.len(),
        ensures
            self.first_claimed(outs, i) matches Some(k) ==> i <= k < outs.len()
                && self.files.view()[outs[k].0 as int].input is Some && forall|j: int|
                i <= j < k ==> self.files.view()[(#[trigger] outs[j]).0 as int].input is None,
            self.first_claimed(outs, i) is None ==> forall|j: int|
                i <= j < outs.len() ==> self.files.view()[(#[trigger] outs[j]).0 as int].input is None,
        decreases outs.len() - i,
    {
        if i < outs.len() {
            self.lemma_first_claimed(outs, i + 1);
        }
    }

    /// Add a new Build, generating a BuildId for it.
    ///
    /// Fails, leaving the graph as it was, when an output of the build is
    /// already the output of another build.  Otherwise the build is added,
    /// its outputs name it as their build, its inputs list it among their
    /// dependents once per mention, and each output listed twice yields a
    /// warning and is listed once.
    pub fn add_build(&mut self, build: Build) -> (r: Result<Vec<Vec<u8>>, Vec<u8>>)
        requires
            old(self).wf(),
            build_ok(&build, old(self).file_count()),
            old(self).build_count() < u32::MAX,
        ensures
            final(self).wf(),
            match old(self).first_claimed(build.outs.ids@, 0) {
                Some(k) => r == Err::<Vec<Vec<u8>>, Vec<u8>>(r->Err_0) && r->Err_0@ == old(self).claimed_msg(
                    spec_loc_text(&build.location),
                    build.outs.ids@[k],
                ) && *final(self) == *old(self),
                None => r is Ok && r->Ok_0@.map_values(|w: Vec<u8>| w@) == old(self).repeat_warnings(
                    spec_loc_text(&build.location),
                    build.outs.ids@,
                ) && self_after_add(*old(self), *final(self), build),
            },
    {
        let new_id = self.builds.next_id();
        let ghost old_g = *self;
        let mut i: usize = 0;
        proof {
            self.lemma_first_claimed(build.outs.ids@, 0);
        }
        while i < build.outs.ids.len()
            invariant
                *self == old_g,
                old_g.wf(),
                build_ok(&build, old_g.file_count()),
                i <= build.outs.ids@.len(),
                forall|j: int|
                    0 <= j < i ==> old_g.files.view()[(#[trigger] build.outs.ids@[j]).0 as int].input is None,
                old_g.first_claimed(build.outs.ids@, 0) == old_g.first_claimed(build.outs.ids@, i as int),
            decreases build.outs.ids@.len() - i,
        {
            let id = build.outs.ids[i];
            let f = self.files.get(&id);
            match f.input {
                Some(prev) => {
                    assert(file_ok(&old_g.files.view()[id.0 as int], old_g.build_count()));
                    let mut msg = build.location.to_text();
                    push_bytes(&mut msg, ": ");
                    push_quoted(&mut msg, f.name.as_slice());
                    push_bytes(&mut msg, " is already an output at ");
                    let loc = self.builds.get(&prev).location.to_text();
                    push_slice(&mut msg, loc.as_slice());
                    assert(msg@ =~= old_g.claimed_msg(spec_loc_text(&build.location), id));
                    return Err(msg);
                },
                None => {},
            }
            i = i + 1;
        }
        proof {
            assert(old_g.first_claimed(build.outs.ids@, i as int) is None);
        }
        let mut build = build;
        let ghost b0 = build;
        // Record the new build among the dependents of its inputs.
        let mut i: usize = 0;
        assert(build.ins.ids@.take(0) =~= Seq::<FileId>::empty());
        while i < build.ins.ids.len()
            invariant
                build == b0,
                old_g.wf(),
                build_ok(&build, old_g.file_count()),
                new_id.0 == old_g.build_count(),
                i <= build.ins.ids@.len(),
                self.builds.view() == old_g.builds.view(),
                self.file_to_id == old_g.file_to_id,
                self.files.view().len() == old_g.files.view().len(),
                forall|f: int|
                    0 <= f < old_g.file_count() ==> {
                        &&& (#[trigger] self.files.view()[f]).name == old_g.files.view()[f].name
                        &&& self.files.view()[f].input == old_g.files.view()[f].input
                        &&& self.files.view()[f].dependents@ == append_copies(
                            old_g.files.view()[f].dependents@,
                            count_id(build.ins.ids@.take(i as int), FileId(f as u32)),
                            new_id,
                        )
                    },
            decreases build.ins.ids@.len() - i,
        {
            let id = build.ins.ids[i];
            let ghost before = self.files.view();
            let f = self.files.get_mut(&id);
            f.dependents.push(new_id);
            proof {
                let t = build.ins.ids@.take(i + 1);
                assert(t.drop_last() =~= build.ins.ids@.take(i as int));
                assert forall|g: int| 0 <= g < old_g.file_count() implies {
                    &&& (#[trigger] self.files.view()[g]).name == old_g.files.view()[g].name
                    &&& self.files.view()[g].input == old_g.files.view()[g].input
                    &&& self.files.view()[g].dependents@ == append_copies(
                        old_g.files.view()[g].dependents@,
                        count_id(t, FileId(g as u32)),
                        new_id,
                    )
                } by {
                    let n0 = count_id(build.ins.ids@.take(i as int), FileId(g as u32));
                    if g == id.0 as int {
                        assert(append_copies(old_g.files.view()[g].dependents@, n0 + 1, new_id)
                            =~= append_copies(old_g.files.view()[g].dependents@, n0, new_id).push(new_id));
                    } else {
                        assert(self.files.view()[g] == before[g]);
                    }
                }
            }
            i = i + 1;
        }
        assert(build.ins.ids@.take(i as int) =~= build.ins.ids@);
        // Claim the outputs.
        let mut warnings: Vec<Vec<u8>> = Vec::new();
        let mut fixup_dups = false;
        let mut i: usize = 0;
        let ghost mid = self.files.view();
        assert(build.outs.ids@.take(0) =~= Seq::<FileId>::empty());
        while i < build.outs.ids.len()
            invariant
                build == b0,
                old_g.wf(),
                build_ok(&build, old_g.file_count()),
                new_id.0 == old_g.build_count(),
                i <= build.outs.ids@.len(),
                self.builds.view() == old_g.builds.view(),
                self.file_to_id == old_g.file_to_id,
                self.files.view().len() == old_g.files.view().len(),
                mid.len() == old_g.files.view().len(),
                forall|j: int|
                    0 <= j < build.outs.ids@.len() ==> old_g.files.view()[(#[trigger] build.outs.ids@[j]).0 as int].input is None,
                forall|f: int|
                    0 <= f < old_g.file_count() ==> {
                        &&& (#[trigger] mid[f]).name == old_g.files.view()[f].name
                        &&& mid[f].input == old_g.files.view()[f].input
                    },
                forall|f: int|
                    0 <= f < old_g.file_count() ==> {
                        &&& (#[trigger] self.files.view()[f]).name == mid[f].name
                        &&& self.files.view()[f].dependents == mid[f].dependents
                        &&& self.files.view()[f].input == if build.outs.ids@.take(i as int).contains(FileId(f as u32)) {
                            Some(new_id)
                        } else {
                            mid[f].input
                        }
                    },
                fixup_dups == has_dup(build.outs.ids@.take(i as int)),
                warnings@.map_values(|w: Vec<u8>| w@) == old_g.repeat_warnings(
                    spec_loc_text(&build.location),
                    build.outs.ids@.take(i as int),
                ),
            decreases build.outs.ids@.len() - i,
        {
            let id = build.outs.ids[i];
            let ghost before = self.files.view();
            let ghost pre = build.outs.ids@.take(i as int);
            let ghost t = build.outs.ids@.take(i + 1);
            assert(t.drop_last() =~= pre);
            assert(t.last() == id);
            let f = self.files.get_mut(&id);
            match f.input {
                Some(_) => {
                    assert(pre.contains(id));
                    fixup_dups = true;
                    let mut w: Vec<u8> = Vec::new();
                    push_bytes(&mut w, "n2: warn: ");
                    let loc = build.location.to_text();
                    push_slice(&mut w, loc.as_slice());
                    push_bytes(&mut w, ": ");
                    push_quoted(&mut w, f.name.as_slice());
                    push_bytes(&mut w, " is repeated in output list");
                    let ghost ws = warnings@;
                    warnings.push(w);
                    proof {
                        assert(old_g.name_of(id.0 as int) == f.name@);
                        assert(warnings@.map_values(|w: Vec<u8>| w@) =~= ws.map_values(|w: Vec<u8>| w@).push(w@));
                        let j = choose|j: int| 0 <= j < pre.len() && pre[j] == id;
                        assert(has_dup(t)) by {
                            assert(t[j] == t[i as int]);
                        }
                    }
                },
                None => {
                    f.input = Some(new_id);
                    proof {
                        if pre.contains(id) {
                            assert(before[id.0 as int].input == Some(new_id));
                        }
                        assert(!pre.contains(id));
                        if has_dup(t) {
                            let (a, b) = choose|a: int, b: int| 0 <= a < b < t.len() && t[a] == t[b];
                            if b == i as int {
                                assert(pre[a] == id);
                            } else {
                                assert(pre[a] == pre[b]);
                            }
                        }
                        if has_dup(pre) {
                            let (a, b) = choose|a: int, b: int| 0 <= a < b < pre.len() && pre[a] == pre[b];
                            assert(t[a] == t[b]);
                        }
                        assert(has_dup(t) == has_dup(pre));
                    }
                },
            }
            proof {
                assert forall|g: int| 0 <= g < old_g.file_count() implies {
                    &&& (#[trigger] self.files.view()[g]).name == mid[g].name
                    &&& self.files.view()[g].dependents == mid[g].dependents
                    &&& self.files.view()[g].input == if t.contains(FileId(g as u32)) {
                        Some(new_id)
                    } else {
                        mid[g].input
                    }
                } by {
                    if g != id.0 as int {
                        assert(self.files.view()[g] == before[g]);
                        if t.contains(FileId(g as u32)) {
                            let j = choose|j: int| 0 <= j < t.len() && t[j] == FileId(g as u32);
                            assert(pre[j] == FileId(g as u32));
                        }
                        if pre.contains(FileId(g as u32)) {
                            let j = choose|j: int| 0 <= j < pre.len() && pre[j] == FileId(g as u32);
                            assert(t[j] == FileId(g as u32));
                        }
                    } else {
                        assert(t[i as int] == id);
                        assert(id == FileId(g as u32));
                    }
                }
            }
            i = i + 1;
        }
        assert(build.outs.ids@.take(i as int) =~= build.outs.ids@);
        if fixup_dups {
            build.outs.remove_duplicates();
        }
        proof {
            lemma_dedup_subset(b0.outs.ids@);
        }
        self.builds.push(build);
        proof {
            assert forall|f: int| 0 <= f < self.file_count() implies file_ok(
                &#[trigger] self.files.view()[f],
                self.build_count(),
            ) by {
                assert(file_ok(&old_g.files.view()[f], old_g.build_count()));
                let d = self.files.view()[f].dependents@;
                let od = old_g.files.view()[f].dependents@;
                assert forall|k: int| 0 <= k < d.len() implies (#[trigger] d[k]).0 < self.build_count() by {
                    if k < od.len() {
                        assert(d[k] == od[k]);
                    }
                }
            }
            assert forall|b: int| 0 <= b < self.build_count() implies build_ok(
                &#[trigger] self.builds.view()[b],
                self.file_count(),
            ) by {
                if b < old_g.build_count() {
                    assert(build_ok(&old_g.builds.view()[b], old_g.file_count()));
                } else {
                    let nb = self.builds.view()[b];
                    if fixup_dups {
                        assert forall|k: int| 0 <= k < nb.outs.ids@.len() implies (#[trigger] nb.outs.ids@[k]).0
                            < self.file_count() by {
                            let j = choose|j: int| 0 <= j < b0.outs.ids@.len() && b0.outs.ids@[j] == nb.outs.ids@[k];
                        }
                    }
                }
            }
            assert forall|x: int, y: int|
                0 <= x < self.file_count() && 0 <= y < self.file_count() && x != y implies #[trigger] self.name_of(x)
                != #[trigger] self.name_of(y) by {
                assert(old_g.name_of(x) != old_g.name_of(y));
            }
            assert(forall|x: int| 0 <= x < self.file_count() ==> #[trigger] self.name_of(x) == old_g.name_of(x));
        }
        Ok(warnings)
    }

    /// Replace the discovered inputs of build `id` with `deps`, less the
    /// dirtying inputs the build file already lists; true if that changed
    /// them.
    pub fn update_discovered(&mut self, id: BuildId, deps: Vec<FileId>) -> (r: bool)
        requires
            old(self).wf(),
            id.0 < old(self).build_count(),
            ids_below(deps@, old(self).file_count()),
        ensures
            final(self).wf(),
            final(self).files == old(self).files,
            final(self).file_to_id == old(self).file_to_id,
            final(self).build_count() == old(self).build_count(),
            forall|b: int|
                0 <= b < old(self).build_count() && b != id.0 ==> #[trigger] final(self).builds.view()[b]
                    == old(self).builds.view()[b],
            same_but_discovered(&old(self).builds.view()[id.0 as int], &final(self).builds.view()[id.0 as int]),
            final(self).builds.view()[id.0 as int].discovered_ins@ == without_listed(
                deps@,
                crate::hash::dirtying(&old(self).builds.view()[id.0 as int]),
            ),
            r == (without_listed(deps@, crate::hash::dirtying(&old(self).builds.view()[id.0 as int])) != old(
                self,
            ).builds.view()[id.0 as int].discovered_ins@),
    {
        let ghost g0 = *self;
        proof {
            lemma_without_listed_subset(deps@, crate::hash::dirtying(&g0.builds.view()[id.0 as int]));
            assert(build_ok(&g0.builds.view()[id.0 as int], g0.file_count()));
        }
        let b = self.build_mut(id);
        let r = b.update_discovered(deps);
        proof {
            assert(self.files == g0.files);
            assert(self.file_to_id == g0.file_to_id);
            assert(forall|i: int| 0 <= i < self.file_count() ==> #[trigger] self.name_of(i) == g0.name_of(i));
            assert(self.index_ok());
            assert forall|a: int, c: int|
                0 <= a < self.file_count() && 0 <= c < self.file_count() && a != c implies #[trigger] self.name_of(a)
                != #[trigger] self.name_of(c) by {
                assert(g0.name_of(a) != g0.name_of(c));
            }
            assert forall|x: int| 0 <= x < self.build_count() implies build_ok(
                &#[trigger] self.builds.view()[x],
                self.file_count(),
            ) by {
                assert(build_ok(&g0.builds.view()[x], g0.file_count()));
                if x == id.0 {
                    let d = self.builds.view()[x].discovered_ins@;
                    assert forall|k: int| 0 <= k < d.len() implies (#[trigger] d[k]).0 < self.file_count() by {
                        assert(deps@.contains(d[k]));
                    }
                }
            }
            assert forall|f: int| 0 <= f < self.file_count() implies file_ok(
                &#[trigger] self.files.view()[f],
                self.build_count(),
            ) by {
                assert(file_ok(&g0.files.view()[f], g0.build_count()));
            }
        }
        r
    }

    /// Set the discovered inputs of build `id`.
    pub fn set_discovered(&mut self, id: BuildId, deps: Vec<FileId>)
        requires
            old(self).wf(),
            id.0 < old(self).build_count(),
            ids_below(deps@, old(self).file_count()),
        ensures
            final(self).wf(),
            final(self).files == old(self).files,
            final(self).file_to_id == old(self).file_to_id,
            final(self).build_count() == old(self).build_count(),
            forall|b: int|
                0 <= b < old(self).build_count() && b != id.0 ==> #[trigger] final(self).builds.view()[b]
                    == old(self).builds.view()[b],
            same_but_discovered(&old(self).builds.view()[id.0 as int], &final(self).builds.view()[id.0 as int]),
            final(self).builds.view()[id.0 as int].discovered_ins == deps,
    {
        let ghost g0 = *self;
        let b = self.build_mut(id);
        b.set_discovered_ins(deps);
        proof {
            assert(self.files == g0.files);
            assert(self.file_to_id == g0.file_to_id);
            assert(forall|i: int| 0 <= i < self.file_count() ==> #[trigger] self.name_of(i) == g0.name_of(i));
            assert(self.index_ok());
            assert forall|a: int, c: int|
                0 <= a < self.file_count() && 0 <= c < self.file_count() && a != c implies #[trigger] self.name_of(a)
                != #[trigger] self.name_of(c) by {
                assert(g0.name_of(a) != g0.name_of(c));
            }
            assert forall|x: int| 0 <= x < self.build_count() implies build_ok(
                &#[trigger] self.builds.view()[x],
                self.file_count(),
            ) by {
                assert(build_ok(&g0.builds.view()[x], g0.file_count()));
            }
            assert forall|f: int| 0 <= f < self.file_count() implies file_ok(
                &#[trigger] self.files.view()[f],
                self.build_count(),
            ) by {
                assert(file_ok(&g0.files.view()[f], g0.build_count()));
            }
        }
    }

    /// Look up a Build by BuildId, to change it in place.
    pub fn build_mut(&mut self, id: BuildId) -> (r: &mut Build)
        requires
            id.0 < old(self).build_count(),
        ensures
            *r == old(self).builds.view()[id.0 as int],
            final(self).builds.view() == old(self).builds.view().update(id.0 as int, *final(r)),
            final(self).files == old(self).files,
            final(self).file_to_id == old(self).file_to_id,
    {
        self.builds.get_mut(&id)
    }

    /// Look up a Build by BuildId.
    pub fn build(&self, id: BuildId) -> (r: &Build)
        requires
            id.0 < self.build_count(),
        ensures
            *r == self.builds.view()[id.0 as int],
    {
        self.builds.get(&id)
    }
}

/// MTime info gathered for a file.  This also models "file is absent".
/// It's not using an Option<> just because it makes the code using it easier
/// to follow.
#[derive(Clone, Copy, Debug, PartialEq, Eq, Structural)]
pub enum MTime {
    Missing,
    /// Modification time, in nanoseconds since the Unix epoch.
    Stamp(u64),
}

/// Gathered state of on-disk files.
/// Due to discovered deps this map may grow after graph initialization.
pub struct FileState(pub DenseMap<FileId, Option<MTime>>);

impl FileState {
    /// The recorded state of file `i`, if any.
    pub open spec fn spec_get(&self, i: int) -> Option<MTime> {
        if 0 <= i < self.0.view().len() {
            self.0.view()[i]
        } else {
            None
        }
    }

    /// No state for any file of `graph` yet.
    pub fn new(graph: &Graph) -> (r: FileState)
        ensures
            r.0.view().len() == graph.file_count(),
            forall|i: int| #[trigger] r.spec_get(i) is None,
    {
        FileState(DenseMap::new_sized(graph.files.len(), None))
    }

    pub fn get(&self, id: FileId) -> (r: Option<MTime>)
        ensures
            r == self.spec_get(id.0 as int),
    {
        match self.0.lookup(&id) {
            Some(m) => *m,
            None => None,
        }
    }

    /// Record a freshly stat()ed mtime for `id`, returning it.
    pub fn restat(&mut self, id: FileId, mtime: MTime) -> (r: MTime)
        requires
            id.0 < u32::MAX,
        ensures
            r == mtime,
            forall|i: int|
                #[trigger] final(self).spec_get(i) == if i == id.0 {
                    Some(mtime)
                } else {
                    old(self).spec_get(i)
                },
    {
        self.0.set_grow(&id, Some(mtime), None);
        mtime
    }
}

/// The hash of each build's manifest as of its last run.
pub struct Hashes(pub HashMap<u32, Hash>);

impl Hashes {
    pub open spec fn view(&self) -> Map<u32, Hash> {
        self.0@
    }

    pub fn new() -> (r: Hashes)
        ensures
            r.view() == Map::<u32, Hash>::empty(),
    {
        Hashes(HashMap::new())
    }

    pub fn set(&mut self, id: BuildId, hash: Hash)
        ensures
            final(self).view() == old(self).view().insert(id.0, hash),
    {
        self.0.insert(id.0, hash);
    }

    pub fn get(&self, id: BuildId) -> (r: Option<Hash>)
        ensures
            r == if self.view().contains_key(id.0) {
                Some(self.view()[id.0])
            } else {
                None
            },
    {
        match self.0.get(&id.0) {
            Some(h) => Some(*h),
            None => None,
        }
    }
}

/// What `get` answers after `set` on the same build is the hash that was
/// set, and `set` on one build leaves what `get` answers for another as it was.
pub proof fn law_hashes_get_set(m: Map<u32, Hash>, a: BuildId, b: BuildId, h: Hash)
    ensures
        m.insert(a.0, h).contains_key(a.0) && m.insert(a.0, h)[a.0] == h,
        a.0 != b.0 ==> (m.insert(a.0, h).contains_key(b.0) == m.contains_key(b.0)),
        a.0 != b.0 && m.contains_key(b.0) ==> m.insert(a.0, h)[b.0] == m[b.0],
{
}

/// Names and ids of files go both ways: looking up the name of a file of
/// the graph gives back that file, and a file found by name bears the name.
pub proof fn law_file_name_round_trip(g: Graph, id: FileId, name: Seq<u8>)
    requires
        g.wf(),
    ensures
        id.0 < g.file_count() ==> g.spec_lookup(g.name_of(id.0 as int)) == Some(id),
        g.spec_lookup(name) matches Some(f) ==> f.0 < g.file_count() && g.name_of(f.0 as int) == name,
        g.spec_lookup(name) is None ==> forall|i: int| 0 <= i < g.file_count() ==> #[trigger] g.name_of(i) != name,
{
    g.lemma_lookup_some(name);
    if id.0 < g.file_count() {
        let n = g.name_of(id.0 as int);
        assert(0 <= id.0 < g.file_count() && g.name_of(id.0 as int) == n);
        g.lemma_lookup_some(n);
        let f = g.spec_lookup(n)->Some_0;
        assert(g.name_of(f.0 as int) == n);
    }
}

/// What `file_id(name)` did, taking graph `g0` to `g1` and returning `r`:
/// the name now looks up `r`; a known name gave its file and left the files
/// as they were; a new name got the next id, the files before it unchanged.
pub open spec fn file_id_step(g0: Graph, name: Seq<u8>, r: FileId, g1: Graph) -> bool {
    &&& g1.wf()
    &&& g1.spec_lookup(name) == Some(r)
    &&& r.0 < g1.file_count()
    &&& g1.name_of(r.0 as int) == name
    &&& g0.spec_lookup(name) matches Some(id) ==> r == id && g1.files.view() == g0.files.view()
    &&& g0.spec_lookup(name) is None ==> {
        &&& r.0 == g0.file_count()
        &&& g1.file_count() == g0.file_count() + 1
        &&& forall|i: int| 0 <= i < g0.file_count() ==> #[trigger] g1.files.view()[i] == g0.files.view()[i]
    }
}

/// `n` is one of `names`.
pub open spec fn named_in(names: Seq<Seq<u8>>, n: Seq<u8>) -> bool {
    exists|j: int| 0 <= j < names.len() && #[trigger] names[j] == n
}

/// The names of the files of `g`, by id.
pub open spec fn file_names(g: Graph) -> Seq<Seq<u8>> {
    Seq::new(g.file_count() as nat, |i: int| g.name_of(i))
}

/// File `rs[j]` is among the names `n` and bears the name `names[j]`.
pub open spec fn bears(n: Seq<Seq<u8>>, names: Seq<Seq<u8>>, rs: Seq<FileId>, j: int) -> bool {
    rs[j].0 < n.len() && n[rs[j].0 as int] == names[j]
}

/// What `file_id_step` says of the names of the files, `n0` before and `n1`
/// after: `r` bears `name`, and the names stayed as they were or gained
/// `name`, as `r`, at the end.
pub open spec fn names_grow(n0: Seq<Seq<u8>>, name: Seq<u8>, r: FileId, n1: Seq<Seq<u8>>) -> bool {
    &&& r.0 < n1.len()
    &&& n1[r.0 as int] == name
    &&& n1 == n0 || (r.0 == n0.len() && n1 == n0.push(name))
}

proof fn lemma_names_history(ns: Seq<Seq<Seq<u8>>>, names: Seq<Seq<u8>>, rs: Seq<FileId>)
    requires
        ns.len() == names.len() + 1,
        rs.len() == names.len(),
        ns[0].len() == 0,
        forall|k: int| 0 <= k < names.len() ==> #[trigger] names_grow(ns[k], names[k], rs[k], ns[k + 1]),
    ensures
        forall|j: int| 0 <= j < names.len() ==> #[trigger] bears(ns.last(), names, rs, j),
        forall|i: int| 0 <= i < ns.last().len() ==> named_in(names, #[trigger] ns.last()[i]),
    decreases names.len(),
{
    if names.len() > 0 {
        let n = names.len() - 1;
        let s2 = ns.drop_last();
        let n2 = names.drop_last();
        let r2 = rs.drop_last();
        assert forall|k: int| 0 <= k < n2.len() implies #[trigger] names_grow(s2[k], n2[k], r2[k], s2[k + 1]) by {
            assert(names_grow(ns[k], names[k], rs[k], ns[k + 1]));
        }
        lemma_names_history(s2, n2, r2);
        let a = ns[n];
        let b = ns[n + 1];
        assert(s2.last() == a);
        assert(ns.last() == b);
        assert(names_grow(a, names[n], rs[n], b));
        assert forall|x: int| 0 <= x < a.len() implies #[trigger] b[x] == a[x] by {
            if b != a {
                assert(b == a.push(names[n]));
            }
        }
        assert forall|j: int| 0 <= j < names.len() implies #[trigger] bears(ns.last(), names, rs, j) by {
            if j < n {
                assert(n2[j] == names[j]);
                assert(r2[j] == rs[j]);
                assert(bears(s2.last(), n2, r2, j));
                assert(b[rs[j].0 as int] == a[rs[j].0 as int]);
            } else {
                assert(j == n);
            }
        }
        assert forall|i: int| 0 <= i < b.len() implies named_in(names, #[trigger] b[i]) by {
            if i < a.len() {
                assert(b[i] == a[i]);
                assert(named_in(n2, s2.last()[i]));
                let j = choose|j: int| 0 <= j < n2.len() && #[trigger] n2[j] == a[i];
                assert(names[j] == n2[j]);
            } else {
                assert(b == a.push(names[n]));
                assert(names[n] == b[i]);
            }
        }
    }
}

/// A series of `file_id` calls on an empty graph (the graphs `gs`), with
/// names `names` that gave ids `rs`: looking up a name afterwards gives the
/// id that an earlier `file_id` of that very name returned, and a name no
/// `file_id` call was given looks up nothing.  A file's name is the name it
/// was added under.
pub proof fn law_file_id_lookup(gs: Seq<Graph>, names: Seq<Seq<u8>>, rs: Seq<FileId>, q: Seq<u8>)
    requires
        gs.len() == names.len() + 1,
        rs.len() == names.len(),
        gs[0].wf(),
        gs[0].file_count() == 0,
        forall|k: int| 0 <= k < names.len() ==> #[trigger] file_id_step(gs[k], names[k], rs[k], gs[k + 1]),
    ensures
        forall|j: int| 0 <= j < names.len() ==> gs.last().spec_lookup(#[trigger] names[j]) == Some(rs[j])
            && gs.last().name_of(rs[j].0 as int) == names[j],
        (forall|j: int| 0 <= j < names.len() ==> #[trigger] names[j] != q) ==> gs.last().spec_lookup(q) is None,
{
    let ns = Seq::new(gs.len(), |k: int| file_names(gs[k]));
    assert forall|k: int| 0 <= k < names.len() implies #[trigger] names_grow(ns[k], names[k], rs[k], ns[k + 1]) by {
        let g0 = gs[k];
        let g1 = gs[k + 1];
        assert(file_id_step(g0, names[k], rs[k], g1));
        if g0.spec_lookup(names[k]) is Some {
            assert(file_names(g1) =~= file_names(g0));
        } else {
            assert forall|i: int| 0 <= i < g0.file_count() implies #[trigger] g1.name_of(i) == g0.name_of(i) by {
                assert(g1.files.view()[i] == g0.files.view()[i]);
            }
            assert(file_names(g1) =~= file_names(g0).push(names[k]));
        }
    }
    assert(ns[0].len() == 0);
    lemma_names_history(ns, names, rs);
    let g = gs.last();
    assert(ns.last() == file_names(g));
    if names.len() > 0 {
        let m = names.len() - 1;
        assert(file_id_step(gs[m], names[m], rs[m], gs[m + 1]));
    }
    assert(g.wf());
    assert forall|j: int| 0 <= j < names.len() implies g.spec_lookup(#[trigger] names[j]) == Some(rs[j]) && g.name_of(
        rs[j].0 as int,
    ) == names[j] by {
        assert(bears(ns.last(), names, rs, j));
        law_file_name_round_trip(g, rs[j], names[j]);
    }
    if forall|j: int| 0 <= j < names.len() ==> #[trigger] names[j] != q {
        law_file_name_round_trip(g, FileId(0), q);
        if g.spec_lookup(q) is Some {
            let f = g.spec_lookup(q)->Some_0;
            assert(named_in(names, file_names(g)[f.0 as int]));
            let j = choose|j: int| 0 <= j < names.len() && #[trigger] names[j] == file_names(g)[f.0 as int];
            assert(names[j] == q);
        }
    }
}

/// A build that is added becomes the generating build of each of its
/// outputs.
pub proof fn law_added_build_generates_outputs(g0: Graph, g: Graph, b: Build)
    requires
        build_ok(&b, g0.file_count()),
        self_after_add(g0, g, b),
    ensures
        forall|k: int|
            0 <= k < b.outs.ids@.len() ==> g.files.view()[(#[trigger] b.outs.ids@[k]).0 as int].input == Some(
                BuildId(g0.build_count() as u32),
            ),
{
    assert forall|k: int| 0 <= k < b.outs.ids@.len() implies g.files.view()[(#[trigger] b.outs.ids@[k]).0 as int].input
        == Some(BuildId(g0.build_count() as u32)) by {
        let f = b.outs.ids@[k].0 as int;
        assert(0 <= f < g0.file_count());
        assert(FileId(f as u32) == b.outs.ids@[k]);
        assert(b.outs.ids@.contains(FileId(f as u32)));
        assert(g.files.view()[f].name == g0.files.view()[f].name);
    }
}

/// Removing repeated outputs keeps each output once: the result holds no
/// id twice, holds exactly the ids of the list, and keeps a list without
/// repeats as it is.
pub proof fn law_dedup(s: Seq<FileId>)
    ensures
        !has_dup(dedup(s)),
        forall|x: FileId| dedup(s).contains(x) <==> s.contains(x),
        !has_dup(s) ==> dedup(s) == s,
    decreases s.len(),
{
    if s.len() > 0 {
        let init = s.drop_last();
        let x = s.last();
        law_dedup(init);
        let d = dedup(init);
        assert forall|y: FileId| s.contains(y) <==> (init.contains(y) || y == x) by {
            if s.contains(y) {
                let j = choose|j: int| 0 <= j < s.len() && s[j] == y;
                if j < s.len() - 1 {
                    assert(init[j] == y);
                }
            }
            if init.contains(y) {
                let j = choose|j: int| 0 <= j < init.len() && init[j] == y;
                assert(s[j] == y);
            }
            if y == x {
                assert(s[s.len() - 1] == x);
            }
        }
        if init.contains(x) {
            if !has_dup(s) {
                let j = choose|j: int| 0 <= j < init.len() && init[j] == x;
                assert(s[j] == s[s.len() - 1]);
            }
        } else {
            let d2 = d.push(x);
            assert(!d.contains(x));
            assert forall|i: int, j: int| 0 <= i < j < d2.len() implies d2[i] != d2[j] by {
                if j == d2.len() - 1 {
                    assert(d2[i] == d[i]);
                    if d2[i] == d2[j] {
                        assert(d.contains(x));
                    }
                } else {
                    assert(d2[i] == d[i] && d2[j] == d[j]);
                }
            }
            assert forall|y: FileId| d2.contains(y) <==> (d.contains(y) || y == x) by {
                if d2.contains(y) {
                    let j = choose|j: int| 0 <= j < d2.len() && d2[j] == y;
                    if j < d.len() {
                        assert(d[j] == y);
                    }
                }
                if d.contains(y) {
                    let j = choose|j: int| 0 <= j < d.len() && d[j] == y;
                    assert(d2[j] == y);
                }
                if y == x {
                    assert(d2[d.len() as int] == x);
                }
            }
            if !has_dup(s) {
                assert(!has_dup(init)) by {
                    if has_dup(init) {
                        let (i, j) = choose|i: int, j: int| 0 <= i < j < init.len() && init[i] == init[j];
                        assert(s[i] == s[j]);
                    }
                }
                assert(d == init);
                assert(d2 =~= s);
            }
        }
    } else {
        assert(dedup(s) =~= s);
    }
}

} // verus!
