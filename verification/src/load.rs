//! Graph loading: runs .ninja parsing and constructs the build graph from it.
use vstd::prelude::*;
use vstd::string::StringSliceAdditionalSpecFns;
use crate::canon::{canon_path, spec_canon_path};
use crate::eval::{EvalString, Frame, FrameFn, Vars, VarValueView, eval_text, frames_view};
use crate::db;
use crate::fs::FileSystem;
use crate::graph::{
    self, Build, BuildIns, BuildOuts, FileId, FileLoc, Graph, RspFile, build_ok, ids_below,
    dedup, has_dup, explicit_after, spec_loc_text,
};
use crate::parse::{self, Parser, Statement};
use crate::scanner::format_parse_error;
use crate::smallmap::{SmallMap, spec_get, spec_insert, law_get_insert};
use crate::text::{bytes_eq, bytes_of, copy_vec, push_bytes, push_quoted, push_slice, quoted};

verus! {

/// `names` joined by `sep`; the separator goes only after something has
/// been written.
pub open spec fn join(names: Seq<Seq<u8>>, sep: u8) -> Seq<u8>
    decreases names.len(),
{
    if names.len() == 0 {
        Seq::empty()
    } else {
        let a = join(names.drop_last(), sep);
        if a.len() == 0 {
            names.last()
        } else {
            a + seq![sep] + names.last()
        }
    }
}

/// The names of the files `ids`.
pub open spec fn names_of(g: &Graph, ids: Seq<FileId>) -> Seq<Seq<u8>> {
    ids.map_values(|id: FileId| g.name_of(id.0 as int))
}

/// The names of the files of `ids`, joined by `sep`.
fn file_list(g: &Graph, ids: &[FileId], sep: u8) -> (r: Vec<u8>)
    requires
        ids_below(ids@, g.file_count()),
    ensures
        r@ == join(names_of(g, ids@), sep),
{
    let mut out: Vec<u8> = Vec::new();
    let mut i: usize = 0;
    assert(names_of(g, ids@.take(0)) =~= Seq::<Seq<u8>>::empty());
    while i < ids.len()
        invariant
            i <= ids@.len(),
            ids_below(ids@, g.file_count()),
            out@ == join(names_of(g, ids@.take(i as int)), sep),
        decreases ids@.len() - i,
    {
        let ghost pre = names_of(g, ids@.take(i as int));
        let ghost next = names_of(g, ids@.take(i + 1));
        assert(next.drop_last() =~= pre);
        assert(next.last() == g.name_of(ids@[i as int].0 as int));
        if out.len() > 0 {
            out.push(sep);
        }
        let name = &g.file(ids[i]).name;
        push_slice(&mut out, name.as_slice());
        i = i + 1;
        assert(out@ =~= join(next, sep));
    }
    assert(ids@.take(i as int) =~= ids@);
    out
}

/// The magic `$in`, `$in_newline`, `$out` and `$out_newline` variables of a
/// build whose explicit inputs and outputs have the names given.
pub open spec fn implicit_frame(ins: Seq<Seq<u8>>, outs: Seq<Seq<u8>>) -> FrameFn {
    |v: Seq<u8>|
        if v == "in".spec_bytes() {
            Some(VarValueView::Literal(join(ins, 0x20)))
        } else if v == "in_newline".spec_bytes() {
            Some(VarValueView::Literal(join(ins, 0x0a)))
        } else if v == "out".spec_bytes() {
            Some(VarValueView::Literal(join(outs, 0x20)))
        } else if v == "out_newline".spec_bytes() {
            Some(VarValueView::Literal(join(outs, 0x0a)))
        } else {
            None
        }
}

/// Where name `k` of `names` starts when they are written one after
/// another, each followed by one separator byte.
pub open spec fn name_offset(names: Seq<Seq<u8>>, k: int) -> int
    decreases k,
{
    if k <= 0 {
        0
    } else {
        name_offset(names, k - 1) + names[k - 1].len() + 1
    }
}

/// Name `k` of `names` stands in `v` at its offset.
pub open spec fn name_at(v: Seq<u8>, names: Seq<Seq<u8>>, k: int) -> bool {
    v.subrange(name_offset(names, k), name_offset(names, k) + names[k].len()) == names[k]
}

/// The byte `sep` stands in `v` just before name `k` of `names`.
pub open spec fn sep_before(v: Seq<u8>, names: Seq<Seq<u8>>, k: int, sep: u8) -> bool {
    v[name_offset(names, k) - 1] == sep
}

/// `v` holds the non-empty `names` in order, with the byte `sep` between
/// each two and nothing else: its length is that of the names and one
/// separator between each two, each name stands at its offset, and a
/// separator stands before each name but the first.
pub open spec fn joined_by(v: Seq<u8>, names: Seq<Seq<u8>>, sep: u8) -> bool {
    &&& v.len() == if names.len() == 0 {
        0
    } else {
        name_offset(names, names.len() as int) - 1
    }
    &&& forall|k: int| 0 <= k < names.len() ==> #[trigger] name_at(v, names, k)
    &&& forall|k: int| 0 < k < names.len() ==> #[trigger] sep_before(v, names, k, sep)
}

proof fn lemma_name_offset_prefix(names: Seq<Seq<u8>>, n: int, k: int)
    requires
        0 <= k <= n <= names.len(),
    ensures
        name_offset(names.subrange(0, n), k) == name_offset(names, k),
    decreases k,
{
    if k > 0 {
        lemma_name_offset_prefix(names, n, k - 1);
    }
}

proof fn lemma_name_offset_mono(names: Seq<Seq<u8>>, j: int, k: int)
    requires
        0 <= j <= k <= names.len(),
    ensures
        name_offset(names, j) + (k - j) <= name_offset(names, k),
    decreases k - j,
{
    if j < k {
        lemma_name_offset_mono(names, j, k - 1);
    }
}

/// Joining non-empty names puts each in order, one separator between each
/// two.
pub proof fn law_join(names: Seq<Seq<u8>>, sep: u8)
    requires
        forall|k: int| 0 <= k < names.len() ==> (#[trigger] names[k]).len() > 0,
    ensures
        joined_by(join(names, sep), names, sep),
    decreases names.len(),
{
    let n = names.len() as int;
    if n > 0 {
        let init = names.drop_last();
        assert forall|k: int| 0 <= k < init.len() implies (#[trigger] init[k]).len() > 0 by {
            assert(init[k] == names[k]);
        }
        law_join(init, sep);
        let a = join(init, sep);
        let v = join(names, sep);
        assert(init =~= names.subrange(0, n - 1));
        assert forall|k: int| 0 <= k <= n - 1 implies name_offset(init, k) == name_offset(names, k) by {
            lemma_name_offset_prefix(names, n - 1, k);
        }
        if n == 1 {
            assert(a.len() == 0);
            assert(v == names[0]);
            assert(name_at(v, names, 0)) by {
                assert(v.subrange(0, names[0].len() as int) =~= v);
            }
        } else {
            assert(name_at(a, init, 0));
            assert(a.len() > 0) by {
                lemma_name_offset_mono(init, 0, n - 1);
            }
            assert(v == a + seq![sep] + names.last());
            let an = name_offset(names, n - 1);
            assert(a.len() == an - 1);
            assert forall|k: int| 0 <= k < n implies #[trigger] name_at(v, names, k) by {
                if k < n - 1 {
                    lemma_name_offset_mono(names, k + 1, n - 1);
                    lemma_name_offset_mono(names, 0, k);
                    let ok = name_offset(names, k);
                    assert(name_offset(names, k + 1) == ok + names[k].len() + 1);
                    assert(ok + names[k].len() <= a.len());
                    assert(init[k] == names[k]);
                    assert(name_at(a, init, k));
                    assert(v.subrange(name_offset(names, k), name_offset(names, k) + names[k].len()) =~= a.subrange(
                        name_offset(init, k),
                        name_offset(init, k) + init[k].len(),
                    ));
                } else {
                    assert(v.subrange(an, an + names[k].len()) =~= names.last());
                }
            }
            assert forall|k: int| 0 < k < n implies #[trigger] sep_before(v, names, k, sep) by {
                if k < n - 1 {
                    lemma_name_offset_mono(names, k, n - 1);
                    lemma_name_offset_mono(names, 0, k);
                    assert(1 <= name_offset(names, k) <= a.len());
                    assert(sep_before(a, init, k, sep));
                    assert(v[name_offset(names, k) - 1] == a[name_offset(init, k) - 1]);
                } else {
                    assert(v[an - 1] == sep);
                }
            }
        }
    }
}

/// The magic variables are the build's explicit inputs and outputs: `$in`
/// is every input name in order, separated by single spaces, `$in_newline`
/// the same separated by newlines, and likewise `$out` and `$out_newline`
/// for the outputs.  (Names of files are never empty.)
pub proof fn law_implicit_vars(ins: Seq<Seq<u8>>, outs: Seq<Seq<u8>>)
    requires
        forall|k: int| 0 <= k < ins.len() ==> (#[trigger] ins[k]).len() > 0,
        forall|k: int| 0 <= k < outs.len() ==> (#[trigger] outs[k]).len() > 0,
    ensures
        implicit_frame(ins, outs)("in".spec_bytes()) matches Some(VarValueView::Literal(v)) && joined_by(v, ins, 0x20),
        implicit_frame(ins, outs)("in_newline".spec_bytes()) matches Some(VarValueView::Literal(v)) && joined_by(
            v,
            ins,
            0x0a,
        ),
        implicit_frame(ins, outs)("out".spec_bytes()) matches Some(VarValueView::Literal(v)) && joined_by(v, outs, 0x20),
        implicit_frame(ins, outs)("out_newline".spec_bytes()) matches Some(VarValueView::Literal(v)) && joined_by(
            v,
            outs,
            0x0a,
        ),
{
    lemma_magic_names();
    law_join(ins, 0x20);
    law_join(ins, 0x0a);
    law_join(outs, 0x20);
    law_join(outs, 0x0a);
}

proof fn lemma_magic_names()
    ensures
        "in".spec_bytes().len() == 2,
        "in_newline".spec_bytes().len() == 10,
        "out".spec_bytes().len() == 3,
        "out_newline".spec_bytes().len() == 11,
{
    reveal_strlit("in");
    reveal_strlit("in_newline");
    reveal_strlit("out");
    reveal_strlit("out_newline");
    assert(vstd::string::is_ascii("in"));
    assert(vstd::string::is_ascii("in_newline"));
    assert(vstd::string::is_ascii("out"));
    assert(vstd::string::is_ascii("out_newline"));
    vstd::string::is_ascii_spec_bytes("in");
    vstd::string::is_ascii_spec_bytes("in_newline");
    vstd::string::is_ascii_spec_bytes("out");
    vstd::string::is_ascii_spec_bytes("out_newline");
}

proof fn lemma_limit_messages()
    ensures
        "empty path".spec_bytes().len() == 10,
        "too many files".spec_bytes().len() == 14,
        "too many builds".spec_bytes().len() == 15,
{
    reveal_strlit("empty path");
    reveal_strlit("too many files");
    reveal_strlit("too many builds");
    assert(vstd::string::is_ascii("empty path"));
    assert(vstd::string::is_ascii("too many files"));
    assert(vstd::string::is_ascii("too many builds"));
    vstd::string::is_ascii_spec_bytes("empty path");
    vstd::string::is_ascii_spec_bytes("too many files");
    vstd::string::is_ascii_spec_bytes("too many builds");
}

/// The magic variables of `build`, as a frame of literal values.
fn implicit_vars(g: &Graph, build: &Build) -> (r: SmallMap<Vec<u8>, Vec<u8>>)
    requires
        build_ok(build, g.file_count()),
        build.outs.explicit <= build.outs.ids@.len(),
    ensures
        forall|v: Seq<u8>|
            #[trigger] Frame::Literal(&r).spec_get(v) == (implicit_frame(
                names_of(g, build.ins.ids@.subrange(0, build.ins.explicit as int)),
                names_of(g, build.outs.ids@.subrange(0, build.outs.explicit as int)),
            ))(v),
{
    let ins = build.explicit_ins();
    let outs = build.explicit_outs();
    let mut m: SmallMap<Vec<u8>, Vec<u8>> = SmallMap::new();
    proof {
        m.lemma_kv();
    }
    let ghost e0 = m.kv();
    let l1 = file_list(g, ins, 0x20u8);
    let l2 = file_list(g, ins, 0x0au8);
    let l3 = file_list(g, outs, 0x20u8);
    let l4 = file_list(g, outs, 0x0au8);
    let ghost (v1, v2, v3, v4) = (l1, l2, l3, l4);
    m.insert(bytes_of("in"), l1);
    let ghost e1 = m.kv();
    m.insert(bytes_of("in_newline"), l2);
    let ghost e2 = m.kv();
    m.insert(bytes_of("out"), l3);
    let ghost e3 = m.kv();
    m.insert(bytes_of("out_newline"), l4);
    proof {
        lemma_magic_names();
        m.lemma_kv();
        assert forall|v: Seq<u8>|
            #[trigger] Frame::Literal(&m).spec_get(v) == (implicit_frame(
                names_of(g, build.ins.ids@.subrange(0, build.ins.explicit as int)),
                names_of(g, build.outs.ids@.subrange(0, build.outs.explicit as int)),
            ))(v) by {
            law_get_insert(e3, "out_newline".spec_bytes(), v4, v);
            law_get_insert(e2, "out".spec_bytes(), v3, v);
            law_get_insert(e1, "in_newline".spec_bytes(), v2, v);
            law_get_insert(e0, "in".spec_bytes(), v1, v);
        }
    }
    m
}

/// Every name in `g0` is still there, under the same id, in `g`.
pub open spec fn names_kept(g0: &Graph, g: &Graph) -> bool {
    &&& g0.file_count() <= g.file_count()
    &&& forall|i: int| 0 <= i < g0.file_count() ==> #[trigger] g.name_of(i) == g0.name_of(i)
}

/// A byte string option, as bytes.
pub open spec fn opt_bytes(o: Option<Vec<u8>>) -> Option<Seq<u8>> {
    match o {
        Some(v) => Some(v@),
        None => None,
    }
}

/// Internal state used while loading.
pub struct Loader {
    pub graph: Graph,
    pub default: Vec<FileId>,
    /// rule name -> list of (key, val)
    pub rules: SmallMap<Vec<u8>, SmallMap<Vec<u8>, EvalString>>,
    pub pools: SmallMap<Vec<u8>, usize>,
    pub builddir: Option<Vec<u8>>,
    /// The top-level variables, evaluated.
    pub vars: Vars,
}

impl Loader {
    pub open spec fn wf(&self) -> bool {
        &&& self.graph.wf()
        &&& ids_below(self.default@, self.graph.file_count())
    }

    /// The frames a build's paths are evaluated in: its own bindings, then
    /// the top-level variables.
    pub open spec fn build_frames(&self, b: &parse::Build) -> Seq<FrameFn> {
        frames_view(seq![Frame::Scoped(&b.vars), Frame::Vars(&self.vars)])
    }

    /// The canonical names the paths `paths` of build `b` evaluate to.
    pub open spec fn path_texts(&self, b: &parse::Build, paths: Seq<EvalString>) -> Seq<Seq<u8>> {
        paths.map_values(|e: EvalString| eval_text(e.0@, self.build_frames(b), 0))
    }

    /// What `key` is bound to for build `b` of rule `rule`, whose magic
    /// variables are `imp`: the build's own binding, evaluated in the top
    /// level, else the rule's, evaluated in the magic variables, the
    /// build's bindings, the rule's other bindings (themselves evaluated in
    /// the magic variables and the top level) and the top level.
    pub open spec fn binding(
        &self,
        b: &parse::Build,
        rule: SmallMap<Vec<u8>, EvalString>,
        imp: FrameFn,
        key: Seq<u8>,
    ) -> Option<Seq<u8>> {
        match spec_get(b.vars.kv(), key) {
            Some(e) => Some(eval_text(e.0@, frames_view(seq![Frame::Vars(&self.vars)]), 0)),
            None => match spec_get(rule.kv(), key) {
                Some(e) => Some(eval_text(e.0@, self.rule_frames(b, rule, imp), 0)),
                None => None,
            },
        }
    }

    /// The frames a rule's binding is evaluated in for build `b`: the magic
    /// variables, the build's bindings, the rule's bindings, the magic
    /// variables again and the top level.
    pub open spec fn rule_frames(&self, b: &parse::Build, rule: SmallMap<Vec<u8>, EvalString>, imp: FrameFn) -> Seq<
        FrameFn,
    > {
        let bf = self.build_frames(b);
        seq![imp, bf[0], |v: Seq<u8>| Frame::Scoped(&rule).spec_get(v), imp, bf[1]]
    }

    pub fn new() -> (r: Loader)
        ensures
            r.wf(),
            r.graph.file_count() == 0,
            r.graph.build_count() == 0,
            r.default@.len() == 0,
            r.rules.kv().len() == 1,
            r.rules.kv()[0].0 == "phony".spec_bytes(),
            r.rules.kv()[0].1.kv().len() == 0,
            r.pools.kv().len() == 0,
            r.builddir is None,
            r.vars.view_map() == Map::<Seq<u8>, Seq<u8>>::empty(),
    {
        let mut rules: SmallMap<Vec<u8>, SmallMap<Vec<u8>, EvalString>> = SmallMap::new();
        proof {
            rules.lemma_kv();
        }
        let phony: SmallMap<Vec<u8>, EvalString> = SmallMap::new();
        proof {
            phony.lemma_kv();
        }
        rules.insert(bytes_of("phony"), phony);
        let pools: SmallMap<Vec<u8>, usize> = SmallMap::new();
        proof {
            pools.lemma_kv();
        }
        Loader {
            graph: Graph::new(),
            default: Vec::new(),
            rules,
            pools,
            builddir: None,
            vars: Vars::new(),
        }
    }

    /// Convert a path to a FileId, adding a file for it when it is new.
    pub fn path(&mut self, path: Vec<u8>) -> (r: Result<FileId, Vec<u8>>)
        requires
            old(self).wf(),
        ensures
            final(self).wf(),
            names_kept(&old(self).graph, &final(self).graph),
            final(self).graph.builds.view() == old(self).graph.builds.view(),
            final(self).default == old(self).default,
            final(self).rules == old(self).rules,
            final(self).pools == old(self).pools,
            final(self).builddir == old(self).builddir,
            final(self).vars == old(self).vars,
            path@.len() == 0 ==> (r matches Err(e) && e@ == "empty path".spec_bytes()),
            path@.len() > 0 && old(self).graph.spec_lookup(spec_canon_path(path@)) is Some ==> r
                == Ok::<FileId, Vec<u8>>(old(self).graph.spec_lookup(spec_canon_path(path@)).unwrap()),
            path@.len() > 0 && old(self).graph.file_count() < u32::MAX ==> r is Ok,
            r matches Err(e) ==> (path@.len() == 0 && e@ == "empty path".spec_bytes()) || (path@.len() > 0
                && e@ == "too many files".spec_bytes() && old(self).graph.file_count() >= u32::MAX),
            r matches Ok(id) ==> path@.len() > 0 && id.0 < final(self).graph.file_count()
                && final(self).graph.name_of(id.0 as int) == spec_canon_path(path@)
                && final(self).graph.spec_lookup(spec_canon_path(path@)) == Some(id),
            final(self).graph.file_count() <= old(self).graph.file_count() + 1,
    {
        if path.len() == 0 {
            return Err(bytes_of("empty path"));
        }
        let canon = canon_path(path.as_slice());
        match self.graph.lookup(canon.as_slice()) {
            Some(id) => Ok(id),
            None => {
                if self.graph.files.len() >= 0xffff_ffffusize {
                    return Err(bytes_of("too many files"));
                }
                let ghost g0 = self.graph;
                let id = self.graph.file_id(canon);
                proof {
                    assert forall|i: int| 0 <= i < g0.file_count() implies #[trigger] self.graph.name_of(i)
                        == g0.name_of(i) by {
                        assert(self.graph.files.view()[i] == g0.files.view()[i]);
                    }
                }
                Ok(id)
            },
        }
    }

    /// Turns each evaluated path into a file id.
    fn evaluate_paths(&mut self, texts: Vec<Vec<u8>>) -> (r: Result<Vec<FileId>, Vec<u8>>)
        requires
            old(self).wf(),
        ensures
            final(self).wf(),
            names_kept(&old(self).graph, &final(self).graph),
            final(self).graph.builds.view() == old(self).graph.builds.view(),
            final(self).default == old(self).default,
            final(self).rules == old(self).rules,
            final(self).pools == old(self).pools,
            final(self).builddir == old(self).builddir,
            final(self).vars == old(self).vars,
            final(self).graph.file_count() <= old(self).graph.file_count() + texts@.len(),
            r matches Ok(ids) ==> ids@.len() == texts@.len() && ids_below(ids@, final(self).graph.file_count())
                && names_of(&final(self).graph, ids@) == texts@.map_values(|t: Vec<u8>| spec_canon_path(t@))
                && forall|k: int| 0 <= k < texts@.len() ==> (#[trigger] texts@[k])@.len() > 0,
            r matches Err(e) ==> (e@ == "empty path".spec_bytes() && exists|k: int|
                0 <= k < texts@.len() && (#[trigger] texts@[k])@.len() == 0) || (e@
                == "too many files".spec_bytes() && old(self).graph.file_count() + texts@.len() >= u32::MAX),
            (forall|k: int| 0 <= k < texts@.len() ==> (#[trigger] texts@[k])@.len() > 0)
                && old(self).graph.file_count() + texts@.len() < u32::MAX ==> r is Ok,
    {
        let mut ids: Vec<FileId> = Vec::new();
        let mut i: usize = 0;
        let ghost g0 = self.graph;
        let ghost tv = texts@.map_values(|t: Vec<u8>| spec_canon_path(t@));
        while i < texts.len()
            invariant
                self.wf(),
                i <= texts@.len(),
                names_kept(&g0, &self.graph),
                self.graph.builds.view() == old(self).graph.builds.view(),
                g0 == old(self).graph,
                self.default == old(self).default,
                self.rules == old(self).rules,
                self.pools == old(self).pools,
                self.builddir == old(self).builddir,
                self.vars == old(self).vars,
                self.graph.file_count() <= g0.file_count() + i,
                ids@.len() == i,
                ids_below(ids@, self.graph.file_count()),
                tv == texts@.map_values(|t: Vec<u8>| spec_canon_path(t@)),
                forall|k: int| 0 <= k < i ==> self.graph.name_of((#[trigger] ids@[k]).0 as int) == tv[k],
                forall|k: int| 0 <= k < i ==> (#[trigger] texts@[k])@.len() > 0,
            decreases texts@.len() - i,
        {
            let ghost g1 = self.graph;
            let t = copy_vec(&texts[i]);
            let id = match self.path(t) {
                Ok(id) => id,
                Err(e) => {
                    assert(texts@[i as int]@ == t@);
                    return Err(e);
                },
            };
            proof {
                assert forall|k: int| 0 <= k < g0.file_count() implies #[trigger] self.graph.name_of(k)
                    == g0.name_of(k) by {
                    assert(g1.name_of(k) == g0.name_of(k));
                }
                assert forall|k: int| 0 <= k < i implies self.graph.name_of((#[trigger] ids@[k]).0 as int)
                    == tv[k] by {
                    assert(g1.name_of(ids@[k].0 as int) == tv[k]);
                }
            }
            ids.push(id);
            i = i + 1;
        }
        assert(names_of(&self.graph, ids@) =~= tv);
        Ok(ids)
    }

    /// The evaluated texts of `paths` in the frames `envs`.
    fn evaluate_texts(paths: &Vec<EvalString>, envs: &[Frame]) -> (r: Vec<Vec<u8>>)
        ensures
            r@.len() == paths@.len(),
            forall|k: int|
                0 <= k < paths@.len() ==> (#[trigger] r@[k])@ == eval_text(paths@[k].0@, frames_view(envs@), 0),
    {
        let mut r: Vec<Vec<u8>> = Vec::new();
        let mut i: usize = 0;
        while i < paths.len()
            invariant
                i <= paths@.len(),
                r@.len() == i,
                forall|k: int|
                    0 <= k < i ==> (#[trigger] r@[k])@ == eval_text(paths@[k].0@, frames_view(envs@), 0),
            decreases paths@.len() - i,
        {
            r.push(paths[i].evaluate(envs));
            i = i + 1;
        }
        r
    }
}

/// A `deps` attribute the build tool knows.
pub open spec fn valid_deps(d: Seq<u8>) -> bool {
    d == "gcc".spec_bytes() || d == "msvc".spec_bytes()
}

/// The canonical forms of `texts`.
pub open spec fn canon_all(texts: Seq<Seq<u8>>) -> Seq<Seq<u8>> {
    texts.map_values(|t: Seq<u8>| spec_canon_path(t))
}

/// All of `texts` are non-empty.
pub open spec fn all_nonempty(texts: Seq<Seq<u8>>) -> bool {
    forall|k: int| 0 <= k < texts.len() ==> (#[trigger] texts[k]).len() > 0
}

/// `ids` with repeats dropped, when there are any.
pub open spec fn without_repeats(ids: Seq<FileId>) -> Seq<FileId> {
    if has_dup(ids) {
        dedup(ids)
    } else {
        ids
    }
}

impl Loader {
    /// The evaluated inputs of `b`.
    pub open spec fn ins_texts(&self, b: &parse::Build) -> Seq<Seq<u8>> {
        self.path_texts(b, b.ins@)
    }

    /// The evaluated outputs of `b`.
    pub open spec fn outs_texts(&self, b: &parse::Build) -> Seq<Seq<u8>> {
        self.path_texts(b, b.outs@)
    }

    /// The magic variables of `b`.
    pub open spec fn build_imp(&self, b: &parse::Build) -> FrameFn {
        implicit_frame(
            canon_all(self.ins_texts(b)).take(b.explicit_ins as int),
            canon_all(self.outs_texts(b)).take(b.explicit_outs as int),
        )
    }

    /// For a build statement, `$in` is the canonical names of its explicit
    /// inputs, in order, separated by single spaces, and `$out` those of its
    /// explicit outputs; `$in_newline` and `$out_newline` separate them by
    /// newlines.
    pub proof fn law_build_magic_vars(&self, b: &parse::Build)
        requires
            b.explicit_ins <= b.ins@.len(),
            b.explicit_outs <= b.outs@.len(),
        ensures
            ({
                let ins = canon_all(self.ins_texts(b)).take(b.explicit_ins as int);
                let outs = canon_all(self.outs_texts(b)).take(b.explicit_outs as int);
                &&& self.build_imp(b)("in".spec_bytes()) matches Some(VarValueView::Literal(v)) && joined_by(v, ins, 0x20)
                &&& self.build_imp(b)("in_newline".spec_bytes()) matches Some(VarValueView::Literal(v)) && joined_by(
                    v,
                    ins,
                    0x0a,
                )
                &&& self.build_imp(b)("out".spec_bytes()) matches Some(VarValueView::Literal(v)) && joined_by(
                    v,
                    outs,
                    0x20,
                )
                &&& self.build_imp(b)("out_newline".spec_bytes()) matches Some(VarValueView::Literal(v)) && joined_by(
                    v,
                    outs,
                    0x0a,
                )
            }),
    {
        let ins = canon_all(self.ins_texts(b)).take(b.explicit_ins as int);
        let outs = canon_all(self.outs_texts(b)).take(b.explicit_outs as int);
        assert forall|k: int| 0 <= k < ins.len() implies (#[trigger] ins[k]).len() > 0 by {
            assert(ins[k] == spec_canon_path(self.ins_texts(b)[k]));
        }
        assert forall|k: int| 0 <= k < outs.len() implies (#[trigger] outs[k]).len() > 0 by {
            assert(outs[k] == spec_canon_path(self.outs_texts(b)[k]));
        }
        law_implicit_vars(ins, outs);
    }

    /// What `key` is bound to for `b`, given its rule.
    pub open spec fn var_of(&self, b: &parse::Build, key: Seq<u8>) -> Option<Seq<u8>> {
        match spec_get(self.rules.kv(), b.rule@) {
            Some(rule) => self.binding(b, rule, self.build_imp(b), key),
            None => None,
        }
    }

    /// Why `b` cannot be added, before the graph is asked, if it cannot.
    pub open spec fn build_error(&self, b: &parse::Build) -> Option<Seq<u8>> {
        if spec_get(self.rules.kv(), b.rule@) is None {
            Some("unknown rule ".spec_bytes() + quoted(b.rule@))
        } else if self.var_of(b, "deps".spec_bytes()) is Some && !valid_deps(
            self.var_of(b, "deps".spec_bytes()).unwrap(),
        ) {
            Some("invalid deps attribute ".spec_bytes() + quoted(self.var_of(b, "deps".spec_bytes()).unwrap()))
        } else if self.var_of(b, "rspfile".spec_bytes()) is Some != self.var_of(
            b,
            "rspfile_content".spec_bytes(),
        ) is Some {
            Some("rspfile and rspfile_content need to be both specified".spec_bytes())
        } else {
            None
        }
    }

    /// `nb` is the build record that `b` yields, given the ids its inputs
    /// and outputs got and the location text of the file it is in.
    pub open spec fn built_from(
        &self,
        nb: &Build,
        b: &parse::Build,
        filename: Seq<u8>,
        ins: Seq<FileId>,
        outs: Seq<FileId>,
    ) -> bool {
        &&& nb.location.filename@ == filename
        &&& nb.location.line == b.line
        &&& nb.ins.ids@ == ins
        &&& nb.ins.explicit == b.explicit_ins
        &&& nb.ins.implicit == b.implicit_ins
        &&& nb.ins.order_only == b.order_only_ins
        &&& nb.outs.ids@ == without_repeats(outs)
        &&& nb.outs.explicit == if has_dup(outs) {
            explicit_after(outs, b.explicit_outs as int, outs.len())
        } else {
            b.explicit_outs as int
        }
        &&& nb.discovered_ins@.len() == 0
        &&& opt_bytes(nb.cmdline) == self.var_of(b, "command".spec_bytes())
        &&& opt_bytes(nb.desc) == self.var_of(b, "description".spec_bytes())
        &&& opt_bytes(nb.depfile) == self.var_of(b, "depfile".spec_bytes())
        &&& opt_bytes(nb.deps) == self.var_of(b, "deps".spec_bytes())
        &&& opt_bytes(nb.pool) == self.var_of(b, "pool".spec_bytes())
        &&& match nb.rspfile {
            Some(rsp) => self.var_of(b, "rspfile".spec_bytes()) == Some(rsp.path@) && self.var_of(
                b,
                "rspfile_content".spec_bytes(),
            ) == Some(rsp.content@),
            None => self.var_of(b, "rspfile".spec_bytes()) is None,
        }
        &&& nb.hide_success == self.var_of(b, "hide_success".spec_bytes()) is Some
        &&& nb.hide_progress == self.var_of(b, "hide_progress".spec_bytes()) is Some
    }

    /// Looks up `key` for a build, as `binding` says.
    fn lookup_var(
        &self,
        b: &parse::Build,
        rule: &SmallMap<Vec<u8>, EvalString>,
        imp: &SmallMap<Vec<u8>, Vec<u8>>,
        key: &str,
    ) -> (r: Option<Vec<u8>>)
        ensures
            opt_bytes(r) == self.binding(
                b,
                *rule,
                |v: Seq<u8>| Frame::Literal(imp).spec_get(v),
                key.spec_bytes(),
            ),
    {
        let k = key.as_bytes();
        assert(k@ == key.spec_bytes());
        match b.vars.get(k) {
            Some(val) => {
                let envs = vec![Frame::Vars(&self.vars)];
                assert(envs@ =~= seq![Frame::Vars(&self.vars)]);
                let r = val.evaluate(envs.as_slice());
                assert(opt_bytes(Some(r)) == self.binding(
                    b,
                    *rule,
                    |v: Seq<u8>| Frame::Literal(imp).spec_get(v),
                    key.spec_bytes(),
                ));
                Some(r)
            },
            None => match rule.get(k) {
                Some(val) => {
                    let envs = vec![
                        Frame::Literal(imp),
                        Frame::Scoped(&b.vars),
                        Frame::Scoped(rule),
                        Frame::Literal(imp),
                        Frame::Vars(&self.vars),
                    ];
                    let ghost fv = frames_view(envs@);
                    let ghost want = self.rule_frames(b, *rule, |v: Seq<u8>| Frame::Literal(imp).spec_get(v));
                    assert(fv.len() == want.len());
                    assert(fv[0] =~= want[0]);
                    assert(fv[1] =~= want[1]);
                    assert(fv[2] =~= want[2]);
                    assert(fv[3] =~= want[3]);
                    assert(fv[4] =~= want[4]);
                    assert(fv =~= want);
                    let r = val.evaluate(envs.as_slice());
                    Some(r)
                },
                None => None,
            },
        }
    }

    /// Add the build statement `b` of the file `filename` to the graph.
    pub fn add_build(&mut self, filename: &Vec<u8>, b: parse::Build) -> (r: Result<Vec<Vec<u8>>, Vec<u8>>)
        requires
            old(self).wf(),
            b.explicit_ins + b.implicit_ins + b.order_only_ins <= b.ins@.len(),
            b.explicit_outs <= b.outs@.len(),
        ensures
            final(self).wf(),
            names_kept(&old(self).graph, &final(self).graph),
            final(self).default == old(self).default,
            final(self).rules == old(self).rules,
            final(self).pools == old(self).pools,
            final(self).builddir == old(self).builddir,
            final(self).vars == old(self).vars,
            !all_nonempty(old(self).ins_texts(&b) + old(self).outs_texts(&b)) ==> (r matches Err(e) && (e@
                == "empty path".spec_bytes() || (e@ == "too many files".spec_bytes()
                && old(self).graph.file_count() + b.ins@.len() + b.outs@.len() >= u32::MAX))),
            all_nonempty(old(self).ins_texts(&b) + old(self).outs_texts(&b)) && old(self).build_error(&b)
                is Some ==> (r matches Err(e) && (e@ == old(self).build_error(&b).unwrap() || (e@
                == "too many files".spec_bytes() && old(self).graph.file_count() + b.ins@.len()
                + b.outs@.len() >= u32::MAX))),
            all_nonempty(old(self).ins_texts(&b) + old(self).outs_texts(&b)) && old(self).build_error(&b)
                is None && old(self).graph.file_count() + b.ins@.len() + b.outs@.len() < u32::MAX
                && old(self).graph.build_count() >= u32::MAX ==> (r matches Err(e) && e@
                == "too many builds".spec_bytes()),
            all_nonempty(old(self).ins_texts(&b) + old(self).outs_texts(&b)) && old(self).build_error(&b)
                is None && old(self).graph.file_count() + b.ins@.len() + b.outs@.len() < u32::MAX
                && old(self).graph.build_count() < u32::MAX ==> r is Ok || exists|outs: Seq<FileId>|
                {
                    &&& names_of(&final(self).graph, outs) == canon_all(old(self).outs_texts(&b))
                    &&& final(self).graph.first_claimed(outs, 0) is Some
                    &&& r is Err
                    &&& r->Err_0@ == final(self).graph.claimed_msg(
                        filename@ + seq![0x3au8] + crate::text::spec_decimal(b.line as nat),
                        outs[final(self).graph.first_claimed(outs, 0).unwrap()],
                    )
                },
            r matches Ok(w) ==> {
                &&& all_nonempty(old(self).ins_texts(&b) + old(self).outs_texts(&b))
                &&& old(self).build_error(&b) is None
                &&& final(self).graph.build_count() == old(self).graph.build_count() + 1
                &&& forall|i: int|
                    0 <= i < old(self).graph.build_count() ==> #[trigger] final(self).graph.builds.view()[i]
                        == old(self).graph.builds.view()[i]
                &&& exists|ins: Seq<FileId>, outs: Seq<FileId>|
                    {
                        &&& names_of(&final(self).graph, ins) == canon_all(old(self).ins_texts(&b))
                        &&& names_of(&final(self).graph, outs) == canon_all(old(self).outs_texts(&b))
                        &&& old(self).built_from(
                            &final(self).graph.builds.view()[old(self).graph.build_count()],
                            &b,
                            filename@,
                            ins,
                            outs,
                        )
                        &&& w@.map_values(|x: Vec<u8>| x@) == final(self).graph.repeat_warnings(
                            filename@ + seq![0x3au8] + crate::text::spec_decimal(b.line as nat),
                            outs,
                        )
                    }
            },
    {
        let ghost l0 = *self;
        proof {
            lemma_limit_messages();
        }
        let envs = vec![Frame::Scoped(&b.vars), Frame::Vars(&self.vars)];
        assert(frames_view(envs@) == l0.build_frames(&b));
        let ins_texts = Self::evaluate_texts(&b.ins, envs.as_slice());
        let outs_texts = Self::evaluate_texts(&b.outs, envs.as_slice());
        let ghost itv = ins_texts@.map_values(|t: Vec<u8>| t@);
        let ghost otv = outs_texts@.map_values(|t: Vec<u8>| t@);
        assert(itv =~= l0.ins_texts(&b));
        assert(otv =~= l0.outs_texts(&b));
        assert(ins_texts@.map_values(|t: Vec<u8>| spec_canon_path(t@)) =~= canon_all(l0.ins_texts(&b)));
        assert(outs_texts@.map_values(|t: Vec<u8>| spec_canon_path(t@)) =~= canon_all(l0.outs_texts(&b)));
        proof {
            let all = l0.ins_texts(&b) + l0.outs_texts(&b);
            if !all_nonempty(all) {
                let k = choose|k: int| 0 <= k < all.len() && (#[trigger] all[k]).len() == 0;
                if k < itv.len() {
                    assert(ins_texts@[k]@.len() == 0);
                } else {
                    assert(outs_texts@[k - itv.len()]@.len() == 0);
                }
            }
        }
        let ghost it = ins_texts@;
        let ins = match self.evaluate_paths(ins_texts) {
            Ok(ids) => ids,
            Err(e) => {
                proof {
                    let all = l0.ins_texts(&b) + l0.outs_texts(&b);
                    if e@ == "empty path".spec_bytes() {
                        let k = choose|k: int| 0 <= k < it.len() && (#[trigger] it[k])@.len() == 0;
                        assert(all[k] == it[k]@);
                    }
                }
                return Err(e);
            },
        };
        let ghost g1 = self.graph;
        let ghost ot = outs_texts@;
        let outs = match self.evaluate_paths(outs_texts) {
            Ok(ids) => ids,
            Err(e) => {
                proof {
                    let all = l0.ins_texts(&b) + l0.outs_texts(&b);
                    if e@ == "empty path".spec_bytes() {
                        let k = choose|k: int| 0 <= k < ot.len() && (#[trigger] ot[k])@.len() == 0;
                        assert(all[k + it.len()] == ot[k]@);
                    }
                    assert forall|i: int| 0 <= i < l0.graph.file_count() implies #[trigger] self.graph.name_of(i)
                        == l0.graph.name_of(i) by {
                        assert(g1.name_of(i) == l0.graph.name_of(i));
                    }
                }
                return Err(e);
            },
        };
        let ghost g2 = self.graph;
        proof {
            assert(names_of(&g2, ins@) =~= names_of(&g1, ins@));
            assert(all_nonempty(l0.ins_texts(&b) + l0.outs_texts(&b)));
        }
        let loc = FileLoc { filename: copy_vec(filename), line: b.line };
        let mut build = Build::new(
            loc,
            BuildIns { ids: ins, explicit: b.explicit_ins, implicit: b.implicit_ins, order_only: b.order_only_ins },
            BuildOuts { ids: outs, explicit: b.explicit_outs },
        );
        let rule = match self.rules.get(b.rule.as_slice()) {
            Some(r) => r,
            None => {
                let mut msg = bytes_of("unknown rule ");
                push_quoted(&mut msg, b.rule.as_slice());
                return Err(msg);
            },
        };
        let imp = implicit_vars(&self.graph, &build);
        proof {
            let ex_in = names_of(&self.graph, build.ins.ids@.subrange(0, build.ins.explicit as int));
            let ex_out = names_of(&self.graph, build.outs.ids@.subrange(0, build.outs.explicit as int));
            assert(ex_in =~= canon_all(l0.ins_texts(&b)).take(b.explicit_ins as int));
            assert(ex_out =~= canon_all(l0.outs_texts(&b)).take(b.explicit_outs as int));
            assert((|v: Seq<u8>| Frame::Literal(&imp).spec_get(v)) =~= l0.build_imp(&b));
        }
        let ghost rl = *rule;
        assert(spec_get(l0.rules.kv(), b.rule@) == Some(rl));
        let cmdline = self.lookup_var(&b, rule, &imp, "command");
        let desc = self.lookup_var(&b, rule, &imp, "description");
        let depfile = self.lookup_var(&b, rule, &imp, "depfile");
        let deps = self.lookup_var(&b, rule, &imp, "deps");
        match &deps {
            Some(d) => {
                if !(bytes_eq(d.as_slice(), "gcc".as_bytes()) || bytes_eq(d.as_slice(), "msvc".as_bytes())) {
                    let mut msg = bytes_of("invalid deps attribute ");
                    push_quoted(&mut msg, d.as_slice());
                    return Err(msg);
                }
            },
            None => {},
        }
        let pool = self.lookup_var(&b, rule, &imp, "pool");
        let rspfile_path = self.lookup_var(&b, rule, &imp, "rspfile");
        let rspfile_content = self.lookup_var(&b, rule, &imp, "rspfile_content");
        let rspfile = match (rspfile_path, rspfile_content) {
            (None, None) => None,
            (Some(path), Some(content)) => Some(RspFile { path, content }),
            _ => {
                return Err(bytes_of("rspfile and rspfile_content need to be both specified"));
            },
        };
        let hide_success = self.lookup_var(&b, rule, &imp, "hide_success").is_some();
        let hide_progress = self.lookup_var(&b, rule, &imp, "hide_progress").is_some();
        build.cmdline = cmdline;
        build.desc = desc;
        build.depfile = depfile;
        build.deps = deps;
        build.rspfile = rspfile;
        build.pool = pool;
        build.hide_success = hide_success;
        build.hide_progress = hide_progress;
        if self.graph.builds.len() >= 0xffff_ffffusize {
            return Err(bytes_of("too many builds"));
        }
        let ghost nb = build;
        let r = self.graph.add_build(build);
        proof {
            let g3 = self.graph;
            assert(names_of(&g3, nb.ins.ids@) =~= names_of(&g2, nb.ins.ids@));
            assert(names_of(&g3, nb.outs.ids@) =~= names_of(&g2, nb.outs.ids@));
            assert forall|i: int| 0 <= i < l0.graph.file_count() implies #[trigger] g3.name_of(i)
                == l0.graph.name_of(i) by {
                assert(g1.name_of(i) == l0.graph.name_of(i));
                assert(g2.name_of(i) == g1.name_of(i));
            }
            if r is Ok {
                let nb2 = g3.builds.view()[l0.graph.build_count()];
                assert(names_of(&g3, nb.ins.ids@) == canon_all(l0.ins_texts(&b)));
                assert(names_of(&g3, nb.outs.ids@) == canon_all(l0.outs_texts(&b)));
                assert(l0.built_from(&nb2, &b, filename@, nb.ins.ids@, nb.outs.ids@));
                assert(l0.build_error(&b) is None);
                assert(all_nonempty(l0.ins_texts(&b) + l0.outs_texts(&b)));
                assert(g3.build_count() == l0.graph.build_count() + 1);
                assert forall|k: int| 0 <= k < nb.outs.ids@.len() implies g3.name_of(
                    (#[trigger] nb.outs.ids@[k]).0 as int,
                ) == g2.name_of(nb.outs.ids@[k].0 as int) by {
                    assert(ids_below(nb.outs.ids@, g2.file_count()));
                }
                g3.lemma_repeat_warnings_names(
                    &g2,
                    filename@ + seq![0x3au8] + crate::text::spec_decimal(b.line as nat),
                    nb.outs.ids@,
                );
                assert(r->Ok_0@.map_values(|x: Vec<u8>| x@) == g3.repeat_warnings(
                    filename@ + seq![0x3au8] + crate::text::spec_decimal(b.line as nat),
                    nb.outs.ids@,
                ));
            }
        }
        r
    }
}


impl Loader {
    /// Records a rule under its name, replacing any earlier rule of that name.
    pub fn add_rule(&mut self, name: Vec<u8>, vars: SmallMap<Vec<u8>, EvalString>)
        ensures
            final(self).rules.kv() == spec_insert(old(self).rules.kv(), name@, vars),
            final(self).graph == old(self).graph,
            final(self).default == old(self).default,
            final(self).pools == old(self).pools,
            final(self).builddir == old(self).builddir,
            final(self).vars == old(self).vars,
    {
        self.rules.insert(name, vars);
    }

    /// Records a pool's depth under its name.
    pub fn add_pool(&mut self, name: Vec<u8>, depth: usize)
        ensures
            final(self).pools.kv() == spec_insert(old(self).pools.kv(), name@, depth),
            final(self).graph == old(self).graph,
            final(self).default == old(self).default,
            final(self).rules == old(self).rules,
            final(self).builddir == old(self).builddir,
            final(self).vars == old(self).vars,
    {
        self.pools.insert(name, depth);
    }

    /// Binds a top-level variable to its value, evaluated in the variables
    /// bound so far.
    pub fn assign_var(&mut self, name: Vec<u8>, value: &EvalString)
        ensures
            final(self).vars.view_map() == old(self).vars.view_map().insert(
                name@,
                eval_text(value.0@, frames_view(seq![Frame::Vars(&old(self).vars)]), 0),
            ),
            final(self).graph == old(self).graph,
            final(self).default == old(self).default,
            final(self).rules == old(self).rules,
            final(self).pools == old(self).pools,
            final(self).builddir == old(self).builddir,
    {
        let val = {
            let envs = vec![Frame::Vars(&self.vars)];
            assert(envs@ =~= seq![Frame::Vars(&self.vars)]);
            value.evaluate(envs.as_slice())
        };
        self.vars.insert(name, val);
    }

    /// The file id of a path evaluated in the top-level variables.
    fn top_path(&mut self, path: &EvalString) -> (r: Result<FileId, Vec<u8>>)
        requires
            old(self).wf(),
        ensures
            final(self).wf(),
            names_kept(&old(self).graph, &final(self).graph),
            final(self).graph.builds.view() == old(self).graph.builds.view(),
            final(self).default == old(self).default,
            final(self).rules == old(self).rules,
            final(self).pools == old(self).pools,
            final(self).builddir == old(self).builddir,
            final(self).vars == old(self).vars,
            ({
                let t = eval_text(path.0@, frames_view(seq![Frame::Vars(&old(self).vars)]), 0);
                &&& t.len() == 0 ==> (r matches Err(e) && e@ == "empty path".spec_bytes())
                &&& t.len() > 0 && old(self).graph.spec_lookup(spec_canon_path(t)) is Some ==> r == Ok::<
                    FileId,
                    Vec<u8>,
                >(old(self).graph.spec_lookup(spec_canon_path(t)).unwrap())
                &&& t.len() > 0 && old(self).graph.file_count() < u32::MAX ==> r is Ok
                &&& r matches Err(e) ==> (t.len() == 0 && e@ == "empty path".spec_bytes()) || (t.len() > 0
                    && e@ == "too many files".spec_bytes() && old(self).graph.file_count() >= u32::MAX)
                &&& r matches Ok(id) ==> id.0 < final(self).graph.file_count() && final(self).graph.name_of(id.0 as int)
                    == spec_canon_path(t) && final(self).graph.spec_lookup(spec_canon_path(t)) == Some(id)
            }),
            final(self).graph.file_count() <= old(self).graph.file_count() + 1,
    {
        let text = {
            let envs = vec![Frame::Vars(&self.vars)];
            assert(envs@ =~= seq![Frame::Vars(&self.vars)]);
            path.evaluate(envs.as_slice())
        };
        self.path(text)
    }

    /// Adds the paths of a `default` statement to the default targets.
    pub fn add_defaults(&mut self, files: &Vec<EvalString>) -> (r: Result<(), Vec<u8>>)
        requires
            old(self).wf(),
        ensures
            final(self).wf(),
            names_kept(&old(self).graph, &final(self).graph),
            final(self).graph.builds.view() == old(self).graph.builds.view(),
            final(self).rules == old(self).rules,
            final(self).pools == old(self).pools,
            final(self).builddir == old(self).builddir,
            final(self).vars == old(self).vars,
            (forall|k: int|
                0 <= k < files@.len() ==> eval_text(#[trigger] files@[k].0@, frames_view(seq![Frame::Vars(&old(self).vars)]), 0).len()
                    > 0) && old(self).graph.file_count() + files@.len() < u32::MAX ==> r is Ok,
            r is Ok ==> forall|k: int|
                0 <= k < files@.len() ==> eval_text(#[trigger] files@[k].0@, frames_view(seq![Frame::Vars(&old(self).vars)]), 0).len()
                    > 0,
            r matches Err(e) ==> (e@ == "empty path".spec_bytes() && exists|k: int|
                0 <= k < files@.len() && eval_text(#[trigger] files@[k].0@, frames_view(seq![Frame::Vars(&old(self).vars)]), 0).len()
                    == 0) || (e@ == "too many files".spec_bytes() && old(self).graph.file_count() + files@.len()
                >= u32::MAX),
            r is Ok ==> final(self).default@.len() == old(self).default@.len() + files@.len()
                && final(self).default@.subrange(0, old(self).default@.len() as int) == old(self).default@
                && forall|k: int|
                0 <= k < files@.len() ==> final(self).graph.name_of(
                    final(self).default@[old(self).default@.len() + k].0 as int,
                ) == spec_canon_path(
                    eval_text(files@[k].0@, frames_view(seq![Frame::Vars(&old(self).vars)]), 0),
                ),
    {
        let ghost d0 = self.default@;
        let ghost l0 = *self;
        let mut i: usize = 0;
        while i < files.len()
            invariant
                self.wf(),
                i <= files@.len(),
                names_kept(&l0.graph, &self.graph),
                self.graph.builds.view() == l0.graph.builds.view(),
                self.rules == l0.rules,
                self.pools == l0.pools,
                self.builddir == l0.builddir,
                self.vars == l0.vars,
                l0 == *old(self),
                d0 == l0.default@,
                self.default@.len() == d0.len() + i,
                self.default@.subrange(0, d0.len() as int) == d0,
                forall|k: int|
                    0 <= k < i ==> self.graph.name_of(self.default@[d0.len() + k].0 as int)
                        == spec_canon_path(
                        eval_text(files@[k].0@, frames_view(seq![Frame::Vars(&l0.vars)]), 0),
                    ),
                forall|k: int|
                    0 <= k < i ==> eval_text(#[trigger] files@[k].0@, frames_view(seq![Frame::Vars(&l0.vars)]), 0).len() > 0,
                self.graph.file_count() <= l0.graph.file_count() + i,
            decreases files@.len() - i,
        {
            let ghost g1 = self.graph;
            let ghost dv = self.default@;
            let id = match self.top_path(&files[i]) {
                Ok(id) => id,
                Err(e) => {
                    return Err(e);
                },
            };
            self.default.push(id);
            proof {
                assert(self.default@.subrange(0, d0.len() as int) =~= dv.subrange(0, d0.len() as int));
                assert forall|k: int| 0 <= k < i + 1 implies self.graph.name_of(
                    self.default@[d0.len() + k].0 as int,
                ) == spec_canon_path(
                    eval_text(files@[k].0@, frames_view(seq![Frame::Vars(&l0.vars)]), 0),
                ) by {
                    if k < i {
                        assert(self.default@[d0.len() + k] == dv[d0.len() + k]);
                        assert(dv[d0.len() + k].0 < g1.file_count()) by {
                            assert(ids_below(dv, g1.file_count()));
                        }
                        assert(self.graph.name_of(dv[d0.len() + k].0 as int) == g1.name_of(dv[d0.len() + k].0 as int));
                    }
                }
                assert forall|k: int| 0 <= k < self.default@.len() implies (#[trigger] self.default@[k]).0
                    < self.graph.file_count() by {
                    if k < dv.len() {
                        assert(ids_below(dv, g1.file_count()));
                        assert(self.default@[k] == dv[k]);
                    }
                }
                assert forall|x: int| 0 <= x < l0.graph.file_count() implies #[trigger] self.graph.name_of(x)
                    == l0.graph.name_of(x) by {
                    assert(g1.name_of(x) == l0.graph.name_of(x));
                }
            }
            i = i + 1;
        }
        Ok(())
    }

    /// Reads and parses an included file.
    /// The name of file `id` and its contents through `fs`, with a nul
    /// byte added at the end.
    pub fn read_file_by_id<F: FileSystem>(&self, fs: &F, id: FileId) -> (r: Result<(Vec<u8>, Vec<u8>), Vec<u8>>)
        requires
            id.0 < self.graph.file_count(),
        ensures
            r matches Ok((path, bytes)) ==> path@ == self.graph.name_of(id.0 as int) && crate::scanner::nul_terminated(bytes@),
            r matches Err(e) ==> crate::text::has_prefix(
                e@,
                "read ".spec_bytes() + self.graph.name_of(id.0 as int) + ": ".spec_bytes(),
            ),
    {
        let path = copy_vec(&self.graph.file(id).name);
        let mut bytes = match fs.read(path.as_slice()) {
            Ok(Some(b)) => b,
            Ok(None) => {
                let mut msg = bytes_of("read ");
                push_slice(&mut msg, path.as_slice());
                push_bytes(&mut msg, ": ");
                let ghost pre = msg@;
                push_bytes(&mut msg, "No such file or directory (os error 2)");
                assert(msg@.subrange(0, pre.len() as int) =~= pre);
                return Err(msg);
            },
            Err(e) => {
                let mut msg = bytes_of("read ");
                push_slice(&mut msg, path.as_slice());
                push_bytes(&mut msg, ": ");
                let ghost pre = msg@;
                push_slice(&mut msg, e.as_slice());
                assert(msg@.subrange(0, pre.len() as int) =~= pre);
                return Err(msg);
            },
        };
        bytes.push(0u8);
        Ok((path, bytes))
    }

    fn read_nested<F: FileSystem>(&mut self, fs: &F, file: &EvalString, depth: usize) -> (r: Result<Vec<Vec<u8>>, Vec<u8>>)
        requires
            old(self).wf(),
        ensures
            final(self).wf(),
            names_kept(&old(self).graph, &final(self).graph),
            depth == 0 ==> (r matches Err(e) && e@ == "include nesting too deep".spec_bytes()),
            depth > 0 && eval_text(file.0@, frames_view(seq![Frame::Vars(&old(self).vars)]), 0).len() == 0 ==> (r matches Err(
                e,
            ) && e@ == "empty path".spec_bytes()),
            r is Ok ==> depth > 0,
        decreases depth, 0int,
    {
        if depth == 0 {
            return Err(bytes_of("include nesting too deep"));
        }
        let id = self.top_path(file)?;
        let (path, bytes) = self.read_file_by_id(fs, id)?;
        let ghost l1 = *self;
        let r = self.parse_with_parser(fs, path, bytes.as_slice(), depth - 1);
        r
    }

    /// Load statement `st` of the file `name`: add what it declares, or
    /// read the file it includes.  Returns the warnings given.
    fn load_stmt<F: FileSystem>(&mut self, fs: &F, st: Statement, name: &Vec<u8>, depth: usize) -> (r: Result<
        Vec<Vec<u8>>,
        Vec<u8>,
    >)
        requires
            old(self).wf(),
        ensures
            final(self).wf(),
            names_kept(&old(self).graph, &final(self).graph),
            r is Ok ==> stmt_step(*old(self), st, name@, *final(self)),
            r matches Err(e) ==> stmt_fails(*old(self), st, name@, *final(self), e@),
        decreases depth, 1int,
    {
        let ghost st0 = st;
        let stmt = st;
        let mut warnings: Vec<Vec<u8>> = Vec::new();
        match stmt {
            Statement::Rule((name, rule)) => {
                self.add_rule(name, rule.vars);
            },
            Statement::Build(b) => {
                let counts_ok = b.explicit_ins <= b.ins.len() && b.implicit_ins <= b.ins.len() - b.explicit_ins
                    && b.order_only_ins <= b.ins.len() - b.explicit_ins - b.implicit_ins
                    && b.explicit_outs <= b.outs.len();
                if !counts_ok {
                    let e = bytes_of("malformed build statement");
                    proof {
                        assert(stmt_fails(*old(self), st0, name@, *self, e@)) by {
                            reveal(stmt_fails);
                            reveal(build_fails);
                        }
                    }
                    return Err(e);
                }
                let ghost b0 = b;
                let mut w = match self.add_build(name, b) {
                    Ok(w) => w,
                    Err(e) => {
                        proof {
                            let l0 = *old(self);
                            assert(build_fails(l0, b0, name@, *self, e@)) by {
                                reveal(build_fails);
                                let all = l0.ins_texts(&b0) + l0.outs_texts(&b0);
                                let tmf = l0.graph.file_count() + b0.ins@.len() + b0.outs@.len() >= u32::MAX;
                                if !all_nonempty(all) {
                                } else if l0.build_error(&b0) is Some {
                                } else if tmf {
                                    assert(e@ == "too many files".spec_bytes() || e@ != "too many files".spec_bytes());
                                } else if l0.graph.build_count() >= u32::MAX {
                                } else {
                                }
                            }
                            assert(stmt_fails(*old(self), st0, name@, *self, e@)) by {
                                reveal(stmt_fails);
                            }
                        }
                        return Err(e);
                    },
                };
                warnings.append(&mut w);
            },
            Statement::Default(d) => {
                match self.add_defaults(&d.files) {
                    Ok(()) => {},
                    Err(e) => {
                        proof {
                            assert(stmt_fails(*old(self), st0, name@, *self, e@)) by {
                                reveal(stmt_fails);
                                reveal(build_fails);
                            }
                    }
                        return Err(e);
                    },
                }
            },
            Statement::Include(i) => {
                let mut w = match self.read_nested(fs, &i.file, depth) {
                    Ok(w) => w,
                    Err(e) => {
                        proof {
                            assert(stmt_fails(*old(self), st0, name@, *self, e@)) by {
                                reveal(stmt_fails);
                                reveal(build_fails);
                            }
                    }
                        return Err(e);
                    },
                };
                warnings.append(&mut w);
            },
            Statement::Subninja(i) => {
                let mut w = match self.read_nested(fs, &i.file, depth) {
                    Ok(w) => w,
                    Err(e) => {
                        proof {
                            assert(stmt_fails(*old(self), st0, name@, *self, e@)) by {
                                reveal(stmt_fails);
                                reveal(build_fails);
                            }
                    }
                        return Err(e);
                    },
                };
                warnings.append(&mut w);
            },
            Statement::Pool(p) => {
                self.add_pool(p.name, p.depth);
            },
            Statement::VariableAssignment((name, va)) => {
                self.assign_var(name, &va.unevaluated);
            },
        }
        proof {
            assert(stmt_step(*old(self), st0, name@, *self)) by {
                reveal(stmt_step);
            }
        }
        Ok(warnings)
    }

    /// Parses the nul-terminated contents of the file `filename` and adds
    /// what it declares, returning the warnings given along the way.
    pub fn parse_with_parser<F: FileSystem>(&mut self, fs: &F, filename: Vec<u8>, buf: &[u8], depth: usize) -> (r: Result<Vec<Vec<u8>>, Vec<u8>>)
        requires
            old(self).wf(),
            crate::scanner::nul_terminated(buf@),
        ensures
            final(self).wf(),
            names_kept(&old(self).graph, &final(self).graph),
            r is Ok ==> parse::parses_fully(buf@, 0),
            r is Ok ==> exists|sts: Seq<Statement>, ls: Seq<Loader>|
                loaded_from(buf@, filename@, *old(self), sts, ls, *final(self)),
            r matches Err(e) ==> parse_failed(buf@, filename@, e@) || load_failed(
                buf@,
                filename@,
                *old(self),
                e@,
            ),
        decreases depth, 2int,
    {
        let ghost fname = filename@;
        let name = copy_vec(&filename);
        let mut parser = Parser::new(buf, filename, 0);
        let mut warnings: Vec<Vec<u8>> = Vec::new();
        let ghost g0 = self.graph;
        let ghost mut sts: Seq<Statement> = Seq::empty();
        let ghost mut ls: Seq<Loader> = seq![*self];
        assert(sts.map_values(|x: Statement| x@) =~= Seq::<parse::StatementView>::empty());
        loop
            invariant_except_break
                parse::s_read_all(buf@, 0, Seq::empty()) == parse::s_read_all(
                    buf@,
                    parser.scanner.ofs as int,
                    sts.map_values(|x: Statement| x@),
                ),
            invariant
                self.wf(),
                names_kept(&g0, &self.graph),
                g0 == old(self).graph,
                parser.scanner.wf(),
                parser.buf() == buf@,
                name@ == fname,
                fname == filename@,
                parse::parses_fully(buf@, parser.scanner.ofs as int) ==> parse::parses_fully(buf@, 0),
                steps_ok(sts, fname, ls),
                ls[0] == *old(self),
                ls.last() == *self,
            ensures
                parse::parses_fully(buf@, 0),
                steps_ok(sts, fname, ls),
                ls[0] == *old(self),
                ls.last() == *self,
                parse::s_read_all(buf@, 0, Seq::empty()) == Ok::<Seq<parse::StatementView>, int>(
                    sts.map_values(|x: Statement| x@),
                ),
            decreases buf@.len() - parser.scanner.ofs,
        {
            let ghost g1 = self.graph;
            let ghost l1 = *self;
            let ghost ofs0 = parser.scanner.ofs;
            let stmt = match parser.read() {
                Ok(Some(s)) => {
                    proof {
                        assert(parse::parses_fully(buf@, parser.scanner.ofs as int) ==> parse::parses_fully(
                            buf@,
                            ofs0 as int,
                        ));
                        let acc = sts.map_values(|x: Statement| x@);
                        assert(parse::s_read_all(buf@, ofs0 as int, acc) == parse::s_read_all(
                            buf@,
                            parser.scanner.ofs as int,
                            acc.push(s@),
                        ));
                        assert(sts.push(s).map_values(|x: Statement| x@) =~= acc.push(s@));
                    }
                    s
                },
                Ok(None) => {
                    proof {
                        assert(parse::parses_fully(buf@, ofs0 as int));
                        let acc = sts.map_values(|x: Statement| x@);
                        assert(parse::s_read_all(buf@, ofs0 as int, acc) == Ok::<Seq<parse::StatementView>, int>(acc));
                    }
                    break;
                },
                Err(err) => {
                    proof {
                        let acc = sts.map_values(|x: Statement| x@);
                        assert(parse::s_read_all(buf@, ofs0 as int, acc) == Err::<Seq<parse::StatementView>, int>(
                            err.ofs as int,
                        ));
                    }
                    let ghost msg = err.msg@;
                    let ghost eofs = err.ofs as int;
                    let fits = err.ofs <= buf.len() && buf.len() < usize::MAX / 4 && name.len() < usize::MAX / 4;
                    let e = if fits {
                        format_parse_error(0, buf, name.as_slice(), err)
                    } else {
                        err.msg
                    };
                    assert(parse_failed_at(buf@, fname, e@, eofs, msg));
                    return Err(e);
                },
            };
            let ghost st = stmt;
            let ghost q = parser.scanner.ofs as int;
            proof {
                assert(parse::s_read_all(buf@, 0, Seq::empty()) == parse::s_read_all(
                    buf@,
                    q,
                    sts.map_values(|x: Statement| x@).push(st@),
                ));
            }
            match self.load_stmt(fs, stmt, &name, depth) {
                Ok(mut w) => {
                    warnings.append(&mut w);
                },
                Err(e) => {
                    proof {
                        lemma_load_failed(buf@, fname, *old(self), e@, sts, ls, st, q, *self);
                    }
                    return Err(e);
                },
            }
            proof {
                assert forall|x: int| 0 <= x < g0.file_count() implies #[trigger] self.graph.name_of(x)
                    == g0.name_of(x) by {
                    assert(g1.name_of(x) == g0.name_of(x));
                }
                let ls2 = ls.push(*self);
                let sts2 = sts.push(st);
                assert forall|k: int| 0 <= k < sts2.len() implies stmt_step(#[trigger] ls2[k], sts2[k], fname, ls2[k + 1]) by {
                    if k < sts.len() {
                        assert(ls2[k] == ls[k] && ls2[k + 1] == ls[k + 1] && sts2[k] == sts[k]);
                    }
                }
                ls = ls2;
                sts = sts2;
            }
        }
        let ghost lend = *self;
        self.builddir = match self.vars.get("builddir".as_bytes()) {
            Some(v) => Some(copy_vec(v)),
            None => None,
        };
        assert(loaded_from(buf@, fname, *old(self), sts, ls, *self));
        Ok(warnings)
    }
}

/// Loader `l1` has the graph, defaults, rules, pools, build directory and
/// variables of `l0`, but for the parts a statement changes.
pub open spec fn same_but(l0: Loader, l1: Loader, graph: bool, default: bool, rules: bool, pools: bool, vars: bool) -> bool {
    &&& (!graph ==> l1.graph == l0.graph)
    &&& (!default ==> l1.default == l0.default)
    &&& (!rules ==> l1.rules == l0.rules)
    &&& (!pools ==> l1.pools == l0.pools)
    &&& (!vars ==> l1.vars == l0.vars)
    &&& l1.builddir == l0.builddir
}

/// Adding build statement `b` of file `filename` to `l0` gave `l1`: its
/// paths evaluate to non-empty names, its rule and attributes are fine, and
/// the graph gained one build, made as `built_from` says from the files its
/// names stand for, the earlier builds and the names of files unchanged.
pub open spec fn build_step(l0: Loader, b: parse::Build, filename: Seq<u8>, l1: Loader) -> bool {
    &&& l1.wf()
    &&& same_but(l0, l1, true, false, false, false, false)
    &&& names_kept(&l0.graph, &l1.graph)
    &&& b.explicit_ins + b.implicit_ins + b.order_only_ins <= b.ins@.len()
    &&& b.explicit_outs <= b.outs@.len()
    &&& all_nonempty(l0.ins_texts(&b) + l0.outs_texts(&b))
    &&& l0.build_error(&b) is None
    &&& l1.graph.build_count() == l0.graph.build_count() + 1
    &&& forall|i: int| 0 <= i < l0.graph.build_count() ==> #[trigger] l1.graph.builds.view()[i] == l0.graph.builds.view()[i]
    &&& exists|ins: Seq<FileId>, outs: Seq<FileId>|
        {
            &&& names_of(&l1.graph, ins) == canon_all(l0.ins_texts(&b))
            &&& names_of(&l1.graph, outs) == canon_all(l0.outs_texts(&b))
            &&& l0.built_from(&l1.graph.builds.view()[l0.graph.build_count()], &b, filename, ins, outs)
        }
}

/// Adding the default targets `files` to `l0` gave `l1`: each evaluates to a
/// non-empty name, and the defaults gained, in order, the files of their
/// canonical names.
pub open spec fn defaults_step(l0: Loader, files: Seq<EvalString>, l1: Loader) -> bool {
    &&& l1.wf()
    &&& names_kept(&l0.graph, &l1.graph)
    &&& l1.graph.builds.view() == l0.graph.builds.view()
    &&& same_but(l0, l1, true, true, false, false, false)
    &&& forall|k: int|
        0 <= k < files.len() ==> eval_text(#[trigger] files[k].0@, frames_view(seq![Frame::Vars(&l0.vars)]), 0).len() > 0
    &&& l1.default@.len() == l0.default@.len() + files.len()
    &&& l1.default@.subrange(0, l0.default@.len() as int) == l0.default@
    &&& forall|k: int|
        0 <= k < files.len() ==> l1.graph.name_of(l1.default@[l0.default@.len() + k].0 as int) == spec_canon_path(
            eval_text(files[k].0@, frames_view(seq![Frame::Vars(&l0.vars)]), 0),
        )
}

/// What statement `st` of the file `filename`, read from `l0`, made of it
/// when it succeeded: a rule or pool recorded under its name, a variable
/// bound to its value evaluated so far, a build or defaults added as
/// `build_step` and `defaults_step` say; an included file's statements are
/// the file system's affair, so of those only that names are kept.
#[verifier::opaque]
pub open spec fn stmt_step(l0: Loader, st: Statement, filename: Seq<u8>, l1: Loader) -> bool {
    match st {
        Statement::Rule((name, rule)) => l1.rules.kv() == spec_insert(l0.rules.kv(), name@, rule.vars) && same_but(
            l0,
            l1,
            false,
            false,
            true,
            false,
            false,
        ),
        Statement::Build(b) => build_step(l0, b, filename, l1),
        Statement::Default(d) => defaults_step(l0, d.files@, l1),
        Statement::Pool(p) => l1.pools.kv() == spec_insert(l0.pools.kv(), p.name@, p.depth) && same_but(
            l0,
            l1,
            false,
            false,
            false,
            true,
            false,
        ),
        Statement::VariableAssignment((name, va)) => l1.vars.view_map() == l0.vars.view_map().insert(
            name@,
            eval_text(va.unevaluated.0@, frames_view(seq![Frame::Vars(&l0.vars)]), 0),
        ) && same_but(l0, l1, false, false, false, false, true),
        Statement::Include(_) => l1.wf() && names_kept(&l0.graph, &l1.graph),
        Statement::Subninja(_) => l1.wf() && names_kept(&l0.graph, &l1.graph),
    }
}

/// Why adding build statement `b` of file `filename` to `l0` failed with
/// `e`, `l1` being the loader after: its counts of paths do not add up; a
/// path evaluates to nothing (or the graph would hold too many files); its
/// rule or attributes are wrong; the graph holds too many builds; or an
/// output is already the output of another build.  Where its files could
/// take the graph past the count of files ids can tell apart, the reason
/// is left open.
#[verifier::opaque]
pub open spec fn build_fails(l0: Loader, b: parse::Build, filename: Seq<u8>, l1: Loader, e: Seq<u8>) -> bool {
    let all = l0.ins_texts(&b) + l0.outs_texts(&b);
    let too_many_files = l0.graph.file_count() + b.ins@.len() + b.outs@.len() >= u32::MAX;
    let counts_ok = b.explicit_ins + b.implicit_ins + b.order_only_ins <= b.ins@.len() && b.explicit_outs
        <= b.outs@.len();
    ||| !counts_ok && e == "malformed build statement".spec_bytes()
    ||| counts_ok && !all_nonempty(all) && (e == "empty path".spec_bytes() || (e == "too many files".spec_bytes()
        && too_many_files))
    ||| counts_ok && all_nonempty(all) && l0.build_error(&b) is Some && (e == l0.build_error(&b).unwrap() || (e
        == "too many files".spec_bytes() && too_many_files))
    ||| counts_ok && all_nonempty(all) && l0.build_error(&b) is None && too_many_files
    ||| counts_ok && all_nonempty(all) && l0.build_error(&b) is None && !too_many_files && l0.graph.build_count()
        >= u32::MAX && e == "too many builds".spec_bytes()
    ||| counts_ok && all_nonempty(all) && l0.build_error(&b) is None && !too_many_files && l0.graph.build_count()
        < u32::MAX && exists|outs: Seq<FileId>|
        {
            &&& names_of(&l1.graph, outs) == canon_all(l0.outs_texts(&b))
            &&& l1.graph.first_claimed(outs, 0) is Some
            &&& e == l1.graph.claimed_msg(
                filename + seq![0x3au8] + crate::text::spec_decimal(b.line as nat),
                outs[l1.graph.first_claimed(outs, 0).unwrap()],
            )
        }
}

/// Why statement `st` of file `filename`, read from `l0`, failed with `e`,
/// `l1` being the loader after: a build or defaults statement for its own
/// reasons; an included file for whatever reason the file system or the
/// file gives.  Rules, pools and variables never fail.
#[verifier::opaque]
pub open spec fn stmt_fails(l0: Loader, st: Statement, filename: Seq<u8>, l1: Loader, e: Seq<u8>) -> bool {
    match st {
        Statement::Build(b) => build_fails(l0, b, filename, l1, e),
        Statement::Default(d) => (e == "empty path".spec_bytes() && exists|k: int|
            0 <= k < d.files@.len() && eval_text(#[trigger] d.files@[k].0@, frames_view(seq![Frame::Vars(&l0.vars)]), 0).len()
                == 0) || (e == "too many files".spec_bytes() && l0.graph.file_count() + d.files@.len() >= u32::MAX),
        Statement::Include(_) => true,
        Statement::Subninja(_) => true,
        _ => false,
    }
}

/// Loading the nul-terminated text `buf` of file `filename` from loader
/// `l0` failed with `e` at a statement: the statements before it loaded as
/// `stmt_step` says, and it failed as `stmt_fails` says.
#[verifier::opaque]
pub open spec fn load_failed(buf: Seq<u8>, filename: Seq<u8>, l0: Loader, e: Seq<u8>) -> bool {
    exists|sts: Seq<Statement>, ls: Seq<Loader>, st: Statement, q: int, l1: Loader|
        #[trigger] failed_after(buf, filename, l0, e, sts, ls, st, q, l1)
}

proof fn lemma_load_failed(
    buf: Seq<u8>,
    filename: Seq<u8>,
    l0: Loader,
    e: Seq<u8>,
    sts: Seq<Statement>,
    ls: Seq<Loader>,
    st: Statement,
    q: int,
    l1: Loader,
)
    requires
        failed_after(buf, filename, l0, e, sts, ls, st, q, l1),
    ensures
        load_failed(buf, filename, l0, e),
{
    reveal(load_failed);
}

/// `load_failed`, with the statements `sts` that loaded through the states
/// `ls`, the statement `st` that failed, where reading went on from (`q`)
/// and the loader after (`l1`).
pub open spec fn failed_after(
    buf: Seq<u8>,
    filename: Seq<u8>,
    l0: Loader,
    e: Seq<u8>,
    sts: Seq<Statement>,
    ls: Seq<Loader>,
    st: Statement,
    q: int,
    l1: Loader,
) -> bool {
    &&& steps_ok(sts, filename, ls)
    &&& ls[0] == l0
    &&& parse::s_read_all(buf, 0, Seq::empty()) == parse::s_read_all(
        buf,
        q,
        sts.map_values(|s: Statement| s@).push(st@),
    )
    &&& stmt_fails(ls.last(), st, filename, l1, e)
}

/// The error a parse error with message `msg` at offset `ofs` of the text
/// `buf` of file `filename` is reported as: rendered with the line it is on,
/// or the bare message where the text is too large to render it.
pub open spec fn rendered_parse_error(buf: Seq<u8>, filename: Seq<u8>, msg: Seq<u8>, ofs: int) -> Seq<u8> {
    if 0 <= ofs <= buf.len() && buf.len() < usize::MAX / 4 && filename.len() < usize::MAX / 4 {
        crate::scanner::spec_format_parse_error(0, buf, filename, msg, ofs)
    } else {
        msg
    }
}

/// Reading the statements of the nul-terminated text `buf` of file
/// `filename` stops at a parse error at offset `ofs`, and `e` reports it
/// with message `msg`.
pub open spec fn parse_failed_at(buf: Seq<u8>, filename: Seq<u8>, e: Seq<u8>, ofs: int, msg: Seq<u8>) -> bool {
    &&& parse::s_read_all(buf, 0, Seq::empty()) == Err::<Seq<parse::StatementView>, int>(ofs)
    &&& e == rendered_parse_error(buf, filename, msg, ofs)
}

/// Reading the statements of `buf` stops at a parse error, which `e`
/// reports.
pub open spec fn parse_failed(buf: Seq<u8>, filename: Seq<u8>, e: Seq<u8>) -> bool {
    exists|ofs: int, msg: Seq<u8>| #[trigger] parse_failed_at(buf, filename, e, ofs, msg)
}

/// Loading the statements `sts` of file `filename` one after another took
/// the loader through the states `ls`, each step as `stmt_step` says.
pub open spec fn steps_ok(sts: Seq<Statement>, filename: Seq<u8>, ls: Seq<Loader>) -> bool {
    &&& ls.len() == sts.len() + 1
    &&& forall|k: int| 0 <= k < sts.len() ==> stmt_step(#[trigger] ls[k], sts[k], filename, ls[k + 1])
}

/// The statements `sts` are those the nul-terminated text `buf` reads as,
/// and loading them took loader `l0` to loader `l1`, whose build directory
/// is then the `builddir` variable.
pub open spec fn loaded_from(buf: Seq<u8>, filename: Seq<u8>, l0: Loader, sts: Seq<Statement>, ls: Seq<Loader>, l1: Loader) -> bool {
    &&& parse::s_read_all(buf, 0, Seq::empty()) == Ok::<Seq<parse::StatementView>, int>(
        sts.map_values(|s: Statement| s@),
    )
    &&& steps_ok(sts, filename, ls)
    &&& ls[0] == l0
    &&& l1.graph == ls.last().graph
    &&& l1.default == ls.last().default
    &&& l1.rules == ls.last().rules
    &&& l1.pools == ls.last().pools
    &&& l1.vars == ls.last().vars
    &&& opt_bytes(l1.builddir) == l1.vars.view_map().get("builddir".spec_bytes())
}

/// A loader as `Loader::new` makes it, but for the files its graph may
/// already know: no builds, defaults, pools or variables, and the one rule
/// `phony`.
pub open spec fn empty_loader(l: Loader) -> bool {
    &&& l.wf()
    &&& l.graph.build_count() == 0
    &&& l.default@.len() == 0
    &&& l.rules.kv().len() == 1
    &&& l.rules.kv()[0].0 == "phony".spec_bytes()
    &&& l.rules.kv()[0].1.kv().len() == 0
    &&& l.pools.kv().len() == 0
    &&& l.builddir is None
    &&& l.vars.view_map() == Map::<Seq<u8>, Seq<u8>>::empty()
}

/// A file system that holds no files.
pub struct NoFiles;

impl FileSystem for NoFiles {
    fn read(&self, path: &[u8]) -> (r: Result<Option<Vec<u8>>, Vec<u8>>)
        ensures
            r matches Ok(None),
    {
        Ok(None)
    }

    fn stat(&self, path: &[u8]) -> (r: Result<graph::MTime, Vec<u8>>)
        ensures
            r == Ok::<graph::MTime, Vec<u8>>(graph::MTime::Missing),
    {
        Ok(graph::MTime::Missing)
    }

    fn create_dir_all(&self, path: &[u8]) -> (r: Result<(), Vec<u8>>)
        ensures
            r is Ok,
    {
        Ok(())
    }
}

/// State loaded by read().
pub struct State {
    pub graph: Graph,
    pub db: db::Writer,
    pub hashes: graph::Hashes,
    pub default: Vec<FileId>,
    pub pools: SmallMap<Vec<u8>, usize>,
    /// Where the database lives, for what the writer produces.
    pub db_path: Vec<u8>,
    /// Warnings given while loading.
    pub warnings: Vec<Vec<u8>>,
}

/// How deeply include and subninja statements may nest.
pub const MAX_INCLUDE_DEPTH: usize = 256;

/// Where the database lives: `.n2_db`, in the build directory if one is set.
pub open spec fn spec_db_path(builddir: Option<Vec<u8>>) -> Seq<u8> {
    match builddir {
        Some(d) => if d@.len() == 0 {
            ".n2_db".spec_bytes()
        } else if d@.last() == 0x2fu8 {
            d@ + ".n2_db".spec_bytes()
        } else {
            d@ + "/.n2_db".spec_bytes()
        },
        None => ".n2_db".spec_bytes(),
    }
}

/// Where the database lives: `.n2_db`, in the build directory if one is set.
pub fn db_path(builddir: &Option<Vec<u8>>) -> (r: Vec<u8>)
    ensures
        r@ == spec_db_path(*builddir),
{
    match builddir {
        Some(d) => {
            if d.len() == 0 {
                bytes_of(".n2_db")
            } else if d[d.len() - 1] == 0x2fu8 {
                let mut p = copy_vec(d);
                push_bytes(&mut p, ".n2_db");
                p
            } else {
                let mut p = copy_vec(d);
                push_bytes(&mut p, "/.n2_db");
                p
            }
        },
        None => bytes_of(".n2_db"),
    }
}

/// Open the database for `graph` through `fs`: read it if it exists, into
/// `graph` and `hashes`, else start a new one.  Errors are those of loading
/// the database.
fn open_db<F: FileSystem>(fs: &F, builddir: &Option<Vec<u8>>, graph: &mut Graph, hashes: &mut graph::Hashes) -> (r: Result<db::Writer, Vec<u8>>)
    requires
        old(graph).wf(),
    ensures
        r is Ok ==> final(graph).wf() && old(graph).file_count() <= final(graph).file_count(),
        r matches Ok(w) ==> w.ids.wf(final(graph).file_count()),
{
    match builddir {
        Some(d) => {
            if d.len() > 0 {
                fs.create_dir_all(d.as_slice())?;
            }
        },
        None => {},
    }
    let path = db_path(builddir);
    let contents = fs.read(path.as_slice())?;
    match contents {
        None => db::open(None, graph, hashes),
        Some(b) => {
            if graph.files.len() >= u32::MAX as usize || b.len() >= u32::MAX as usize - 1 - graph.files.len() {
                return Err(bytes_of("too many files"));
            }
            db::open(Some(b.as_slice()), graph, hashes)
        },
    }
}

/// Load the build file `build_filename` through `fs`, with the files it
/// includes, and the database, and return the loaded build graph and state.
pub fn read<F: FileSystem>(fs: &F, build_filename: &[u8]) -> (r: Result<State, Vec<u8>>)
    ensures
        r matches Ok(st) ==> st.graph.wf() && ids_below(st.default@, st.graph.file_count()) && st.db.ids.wf(
            st.graph.file_count(),
        ),
        build_filename@.len() == 0 ==> (r matches Err(e) && e@ == "empty path".spec_bytes()),
        r matches Err(e) ==> {
            ||| (build_filename@.len() == 0 && e@ == "empty path".spec_bytes())
            ||| e@ == "too many files".spec_bytes()
            ||| crate::text::has_prefix(e@, "read ".spec_bytes() + spec_canon_path(build_filename@) + ": ".spec_bytes())
            ||| exists|bytes: Seq<u8>| #[trigger] parse_failed(bytes, spec_canon_path(build_filename@), e@)
            ||| exists|bytes: Seq<u8>, l0: Loader|
                empty_loader(l0) && #[trigger] load_failed(bytes, spec_canon_path(build_filename@), l0, e@)
            ||| crate::text::has_prefix(e@, "load .n2_db: ".spec_bytes())
        },
        r matches Ok(st) ==> exists|bytes: Seq<u8>, sts: Seq<Statement>, ls: Seq<Loader>, l0: Loader, l1: Loader|
            {
                &&& empty_loader(l0)
                &&& loaded_from(bytes, spec_canon_path(build_filename@), l0, sts, ls, l1)
                &&& st.default == l1.default
                &&& st.pools == l1.pools
            },
{
    let mut loader = Loader::new();
    let id = match loader.path(copy_vec_slice(build_filename)) {
        Ok(id) => id,
        Err(e) => {
            return Err(e);
        },
    };
    let ghost l0 = loader;
    let (path, bytes) = match loader.read_file_by_id(fs, id) {
        Ok(pb) => pb,
        Err(e) => {
            return Err(e);
        },
    };
    let warnings = match loader.parse_with_parser(fs, path, bytes.as_slice(), MAX_INCLUDE_DEPTH) {
        Ok(w) => w,
        Err(e) => {
            proof {
                assert(empty_loader(l0));
            }
            return Err(e);
        },
    };
    let ghost l1 = loader;
    let mut hashes = graph::Hashes::new();
    let ghost fc = loader.graph.file_count();
    let db = match open_db(fs, &loader.builddir, &mut loader.graph, &mut hashes) {
        Ok(w) => w,
        Err(e) => {
            let mut msg = bytes_of("load .n2_db: ");
            let ghost pre = msg@;
            push_slice(&mut msg, e.as_slice());
            assert(msg@.subrange(0, pre.len() as int) =~= pre);
            return Err(msg);
        },
    };
    let db_path = db_path(&loader.builddir);
    let st = State { graph: loader.graph, db, hashes, default: loader.default, pools: loader.pools, db_path, warnings };
    proof {
        let (sts, ls) = choose|sts: Seq<Statement>, ls: Seq<Loader>| loaded_from(bytes@, l0.graph.name_of(id.0 as int), l0, sts, ls, l1);
        assert(empty_loader(l0));
        assert(loaded_from(bytes@, spec_canon_path(build_filename@), l0, sts, ls, l1));
    }
    Ok(st)
}

/// Parse a single file's content, which may not include other files.
pub fn parse(name: &[u8], content: Vec<u8>) -> (r: Result<Graph, Vec<u8>>)
    ensures
        r matches Ok(g) ==> g.wf(),
        r is Ok ==> parse::parses_fully(content@.push(0u8), 0),
        r matches Ok(g) ==> exists|sts: Seq<Statement>, ls: Seq<Loader>, l0: Loader, l1: Loader|
            {
                &&& empty_loader(l0)
                &&& l0.graph.file_count() == 0
                &&& loaded_from(content@.push(0u8), name@, l0, sts, ls, l1)
                &&& g == l1.graph
            },
        r matches Err(e) ==> parse_failed(content@.push(0u8), name@, e@) || exists|l0: Loader|
            empty_loader(l0) && l0.graph.file_count() == 0 && #[trigger] load_failed(content@.push(0u8), name@, l0, e@),
{
    let ghost old_content = content@;
    let mut content = content;
    content.push(0u8);
    let mut loader = Loader::new();
    let ghost l0 = loader;
    let fs = NoFiles;
    match loader.parse_with_parser(&fs, copy_vec_slice(name), content.as_slice(), MAX_INCLUDE_DEPTH) {
        Ok(_) => {},
        Err(e) => {
            proof {
                assert(empty_loader(l0));
                assert(content@ == old_content.push(0u8));
                assert(parse_failed(old_content.push(0u8), name@, e@) || exists|l: Loader|
                    empty_loader(l) && l.graph.file_count() == 0 && #[trigger] load_failed(old_content.push(0u8), name@, l, e@));
            }
            let r: Result<Graph, Vec<u8>> = Err(e);
            assert(r matches Err(x) && x@ == e@);
            return r;
        },
    }
    proof {
        let (sts, ls) = choose|sts: Seq<Statement>, ls: Seq<Loader>| loaded_from(content@, name@, l0, sts, ls, loader);
        assert(empty_loader(l0));
    }
    Ok(loader.graph)
}

fn copy_vec_slice(s: &[u8]) -> (r: Vec<u8>)
    ensures
        r@ == s@,
{
    let mut r: Vec<u8> = Vec::new();
    push_slice(&mut r, s);
    r
}

} // verus!
