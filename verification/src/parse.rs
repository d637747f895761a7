//! Parser for .ninja files.
//!
//! Each parsing step is specified by a function from the buffer and the
//! position it starts at to what it reads and the position after it, or to
//! the position of the failure.
use vstd::prelude::*;
use crate::eval::{EvalString, is_simple_var_char, var_name_end, simple_var_char};
use crate::scanner::{ParseError, ParseResult, Scanner, nul_terminated, spaces_end};
use crate::smallmap::{SmallMap, spec_insert, map_entry_values};
use crate::text::{bytes_of, bytes_eq, count_nl};
use vstd::string::StringSliceAdditionalSpecFns;

verus! {

/// Where a statement stands within its clump, for variable scoping.
#[derive(Debug, Clone, Copy, PartialEq, Eq)]
pub struct ScopePosition(pub usize);

/// Variable bindings, each name and eval text as bytes, in order.
pub type VarsView = Seq<(Seq<u8>, Seq<u8>)>;

/// A `rule` block.
pub struct Rule {
    pub vars: SmallMap<Vec<u8>, EvalString>,
    pub scope_position: ScopePosition,
}

/// A `pool` block.
pub struct Pool {
    pub name: Vec<u8>,
    pub depth: usize,
}

/// A top-level `name = value` binding.
pub struct VariableAssignment {
    pub unevaluated: EvalString,
    pub scope_position: ScopePosition,
}

/// A `default` statement.
pub struct DefaultStmt {
    pub files: Vec<EvalString>,
    pub scope_position: ScopePosition,
}

/// An `include` or `subninja` statement.
pub struct IncludeOrSubninja {
    pub file: EvalString,
    pub scope_position: ScopePosition,
}

/// A `build` statement, with its paths still unevaluated.
pub struct Build {
    pub rule: Vec<u8>,
    pub line: usize,
    pub outs: Vec<EvalString>,
    pub explicit_outs: usize,
    pub ins: Vec<EvalString>,
    pub explicit_ins: usize,
    pub implicit_ins: usize,
    pub order_only_ins: usize,
    pub vars: SmallMap<Vec<u8>, EvalString>,
    pub scope_position: ScopePosition,
}

pub enum Statement {
    Rule((Vec<u8>, Rule)),
    Build(Build),
    Default(DefaultStmt),
    Include(IncludeOrSubninja),
    Subninja(IncludeOrSubninja),
    Pool(Pool),
    VariableAssignment((Vec<u8>, VariableAssignment)),
}

/// What a build statement says.
pub struct BuildView {
    pub rule: Seq<u8>,
    pub line: nat,
    pub outs: Seq<Seq<u8>>,
    pub explicit_outs: nat,
    pub ins: Seq<Seq<u8>>,
    pub explicit_ins: nat,
    pub implicit_ins: nat,
    pub order_only_ins: nat,
    pub vars: VarsView,
}

/// What a statement says.
pub enum StatementView {
    Rule { name: Seq<u8>, vars: VarsView },
    Build(BuildView),
    Default { files: Seq<Seq<u8>> },
    Include { file: Seq<u8> },
    Subninja { file: Seq<u8> },
    Pool { name: Seq<u8>, depth: nat },
    VariableAssignment { name: Seq<u8>, value: Seq<u8> },
}

/// The bindings of a variable block, as bytes.
pub open spec fn vars_view(m: SmallMap<Vec<u8>, EvalString>) -> VarsView {
    map_entry_values(m.kv(), |e: EvalString| e.0@)
}

/// A list of eval strings, as their texts.
pub open spec fn evals_view(v: Seq<EvalString>) -> Seq<Seq<u8>> {
    v.map_values(|e: EvalString| e.0@)
}

impl View for Build {
    type V = BuildView;

    open spec fn view(&self) -> BuildView {
        BuildView {
            rule: self.rule@,
            line: self.line as nat,
            outs: evals_view(self.outs@),
            explicit_outs: self.explicit_outs as nat,
            ins: evals_view(self.ins@),
            explicit_ins: self.explicit_ins as nat,
            implicit_ins: self.implicit_ins as nat,
            order_only_ins: self.order_only_ins as nat,
            vars: vars_view(self.vars),
        }
    }
}

impl View for Statement {
    type V = StatementView;

    open spec fn view(&self) -> StatementView {
        match self {
            Statement::Rule((name, r)) => StatementView::Rule { name: name@, vars: vars_view(r.vars) },
            Statement::Build(b) => StatementView::Build(b@),
            Statement::Default(d) => StatementView::Default { files: evals_view(d.files@) },
            Statement::Include(i) => StatementView::Include { file: i.file.0@ },
            Statement::Subninja(i) => StatementView::Subninja { file: i.file.0@ },
            Statement::Pool(p) => StatementView::Pool { name: p.name@, depth: p.depth as nat },
            Statement::VariableAssignment((name, v)) => StatementView::VariableAssignment {
                name: name@,
                value: v.unevaluated.0@,
            },
        }
    }
}

// ---------------------------------------------------------------------------
// The grammar, as functions of the buffer and a position.

/// Bytes of an identifier: rule, pool and variable names.
pub open spec fn is_ident_char(c: u8) -> bool {
    is_simple_var_char(c) || c == 0x2e
}

/// End of the identifier that starts at `i`.
pub open spec fn ident_end(buf: Seq<u8>, i: int) -> int
    decreases buf.len() - i,
{
    if 0 <= i < buf.len() && is_ident_char(buf[i]) {
        ident_end(buf, i + 1)
    } else {
        i
    }
}

/// An identifier at `i`, and the position after it.
pub open spec fn s_read_ident(buf: Seq<u8>, i: int) -> Result<(Seq<u8>, int), int> {
    let e = ident_end(buf, i);
    if e == i {
        Err(i)
    } else {
        Ok((buf.subrange(i, e), e))
    }
}

/// Skipping spaces and `$`-escaped newlines between tokens.
pub open spec fn pspaces_end(buf: Seq<u8>, i: int) -> int
    decreases buf.len() - i,
{
    if i < 0 || i + 1 >= buf.len() {
        i
    } else if buf[i] == 0x20 {
        pspaces_end(buf, i + 1)
    } else if buf[i] == 0x24 && buf[i + 1] == 0x0a {
        pspaces_end(buf, i + 2)
    } else {
        i
    }
}

/// Where the escape whose `$` was just before `i` ends, or where it fails.
pub open spec fn s_escape_end(buf: Seq<u8>, i: int) -> Result<int, int> {
    if i < 0 || i + 1 >= buf.len() {
        Err(i)
    } else {
        let c = buf[i];
        if c == 0x0a || c == 0x0d {
            Ok(spaces_end(buf, i + 1))
        } else if c == 0x20 || c == 0x24 || c == 0x3a {
            Ok(i + 1)
        } else if c == 0x7b {
            let m = nul_or_brace(buf, i + 1);
            if buf[m] == 0x7d {
                Ok(m + 1)
            } else {
                Err(m + 1)
            }
        } else {
            let m = var_name_end(buf, i);
            if m == i {
                Err(i)
            } else {
                Ok(m)
            }
        }
    }
}

/// Position of the first `}` or nul at or after `i`.
pub open spec fn nul_or_brace(buf: Seq<u8>, i: int) -> int
    decreases buf.len() - i,
{
    if i < 0 || i + 1 >= buf.len() {
        i
    } else if buf[i] == 0x7d || buf[i] == 0 {
        i
    } else {
        nul_or_brace(buf, i + 1)
    }
}

/// Bytes that end an eval string: a newline (or `\r\n`), and when reading
/// paths also space, `:` and `|`.
pub open spec fn is_eval_stop(buf: Seq<u8>, i: int, paths: bool) -> bool {
    let c = buf[i];
    ||| c == 0x0a
    ||| (c == 0x0d && i + 1 < buf.len() && buf[i + 1] == 0x0a)
    ||| (paths && (c == 0x20 || c == 0x3a || c == 0x7c))
}

/// Scanning an eval string from `i`: where it ends and whether an escape
/// was seen, or where it fails.
pub open spec fn s_eval_scan(buf: Seq<u8>, i: int, paths: bool, esc: bool) -> Result<(int, bool), int>
    decreases buf.len() - i,
{
    if i < 0 || i >= buf.len() {
        Err(i)
    } else if buf[i] == 0 {
        Err(i + 1)
    } else if is_eval_stop(buf, i, paths) {
        Ok((i, esc))
    } else if buf[i] == 0x24 {
        match s_escape_end(buf, i + 1) {
            Err(e) => Err(e),
            Ok(j) => if i < j <= buf.len() {
                s_eval_scan(buf, j, paths, true)
            } else {
                Err(j)
            },
        }
    } else {
        s_eval_scan(buf, i + 1, paths, esc)
    }
}

/// An eval string at `i`, as its text, and the position after it.  Empty
/// text is refused.
pub open spec fn s_read_eval(buf: Seq<u8>, i: int, paths: bool) -> Result<(Seq<u8>, int), int> {
    match s_eval_scan(buf, i, paths, false) {
        Err(e) => Err(e),
        Ok((end, esc)) => if esc || end > i {
            Ok((buf.subrange(i, end), end))
        } else {
            Err(end)
        },
    }
}

/// Scanning bytes that are neither nul, `$` nor a stop runs to the stop.
proof fn lemma_eval_scan_plain(buf: Seq<u8>, i: int, k: int, paths: bool, esc: bool)
    requires
        0 <= i <= k < buf.len(),
        forall|j: int| i <= j < k ==> (#[trigger] buf[j]) != 0 && buf[j] != 0x24 && !is_eval_stop(buf, j, paths),
        is_eval_stop(buf, k, paths),
    ensures
        s_eval_scan(buf, i, paths, esc) == Ok::<(int, bool), int>((k, esc)),
    decreases k - i,
{
    if i < k {
        lemma_eval_scan_plain(buf, i + 1, k, paths, esc);
    } else {
        assert(buf[k] != 0) by {
            assert(buf[k] == 0x0a || buf[k] == 0x0d || buf[k] == 0x20 || buf[k] == 0x3a || buf[k] == 0x7c);
        }
    }
}

/// Text without nul, `$` or a byte that ends the string reads as itself up
/// to the byte that ends it: a newline, and when reading paths also a space,
/// `:` or `|`.
pub proof fn law_read_eval_plain(buf: Seq<u8>, i: int, v: Seq<u8>, paths: bool)
    requires
        0 <= i,
        v.len() > 0,
        i + v.len() < buf.len(),
        buf.subrange(i, i + v.len()) == v,
        forall|j: int| 0 <= j < v.len() ==> (#[trigger] v[j]) != 0 && v[j] != 0x24 && !is_eval_stop(buf, i + j, paths),
        is_eval_stop(buf, i + v.len(), paths),
    ensures
        s_read_eval(buf, i, paths) == Ok::<(Seq<u8>, int), int>((v, i + v.len())),
{
    let k = i + v.len();
    assert forall|j: int| i <= j < k implies (#[trigger] buf[j]) != 0 && buf[j] != 0x24 && !is_eval_stop(
        buf,
        j,
        paths,
    ) by {
        assert(buf[j] == v[j - i]);
        assert(v[j - i] != 0 && v[j - i] != 0x24 && !is_eval_stop(buf, i + (j - i), paths));
    }
    lemma_eval_scan_plain(buf, i, k, paths, false);
}

/// The end of a line: an optional `\r`, then a `\n`.
pub open spec fn s_eol(buf: Seq<u8>, i: int) -> Result<int, int> {
    let j = if 0 <= i < buf.len() && buf[i] == 0x0d {
        i + 1
    } else {
        i
    };
    if 0 <= j < buf.len() && buf[j] == 0x0a {
        Ok(j + 1)
    } else {
        Err(j)
    }
}

/// The `= value` of a binding, through the end of its line.
pub open spec fn s_read_vardef(buf: Seq<u8>, i: int) -> Result<(Seq<u8>, int), int> {
    let a = pspaces_end(buf, i);
    if !(0 <= a < buf.len() && buf[a] == 0x3d) {
        Err(a)
    } else {
        let b = pspaces_end(buf, a + 1);
        if 0 <= b < buf.len() && (buf[b] == 0x0a || (buf[b] == 0x0d && b + 1 < buf.len() && buf[b
            + 1] == 0x0a)) {
            match s_eol(buf, b) {
                Ok(e) => Ok((Seq::empty(), e)),
                Err(e) => Err(e),
            }
        } else {
            match s_read_eval(buf, b, false) {
                Err(e) => Err(e),
                Ok((v, c)) => match s_eol(buf, c) {
                    Ok(e) => Ok((v, e)),
                    Err(e) => Err(e),
                },
            }
        }
    }
}

/// Which variables a block may bind.
#[derive(Clone, Copy, PartialEq, Eq)]
pub enum VarsKind {
    Rule,
    Pool,
    Build,
}

/// Names that a `rule` block may bind.
pub open spec fn is_rule_var(name: Seq<u8>) -> bool {
    ||| name == "command".spec_bytes()
    ||| name == "depfile".spec_bytes()
    ||| name == "dyndep".spec_bytes()
    ||| name == "description".spec_bytes()
    ||| name == "deps".spec_bytes()
    ||| name == "generator".spec_bytes()
    ||| name == "pool".spec_bytes()
    ||| name == "restat".spec_bytes()
    ||| name == "rspfile".spec_bytes()
    ||| name == "rspfile_content".spec_bytes()
    ||| name == "msvc_deps_prefix".spec_bytes()
}

pub open spec fn var_allowed(kind: VarsKind, name: Seq<u8>) -> bool {
    match kind {
        VarsKind::Rule => is_rule_var(name),
        VarsKind::Pool => name == "depth".spec_bytes(),
        VarsKind::Build => true,
    }
}

/// The indented `name = value` lines of a block from `i`, added to `acc`.
pub open spec fn s_read_scoped_vars(buf: Seq<u8>, i: int, kind: VarsKind, acc: VarsView) -> Result<
    (VarsView, int),
    int,
>
    decreases buf.len() - i,
{
    if !(0 <= i < buf.len() && buf[i] == 0x20) {
        Ok((acc, i))
    } else {
        let a = spaces_end(buf, i);
        match s_read_ident(buf, a) {
            Err(e) => Err(e),
            Ok((name, b)) => if !var_allowed(kind, name) {
                Err(b)
            } else {
                match s_read_vardef(buf, pspaces_end(buf, b)) {
                    Err(e) => Err(e),
                    Ok((v, c)) => if i < c {
                        s_read_scoped_vars(buf, c, kind, spec_insert(acc, name, v))
                    } else {
                        Err(c)
                    },
                }
            },
        }
    }
}

/// A rule block, after the `rule` keyword.
pub open spec fn s_read_rule(buf: Seq<u8>, i: int) -> Result<((Seq<u8>, VarsView), int), int> {
    match s_read_ident(buf, i) {
        Err(e) => Err(e),
        Ok((name, a)) => match s_eol(buf, a) {
            Err(e) => Err(e),
            Ok(b) => match s_read_scoped_vars(buf, b, VarsKind::Rule, Seq::empty()) {
                Err(e) => Err(e),
                Ok((vars, c)) => Ok(((name, vars), c)),
            },
        },
    }
}

/// The paths from `i` up to a `:`, a `|` or the end of the line, added to
/// `acc`.
pub open spec fn s_read_paths(buf: Seq<u8>, i: int, acc: Seq<Seq<u8>>) -> Result<
    (Seq<Seq<u8>>, int),
    int,
>
    decreases buf.len() - i,
{
    let a = pspaces_end(buf, i);
    if !(0 <= a < buf.len()) {
        Err(a)
    } else if buf[a] == 0x3a || buf[a] == 0x7c || buf[a] == 0x0a || (buf[a] == 0x0d && a + 1
        < buf.len() && buf[a + 1] == 0x0a) {
        Ok((acc, a))
    } else {
        match s_read_eval(buf, a, true) {
            Err(e) => Err(e),
            Ok((p, b)) => if i < b <= buf.len() {
                s_read_paths(buf, b, acc.push(p))
            } else {
                Err(b)
            },
        }
    }
}

/// The outputs of a build: the paths, how many are explicit, and the
/// position after them.
pub open spec fn s_build_outs(buf: Seq<u8>, i: int) -> Result<(Seq<Seq<u8>>, nat, int), int> {
    match s_read_paths(buf, i, Seq::empty()) {
        Err(e) => Err(e),
        Ok((outs, a)) => if 0 <= a < buf.len() && buf[a] == 0x7c {
            match s_read_paths(buf, a + 1, outs) {
                Err(e) => Err(e),
                Ok((all, b)) => Ok((all, outs.len(), b)),
            }
        } else {
            Ok((outs, outs.len(), a))
        },
    }
}

/// The inputs of a build after its rule: the paths, the numbers of
/// explicit, implicit and order-only ones (the rest are validations), and
/// the position after them.
pub open spec fn s_build_ins(buf: Seq<u8>, i: int) -> Result<
    (Seq<Seq<u8>>, nat, nat, nat, int),
    int,
> {
    match s_read_paths(buf, i, Seq::empty()) {
        Err(e) => Err(e),
        Ok((ex, a)) => {
            // `| implicit`, unless this is `||` or `|@`.
            let r1 = if 0 <= a && a + 1 < buf.len() && buf[a] == 0x7c && buf[a + 1] != 0x7c
                && buf[a + 1] != 0x40 {
                s_read_paths(buf, a + 1, ex)
            } else {
                Ok((ex, a))
            };
            match r1 {
                Err(e) => Err(e),
                Ok((im, b)) => {
                    // `|| order-only`, unless this is `|@`.
                    let r2 = if 0 <= b && b + 1 < buf.len() && buf[b] == 0x7c && buf[b + 1]
                        != 0x40 {
                        if buf[b + 1] == 0x7c {
                            s_read_paths(buf, b + 2, im)
                        } else {
                            Err(b + 1)
                        }
                    } else {
                        Ok((im, b))
                    };
                    match r2 {
                        Err(e) => Err(e),
                        Ok((oo, c)) => {
                            // `|@ validations`.
                            let r3 = if 0 <= c && c + 1 < buf.len() && buf[c] == 0x7c {
                                if buf[c + 1] == 0x40 {
                                    s_read_paths(buf, c + 2, oo)
                                } else {
                                    Err(c + 1)
                                }
                            } else {
                                Ok((oo, c))
                            };
                            match r3 {
                                Err(e) => Err(e),
                                Ok((all, d)) => Ok(
                                    (all, ex.len(), (im.len() - ex.len()) as nat, (oo.len()
                                        - im.len()) as nat, d),
                                ),
                            }
                        },
                    }
                },
            }
        },
    }
}

/// Reading paths after ones already read only appends to them.
proof fn lemma_read_paths_acc(buf: Seq<u8>, i: int, acc: Seq<Seq<u8>>)
    ensures
        match s_read_paths(buf, i, Seq::empty()) {
            Ok((ps, a)) => s_read_paths(buf, i, acc) == Ok::<(Seq<Seq<u8>>, int), int>((acc + ps, a)),
            Err(e) => s_read_paths(buf, i, acc) == Err::<(Seq<Seq<u8>>, int), int>(e),
        },
    decreases buf.len() - i,
{
    let a = pspaces_end(buf, i);
    if !(0 <= a < buf.len()) {
    } else if buf[a] == 0x3a || buf[a] == 0x7c || buf[a] == 0x0a || (buf[a] == 0x0d && a + 1 < buf.len() && buf[a
        + 1] == 0x0a) {
        assert(acc + Seq::<Seq<u8>>::empty() =~= acc);
    } else {
        match s_read_eval(buf, a, true) {
            Err(e) => {},
            Ok((p, b)) => if i < b <= buf.len() {
                lemma_read_paths_acc(buf, b, acc.push(p));
                lemma_read_paths_acc(buf, b, seq![p]);
                assert(Seq::<Seq<u8>>::empty().push(p) =~= seq![p]);
                match s_read_paths(buf, b, Seq::empty()) {
                    Ok((ps, c)) => {
                        assert(acc.push(p) + ps =~= acc + (seq![p] + ps));
                    },
                    Err(e) => {},
                }
            },
        }
    }
}

/// How the inputs of a build are counted: the explicit ones are the paths
/// read up to the first `|` (or the end of the line), and come first; the
/// implicit ones are the paths read after a `|` that does not start `||` or
/// `|@`, and come next; with no such `|` there are none.
pub proof fn law_build_ins_counts(buf: Seq<u8>, i: int)
    ensures
        s_build_ins(buf, i) matches Ok((all, e, im, oo, d)) ==> (s_read_paths(buf, i, Seq::empty()) matches Ok((
            ex,
            a,
        )) && e == ex.len() && all.subrange(0, e as int) == ex && if 0 <= a && a + 1 < buf.len() && buf[a] == 0x7c
            && buf[a + 1] != 0x7c && buf[a + 1] != 0x40 {
            s_read_paths(buf, a + 1, Seq::empty()) matches Ok((imps, b)) && im == imps.len() && all.subrange(
                e as int,
                (e + im) as int,
            ) == imps
        } else {
            im == 0
        }),
{
    if let Ok((all, e, im, oo, d)) = s_build_ins(buf, i) {
        let (ex, a) = s_read_paths(buf, i, Seq::empty())->Ok_0;
        let cond = 0 <= a && a + 1 < buf.len() && buf[a] == 0x7c && buf[a + 1] != 0x7c && buf[a + 1] != 0x40;
        lemma_read_paths_acc(buf, a + 1, ex);
        let im_all = if cond {
            s_read_paths(buf, a + 1, ex)->Ok_0.0
        } else {
            ex
        };
        let b = if cond {
            s_read_paths(buf, a + 1, ex)->Ok_0.1
        } else {
            a
        };
        lemma_read_paths_acc(buf, b + 2, im_all);
        let oo_all = s_build_ins_oo(buf, b, im_all);
        let c = s_build_ins_oo_end(buf, b, im_all);
        lemma_read_paths_acc(buf, c + 2, oo_all);
        assert(all.subrange(0, im_all.len() as int) == im_all) by {
            assert(oo_all.subrange(0, im_all.len() as int) =~= im_all);
            assert(all.subrange(0, oo_all.len() as int) =~= oo_all);
            assert(all.subrange(0, im_all.len() as int) =~= oo_all.subrange(0, im_all.len() as int));
        }
        assert(all.subrange(0, e as int) =~= im_all.subrange(0, ex.len() as int));
        if cond {
            let (imps, bb) = s_read_paths(buf, a + 1, Seq::empty())->Ok_0;
            assert(im_all =~= ex + imps);
            assert(all.subrange(e as int, (e + im) as int) =~= im_all.subrange(ex.len() as int, im_all.len() as int));
        }
    }
}

/// How the order-only inputs of a build are counted: they are the paths
/// read after a `||` that follows the explicit and implicit inputs, and
/// come right after those; with no such `||` there are none.
pub proof fn law_build_order_only_count(buf: Seq<u8>, i: int)
    ensures
        s_build_ins(buf, i) matches Ok((all, e, im, oo, d)) ==> ({
            let a = s_read_paths(buf, i, Seq::empty())->Ok_0.1;
            let b = if 0 <= a && a + 1 < buf.len() && buf[a] == 0x7c && buf[a + 1] != 0x7c && buf[a + 1] != 0x40 {
                s_read_paths(buf, a + 1, Seq::empty())->Ok_0.1
            } else {
                a
            };
            if 0 <= b && b + 1 < buf.len() && buf[b] == 0x7c && buf[b + 1] == 0x7c {
                s_read_paths(buf, b + 2, Seq::empty()) matches Ok((oos, c)) && oo == oos.len() && all.subrange(
                    (e + im) as int,
                    (e + im + oo) as int,
                ) == oos
            } else {
                oo == 0
            }
        }),
{
    if let Ok((all, e, im, oo, d)) = s_build_ins(buf, i) {
        law_build_ins_counts(buf, i);
        let (ex, a) = s_read_paths(buf, i, Seq::empty())->Ok_0;
        let cond = 0 <= a && a + 1 < buf.len() && buf[a] == 0x7c && buf[a + 1] != 0x7c && buf[a + 1] != 0x40;
        lemma_read_paths_acc(buf, a + 1, ex);
        let im_all = if cond {
            s_read_paths(buf, a + 1, ex)->Ok_0.0
        } else {
            ex
        };
        let b = if cond {
            s_read_paths(buf, a + 1, ex)->Ok_0.1
        } else {
            a
        };
        assert(im_all.len() == e + im);
        lemma_read_paths_acc(buf, b + 2, im_all);
        let oo_all = s_build_ins_oo(buf, b, im_all);
        let c = s_build_ins_oo_end(buf, b, im_all);
        lemma_read_paths_acc(buf, c + 2, oo_all);
        assert(all.subrange(0, oo_all.len() as int) =~= oo_all);
        if 0 <= b && b + 1 < buf.len() && buf[b] == 0x7c && buf[b + 1] == 0x7c {
            let (oos, cc) = s_read_paths(buf, b + 2, Seq::empty())->Ok_0;
            assert(oo_all =~= im_all + oos);
            assert(all.subrange((e + im) as int, (e + im + oo) as int) =~= oo_all.subrange(
                im_all.len() as int,
                oo_all.len() as int,
            ));
        }
    }
}

/// How the outputs of a build are counted: the explicit ones are the paths
/// read up to the first `|` or `:`, and come first; after a `|` the
/// implicit ones follow them.
pub proof fn law_build_outs_counts(buf: Seq<u8>, i: int)
    ensures
        s_build_outs(buf, i) matches Ok((all, e, b)) ==> (s_read_paths(buf, i, Seq::empty()) matches Ok((
            ex,
            a,
        )) && e == ex.len() && if 0 <= a < buf.len() && buf[a] == 0x7c {
            s_read_paths(buf, a + 1, Seq::empty()) matches Ok((imps, c)) && all == ex + imps && b == c
        } else {
            all == ex && b == a
        }),
{
    if let Ok((all, e, b)) = s_build_outs(buf, i) {
        let (ex, a) = s_read_paths(buf, i, Seq::empty())->Ok_0;
        lemma_read_paths_acc(buf, a + 1, ex);
    }
}

/// The order-only paths of `s_build_ins` after the implicit ones `im` end at
/// `b`: all the paths read so far.
spec fn s_build_ins_oo(buf: Seq<u8>, b: int, im: Seq<Seq<u8>>) -> Seq<Seq<u8>> {
    if 0 <= b && b + 1 < buf.len() && buf[b] == 0x7c && buf[b + 1] != 0x40 && buf[b + 1] == 0x7c {
        match s_read_paths(buf, b + 2, im) {
            Ok((oo, c)) => oo,
            Err(_) => im,
        }
    } else {
        im
    }
}

/// Where the order-only paths of `s_build_ins` end.
spec fn s_build_ins_oo_end(buf: Seq<u8>, b: int, im: Seq<Seq<u8>>) -> int {
    if 0 <= b && b + 1 < buf.len() && buf[b] == 0x7c && buf[b + 1] != 0x40 && buf[b + 1] == 0x7c {
        match s_read_paths(buf, b + 2, im) {
            Ok((oo, c)) => c,
            Err(_) => b,
        }
    } else {
        b
    }
}

/// A build statement, after the `build` keyword, starting at `i`.
pub open spec fn s_read_build(buf: Seq<u8>, i: int) -> Result<(BuildView, int), int> {
    let line = 1 + count_nl(buf.subrange(0, i));
    match s_build_outs(buf, i) {
        Err(e) => Err(e),
        Ok((outs, explicit_outs, a)) => if !(0 <= a < buf.len() && buf[a] == 0x3a) {
            Err(a)
        } else {
            match s_read_ident(buf, pspaces_end(buf, a + 1)) {
                Err(e) => Err(e),
                Ok((rule, b)) => match s_build_ins(buf, b) {
                    Err(e) => Err(e),
                    Ok((ins, ex, im, oo, c)) => match s_eol(buf, c) {
                        Err(e) => Err(e),
                        Ok(d) => match s_read_scoped_vars(buf, d, VarsKind::Build, Seq::empty()) {
                            Err(e) => Err(e),
                            Ok((vars, f)) => Ok(
                                (
                                    BuildView {
                                        rule,
                                        line,
                                        outs,
                                        explicit_outs,
                                        ins,
                                        explicit_ins: ex,
                                        implicit_ins: im,
                                        order_only_ins: oo,
                                        vars,
                                    },
                                    f,
                                ),
                            ),
                        },
                    },
                },
            }
        },
    }
}

/// A build statement `outs: rule ins` holds, in order, the explicit
/// outputs (the paths before the first `|` or the `:`), the rule named
/// after the `:`, and the explicit inputs (the paths after the rule up to
/// the first `|` or the end of the line), with their counts.
pub proof fn law_read_build_parts(buf: Seq<u8>, i: int)
    ensures
        s_read_build(buf, i) matches Ok((bv, f)) ==> ({
            let (outs, a) = s_read_paths(buf, i, Seq::empty())->Ok_0;
            let c = s_build_outs(buf, i)->Ok_0.2;
            let (rule, b) = s_read_ident(buf, pspaces_end(buf, c + 1))->Ok_0;
            let (ins, d) = s_read_paths(buf, b, Seq::empty())->Ok_0;
            &&& s_read_paths(buf, i, Seq::empty()) is Ok
            &&& bv.explicit_outs == outs.len()
            &&& bv.outs.subrange(0, outs.len() as int) == outs
            &&& buf[c] == 0x3a
            &&& bv.rule == rule
            &&& s_read_paths(buf, b, Seq::empty()) is Ok
            &&& bv.explicit_ins == ins.len()
            &&& bv.ins.subrange(0, ins.len() as int) == ins
        }),
{
    if let Ok((bv, f)) = s_read_build(buf, i) {
        law_build_outs_counts(buf, i);
        let (all, e, c) = s_build_outs(buf, i)->Ok_0;
        let (ex, a) = s_read_paths(buf, i, Seq::empty())->Ok_0;
        if 0 <= a < buf.len() && buf[a] == 0x7c {
            let (imps, cc) = s_read_paths(buf, a + 1, Seq::empty())->Ok_0;
            assert(all.subrange(0, ex.len() as int) =~= ex);
        } else {
            assert(all.subrange(0, ex.len() as int) =~= ex);
        }
        let (rule, b) = s_read_ident(buf, pspaces_end(buf, c + 1))->Ok_0;
        law_build_ins_counts(buf, b);
    }
}

/// A default statement, after the `default` keyword.
pub open spec fn s_read_default(buf: Seq<u8>, i: int) -> Result<(Seq<Seq<u8>>, int), int> {
    match s_read_paths(buf, i, Seq::empty()) {
        Err(e) => Err(e),
        Ok((files, a)) => if files.len() == 0 {
            Err(a)
        } else {
            match s_eol(buf, a) {
                Err(e) => Err(e),
                Ok(b) => Ok((files, b)),
            }
        },
    }
}

/// Where a comment that starts at `i` ends: after its newline, or at the
/// nul that ends the buffer.
pub open spec fn comment_end(buf: Seq<u8>, i: int) -> int
    decreases buf.len() - i,
{
    if i < 0 || i >= buf.len() {
        i
    } else if buf[i] == 0 {
        i
    } else if buf[i] == 0x0a {
        i + 1
    } else {
        comment_end(buf, i + 1)
    }
}

/// Decimal value of a string of digits.
pub open spec fn digits_value(d: Seq<u8>) -> nat
    decreases d.len(),
{
    if d.len() == 0 {
        0
    } else {
        digits_value(d.drop_last()) * 10 + (d.last() - 0x30) as nat
    }
}

pub open spec fn all_digits(d: Seq<u8>) -> bool {
    forall|k: int| 0 <= k < d.len() ==> 0x30 <= #[trigger] d[k] <= 0x39
}

/// A `usize` written in decimal, with an optional leading `+`.
pub open spec fn spec_parse_usize(s: Seq<u8>) -> Option<nat> {
    let d = if s.len() > 0 && s[0] == 0x2b {
        s.drop_first()
    } else {
        s
    };
    if d.len() == 0 || !all_digits(d) || digits_value(d) > usize::MAX {
        None
    } else {
        Some(digits_value(d))
    }
}

/// A pool block, after the `pool` keyword: its name and depth.  A pool
/// without a `depth` binding has depth 0.
pub open spec fn s_read_pool(buf: Seq<u8>, i: int) -> Result<((Seq<u8>, nat), int), int> {
    match s_read_ident(buf, i) {
        Err(e) => Err(e),
        Ok((name, a)) => match s_eol(buf, a) {
            Err(e) => Err(e),
            Ok(b) => match s_read_scoped_vars(buf, b, VarsKind::Pool, Seq::empty()) {
                Err(e) => Err(e),
                Ok((vars, c)) => if vars.len() == 0 {
                    Ok(((name, 0), c))
                } else {
                    match spec_parse_usize(vars[0].1) {
                        Some(d) => Ok(((name, d), c)),
                        None => Err(c),
                    }
                },
            },
        },
    }
}

/// The next statement from `i`, skipping blank lines and comments, and the
/// position after it; none at the end of the buffer.
/// Every statement of `buf` from `i` on parses, up to the end.
pub open spec fn parses_fully(buf: Seq<u8>, i: int) -> bool
    decreases buf.len() - i,
{
    if i < 0 || i > buf.len() {
        false
    } else {
        match s_read(buf, i) {
            Ok((None, _)) => true,
            Ok((Some(_), e)) => if i < e <= buf.len() {
                parses_fully(buf, e)
            } else {
                false
            },
            Err(_) => false,
        }
    }
}

pub open spec fn s_read(buf: Seq<u8>, i: int) -> Result<(Option<StatementView>, int), int>
    decreases buf.len() - i,
{
    if i < 0 || i >= buf.len() {
        Err(i)
    } else {
        let c = buf[i];
        if c == 0 {
            Ok((None, i))
        } else if c == 0x0a || c == 0x0d {
            s_read(buf, i + 1)
        } else if c == 0x23 {
            let j = comment_end(buf, i);
            if i < j <= buf.len() {
                s_read(buf, j)
            } else {
                Ok((None, j))
            }
        } else if c == 0x20 || c == 0x09 {
            Err(i)
        } else {
            match s_read_ident(buf, i) {
                Err(e) => Err(e),
                Ok((id, a)) => {
                    let b = pspaces_end(buf, a);
                    if id == "rule".spec_bytes() {
                        match s_read_rule(buf, b) {
                            Err(e) => Err(e),
                            Ok(((name, vars), d)) => Ok((Some(StatementView::Rule { name, vars }), d)),
                        }
                    } else if id == "build".spec_bytes() {
                        match s_read_build(buf, b) {
                            Err(e) => Err(e),
                            Ok((bv, d)) => Ok((Some(StatementView::Build(bv)), d)),
                        }
                    } else if id == "default".spec_bytes() {
                        match s_read_default(buf, b) {
                            Err(e) => Err(e),
                            Ok((files, d)) => Ok((Some(StatementView::Default { files }), d)),
                        }
                    } else if id == "include".spec_bytes() {
                        match s_read_eval(buf, b, false) {
                            Err(e) => Err(e),
                            Ok((file, d)) => Ok((Some(StatementView::Include { file }), d)),
                        }
                    } else if id == "subninja".spec_bytes() {
                        match s_read_eval(buf, b, false) {
                            Err(e) => Err(e),
                            Ok((file, d)) => Ok((Some(StatementView::Subninja { file }), d)),
                        }
                    } else if id == "pool".spec_bytes() {
                        match s_read_pool(buf, b) {
                            Err(e) => Err(e),
                            Ok(((name, depth), d)) => Ok(
                                (Some(StatementView::Pool { name, depth }), d),
                            ),
                        }
                    } else {
                        match s_read_vardef(buf, b) {
                            Err(e) => Err(e),
                            Ok((value, d)) => Ok(
                                (Some(StatementView::VariableAssignment { name: id, value }), d),
                            ),
                        }
                    }
                },
            }
        }
    }
}

/// All statements from `i` to the end, after those in `acc`.
pub open spec fn s_read_all(buf: Seq<u8>, i: int, acc: Seq<StatementView>) -> Result<
    Seq<StatementView>,
    int,
>
    decreases buf.len() - i,
{
    match s_read(buf, i) {
        Err(e) => Err(e),
        Ok((None, _)) => Ok(acc),
        Ok((Some(st), j)) => if i < j <= buf.len() {
            s_read_all(buf, j, acc.push(st))
        } else {
            Err(j)
        },
    }
}

// ---------------------------------------------------------------------------
// The parser.

pub struct Parser<'text> {
    pub filename: Vec<u8>,
    pub scanner: Scanner<'text>,
}

/// What a parsing step owes: on success, the scanner is still usable, sits
/// where the grammar says, and has not moved back; on failure, the error
/// is at the position the grammar gives.
pub open spec fn step_ok<T>(r: Result<T, ParseError>, old_ofs: int, s: Scanner, spec: Result<int, int>) -> bool {
    match spec {
        Ok(e) => r is Ok && s.wf() && s.ofs == e && old_ofs <= e,
        Err(e) => r matches Err(x) && x.ofs == e,
    }
}

impl<'text> Parser<'text> {
    /// The buffer being parsed.
    pub open spec fn buf(&self) -> Seq<u8> {
        self.scanner.buf@
    }

    pub fn new(buf: &'text [u8], filename: Vec<u8>, chunk_index: usize) -> (r: Parser<'text>)
        requires
            nul_terminated(buf@),
        ensures
            r.scanner.wf(),
            r.buf() == buf@,
            r.scanner.ofs == 0,
            r.filename == filename,
    {
        Parser { filename, scanner: Scanner::new(buf, chunk_index) }
    }

    /// Skip spaces and `$`-escaped newlines.
    fn skip_spaces(&mut self)
        requires
            old(self).scanner.wf(),
        ensures
            final(self).scanner.wf(),
            final(self).buf() == old(self).buf(),
            final(self).scanner.ofs == pspaces_end(old(self).buf(), old(self).scanner.ofs as int),
            old(self).scanner.ofs <= final(self).scanner.ofs,
    {
        loop
            invariant
                self.scanner.wf(),
                self.buf() == old(self).buf(),
                old(self).scanner.ofs <= self.scanner.ofs,
                pspaces_end(self.buf(), self.scanner.ofs as int) == pspaces_end(
                    old(self).buf(),
                    old(self).scanner.ofs as int,
                ),
            ensures
                self.scanner.wf(),
                self.buf() == old(self).buf(),
                old(self).scanner.ofs <= self.scanner.ofs,
                self.scanner.ofs == pspaces_end(old(self).buf(), old(self).scanner.ofs as int),
            decreases self.buf().len() - self.scanner.ofs,
        {
            let c = self.scanner.read();
            if c == 0x20u8 {
            } else if c == 0x24u8 {
                if self.scanner.peek() != 0x0au8 {
                    self.scanner.back();
                    break;
                }
                self.scanner.next();
            } else {
                self.scanner.back();
                break;
            }
        }
    }

    /// Read an identifier -- rule name, pool name, variable name, etc.
    fn read_ident(&mut self) -> (r: ParseResult<Vec<u8>>)
        requires
            old(self).scanner.wf(),
        ensures
            final(self).buf() == old(self).buf(),
            match s_read_ident(old(self).buf(), old(self).scanner.ofs as int) {
                Ok((v, e)) => r matches Ok(x) && x@ == v && final(self).scanner.wf()
                    && final(self).scanner.ofs == e && e > old(self).scanner.ofs,
                Err(e) => r matches Err(x) && x.ofs == e,
            },
    {
        let start = self.scanner.ofs;
        loop
            invariant
                self.scanner.wf(),
                self.buf() == old(self).buf(),
                start <= self.scanner.ofs,
                ident_end(self.buf(), start as int) == ident_end(self.buf(), self.scanner.ofs as int),
            ensures
                self.scanner.wf(),
                self.buf() == old(self).buf(),
                self.scanner.ofs == ident_end(self.buf(), start as int),
            decreases self.buf().len() - self.scanner.ofs,
        {
            let c = self.scanner.read();
            if !(simple_var_char(c) || c == 0x2eu8) {
                self.scanner.back();
                break;
            }
        }
        let end = self.scanner.ofs;
        if end == start {
            return self.scanner.parse_error(bytes_of("failed to scan ident"));
        }
        Ok(self.scanner.slice(start, end))
    }

    /// Read a variable name as found after a '$' in an eval.
    fn read_simple_varname(&mut self) -> (r: ParseResult<()>)
        requires
            old(self).scanner.wf(),
        ensures
            final(self).buf() == old(self).buf(),
            ({
                let m = var_name_end(old(self).buf(), old(self).scanner.ofs as int);
                if m == old(self).scanner.ofs {
                    r matches Err(x) && x.ofs == m
                } else {
                    r is Ok && final(self).scanner.wf() && final(self).scanner.ofs == m
                }
            }),
    {
        let start = self.scanner.ofs;
        loop
            invariant
                self.scanner.wf(),
                self.buf() == old(self).buf(),
                start <= self.scanner.ofs,
                var_name_end(self.buf(), start as int) == var_name_end(
                    self.buf(),
                    self.scanner.ofs as int,
                ),
            ensures
                self.scanner.wf(),
                self.buf() == old(self).buf(),
                self.scanner.ofs == var_name_end(self.buf(), start as int),
            decreases self.buf().len() - self.scanner.ofs,
        {
            let c = self.scanner.read();
            if !simple_var_char(c) {
                self.scanner.back();
                break;
            }
        }
        let end = self.scanner.ofs;
        if end == start {
            return self.scanner.parse_error(bytes_of("failed to scan variable name"));
        }
        Ok(())
    }

    /// Read and interpret the text following a '$' escape character.
    fn read_escape(&mut self) -> (r: ParseResult<()>)
        requires
            old(self).scanner.wf(),
        ensures
            final(self).buf() == old(self).buf(),
            step_ok(
                r,
                old(self).scanner.ofs as int,
                final(self).scanner,
                s_escape_end(old(self).buf(), old(self).scanner.ofs as int),
            ),
    {
        let ghost buf = self.buf();
        let ghost i = self.scanner.ofs as int;
        let c = self.scanner.read();
        if c == 0x0au8 || c == 0x0du8 {
            self.scanner.skip_spaces();
            proof {
                crate::scanner::lemma_spaces_end_ge(buf, i + 1);
            }
            return Ok(());
        }
        if c == 0x20u8 || c == 0x24u8 || c == 0x3au8 {
            return Ok(());
        }
        if c == 0x7bu8 {
            loop
                invariant
                    self.scanner.wf(),
                    self.buf() == buf,
                    buf == old(self).buf(),
                    i == old(self).scanner.ofs,
                    i + 1 < buf.len(),
                    buf[i] == 0x7b,
                    i + 1 <= self.scanner.ofs,
                    nul_or_brace(buf, i + 1) == nul_or_brace(buf, self.scanner.ofs as int),
                decreases buf.len() - self.scanner.ofs,
            {
                let d = self.scanner.read();
                if d == 0 {
                    return self.scanner.parse_error(bytes_of("unexpected EOF"));
                }
                if d == 0x7du8 {
                    return Ok(());
                }
            }
        }
        self.scanner.back();
        proof {
            crate::eval::lemma_var_name_end(buf, i);
        }
        self.read_simple_varname()
    }

    /// Reads an EvalString. Stops at either a newline, or ' ', ':', '|' if
    /// stop_at_path_separators is set, without consuming the character that
    /// caused it to stop.
    fn read_eval(&mut self, stop_at_path_separators: bool) -> (r: ParseResult<EvalString>)
        requires
            old(self).scanner.wf(),
        ensures
            final(self).buf() == old(self).buf(),
            match s_read_eval(old(self).buf(), old(self).scanner.ofs as int, stop_at_path_separators) {
                Ok((v, e)) => r matches Ok(x) && x.0@ == v && final(self).scanner.wf()
                    && final(self).scanner.ofs == e && old(self).scanner.ofs < e,
                Err(e) => r matches Err(x) && x.ofs == e,
            },
    {
        let ghost buf = self.buf();
        let paths = stop_at_path_separators;
        let start = self.scanner.ofs;
        let mut esc = false;
        loop
            invariant
                self.scanner.wf(),
                self.buf() == buf,
                buf == old(self).buf(),
                paths == stop_at_path_separators,
                start == old(self).scanner.ofs,
                start <= self.scanner.ofs,
                esc ==> start < self.scanner.ofs,
                s_eval_scan(buf, self.scanner.ofs as int, paths, esc) == s_eval_scan(
                    buf,
                    start as int,
                    paths,
                    false,
                ),
            ensures
                self.scanner.wf(),
                self.buf() == buf,
                start <= self.scanner.ofs,
                esc ==> start < self.scanner.ofs,
                s_eval_scan(buf, start as int, paths, false) == Ok::<(int, bool), int>(
                    (self.scanner.ofs as int, esc),
                ),
            decreases buf.len() - self.scanner.ofs,
        {
            let ghost i = self.scanner.ofs as int;
            let c = self.scanner.read();
            if c == 0 {
                return self.scanner.parse_error(bytes_of("unexpected EOF"));
            }
            if c == 0x0au8 || (paths && (c == 0x20u8 || c == 0x3au8 || c == 0x7cu8)) {
                self.scanner.back();
                break;
            }
            if c == 0x0du8 && self.scanner.peek() == 0x0au8 {
                self.scanner.back();
                break;
            }
            if c == 0x24u8 {
                match self.read_escape() {
                    Err(e) => {
                        return Err(e);
                    },
                    Ok(()) => {},
                }
                esc = true;
            }
        }
        let end = self.scanner.ofs;
        if !(esc || end > start) {
            return self.scanner.parse_error(bytes_of("Expected a string"));
        }
        Ok(EvalString::new(self.scanner.slice(start, end)))
    }

    /// An optional `\r`, then a `\n`.
    fn expect_eol(&mut self) -> (r: ParseResult<()>)
        requires
            old(self).scanner.wf(),
        ensures
            final(self).buf() == old(self).buf(),
            step_ok(
                r,
                old(self).scanner.ofs as int,
                final(self).scanner,
                s_eol(old(self).buf(), old(self).scanner.ofs as int),
            ),
    {
        self.scanner.skip(0x0du8);
        self.scanner.expect(0x0au8)
    }

    /// Read the `= ...` part of a variable definition.
    fn read_vardef(&mut self) -> (r: ParseResult<EvalString>)
        requires
            old(self).scanner.wf(),
        ensures
            final(self).buf() == old(self).buf(),
            match s_read_vardef(old(self).buf(), old(self).scanner.ofs as int) {
                Ok((v, e)) => r matches Ok(x) && x.0@ == v && final(self).scanner.wf()
                    && final(self).scanner.ofs == e && old(self).scanner.ofs <= e,
                Err(e) => r matches Err(x) && x.ofs == e,
            },
    {
        self.skip_spaces();
        self.scanner.expect(0x3du8)?;
        self.skip_spaces();
        if self.scanner.peek_newline() {
            self.expect_eol()?;
            return Ok(EvalString::new(Vec::new()));
        }
        let result = self.read_eval(false)?;
        self.expect_eol()?;
        Ok(result)
    }

    /// Read a collection of `  foo = bar` variables, with leading indent.
    fn read_scoped_vars(&mut self, kind: VarsKind) -> (r: ParseResult<SmallMap<Vec<u8>, EvalString>>)
        requires
            old(self).scanner.wf(),
        ensures
            final(self).buf() == old(self).buf(),
            match s_read_scoped_vars(old(self).buf(), old(self).scanner.ofs as int, kind, Seq::empty()) {
                Ok((vs, e)) => r matches Ok(m) && vars_view(m) == vs && final(self).scanner.wf()
                    && final(self).scanner.ofs == e && old(self).scanner.ofs <= e,
                Err(e) => r matches Err(x) && x.ofs == e,
            },
    {
        let ghost buf = self.buf();
        let ghost start = self.scanner.ofs as int;
        let mut vars: SmallMap<Vec<u8>, EvalString> = SmallMap::new();
        proof {
            vars.lemma_kv();
            assert(vars_view(vars) =~= Seq::<(Seq<u8>, Seq<u8>)>::empty());
        }
        while self.scanner.peek() == 0x20u8
            invariant
                self.scanner.wf(),
                self.buf() == buf,
                buf == old(self).buf(),
                start == old(self).scanner.ofs,
                start <= self.scanner.ofs,
                s_read_scoped_vars(buf, self.scanner.ofs as int, kind, vars_view(vars))
                    == s_read_scoped_vars(buf, start, kind, Seq::empty()),
            decreases buf.len() - self.scanner.ofs,
        {
            let ghost i = self.scanner.ofs as int;
            let ghost acc = vars_view(vars);
            self.scanner.skip_spaces();
            proof {
                crate::scanner::lemma_spaces_end_ge(buf, i);
            }
            let name = self.read_ident()?;
            if !var_allowed_exec(kind, name.as_slice()) {
                let mut msg = bytes_of("unexpected variable ");
                crate::text::push_quoted(&mut msg, name.as_slice());
                return self.scanner.parse_error(msg);
            }
            self.skip_spaces();
            let val = self.read_vardef()?;
            let ghost kv0 = vars.kv();
            let ghost nv = name@;
            let ghost valv = val;
            vars.insert(name, val);
            proof {
                crate::smallmap::lemma_insert_map(kv0, |e: EvalString| e.0@, nv, valv);
            }
        }
        Ok(vars)
    }

    fn read_rule(&mut self) -> (r: ParseResult<(Vec<u8>, Rule)>)
        requires
            old(self).scanner.wf(),
        ensures
            final(self).buf() == old(self).buf(),
            match s_read_rule(old(self).buf(), old(self).scanner.ofs as int) {
                Ok(((n, vs), e)) => r matches Ok(x) && x.0@ == n && vars_view(x.1.vars) == vs
                    && final(self).scanner.wf() && final(self).scanner.ofs == e
                    && old(self).scanner.ofs <= e,
                Err(e) => r matches Err(x) && x.ofs == e,
            },
    {
        let name = self.read_ident()?;
        self.expect_eol()?;
        let vars = self.read_scoped_vars(VarsKind::Rule)?;
        Ok((name, Rule { vars, scope_position: ScopePosition(0) }))
    }

    fn read_pool(&mut self) -> (r: ParseResult<Pool>)
        requires
            old(self).scanner.wf(),
        ensures
            final(self).buf() == old(self).buf(),
            match s_read_pool(old(self).buf(), old(self).scanner.ofs as int) {
                Ok(((n, d), e)) => r matches Ok(x) && x.name@ == n && x.depth == d
                    && final(self).scanner.wf() && final(self).scanner.ofs == e
                    && old(self).scanner.ofs <= e,
                Err(e) => r matches Err(x) && x.ofs == e,
            },
    {
        let name = self.read_ident()?;
        self.expect_eol()?;
        let vars = self.read_scoped_vars(VarsKind::Pool)?;
        let mut depth: usize = 0;
        proof {
            vars.lemma_kv();
        }
        if vars.len() > 0 {
            let val = &vars.entry(0).1;
            match parse_usize(val.0.as_slice()) {
                Ok(d) => depth = d,
                Err(msg) => {
                    let mut m = bytes_of("pool depth: ");
                    crate::text::push_slice(&mut m, msg.as_slice());
                    return self.scanner.parse_error(m);
                },
            }
        }
        Ok(Pool { name, depth })
    }

    /// Read paths up to a `:`, a `|` or the end of the line, adding them to `v`.
    fn read_unevaluated_paths_to(&mut self, v: &mut Vec<EvalString>) -> (r: ParseResult<()>)
        requires
            old(self).scanner.wf(),
        ensures
            final(self).buf() == old(self).buf(),
            match s_read_paths(old(self).buf(), old(self).scanner.ofs as int, evals_view(old(v)@)) {
                Ok((ps, e)) => r is Ok && evals_view(final(v)@) == ps && final(self).scanner.wf()
                    && final(self).scanner.ofs == e && old(self).scanner.ofs <= e,
                Err(e) => r matches Err(x) && x.ofs == e,
            },
            r is Ok ==> final(v)@.len() >= old(v)@.len(),
    {
        let ghost buf = self.buf();
        let ghost start = self.scanner.ofs as int;
        loop
            invariant
                self.scanner.wf(),
                self.buf() == buf,
                buf == old(self).buf(),
                start == old(self).scanner.ofs,
                start <= self.scanner.ofs,
                s_read_paths(buf, self.scanner.ofs as int, evals_view(v@)) == s_read_paths(
                    buf,
                    start,
                    evals_view(old(v)@),
                ),
                v@.len() >= old(v)@.len(),
            decreases buf.len() - self.scanner.ofs,
        {
            let ghost i = self.scanner.ofs as int;
            self.skip_spaces();
            let c = self.scanner.peek();
            if c == 0x3au8 || c == 0x7cu8 || self.scanner.peek_newline() {
                return Ok(());
            }
            let p = self.read_eval(true)?;
            let ghost vv = evals_view(v@);
            v.push(p);
            assert(evals_view(v@) =~= vv.push(p.0@));
        }
    }

    /// The outputs of a build statement: all of them, and how many are
    /// explicit.
    fn read_build_outs(&mut self) -> (r: ParseResult<(Vec<EvalString>, usize)>)
        requires
            old(self).scanner.wf(),
        ensures
            final(self).buf() == old(self).buf(),
            match s_build_outs(old(self).buf(), old(self).scanner.ofs as int) {
                Ok((outs, n, e)) => r matches Ok(x) && evals_view(x.0@) == outs && x.1 == n
                    && final(self).scanner.wf() && final(self).scanner.ofs == e
                    && old(self).scanner.ofs <= e,
                Err(e) => r matches Err(x) && x.ofs == e,
            },
    {
        let mut outs: Vec<EvalString> = Vec::new();
        assert(evals_view(outs@) =~= Seq::<Seq<u8>>::empty());
        self.read_unevaluated_paths_to(&mut outs)?;
        let explicit_outs = outs.len();
        if self.scanner.peek() == 0x7cu8 {
            self.scanner.next();
            self.read_unevaluated_paths_to(&mut outs)?;
        }
        Ok((outs, explicit_outs))
    }

    /// The inputs of a build statement: all of them, and how many are
    /// explicit, implicit and order-only.
    fn read_build_ins(&mut self) -> (r: ParseResult<(Vec<EvalString>, usize, usize, usize)>)
        requires
            old(self).scanner.wf(),
        ensures
            final(self).buf() == old(self).buf(),
            match s_build_ins(old(self).buf(), old(self).scanner.ofs as int) {
                Ok((ins, ex, im, oo, e)) => r matches Ok(x) && evals_view(x.0@) == ins && x.1 == ex
                    && x.2 == im && x.3 == oo && final(self).scanner.wf()
                    && final(self).scanner.ofs == e && old(self).scanner.ofs <= e,
                Err(e) => r matches Err(x) && x.ofs == e,
            },
    {
        let mut ins: Vec<EvalString> = Vec::new();
        assert(evals_view(ins@) =~= Seq::<Seq<u8>>::empty());
        self.read_unevaluated_paths_to(&mut ins)?;
        let explicit_ins = ins.len();
        if self.scanner.peek() == 0x7cu8 {
            self.scanner.next();
            let peek = self.scanner.peek();
            if peek == 0x7cu8 || peek == 0x40u8 {
                self.scanner.back();
            } else {
                self.read_unevaluated_paths_to(&mut ins)?;
            }
        }
        let implicit_ins = ins.len() - explicit_ins;
        if self.scanner.peek() == 0x7cu8 {
            self.scanner.next();
            if self.scanner.peek() == 0x40u8 {
                self.scanner.back();
            } else {
                self.scanner.expect(0x7cu8)?;
                self.read_unevaluated_paths_to(&mut ins)?;
            }
        }
        let order_only_ins = ins.len() - implicit_ins - explicit_ins;
        if self.scanner.peek() == 0x7cu8 {
            self.scanner.next();
            self.scanner.expect(0x40u8)?;
            self.read_unevaluated_paths_to(&mut ins)?;
        }
        Ok((ins, explicit_ins, implicit_ins, order_only_ins))
    }

    fn read_build(&mut self) -> (r: ParseResult<Build>)
        requires
            old(self).scanner.wf(),
        ensures
            final(self).buf() == old(self).buf(),
            match s_read_build(old(self).buf(), old(self).scanner.ofs as int) {
                Ok((bv, e)) => r matches Ok(x) && x@ == bv && final(self).scanner.wf()
                    && final(self).scanner.ofs == e && old(self).scanner.ofs <= e,
                Err(e) => r matches Err(x) && x.ofs == e,
            },
    {
        let line = self.scanner.line;
        let (outs, explicit_outs) = self.read_build_outs()?;
        self.scanner.expect(0x3au8)?;
        self.skip_spaces();
        let rule = self.read_ident()?;
        let (ins, explicit_ins, implicit_ins, order_only_ins) = self.read_build_ins()?;
        self.expect_eol()?;
        let vars = self.read_scoped_vars(VarsKind::Build)?;
        Ok(
            Build {
                rule,
                line,
                outs,
                explicit_outs,
                ins,
                explicit_ins,
                implicit_ins,
                order_only_ins,
                vars,
                scope_position: ScopePosition(0),
            },
        )
    }

    fn read_default(&mut self) -> (r: ParseResult<DefaultStmt>)
        requires
            old(self).scanner.wf(),
        ensures
            final(self).buf() == old(self).buf(),
            match s_read_default(old(self).buf(), old(self).scanner.ofs as int) {
                Ok((fs, e)) => r matches Ok(x) && evals_view(x.files@) == fs
                    && final(self).scanner.wf() && final(self).scanner.ofs == e
                    && old(self).scanner.ofs <= e,
                Err(e) => r matches Err(x) && x.ofs == e,
            },
    {
        let mut files: Vec<EvalString> = Vec::new();
        assert(evals_view(files@) =~= Seq::<Seq<u8>>::empty());
        self.read_unevaluated_paths_to(&mut files)?;
        if files.len() == 0 {
            return self.scanner.parse_error(bytes_of("expected path"));
        }
        self.expect_eol()?;
        Ok(DefaultStmt { files, scope_position: ScopePosition(0) })
    }

    fn skip_comment(&mut self)
        requires
            old(self).scanner.wf(),
            old(self).scanner.cur() != 0,
        ensures
            final(self).buf() == old(self).buf(),
            final(self).scanner.wf(),
            final(self).scanner.ofs == comment_end(old(self).buf(), old(self).scanner.ofs as int),
            old(self).scanner.ofs < final(self).scanner.ofs,
    {
        let ghost buf = self.buf();
        let ghost start = self.scanner.ofs as int;
        loop
            invariant
                self.scanner.wf(),
                self.buf() == buf,
                buf == old(self).buf(),
                start == old(self).scanner.ofs,
                buf[start] != 0,
                start <= self.scanner.ofs,
                comment_end(buf, self.scanner.ofs as int) == comment_end(buf, start),
            decreases buf.len() - self.scanner.ofs,
        {
            let ghost i = self.scanner.ofs as int;
            let c = self.scanner.read();
            if c == 0 {
                self.scanner.back();
                return;
            }
            if c == 0x0au8 {
                return;
            }
        }
    }

    /// The next statement, or none at the end of the buffer.
    pub fn read(&mut self) -> (r: ParseResult<Option<Statement>>)
        requires
            old(self).scanner.wf(),
        ensures
            final(self).buf() == old(self).buf(),
            match s_read(old(self).buf(), old(self).scanner.ofs as int) {
                Ok((None, e)) => r matches Ok(None) && final(self).scanner.wf()
                    && final(self).scanner.ofs == e,
                Ok((Some(st), e)) => r matches Ok(Some(x)) && x@ == st && final(self).scanner.wf()
                    && final(self).scanner.ofs == e && old(self).scanner.ofs < e,
                Err(e) => r matches Err(x) && x.ofs == e,
            },
    {
        let ghost buf = self.buf();
        let ghost start = self.scanner.ofs as int;
        loop
            invariant
                self.scanner.wf(),
                self.buf() == buf,
                buf == old(self).buf(),
                start == old(self).scanner.ofs,
                start <= self.scanner.ofs,
                s_read(buf, self.scanner.ofs as int) == s_read(buf, start),
            decreases buf.len() - self.scanner.ofs,
        {
            let c = self.scanner.peek();
            if c == 0 {
                return Ok(None);
            }
            if c == 0x0au8 || c == 0x0du8 {
                self.scanner.next();
                continue;
            }
            if c == 0x23u8 {
                self.skip_comment();
                continue;
            }
            if c == 0x20u8 || c == 0x09u8 {
                return self.scanner.parse_error(bytes_of("unexpected whitespace"));
            }
            let ident = self.read_ident()?;
            self.skip_spaces();
            let id = ident.as_slice();
            if crate::text::bytes_eq(id, "rule".as_bytes()) {
                let r = self.read_rule()?;
                return Ok(Some(Statement::Rule(r)));
            }
            if crate::text::bytes_eq(id, "build".as_bytes()) {
                let b = self.read_build()?;
                return Ok(Some(Statement::Build(b)));
            }
            if crate::text::bytes_eq(id, "default".as_bytes()) {
                let d = self.read_default()?;
                return Ok(Some(Statement::Default(d)));
            }
            if crate::text::bytes_eq(id, "include".as_bytes()) {
                let file = self.read_eval(false)?;
                return Ok(
                    Some(
                        Statement::Include(
                            IncludeOrSubninja { file, scope_position: ScopePosition(0) },
                        ),
                    ),
                );
            }
            if crate::text::bytes_eq(id, "subninja".as_bytes()) {
                let file = self.read_eval(false)?;
                return Ok(
                    Some(
                        Statement::Subninja(
                            IncludeOrSubninja { file, scope_position: ScopePosition(0) },
                        ),
                    ),
                );
            }
            if crate::text::bytes_eq(id, "pool".as_bytes()) {
                let p = self.read_pool()?;
                return Ok(Some(Statement::Pool(p)));
            }
            let value = self.read_vardef()?;
            return Ok(
                Some(
                    Statement::VariableAssignment(
                        (ident, VariableAssignment { unevaluated: value, scope_position: ScopePosition(0) }),
                    ),
                ),
            );
        }
    }

    /// All remaining statements.
    pub fn read_all(&mut self) -> (r: ParseResult<Vec<Statement>>)
        requires
            old(self).scanner.wf(),
        ensures
            match s_read_all(old(self).buf(), old(self).scanner.ofs as int, Seq::empty()) {
                Ok(sts) => r matches Ok(v) && v@.map_values(|s: Statement| s@) == sts,
                Err(e) => r matches Err(x) && x.ofs == e,
            },
    {
        let ghost buf = self.buf();
        let ghost start = self.scanner.ofs as int;
        let mut result: Vec<Statement> = Vec::new();
        assert(result@.map_values(|s: Statement| s@) =~= Seq::<StatementView>::empty());
        loop
            invariant
                self.scanner.wf(),
                self.buf() == buf,
                buf == old(self).buf(),
                start == old(self).scanner.ofs,
                s_read_all(buf, self.scanner.ofs as int, result@.map_values(|s: Statement| s@))
                    == s_read_all(buf, start, Seq::empty()),
            decreases buf.len() - self.scanner.ofs,
        {
            match self.read()? {
                None => {
                    return Ok(result);
                },
                Some(st) => {
                    let ghost rv = result@.map_values(|s: Statement| s@);
                    let ghost sv = st@;
                    result.push(st);
                    assert(result@.map_values(|s: Statement| s@) =~= rv.push(sv));
                },
            }
        }
    }
}

/// Whether a block of kind `kind` may bind `name`.
pub fn var_allowed_exec(kind: VarsKind, name: &[u8]) -> (r: bool)
    ensures
        r == var_allowed(kind, name@),
{
    match kind {
        VarsKind::Build => true,
        VarsKind::Pool => bytes_eq(name, "depth".as_bytes()),
        VarsKind::Rule => {
            bytes_eq(name, "command".as_bytes()) || bytes_eq(name, "depfile".as_bytes())
                || bytes_eq(name, "dyndep".as_bytes()) || bytes_eq(name, "description".as_bytes())
                || bytes_eq(name, "deps".as_bytes()) || bytes_eq(name, "generator".as_bytes())
                || bytes_eq(name, "pool".as_bytes()) || bytes_eq(name, "restat".as_bytes())
                || bytes_eq(name, "rspfile".as_bytes()) || bytes_eq(name, "rspfile_content".as_bytes())
                || bytes_eq(name, "msvc_deps_prefix".as_bytes())
        },
    }
}

/// A `usize` written in decimal with an optional leading `+`, or the
/// message of the error Rust's integer parsing reports.
pub fn parse_usize(s: &[u8]) -> (r: Result<usize, Vec<u8>>)
    ensures
        match spec_parse_usize(s@) {
            Some(v) => r == Ok::<usize, Vec<u8>>(v as usize),
            None => r is Err,
        },
{
    let mut i: usize = 0;
    if s.len() > 0 && s[0] == 0x2bu8 {
        i = 1;
    }
    let ghost d = s@.subrange(i as int, s@.len() as int);
    proof {
        if i == 1 {
            assert(d =~= s@.drop_first());
        } else {
            assert(d =~= s@);
        }
    }
    if s.len() == 0 {
        return Err(bytes_of("cannot parse integer from empty string"));
    }
    if i == s.len() {
        return Err(bytes_of("invalid digit found in string"));
    }
    let mut v: usize = 0;
    let mut overflow = false;
    let mut k = i;
    while k < s.len()
        invariant
            i <= k <= s@.len(),
            i <= 1,
            d == s@.subrange(i as int, s@.len() as int),
            d == (if s@.len() > 0 && s@[0] == 0x2b {
                s@.drop_first()
            } else {
                s@
            }),
            all_digits(s@.subrange(i as int, k as int)),
            !overflow ==> v == digits_value(s@.subrange(i as int, k as int)),
            overflow ==> digits_value(s@.subrange(i as int, k as int)) > usize::MAX,
        decreases s@.len() - k,
    {
        let c = s[k];
        if c < 0x30u8 || c > 0x39u8 {
            assert(!all_digits(d)) by {
                assert(d[k - i] == c);
            }
            return Err(bytes_of("invalid digit found in string"));
        }
        let ghost prev = s@.subrange(i as int, k as int);
        let ghost next = s@.subrange(i as int, k + 1);
        assert(next.drop_last() =~= prev);
        assert(all_digits(next));
        let digit = (c - 0x30u8) as usize;
        if !overflow {
            if v > (usize::MAX - digit) / 10 {
                overflow = true;
                assert(digits_value(next) > usize::MAX) by (nonlinear_arith)
                    requires
                        digits_value(next) == v * 10 + digit,
                        v > (usize::MAX - digit) / 10,
                        digit <= 9,
                ;
            } else {
                assert(v * 10 + digit <= usize::MAX) by (nonlinear_arith)
                    requires
                        v <= (usize::MAX - digit) / 10,
                        digit <= 9,
                ;
                v = v * 10 + digit;
            }
        } else {
            assert(digits_value(next) > usize::MAX) by (nonlinear_arith)
                requires
                    digits_value(next) == digits_value(prev) * 10 + digit,
                    digits_value(prev) > usize::MAX,
            ;
        }
        k = k + 1;
    }
    assert(s@.subrange(i as int, s@.len() as int) =~= d);
    if overflow {
        return Err(bytes_of("number too large to fit in target type"));
    }
    Ok(v)
}

// ---------------------------------------------------------------------------
// Clumps: runs of statements between includes, with scope positions.

/// Statements between includes, each with its scope position: the number
/// of statements before it in the clump that take one (pools take none).
pub struct Clump {
    pub assignments: Vec<(Vec<u8>, VariableAssignment)>,
    pub rules: Vec<(Vec<u8>, Rule)>,
    pub pools: Vec<Pool>,
    pub defaults: Vec<DefaultStmt>,
    pub builds: Vec<Build>,
    pub subninjas: Vec<IncludeOrSubninja>,
    pub used_scope_positions: usize,
    pub base_position: ScopePosition,
}

/// What a clump holds.
#[verifier::ext_equal]
pub struct ClumpView {
    pub assignments: Seq<(Seq<u8>, Seq<u8>, nat)>,
    pub rules: Seq<(Seq<u8>, VarsView, nat)>,
    pub pools: Seq<(Seq<u8>, nat)>,
    pub defaults: Seq<(Seq<Seq<u8>>, nat)>,
    pub builds: Seq<(BuildView, nat)>,
    pub subninjas: Seq<(Seq<u8>, nat)>,
    pub used_scope_positions: nat,
    pub base_position: nat,
}

impl View for Clump {
    type V = ClumpView;

    open spec fn view(&self) -> ClumpView {
        ClumpView {
            assignments: self.assignments@.map_values(
                |a: (Vec<u8>, VariableAssignment)| (a.0@, a.1.unevaluated.0@, a.1.scope_position.0 as nat),
            ),
            rules: self.rules@.map_values(|r: (Vec<u8>, Rule)| (r.0@, vars_view(r.1.vars), r.1.scope_position.0 as nat)),
            pools: self.pools@.map_values(|p: Pool| (p.name@, p.depth as nat)),
            defaults: self.defaults@.map_values(|d: DefaultStmt| (evals_view(d.files@), d.scope_position.0 as nat)),
            builds: self.builds@.map_values(|b: Build| (b@, b.scope_position.0 as nat)),
            subninjas: self.subninjas@.map_values(|i: IncludeOrSubninja| (i.file.0@, i.scope_position.0 as nat)),
            used_scope_positions: self.used_scope_positions as nat,
            base_position: self.base_position.0 as nat,
        }
    }
}

/// The empty clump.
pub open spec fn empty_clump() -> ClumpView {
    ClumpView {
        assignments: Seq::empty(),
        rules: Seq::empty(),
        pools: Seq::empty(),
        defaults: Seq::empty(),
        builds: Seq::empty(),
        subninjas: Seq::empty(),
        used_scope_positions: 0,
        base_position: 0,
    }
}

/// A clump with no statements.
pub open spec fn clump_is_empty(c: ClumpView) -> bool {
    c.assignments.len() == 0 && c.rules.len() == 0 && c.pools.len() == 0 && c.defaults.len() == 0
        && c.builds.len() == 0 && c.subninjas.len() == 0
}

/// Clump `c` with statement `st` (not an include) added at position `pos`,
/// and the next position.
pub open spec fn clump_add(c: ClumpView, st: StatementView, pos: nat) -> (ClumpView, nat) {
    match st {
        StatementView::Rule { name, vars } => (ClumpView { rules: c.rules.push((name, vars, pos)), ..c }, pos + 1),
        StatementView::Build(b) => (ClumpView { builds: c.builds.push((b, pos)), ..c }, pos + 1),
        StatementView::Default { files } => (ClumpView { defaults: c.defaults.push((files, pos)), ..c }, pos + 1),
        StatementView::Subninja { file } => (ClumpView { subninjas: c.subninjas.push((file, pos)), ..c }, pos + 1),
        StatementView::Pool { name, depth } => (ClumpView { pools: c.pools.push((name, depth)), ..c }, pos),
        StatementView::VariableAssignment { name, value } => (
            ClumpView { assignments: c.assignments.push((name, value, pos)), ..c },
            pos + 1,
        ),
        StatementView::Include { file } => (c, pos),
    }
}

/// A clump or an include.
pub enum ClumpOrIncludeView {
    Clump(ClumpView),
    Include(Seq<u8>),
}

/// One more statement grouped: an include ends the clump being filled,
/// if it holds anything, and stands after it; another statement joins it.
pub open spec fn group_step(
    state: (Seq<ClumpOrIncludeView>, ClumpView, nat),
    st: StatementView,
) -> (Seq<ClumpOrIncludeView>, ClumpView, nat) {
    let (done, cur, pos) = state;
    match st {
        StatementView::Include { file } => if clump_is_empty(cur) {
            (done.push(ClumpOrIncludeView::Include(file)), cur, pos)
        } else {
            (
                done.push(ClumpOrIncludeView::Clump(ClumpView { used_scope_positions: pos, ..cur })).push(
                    ClumpOrIncludeView::Include(file),
                ),
                empty_clump(),
                0,
            )
        },
        _ => {
            let (c2, p2) = clump_add(cur, st, pos);
            (done, c2, p2)
        },
    }
}

/// The grouping of `sts`: the clumps and includes complete so far, the
/// clump being filled and its next position.
pub open spec fn group_clumps(sts: Seq<StatementView>) -> (Seq<ClumpOrIncludeView>, ClumpView, nat)
    decreases sts.len(),
{
    if sts.len() == 0 {
        (Seq::empty(), empty_clump(), 0)
    } else {
        group_step(group_clumps(sts.drop_last()), sts.last())
    }
}

/// Statements grouped into clumps separated by includes: a clump ends at
/// an include and at the end, and is left out when it holds nothing.
pub open spec fn clumps_of(sts: Seq<StatementView>) -> Seq<ClumpOrIncludeView> {
    let (done, cur, pos) = group_clumps(sts);
    if clump_is_empty(cur) {
        done
    } else {
        done.push(ClumpOrIncludeView::Clump(ClumpView { used_scope_positions: pos, ..cur }))
    }
}

/// The files of the include statements among `sts`, in order.
pub open spec fn include_files(sts: Seq<StatementView>) -> Seq<Seq<u8>>
    decreases sts.len(),
{
    if sts.len() == 0 {
        Seq::empty()
    } else {
        match sts.last() {
            StatementView::Include { file } => include_files(sts.drop_last()).push(file),
            _ => include_files(sts.drop_last()),
        }
    }
}

/// The files of the includes among grouped statements, in order.
pub open spec fn grouped_includes(cs: Seq<ClumpOrIncludeView>) -> Seq<Seq<u8>>
    decreases cs.len(),
{
    if cs.len() == 0 {
        Seq::empty()
    } else {
        match cs.last() {
            ClumpOrIncludeView::Include(f) => grouped_includes(cs.drop_last()).push(f),
            ClumpOrIncludeView::Clump(_) => grouped_includes(cs.drop_last()),
        }
    }
}

/// Grouping into clumps keeps every include, in order, each as an entry of
/// its own.
pub proof fn law_clumps_keep_includes(sts: Seq<StatementView>)
    ensures
        grouped_includes(clumps_of(sts)) == include_files(sts),
{
    lemma_group_includes(sts);
    let (done, cur, pos) = group_clumps(sts);
    if !clump_is_empty(cur) {
        let c = ClumpOrIncludeView::Clump(ClumpView { used_scope_positions: pos, ..cur });
        assert(done.push(c).drop_last() =~= done);
    }
}

proof fn lemma_group_includes(sts: Seq<StatementView>)
    ensures
        grouped_includes(group_clumps(sts).0) == include_files(sts),
    decreases sts.len(),
{
    if sts.len() > 0 {
        lemma_group_includes(sts.drop_last());
        let (done, cur, pos) = group_clumps(sts.drop_last());
        assert(group_clumps(sts) == group_step(group_clumps(sts.drop_last()), sts.last()));
        match sts.last() {
            StatementView::Include { file } => {
                assert(include_files(sts) == include_files(sts.drop_last()).push(file));
                if clump_is_empty(cur) {
                    assert(done.push(ClumpOrIncludeView::Include(file)).drop_last() =~= done);
                    assert(group_clumps(sts).0 == done.push(ClumpOrIncludeView::Include(file)));
                } else {
                    let c = ClumpOrIncludeView::Clump(ClumpView { used_scope_positions: pos, ..cur });
                    let d1 = done.push(c);
                    let d2 = d1.push(ClumpOrIncludeView::Include(file));
                    assert(d2.drop_last() =~= d1);
                    assert(d1.drop_last() =~= done);
                    assert(grouped_includes(d1) == grouped_includes(done));
                    assert(grouped_includes(d2) == grouped_includes(d1).push(file));
                    assert(group_clumps(sts).0 == d2);
                }
            },
            _ => {
                assert(group_clumps(sts).0 == done);
                assert(include_files(sts) == include_files(sts.drop_last()));
            },
        }
    }
}

/// A clump or an include statement's file.
pub enum ClumpOrInclude {
    Clump(Clump),
    Include(EvalString),
}

impl View for ClumpOrInclude {
    type V = ClumpOrIncludeView;

    open spec fn view(&self) -> ClumpOrIncludeView {
        match self {
            ClumpOrInclude::Clump(c) => ClumpOrIncludeView::Clump(c@),
            ClumpOrInclude::Include(e) => ClumpOrIncludeView::Include(e.0@),
        }
    }
}

impl Clump {
    pub fn new() -> (r: Clump)
        ensures
            r@ == empty_clump(),
    {
        let c = Clump {
            assignments: Vec::new(),
            rules: Vec::new(),
            pools: Vec::new(),
            defaults: Vec::new(),
            builds: Vec::new(),
            subninjas: Vec::new(),
            used_scope_positions: 0,
            base_position: ScopePosition(0),
        };
        assert(c@ =~= empty_clump());
        c
    }

    pub fn is_empty(&self) -> (r: bool)
        ensures
            r == clump_is_empty(self@),
    {
        self.assignments.len() == 0 && self.rules.len() == 0 && self.pools.len() == 0 && self.defaults.len() == 0
            && self.builds.len() == 0 && self.subninjas.len() == 0
    }

    /// Add statement `st`, not an include, at position `pos`; returns the
    /// next position.
    fn add(&mut self, st: Statement, pos: usize) -> (r: usize)
        requires
            !(st@ is Include),
            pos < usize::MAX,
        ensures
            (final(self)@, r as nat) == clump_add(old(self)@, st@, pos as nat),
    {
        let ghost c = self@;
        let ghost sv = st@;
        match st {
            Statement::Rule((name, mut r)) => {
                r.scope_position = ScopePosition(pos);
                let ghost e = (name@, vars_view(r.vars), pos as nat);
                self.rules.push((name, r));
                assert(self@.rules =~= c.rules.push(e));
                assert(self@ =~= clump_add(c, sv, pos as nat).0);
                pos + 1
            },
            Statement::Build(mut b) => {
                b.scope_position = ScopePosition(pos);
                let ghost bv = b@;
                self.builds.push(b);
                assert(self@.builds =~= c.builds.push((bv, pos as nat)));
                assert(self@ =~= clump_add(c, sv, pos as nat).0);
                pos + 1
            },
            Statement::Default(mut d) => {
                d.scope_position = ScopePosition(pos);
                let ghost fv = evals_view(d.files@);
                self.defaults.push(d);
                assert(self@.defaults =~= c.defaults.push((fv, pos as nat)));
                assert(self@ =~= clump_add(c, sv, pos as nat).0);
                pos + 1
            },
            Statement::Subninja(mut i) => {
                i.scope_position = ScopePosition(pos);
                let ghost fv = i.file.0@;
                self.subninjas.push(i);
                assert(self@.subninjas =~= c.subninjas.push((fv, pos as nat)));
                assert(self@ =~= clump_add(c, sv, pos as nat).0);
                pos + 1
            },
            Statement::Pool(p) => {
                let ghost pv = (p.name@, p.depth as nat);
                self.pools.push(p);
                assert(self@.pools =~= c.pools.push(pv));
                assert(self@ =~= clump_add(c, sv, pos as nat).0);
                pos
            },
            Statement::VariableAssignment((name, mut v)) => {
                v.scope_position = ScopePosition(pos);
                let ghost vv = (name@, v.unevaluated.0@, pos as nat);
                self.assignments.push((name, v));
                assert(self@.assignments =~= c.assignments.push(vv));
                assert(self@ =~= clump_add(c, sv, pos as nat).0);
                pos + 1
            },
            Statement::Include(_) => {
                pos
            },
        }
    }
}

/// Group one more statement into `result`, `clump` and `position`.
fn clump_step(result: &mut Vec<ClumpOrInclude>, clump: &mut Clump, position: &mut usize, stmt: Statement)
    requires
        *old(position) < usize::MAX,
    ensures
        (final(result)@.map_values(|c: ClumpOrInclude| c@), final(clump)@, *final(position) as nat) == group_step(
            (old(result)@.map_values(|c: ClumpOrInclude| c@), old(clump)@, *old(position) as nat),
            stmt@,
        ),
        *final(position) <= *old(position) + 1,
{
    let ghost rv = result@.map_values(|c: ClumpOrInclude| c@);
    let ghost cv = clump@;
    let ghost sv = stmt@;
    match stmt {
        Statement::Include(i) => {
            if !clump.is_empty() {
                clump.used_scope_positions = *position;
                let ghost full_v = clump@;
                let mut full = Clump::new();
                std::mem::swap(&mut full, clump);
                result.push(ClumpOrInclude::Clump(full));
                *position = 0;
                assert(result@.map_values(|c: ClumpOrInclude| c@) =~= rv.push(ClumpOrIncludeView::Clump(full_v)));
            }
            let ghost rv2 = result@.map_values(|c: ClumpOrInclude| c@);
            let ghost fv = i.file.0@;
            result.push(ClumpOrInclude::Include(i.file));
            assert(result@.map_values(|c: ClumpOrInclude| c@) =~= rv2.push(ClumpOrIncludeView::Include(fv)));
        },
        other => {
            *position = clump.add(other, *position);
        },
    }
}

impl<'text> Parser<'text> {
    /// All remaining statements, grouped into clumps separated by includes.
    pub fn read_clumps(&mut self) -> (r: ParseResult<Vec<ClumpOrInclude>>)
        requires
            old(self).scanner.wf(),
        ensures
            match s_read_all(old(self).buf(), old(self).scanner.ofs as int, Seq::empty()) {
                Ok(sts) => r matches Ok(v) && v@.map_values(|c: ClumpOrInclude| c@) == clumps_of(sts),
                Err(e) => r matches Err(x) && x.ofs == e,
            },
    {
        let ghost buf = self.buf();
        let ghost start = self.scanner.ofs as int;
        let mut result: Vec<ClumpOrInclude> = Vec::new();
        let mut clump = Clump::new();
        let mut position: usize = 0;
        let ghost mut seen: Seq<StatementView> = Seq::empty();
        assert(result@.map_values(|c: ClumpOrInclude| c@) =~= Seq::<ClumpOrIncludeView>::empty());
        loop
            invariant_except_break
                self.scanner.wf(),
                self.buf() == buf,
                s_read_all(buf, self.scanner.ofs as int, seen) == s_read_all(buf, start, Seq::empty()),
                position <= self.scanner.ofs,
            invariant
                buf == old(self).buf(),
                start == old(self).scanner.ofs,
                group_clumps(seen) == (result@.map_values(|c: ClumpOrInclude| c@), clump@, position as nat),
            ensures
                s_read_all(buf, start, Seq::empty()) == Ok::<Seq<StatementView>, int>(seen),
            decreases buf.len() - self.scanner.ofs,
        {
            let stmt = match self.read() {
                Err(e) => {
                    return Err(e);
                },
                Ok(None) => {
                    break;
                },
                Ok(Some(st)) => st,
            };
            let ghost sv = stmt@;
            proof {
                assert(seen.push(sv).drop_last() =~= seen);
            }
            clump_step(&mut result, &mut clump, &mut position, stmt);
            proof {
                seen = seen.push(sv);
            }
        }
        if !clump.is_empty() {
            clump.used_scope_positions = position;
            let ghost rv = result@.map_values(|c: ClumpOrInclude| c@);
            let ghost cv = clump@;
            result.push(ClumpOrInclude::Clump(clump));
            assert(result@.map_values(|c: ClumpOrInclude| c@) =~= rv.push(ClumpOrIncludeView::Clump(cv)));
        }
        Ok(result)
    }
}

// ---------------------------------------------------------------------------
// Splitting a manifest into chunks that can be parsed apart.

/// Position of the first newline at or after `i`, or the length.
pub open spec fn first_nl(buf: Seq<u8>, i: int) -> int
    decreases buf.len() - i,
{
    if i < 0 || i >= buf.len() {
        buf.len() as int
    } else if buf[i] == 0x0a {
        i
    } else {
        first_nl(buf, i + 1)
    }
}

/// A byte that can start a statement: a letter, a digit, `_`, `-` or `.`.
pub open spec fn starts_statement(c: u8) -> bool {
    (0x61 <= c <= 0x7a) || (0x41 <= c <= 0x5a) || (0x30 <= c <= 0x39) || c == 0x5f || c == 0x2d || c == 0x2e
}

/// The first place at or after `idx` where a chunk may start: just after
/// a newline that is not escaped by `$` (also before `\r`), where a
/// statement starts or the buffer ends; the length if there is none.
pub open spec fn next_chunk_start(buf: Seq<u8>, idx: int) -> int
    decreases buf.len() - idx,
{
    let nl = first_nl(buf, idx);
    if idx < 0 || nl >= buf.len() {
        buf.len() as int
    } else {
        proof {
            lemma_first_nl(buf, idx);
        }
        let j = nl + 1;
        if (j >= 2 && buf[j - 2] == 0x24) || (j >= 3 && buf[j - 2] == 0x0d && buf[j - 3] == 0x24) {
            next_chunk_start(buf, j)
        } else if j == buf.len() || starts_statement(buf[j]) {
            j
        } else {
            next_chunk_start(buf, j)
        }
    }
}

pub proof fn lemma_first_nl(buf: Seq<u8>, i: int)
    requires
        0 <= i,
    ensures
        i <= first_nl(buf, i) || first_nl(buf, i) == buf.len(),
        first_nl(buf, i) <= buf.len(),
        first_nl(buf, i) < buf.len() ==> buf[first_nl(buf, i)] == 0x0a && first_nl(buf, i) >= i,
    decreases buf.len() - i,
{
    if i < buf.len() && buf[i] != 0x0a {
        lemma_first_nl(buf, i + 1);
    }
}

proof fn lemma_next_chunk_start(buf: Seq<u8>, idx: int)
    requires
        0 <= idx <= buf.len(),
    ensures
        idx <= next_chunk_start(buf, idx) <= buf.len(),
    decreases buf.len() - idx,
{
    lemma_first_nl(buf, idx);
    let nl = first_nl(buf, idx);
    if nl < buf.len() {
        lemma_next_chunk_start(buf, nl + 1);
    }
}

/// Where the chunk after position `prospective_start` starts.
fn find_start_of_next_manifest_chunk(buf: &[u8], prospective_start: usize) -> (r: usize)
    requires
        prospective_start <= buf@.len(),
    ensures
        r == next_chunk_start(buf@, prospective_start as int),
{
    let mut idx = prospective_start;
    loop
        invariant
            idx <= buf@.len(),
            next_chunk_start(buf@, prospective_start as int) == next_chunk_start(buf@, idx as int),
        decreases buf@.len() - idx,
    {
        let mut k = idx;
        proof {
            lemma_first_nl(buf@, idx as int);
        }
        while k < buf.len() && buf[k] != 0x0au8
            invariant
                idx <= k <= buf@.len(),
                first_nl(buf@, idx as int) == first_nl(buf@, k as int),
            decreases buf@.len() - k,
        {
            k = k + 1;
        }
        if k >= buf.len() {
            return buf.len();
        }
        idx = k + 1;
        // This newline was escaped, try again.  (This check may be too
        // conservative: a comment ending in "$", or an escaped "$$".)
        if idx >= 2 && buf[idx - 2] == 0x24u8 || idx >= 3 && buf[idx - 2] == 0x0du8 && buf[idx - 3] == 0x24u8 {
            continue;
        }
        // Chunk boundaries go where the scanner can stop easily: at an
        // identifier after a newline.
        if idx == buf.len() {
            return idx;
        }
        let c = buf[idx];
        if (0x61u8 <= c && c <= 0x7au8) || (0x41u8 <= c && c <= 0x5au8) || (0x30u8 <= c && c <= 0x39u8) || c == 0x5fu8
            || c == 0x2du8 || c == 0x2eu8 {
            return idx;
        }
    }
}

/// The bounds of the chunks from `start` on, each `size` long but ending
/// where a chunk may start.
pub open spec fn chunk_bounds(buf: Seq<u8>, start: int, size: int) -> Seq<(int, int)>
    decreases buf.len() - start,
{
    if start < 0 || start >= buf.len() || size < 1 {
        Seq::empty()
    } else {
        let next = next_chunk_start(buf, if start + size < buf.len() { start + size } else { buf.len() as int });
        if next <= start || next > buf.len() {
            Seq::empty()
        } else {
            seq![(start, next)] + chunk_bounds(buf, next, size)
        }
    }
}

/// The chunk size for `len` bytes and `num_threads` threads: two chunks per
/// thread, but at least a megabyte each.
pub open spec fn chunk_size(len: nat, num_threads: nat) -> int {
    let by_count = len / (2 * num_threads) + 1;
    if by_count > 1024 * 1024 {
        by_count as int
    } else {
        1024 * 1024int
    }
}

/// Split the manifest `buf` into chunks that each start at a statement, for
/// parsing on `num_threads` threads.
pub fn split_manifest_into_chunks(buf: &[u8], num_threads: usize) -> (r: Vec<&[u8]>)
    requires
        num_threads > 0,
        2 * num_threads <= usize::MAX,
    ensures
        r@.len() == chunk_bounds(buf@, 0, chunk_size(buf@.len(), num_threads as nat)).len(),
        forall|i: int|
            0 <= i < r@.len() ==> #[trigger] r@[i]@ == buf@.subrange(
                chunk_bounds(buf@, 0, chunk_size(buf@.len(), num_threads as nat))[i].0,
                chunk_bounds(buf@, 0, chunk_size(buf@.len(), num_threads as nat))[i].1,
            ),
{
    let min_chunk_size: usize = 1024 * 1024;
    let chunk_count = num_threads * 2;
    let q = buf.len() / chunk_count;
    assert(2 * q <= buf@.len()) by (nonlinear_arith)
        requires
            q == buf@.len() / (chunk_count as nat),
            chunk_count >= 2,
    ;
    assert(buf@.len() <= usize::MAX);
    let by_count = q + 1;
    let size = if by_count > min_chunk_size {
        by_count
    } else {
        min_chunk_size
    };
    let ghost all = chunk_bounds(buf@, 0, size as int);
    let mut result: Vec<&[u8]> = Vec::new();
    let mut start: usize = 0;
    while start < buf.len()
        invariant
            start <= buf@.len(),
            size >= 1,
            all == chunk_bounds(buf@, 0, size as int),
            ({
                let rest = chunk_bounds(buf@, start as int, size as int);
                &&& result@.len() + rest.len() == all.len()
                &&& forall|i: int| 0 <= i < rest.len() ==> #[trigger] rest[i] == all[result@.len() + i]
            }),
            forall|i: int| 0 <= i < result@.len() ==> #[trigger] result@[i]@ == buf@.subrange(all[i].0, all[i].1),
        decreases buf@.len() - start,
    {
        let next = if size > buf.len() - start {
            buf.len()
        } else {
            start + size
        };
        let next = find_start_of_next_manifest_chunk(buf, next);
        proof {
            lemma_next_chunk_start(buf@, if start + size < buf@.len() { start + size } else { buf@.len() as int });
            let rest = chunk_bounds(buf@, start as int, size as int);
            assert(rest == seq![(start as int, next as int)] + chunk_bounds(buf@, next as int, size as int));
            assert(rest[0] == all[result@.len() as int]);
        }
        result.push(vstd::slice::slice_subrange(buf, start, next));
        proof {
            let rest = chunk_bounds(buf@, start as int, size as int);
            let rest2 = chunk_bounds(buf@, next as int, size as int);
            assert forall|i: int| 0 <= i < rest2.len() implies #[trigger] rest2[i] == all[result@.len() + i] by {
                assert(rest2[i] == rest[i + 1]);
            }
        }
        start = next;
    }
    result
}

/// The chunks of a manifest cover it end to end: the first starts at the
/// start, each of the others where the one before ends, the last ends at
/// the end, and none is empty.
pub proof fn law_chunks_cover(buf: Seq<u8>, start: int, size: int)
    requires
        0 <= start <= buf.len(),
        size >= 1,
    ensures
        ({
            let b = chunk_bounds(buf, start, size);
            &&& (start < buf.len() <==> b.len() > 0)
            &&& b.len() > 0 ==> b[0].0 == start && b[b.len() - 1].1 == buf.len()
            &&& forall|i: int| 0 <= i < b.len() ==> #[trigger] b[i].0 < b[i].1
            &&& forall|i: int| 0 <= i < b.len() - 1 ==> #[trigger] b[i].1 == b[i + 1].0
        }),
    decreases buf.len() - start,
{
    if start < buf.len() {
        let p = if start + size < buf.len() { start + size } else { buf.len() as int };
        lemma_next_chunk_start(buf, p);
        let next = next_chunk_start(buf, p);
        law_chunks_cover(buf, next, size);
        let rest = chunk_bounds(buf, next, size);
        let b = chunk_bounds(buf, start, size);
        assert(b == seq![(start, next)] + rest);
        assert forall|i: int| 0 <= i < b.len() implies #[trigger] b[i].0 < b[i].1 by {
            if i > 0 {
                assert(b[i] == rest[i - 1]);
            }
        }
        assert forall|i: int| 0 <= i < b.len() - 1 implies #[trigger] b[i].1 == b[i + 1].0 by {
            if i > 0 {
                assert(b[i] == rest[i - 1]);
                assert(b[i + 1] == rest[i]);
            }
        }
        if rest.len() == 0 {
            assert(next == buf.len());
        }
    }
}

} // verus!
