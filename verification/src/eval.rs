//! Represents parsed Ninja strings with embedded variable references, e.g.
//! `c++ $in -o $out`, and mechanisms for expanding those into plain strings.
use vstd::prelude::*;
use rustc_hash::{FxHashMap, FxHasher};
use crate::smallmap::{SmallMap, spec_get};

verus! {

/// One token within an EvalString, either literal text or a variable reference.
#[derive(Debug, Clone, PartialEq, Eq)]
pub enum EvalPart {
    Literal(Vec<u8>),
    VarRef(Vec<u8>),
}

/// An EvalPart with its text taken as bytes.
pub enum EvalPartView {
    Literal(Seq<u8>),
    VarRef(Seq<u8>),
}

impl View for EvalPart {
    type V = EvalPartView;

    open spec fn view(&self) -> EvalPartView {
        match self {
            EvalPart::Literal(s) => EvalPartView::Literal(s@),
            EvalPart::VarRef(s) => EvalPartView::VarRef(s@),
        }
    }
}

/// A parsed but unexpanded variable-reference string, e.g. "cc $in -o $out",
/// kept as the text it was written as.
#[derive(Debug, Clone)]
pub struct EvalString(pub Vec<u8>);

impl PartialEq for EvalString {
    fn eq(&self, other: &Self) -> (r: bool) {
        crate::text::bytes_eq(self.0.as_slice(), other.0.as_slice())
    }
}

impl vstd::std_specs::cmp::PartialEqSpecImpl for EvalString {
    open spec fn obeys_eq_spec() -> bool {
        true
    }

    open spec fn eq_spec(&self, other: &EvalString) -> bool {
        self.0@ == other.0@
    }
}

/// Bytes that may appear in a `$name` variable reference.
pub open spec fn is_simple_var_char(c: u8) -> bool {
    (0x61 <= c <= 0x7a) || (0x41 <= c <= 0x5a) || (0x30 <= c <= 0x39) || c == 0x5f || c == 0x2d
}

pub fn simple_var_char(c: u8) -> (r: bool)
    ensures
        r == is_simple_var_char(c),
{
    (0x61u8 <= c && c <= 0x7au8) || (0x41u8 <= c && c <= 0x5au8) || (0x30u8 <= c && c <= 0x39u8)
        || c == 0x5fu8 || c == 0x2du8
}

/// End of the variable name that starts at `i`.
pub open spec fn var_name_end(t: Seq<u8>, i: int) -> int
    decreases t.len() - i,
{
    if 0 <= i < t.len() && is_simple_var_char(t[i]) {
        var_name_end(t, i + 1)
    } else {
        i
    }
}

/// Index of the first `}` at or after `i`, or the end of the text.
pub open spec fn brace_end(t: Seq<u8>, i: int) -> int
    decreases t.len() - i,
{
    if i < 0 || i >= t.len() {
        t.len() as int
    } else if t[i] == 0x7d {
        i
    } else {
        brace_end(t, i + 1)
    }
}

/// First position at or after `i` that is not a space.
pub open spec fn text_spaces_end(t: Seq<u8>, i: int) -> int
    decreases t.len() - i,
{
    if 0 <= i < t.len() && t[i] == 0x20 {
        text_spaces_end(t, i + 1)
    } else {
        i
    }
}

/// The next token of `t`, given that the literal being collected started at
/// `start` and scanning has reached `i`: the token and where the next one
/// starts, or none at the end.  `$` followed by a newline skips it and the
/// indentation after it; `$ `, `$$` and `$:` stand for the escaped byte;
/// `${name}` and `$name` are variable references.  A `$` at the very end
/// of the text ends it.
pub open spec fn next_part(t: Seq<u8>, start: int, i: int) -> Option<(EvalPartView, int)>
    decreases t.len() - i,
{
    if i < start || start < 0 {
        None
    } else if i >= t.len() {
        if i > start {
            Some((EvalPartView::Literal(t.subrange(start, t.len() as int)), t.len() as int))
        } else {
            None
        }
    } else if t[i] != 0x24 {
        next_part(t, start, i + 1)
    } else if i > start {
        Some((EvalPartView::Literal(t.subrange(start, i)), i))
    } else if i + 1 >= t.len() {
        None
    } else {
        let c = t[i + 1];
        if c == 0x0a || c == 0x0d {
            proof {
                lemma_text_spaces_end(t, i + 2);
            }
            let k = text_spaces_end(t, i + 2);
            next_part(t, k, k)
        } else if c == 0x20 || c == 0x24 || c == 0x3a {
            next_part(t, i + 1, i + 2)
        } else if c == 0x7b {
            proof {
                lemma_brace_end(t, i + 2);
            }
            let m = brace_end(t, i + 2);
            if m < t.len() {
                Some((EvalPartView::VarRef(t.subrange(i + 2, m)), m + 1))
            } else {
                Some((EvalPartView::VarRef(t.subrange(i + 2, m)), m))
            }
        } else {
            proof {
                lemma_var_name_end(t, i + 1);
            }
            let m = var_name_end(t, i + 1);
            Some((EvalPartView::VarRef(t.subrange(i + 1, m)), m))
        }
    }
}

/// All tokens of `t` from position `i`.
pub open spec fn parse_parts(t: Seq<u8>, i: int) -> Seq<EvalPartView>
    decreases t.len() - i,
{
    match next_part(t, i, i) {
        None => Seq::empty(),
        Some((p, j)) => if i < j <= t.len() {
            seq![p] + parse_parts(t, j)
        } else {
            Seq::empty()
        },
    }
}

pub proof fn lemma_var_name_end(t: Seq<u8>, i: int)
    requires
        0 <= i <= t.len(),
    ensures
        i <= var_name_end(t, i) <= t.len(),
    decreases t.len() - i,
{
    if i < t.len() && is_simple_var_char(t[i]) {
        lemma_var_name_end(t, i + 1);
    }
}

pub proof fn lemma_brace_end(t: Seq<u8>, i: int)
    requires
        0 <= i <= t.len(),
    ensures
        i <= brace_end(t, i) <= t.len(),
        brace_end(t, i) < t.len() ==> t[brace_end(t, i)] == 0x7d,
    decreases t.len() - i,
{
    if i < t.len() && t[i] != 0x7d {
        lemma_brace_end(t, i + 1);
    }
}

pub proof fn lemma_text_spaces_end(t: Seq<u8>, i: int)
    requires
        0 <= i <= t.len(),
    ensures
        i <= text_spaces_end(t, i) <= t.len(),
    decreases t.len() - i,
{
    if i < t.len() && t[i] == 0x20 {
        lemma_text_spaces_end(t, i + 1);
    }
}

/// A token always moves past where it started.
pub proof fn lemma_next_part(t: Seq<u8>, start: int, i: int)
    requires
        0 <= start <= i <= t.len(),
    ensures
        next_part(t, start, i) matches Some((p, j)) ==> start < j <= t.len(),
    decreases t.len() - i,
{
    if i >= t.len() {
    } else if t[i] != 0x24 {
        lemma_next_part(t, start, i + 1);
    } else if i > start {
    } else if i + 1 >= t.len() {
    } else {
        let c = t[i + 1];
        if c == 0x0a || c == 0x0d {
            lemma_text_spaces_end(t, i + 2);
            let k = text_spaces_end(t, i + 2);
            lemma_next_part(t, k, k);
        } else if c == 0x20 || c == 0x24 || c == 0x3a {
            lemma_next_part(t, i + 1, i + 2);
        } else if c == 0x7b {
            lemma_brace_end(t, i + 2);
        } else {
            lemma_var_name_end(t, i + 1);
        }
    }
}

/// Iterates over the parts of an eval string's text.
pub struct EvalParser<'a> {
    pub buf: &'a [u8],
    pub offset: usize,
}

impl<'a> EvalParser<'a> {
    /// The next part, advancing past it.
    pub fn next(&mut self) -> (r: Option<EvalPart>)
        requires
            old(self).offset <= old(self).buf@.len(),
        ensures
            final(self).buf == old(self).buf,
            final(self).offset <= final(self).buf@.len(),
            match next_part(old(self).buf@, old(self).offset as int, old(self).offset as int) {
                None => r is None,
                Some((p, j)) => r matches Some(x) && x@ == p && final(self).offset == j,
            },
    {
        let t = self.buf;
        let len = t.len();
        let mut start = self.offset;
        let mut i = self.offset;
        proof {
            lemma_next_part(t@, start as int, i as int);
        }
        loop
            invariant
                self.buf == old(self).buf,
                t@ == self.buf@,
                len == t@.len(),
                start <= i <= len,
                old(self).offset <= start,
                next_part(t@, start as int, i as int) == next_part(
                    t@,
                    old(self).offset as int,
                    old(self).offset as int,
                ),
            decreases len - i, len - start,
        {
            if i >= len {
                if i > start {
                    self.offset = len;
                    return Some(EvalPart::Literal(crate::text::copy_range(t, start, len)));
                }
                self.offset = len;
                return None;
            }
            if t[i] != 0x24u8 {
                i = i + 1;
                continue;
            }
            if i > start {
                self.offset = i;
                return Some(EvalPart::Literal(crate::text::copy_range(t, start, i)));
            }
            if i + 1 >= len {
                self.offset = len;
                return None;
            }
            let c = t[i + 1];
            if c == 0x0au8 || c == 0x0du8 {
                let mut k = i + 2;
                while k < len && t[k] == 0x20u8
                    invariant
                        i + 2 <= k <= len,
                        len == t@.len(),
                        text_spaces_end(t@, (i + 2) as int) == text_spaces_end(t@, k as int),
                    decreases len - k,
                {
                    k = k + 1;
                }
                start = k;
                i = k;
            } else if c == 0x20u8 || c == 0x24u8 || c == 0x3au8 {
                start = i + 1;
                i = i + 2;
            } else if c == 0x7bu8 {
                let mut m = i + 2;
                while m < len && t[m] != 0x7du8
                    invariant
                        i + 2 <= m <= len,
                        len == t@.len(),
                        brace_end(t@, (i + 2) as int) == brace_end(t@, m as int),
                    decreases len - m,
                {
                    m = m + 1;
                }
                let name = crate::text::copy_range(t, i + 2, m);
                if m < len {
                    self.offset = m + 1;
                } else {
                    self.offset = m;
                }
                return Some(EvalPart::VarRef(name));
            } else {
                let mut m = i + 1;
                while m < len && simple_var_char(t[m])
                    invariant
                        i + 1 <= m <= len,
                        len == t@.len(),
                        var_name_end(t@, (i + 1) as int) == var_name_end(t@, m as int),
                    decreases len - m,
                {
                    m = m + 1;
                }
                self.offset = m;
                return Some(EvalPart::VarRef(crate::text::copy_range(t, i + 1, m)));
            }
        }
    }
}

/// The parts of an eval string's text, in order.
pub fn parse_eval(buf: &[u8]) -> (r: Vec<EvalPart>)
    ensures
        r@.map_values(|p: EvalPart| p@) == parse_parts(buf@, 0),
{
    let mut parser = EvalParser { buf, offset: 0 };
    let mut r: Vec<EvalPart> = Vec::new();
    assert(r@.map_values(|p: EvalPart| p@) =~= Seq::<EvalPartView>::empty());
    loop
        invariant
            parser.buf@ == buf@,
            parser.offset <= buf@.len(),
            parse_parts(buf@, 0) == r@.map_values(|p: EvalPart| p@) + parse_parts(
                buf@,
                parser.offset as int,
            ),
        decreases buf@.len() - parser.offset,
    {
        let ghost o = parser.offset as int;
        proof {
            lemma_next_part(buf@, o, o);
        }
        match parser.next() {
            None => {
                assert(parse_parts(buf@, o) =~= Seq::<EvalPartView>::empty());
                assert(r@.map_values(|p: EvalPart| p@) + Seq::<EvalPartView>::empty() =~= r@.map_values(
                    |p: EvalPart| p@,
                ));
                return r;
            },
            Some(p) => {
                let ghost rv = r@.map_values(|p: EvalPart| p@);
                let ghost pv = p@;
                r.push(p);
                assert(r@.map_values(|p: EvalPart| p@) =~= rv.push(pv));
                assert(rv + (seq![pv] + parse_parts(buf@, parser.offset as int)) =~= r@.map_values(
                    |p: EvalPart| p@,
                ) + parse_parts(buf@, parser.offset as int));
            },
        }
    }
}

impl EvalString {
    pub fn new(text: Vec<u8>) -> (r: EvalString)
        ensures
            r.0@ == text@,
    {
        EvalString(text)
    }

    /// The parts of this string.
    pub fn parse(&self) -> (r: Vec<EvalPart>)
        ensures
            r@.map_values(|p: EvalPart| p@) == parse_parts(self.0@, 0),
    {
        parse_eval(self.0.as_slice())
    }

    /// The literal text of a string that has no variable references and
    /// no escapes, or none.
    pub fn maybe_literal(&self) -> (r: Option<&Vec<u8>>)
        ensures
            r matches Some(v) ==> *v == self.0 && no_dollar(self.0@),
            r is None ==> !no_dollar(self.0@),
    {
        let mut i: usize = 0;
        while i < self.0.len()
            invariant
                i <= self.0@.len(),
                forall|k: int| 0 <= k < i ==> self.0@[k] != 0x24,
            decreases self.0@.len() - i,
        {
            if self.0[i] == 0x24u8 {
                return None;
            }
            i = i + 1;
        }
        Some(&self.0)
    }

    /// An owned copy of this string.
    pub fn into_owned(self) -> (r: EvalString)
        ensures
            r.0@ == self.0@,
    {
        self
    }

    /// A copy of this string.
    pub fn as_cow(&self) -> (r: EvalString)
        ensures
            r.0@ == self.0@,
    {
        EvalString(crate::text::copy_range(self.0.as_slice(), 0, self.0.len()))
    }
}

/// The text has no `$`.
pub open spec fn no_dollar(t: Seq<u8>) -> bool {
    forall|k: int| 0 <= k < t.len() ==> t[k] != 0x24
}

#[verifier::external_type_specification]
#[verifier::external_body]
pub struct ExFxHasher(FxHasher);

#[verifier::external_type_specification]
#[verifier::external_body]
#[verifier::reject_recursive_types(H)]
pub struct ExBuildHasherDefault<H>(std::hash::BuildHasherDefault<H>);

/// What a map of evaluated variables holds, each name and value as bytes.
pub uninterp spec fn fx_contents(m: FxHashMap<Vec<u8>, Vec<u8>>) -> Map<Seq<u8>, Seq<u8>>;

/// The map that holds nothing.
pub open spec fn empty_byte_map() -> Map<Seq<u8>, Seq<u8>> {
    Map::empty()
}

/// `FxHashMap::default`: the new map holds nothing.
#[verifier::external_body]
fn fx_new() -> (r: FxHashMap<Vec<u8>, Vec<u8>>)
    ensures
        fx_contents(r) == empty_byte_map(),
{
    FxHashMap::default()
}

/// `HashMap::insert`: afterwards the key maps to the value and every other
/// key keeps its value.
#[verifier::external_body]
fn fx_insert(m: &mut FxHashMap<Vec<u8>, Vec<u8>>, k: Vec<u8>, v: Vec<u8>)
    ensures
        fx_contents(*final(m)) == fx_contents(*old(m)).insert(k@, v@),
{
    m.insert(k, v);
}

/// `HashMap::get`: the value stored for the key, if any.
#[verifier::external_body]
fn fx_get<'a>(m: &'a FxHashMap<Vec<u8>, Vec<u8>>, k: &[u8]) -> (r: Option<&'a Vec<u8>>)
    ensures
        r matches Some(v) ==> fx_contents(*m).contains_key(k@) && fx_contents(*m)[k@] == v@,
        r is None ==> !fx_contents(*m).contains_key(k@),
{
    m.get(k)
}

/// A single scope's worth of evaluated variable definitions.
pub struct Vars(FxHashMap<Vec<u8>, Vec<u8>>);

impl Vars {
    /// The variables and their values.
    pub closed spec fn view_map(&self) -> Map<Seq<u8>, Seq<u8>> {
        fx_contents(self.0)
    }

    pub fn new() -> (r: Vars)
        ensures
            r.view_map() == Map::<Seq<u8>, Seq<u8>>::empty(),
    {
        Vars(fx_new())
    }

    pub fn insert(&mut self, key: Vec<u8>, val: Vec<u8>)
        ensures
            final(self).view_map() == old(self).view_map().insert(key@, val@),
    {
        fx_insert(&mut self.0, key, val);
    }

    pub fn get(&self, key: &[u8]) -> (r: Option<&Vec<u8>>)
        ensures
            r matches Some(v) ==> self.view_map().contains_key(key@) && self.view_map()[key@] == v@,
            r is None ==> !self.view_map().contains_key(key@),
    {
        fx_get(&self.0, key)
    }
}

impl Default for Vars {
    fn default() -> (r: Vars)
        ensures
            r.view_map() == Map::<Seq<u8>, Seq<u8>>::empty(),
    {
        Vars::new()
    }
}

/// What a variable is bound to: text that is already expanded, or an eval
/// string still to be expanded.
pub enum VarValue {
    Literal(Vec<u8>),
    Unevaluated(EvalString),
}

pub enum VarValueView {
    Literal(Seq<u8>),
    Unevaluated(Seq<u8>),
}

impl View for VarValue {
    type V = VarValueView;

    open spec fn view(&self) -> VarValueView {
        match self {
            VarValue::Literal(s) => VarValueView::Literal(s@),
            VarValue::Unevaluated(e) => VarValueView::Unevaluated(e.0@),
        }
    }
}

/// An environment providing a mapping of variable name to variable value.
/// This represents one "frame" of evaluation context, a given EvalString may
/// need multiple environments in order to be fully expanded.
pub trait Env {
    /// What `var` is bound to in this frame, if anything.
    spec fn spec_get_var(&self, var: Seq<u8>) -> Option<VarValueView>;

    fn get_var(&self, var: &[u8]) -> (r: Option<VarValue>)
        ensures
            match self.spec_get_var(var@) {
                None => r is None,
                Some(v) => r matches Some(x) && x@ == v,
            },
    ;
}

impl Env for Vars {
    open spec fn spec_get_var(&self, var: Seq<u8>) -> Option<VarValueView> {
        if self.view_map().contains_key(var) {
            Some(VarValueView::Literal(self.view_map()[var]))
        } else {
            None
        }
    }

    fn get_var(&self, var: &[u8]) -> (r: Option<VarValue>) {
        match self.get(var) {
            Some(v) => Some(VarValue::Literal(crate::text::copy_vec(v))),
            None => None,
        }
    }
}

impl Env for SmallMap<Vec<u8>, EvalString> {
    open spec fn spec_get_var(&self, var: Seq<u8>) -> Option<VarValueView> {
        match spec_get(self.kv(), var) {
            Some(e) => Some(VarValueView::Unevaluated(e.0@)),
            None => None,
        }
    }

    fn get_var(&self, var: &[u8]) -> (r: Option<VarValue>) {
        match self.get(var) {
            Some(e) => Some(VarValue::Unevaluated(e.as_cow())),
            None => None,
        }
    }
}

impl Env for SmallMap<Vec<u8>, Vec<u8>> {
    open spec fn spec_get_var(&self, var: Seq<u8>) -> Option<VarValueView> {
        match spec_get(self.kv(), var) {
            Some(v) => Some(VarValueView::Literal(v@)),
            None => None,
        }
    }

    fn get_var(&self, var: &[u8]) -> (r: Option<VarValue>) {
        match self.get(var) {
            Some(v) => Some(VarValue::Literal(crate::text::copy_vec(v))),
            None => None,
        }
    }
}

/// One frame of an evaluation environment.
pub enum Frame<'a> {
    Vars(&'a Vars),
    Scoped(&'a SmallMap<Vec<u8>, EvalString>),
    Literal(&'a SmallMap<Vec<u8>, Vec<u8>>),
}

impl<'a> Frame<'a> {
    pub open spec fn spec_get(&self, var: Seq<u8>) -> Option<VarValueView> {
        match self {
            Frame::Vars(v) => v.spec_get_var(var),
            Frame::Scoped(m) => m.spec_get_var(var),
            Frame::Literal(m) => m.spec_get_var(var),
        }
    }

    pub fn get(&self, var: &[u8]) -> (r: Option<VarValue>)
        ensures
            match self.spec_get(var@) {
                None => r is None,
                Some(v) => r matches Some(x) && x@ == v,
            },
    {
        match self {
            Frame::Vars(v) => v.get_var(var),
            Frame::Scoped(m) => m.get_var(var),
            Frame::Literal(m) => m.get_var(var),
        }
    }
}

/// What a frame binds each variable name to.
pub type FrameFn = spec_fn(Seq<u8>) -> Option<VarValueView>;

/// The frames as functions from variable name to binding.
pub open spec fn frames_view(envs: Seq<Frame>) -> Seq<FrameFn> {
    envs.map_values(|f: Frame| |v: Seq<u8>| f.spec_get(v))
}

/// The first frame at or after `i` that binds `var`, with its binding.
pub open spec fn lookup(envs: Seq<FrameFn>, var: Seq<u8>, i: int) -> Option<(int, VarValueView)>
    decreases envs.len() - i,
{
    if i < 0 || i >= envs.len() {
        None
    } else {
        match (envs[i])(var) {
            Some(v) => Some((i, v)),
            None => lookup(envs, var, i + 1),
        }
    }
}

proof fn lemma_lookup(envs: Seq<FrameFn>, var: Seq<u8>, i: int)
    requires
        0 <= i,
    ensures
        lookup(envs, var, i) matches Some((j, v)) ==> i <= j < envs.len(),
    decreases envs.len() - i,
{
    if i < envs.len() && (envs[i])(var) is None {
        lemma_lookup(envs, var, i + 1);
    }
}

/// The expansion of `parts` using the frames `envs[start..]`.  A variable is
/// looked up in the earliest frame that has it; an unexpanded binding is
/// itself expanded using only the frames after that one.  Unbound variables
/// expand to nothing.
pub open spec fn eval_parts(parts: Seq<EvalPartView>, envs: Seq<FrameFn>, start: int) -> Seq<u8>
    decreases envs.len() - start, parts.len(),
{
    if parts.len() == 0 || start < 0 {
        Seq::empty()
    } else {
        let rest = eval_parts(parts.drop_first(), envs, start);
        match parts[0] {
            EvalPartView::Literal(s) => s + rest,
            EvalPartView::VarRef(v) => match lookup(envs, v, start) {
                None => rest,
                Some((j, VarValueView::Literal(s))) => s + rest,
                Some((j, VarValueView::Unevaluated(raw))) => if start <= j < envs.len() {
                    eval_parts(parse_parts(raw, 0), envs, j + 1) + rest
                } else {
                    rest
                },
            },
        }
    }
}

/// The expansion of eval text `t` in the frames `envs[start..]`.
pub open spec fn eval_text(t: Seq<u8>, envs: Seq<FrameFn>, start: int) -> Seq<u8> {
    eval_parts(parse_parts(t, 0), envs, start)
}

/// The expansion of a single variable reference.
pub open spec fn eval_var(v: Seq<u8>, envs: Seq<FrameFn>, start: int) -> Seq<u8> {
    match lookup(envs, v, start) {
        None => Seq::empty(),
        Some((j, VarValueView::Literal(s))) => s,
        Some((j, VarValueView::Unevaluated(raw))) => if start <= j < envs.len() {
            eval_parts(parse_parts(raw, 0), envs, j + 1)
        } else {
            Seq::empty()
        },
    }
}

/// Expanding a list of parts expands its first part, then the rest.
pub proof fn lemma_eval_cons(parts: Seq<EvalPartView>, envs: Seq<FrameFn>, start: int)
    requires
        parts.len() > 0,
        start >= 0,
    ensures
        eval_parts(parts, envs, start) == match parts[0] {
            EvalPartView::Literal(s) => s,
            EvalPartView::VarRef(v) => eval_var(v, envs, start),
        } + eval_parts(parts.drop_first(), envs, start),
{
    let rest = eval_parts(parts.drop_first(), envs, start);
    match parts[0] {
        EvalPartView::Literal(s) => {},
        EvalPartView::VarRef(v) => {
            assert(Seq::<u8>::empty() + rest =~= rest);
        },
    }
}

/// Appends the expansion of a reference to `v` in the frames `envs[start..]`.
fn evaluate_var(v: &Vec<u8>, result: &mut Vec<u8>, envs: &[Frame], start: usize)
    requires
        start <= envs@.len(),
    ensures
        final(result)@ == old(result)@ + eval_var(v@, frames_view(envs@), start as int),
    decreases envs@.len() - start, 0int,
{
    proof {
        lemma_lookup(frames_view(envs@), v@, start as int);
    }
    let mut i = start;
    while i < envs.len()
        invariant
            start <= i <= envs@.len(),
            lookup(frames_view(envs@), v@, i as int) == lookup(frames_view(envs@), v@, start as int),
            result@ == old(result)@,
        decreases envs@.len() - i,
    {
        match envs[i].get(v.as_slice()) {
            Some(VarValue::Literal(s)) => {
                crate::text::push_slice(result, s.as_slice());
                return;
            },
            Some(VarValue::Unevaluated(e)) => {
                let inner = e.parse();
                evaluate_parts(&inner, result, envs, i + 1);
                return;
            },
            None => {},
        }
        i = i + 1;
    }
    assert(old(result)@ + Seq::<u8>::empty() =~= old(result)@);
}

fn evaluate_parts(parts: &Vec<EvalPart>, result: &mut Vec<u8>, envs: &[Frame], start: usize)
    requires
        start <= envs@.len(),
    ensures
        final(result)@ == old(result)@ + eval_parts(
            parts@.map_values(|p: EvalPart| p@),
            frames_view(envs@),
            start as int,
        ),
    decreases envs@.len() - start, 1int,
{
    let ghost pv = parts@.map_values(|p: EvalPart| p@);
    let ghost r0 = result@;
    let mut k: usize = 0;
    assert(pv.skip(0) =~= pv);
    while k < parts.len()
        invariant
            k <= parts@.len(),
            start <= envs@.len(),
            pv == parts@.map_values(|p: EvalPart| p@),
            r0 + eval_parts(pv, frames_view(envs@), start as int) == result@ + eval_parts(
                pv.skip(k as int),
                frames_view(envs@),
                start as int,
            ),
        decreases parts@.len() - k,
    {
        let ghost tail = pv.skip(k as int);
        let ghost rb = result@;
        assert(tail.drop_first() =~= pv.skip(k + 1));
        assert(tail[0] == parts@[k as int]@);
        match &parts[k] {
            EvalPart::Literal(s) => {
                crate::text::push_slice(result, s.as_slice());
            },
            EvalPart::VarRef(v) => {
                evaluate_var(v, result, envs, start);
            },
        }
        proof {
            lemma_eval_cons(tail, frames_view(envs@), start as int);
        }
        assert(rb + eval_parts(tail, frames_view(envs@), start as int) =~= result@ + eval_parts(
            pv.skip(k + 1),
            frames_view(envs@),
            start as int,
        ));
        k = k + 1;
    }
    assert(pv.skip(parts@.len() as int) =~= Seq::<EvalPartView>::empty());
}

impl EvalString {
    /// Expands this string, looking up the values of variable references in
    /// the provided frames.  It will look up its variables in the earliest
    /// frame that has them, and then those lookups will be recursively
    /// expanded starting from the frame after the one that had the first
    /// successful lookup.
    pub fn evaluate(&self, envs: &[Frame]) -> (r: Vec<u8>)
        ensures
            r@ == eval_text(self.0@, frames_view(envs@), 0),
    {
        let parts = self.parse();
        let mut result: Vec<u8> = Vec::new();
        evaluate_parts(&parts, &mut result, envs, 0);
        assert(result@ =~= eval_text(self.0@, frames_view(envs@), 0));
        result
    }
}

/// Scanning text without `$` runs to where the next `$` or the end is.
proof fn lemma_scan_plain(t: Seq<u8>, start: int, i: int, k: int)
    requires
        0 <= start <= i <= k <= t.len(),
        forall|j: int| i <= j < k ==> t[j] != 0x24,
    ensures
        next_part(t, start, i) == next_part(t, start, k),
    decreases k - i,
{
    if i < k {
        lemma_scan_plain(t, start, i + 1, k);
    }
}

/// `$$`, `$ ` and `$:` are escapes for `$`, a space and a colon: text
/// without other `$`, around one such escape, expands to that text with the
/// escape written as the one byte it stands for, in every environment.
pub proof fn law_escapes(x: Seq<u8>, c: u8, y: Seq<u8>, envs: Seq<FrameFn>, start: int)
    requires
        no_dollar(x),
        no_dollar(y),
        c == 0x24 || c == 0x20 || c == 0x3a,
        start >= 0,
    ensures
        eval_text(x + seq![0x24u8, c] + y, envs, start) == x + seq![c] + y,
{
    let t = x + seq![0x24u8, c] + y;
    let n = x.len() as int;
    let len = t.len() as int;
    assert forall|j: int| n + 2 <= j < len implies t[j] != 0x24 by {
        assert(t[j] == y[j - n - 2]);
    }
    assert forall|j: int| 0 <= j < n implies t[j] != 0x24 by {
        assert(t[j] == x[j]);
    }
    assert(t[n] == 0x24 && t[n + 1] == c);
    lemma_scan_plain(t, n + 1, n + 2, len);
    assert(next_part(t, n + 1, len) == Some((EvalPartView::Literal(t.subrange(n + 1, len)), len)));
    assert(t.subrange(n + 1, len) =~= seq![c] + y);
    assert(next_part(t, n, n) == next_part(t, n + 1, n + 2));
    assert(parse_parts(t, len) == Seq::<EvalPartView>::empty());
    let lit = EvalPartView::Literal(seq![c] + y);
    assert(parse_parts(t, n) == seq![lit] + parse_parts(t, len));
    assert(parse_parts(t, n) =~= seq![lit]);
    assert(eval_parts(seq![lit].drop_first(), envs, start) == Seq::<u8>::empty());
    if n == 0 {
        assert(parse_parts(t, 0) =~= seq![lit]);
        assert(eval_parts(seq![lit], envs, start) == (seq![c] + y) + Seq::<u8>::empty());
        assert(x + seq![c] + y =~= (seq![c] + y) + Seq::<u8>::empty());
    } else {
        lemma_scan_plain(t, 0, 0, n);
        assert(next_part(t, 0, 0) == Some((EvalPartView::Literal(t.subrange(0, n)), n)));
        assert(t.subrange(0, n) =~= x);
        let parts = seq![EvalPartView::Literal(x)] + seq![lit];
        assert(parse_parts(t, 0) =~= parts);
        assert(parts.drop_first() =~= seq![lit]);
        assert(eval_parts(seq![lit], envs, start) == (seq![c] + y) + Seq::<u8>::empty());
        assert(eval_parts(parts, envs, start) == x + eval_parts(seq![lit], envs, start));
        assert(x + seq![c] + y =~= x + ((seq![c] + y) + Seq::<u8>::empty()));
    }
}

/// `$$` is an escaped dollar: text without other `$`, around one `$$`,
/// expands to that text with the `$$` written as a single `$`, in every
/// environment.
pub proof fn law_escaped_dollar(x: Seq<u8>, y: Seq<u8>, envs: Seq<FrameFn>, start: int)
    requires
        no_dollar(x),
        no_dollar(y),
        start >= 0,
    ensures
        eval_text(x + seq![0x24u8, 0x24u8] + y, envs, start) == x + seq![0x24u8] + y,
{
    law_escapes(x, 0x24u8, y, envs, start);
}

/// Text without `$` expands to itself, in every environment.
pub proof fn law_plain_text(x: Seq<u8>, envs: Seq<FrameFn>, start: int)
    requires
        no_dollar(x),
        start >= 0,
    ensures
        eval_text(x, envs, start) == x,
{
    let n = x.len() as int;
    if n == 0 {
        assert(next_part(x, 0, 0) is None);
        assert(parse_parts(x, 0) =~= Seq::<EvalPartView>::empty());
    } else {
        lemma_scan_plain(x, 0, 0, n);
        assert(next_part(x, 0, 0) == Some((EvalPartView::Literal(x.subrange(0, n)), n)));
        assert(x.subrange(0, n) =~= x);
        assert(parse_parts(x, n) == Seq::<EvalPartView>::empty());
        let lit = EvalPartView::Literal(x);
        assert(parse_parts(x, 0) =~= seq![lit]);
        assert(seq![lit].drop_first() =~= Seq::<EvalPartView>::empty());
        assert(eval_parts(seq![lit].drop_first(), envs, start) == Seq::<u8>::empty());
        assert(eval_parts(seq![lit], envs, start) == x + Seq::<u8>::empty());
        assert(x + Seq::<u8>::empty() =~= x);
    }
}

/// Text that starts with `$`-free bytes up to a `$` at `n` expands to those
/// bytes followed by the expansion of the parts from `n`.
proof fn lemma_eval_from_dollar(t: Seq<u8>, n: int, envs: Seq<FrameFn>, start: int)
    requires
        0 <= n < t.len(),
        t[n] == 0x24,
        forall|j: int| 0 <= j < n ==> t[j] != 0x24,
        start >= 0,
    ensures
        eval_text(t, envs, start) == t.subrange(0, n) + eval_parts(parse_parts(t, n), envs, start),
{
    if n == 0 {
        assert(t.subrange(0, 0) + eval_parts(parse_parts(t, 0), envs, start) =~= eval_parts(
            parse_parts(t, 0),
            envs,
            start,
        ));
    } else {
        lemma_scan_plain(t, 0, 0, n);
        let lit = EvalPartView::Literal(t.subrange(0, n));
        assert(next_part(t, 0, 0) == Some((lit, n)));
        let parts = parse_parts(t, 0);
        assert(parts == seq![lit] + parse_parts(t, n));
        assert(parts.drop_first() =~= parse_parts(t, n));
        lemma_eval_cons(parts, envs, start);
    }
}

/// `$`-free text from `m` to the end expands to itself.
proof fn lemma_eval_plain_tail(t: Seq<u8>, m: int, envs: Seq<FrameFn>, start: int)
    requires
        0 <= m <= t.len(),
        forall|j: int| m <= j < t.len() ==> t[j] != 0x24,
        start >= 0,
    ensures
        eval_parts(parse_parts(t, m), envs, start) == t.subrange(m, t.len() as int),
{
    let len = t.len() as int;
    if m == len {
        assert(next_part(t, m, m) is None);
        assert(parse_parts(t, m) =~= Seq::<EvalPartView>::empty());
        assert(t.subrange(m, len) =~= Seq::<u8>::empty());
    } else {
        lemma_scan_plain(t, m, m, len);
        let lit = EvalPartView::Literal(t.subrange(m, len));
        assert(next_part(t, m, m) == Some((lit, len)));
        assert(next_part(t, len, len) is None);
        assert(parse_parts(t, len) =~= Seq::<EvalPartView>::empty());
        let parts = parse_parts(t, m);
        assert(parts =~= seq![lit]);
        assert(parts.drop_first() =~= Seq::<EvalPartView>::empty());
        lemma_eval_cons(parts, envs, start);
        assert(t.subrange(m, len) + Seq::<u8>::empty() =~= t.subrange(m, len));
    }
}

/// A variable name runs over the name bytes up to the first byte that
/// cannot be part of one.
proof fn lemma_var_name_end_at(t: Seq<u8>, i: int, k: int)
    requires
        0 <= i <= k <= t.len(),
        forall|j: int| i <= j < k ==> is_simple_var_char(#[trigger] t[j]),
        k == t.len() || !is_simple_var_char(t[k]),
    ensures
        var_name_end(t, i) == k,
    decreases k - i,
{
    if i < k {
        lemma_var_name_end_at(t, i + 1, k);
    }
}

/// `$name` is a reference to the variable `name`: text without other `$`
/// around `$name`, where what follows cannot continue the name, expands to
/// that text with the reference replaced by the variable's value.
pub proof fn law_simple_var_ref(x: Seq<u8>, name: Seq<u8>, y: Seq<u8>, envs: Seq<FrameFn>, start: int)
    requires
        no_dollar(x),
        no_dollar(y),
        name.len() > 0,
        forall|k: int| 0 <= k < name.len() ==> is_simple_var_char(#[trigger] name[k]),
        y.len() == 0 || !is_simple_var_char(y[0]),
        start >= 0,
    ensures
        eval_text(x + seq![0x24u8] + name + y, envs, start) == x + eval_var(name, envs, start) + y,
{
    let t = x + seq![0x24u8] + name + y;
    let n = x.len() as int;
    let m = n + 1 + name.len();
    let len = t.len() as int;
    assert forall|j: int| 0 <= j < n implies t[j] != 0x24 by {
        assert(t[j] == x[j]);
    }
    assert(t[n] == 0x24);
    lemma_eval_from_dollar(t, n, envs, start);
    assert(t.subrange(0, n) =~= x);
    assert forall|j: int| n + 1 <= j < m implies is_simple_var_char(#[trigger] t[j]) by {
        assert(t[j] == name[j - n - 1]);
    }
    if m < len {
        assert(t[m] == y[0]);
    }
    lemma_var_name_end_at(t, n + 1, m);
    let c = t[n + 1];
    assert(c == name[0]);
    assert(is_simple_var_char(c));
    assert(t.subrange(n + 1, m) =~= name);
    let part = EvalPartView::VarRef(name);
    assert(next_part(t, n, n) == Some((part, m)));
    let parts = parse_parts(t, n);
    assert(parts == seq![part] + parse_parts(t, m));
    assert(parts.drop_first() =~= parse_parts(t, m));
    lemma_eval_cons(parts, envs, start);
    assert forall|j: int| m <= j < len implies t[j] != 0x24 by {
        assert(t[j] == y[j - m]);
    }
    lemma_eval_plain_tail(t, m, envs, start);
    assert(t.subrange(m, len) =~= y);
    assert(x + (eval_var(name, envs, start) + y) =~= x + eval_var(name, envs, start) + y);
}

/// `${name}` is a reference to the variable `name`, which may hold any byte
/// but `}`: text without other `$` around it expands to that text with the
/// reference replaced by the variable's value.
pub proof fn law_braced_var_ref(x: Seq<u8>, name: Seq<u8>, y: Seq<u8>, envs: Seq<FrameFn>, start: int)
    requires
        no_dollar(x),
        no_dollar(y),
        forall|k: int| 0 <= k < name.len() ==> #[trigger] name[k] != 0x7d,
        start >= 0,
    ensures
        eval_text(x + seq![0x24u8, 0x7bu8] + name + seq![0x7du8] + y, envs, start) == x + eval_var(
            name,
            envs,
            start,
        ) + y,
{
    let t = x + seq![0x24u8, 0x7bu8] + name + seq![0x7du8] + y;
    let n = x.len() as int;
    let m = n + 2 + name.len();
    let len = t.len() as int;
    assert forall|j: int| 0 <= j < n implies t[j] != 0x24 by {
        assert(t[j] == x[j]);
    }
    assert(t[n] == 0x24);
    lemma_eval_from_dollar(t, n, envs, start);
    assert(t.subrange(0, n) =~= x);
    assert(t[n + 1] == 0x7b);
    assert(t[m] == 0x7d);
    assert forall|j: int| n + 2 <= j < m implies t[j] != 0x7d by {
        assert(t[j] == name[j - n - 2]);
    }
    lemma_brace_end_at(t, n + 2, m);
    assert(t.subrange(n + 2, m) =~= name);
    let part = EvalPartView::VarRef(name);
    assert(next_part(t, n, n) == Some((part, m + 1)));
    let parts = parse_parts(t, n);
    assert(parts == seq![part] + parse_parts(t, m + 1));
    assert(parts.drop_first() =~= parse_parts(t, m + 1));
    lemma_eval_cons(parts, envs, start);
    assert forall|j: int| m + 1 <= j < len implies t[j] != 0x24 by {
        assert(t[j] == y[j - m - 1]);
    }
    lemma_eval_plain_tail(t, m + 1, envs, start);
    assert(t.subrange(m + 1, len) =~= y);
    assert(x + (eval_var(name, envs, start) + y) =~= x + eval_var(name, envs, start) + y);
}

/// The first `}` from `i` is at `k`.
proof fn lemma_brace_end_at(t: Seq<u8>, i: int, k: int)
    requires
        0 <= i <= k < t.len(),
        forall|j: int| i <= j < k ==> #[trigger] t[j] != 0x7d,
        t[k] == 0x7d,
    ensures
        brace_end(t, i) == k,
    decreases k - i,
{
    if i < k {
        lemma_brace_end_at(t, i + 1, k);
    }
}

/// `$` at the end of a line continues it: the newline and the spaces that
/// indent the next line are dropped.
pub proof fn law_line_continuation(x: Seq<u8>, spaces: nat, y: Seq<u8>, envs: Seq<FrameFn>, start: int)
    requires
        no_dollar(x),
        no_dollar(y),
        y.len() == 0 || y[0] != 0x20,
        start >= 0,
    ensures
        eval_text(x + seq![0x24u8, 0x0au8] + Seq::new(spaces, |i: int| 0x20u8) + y, envs, start)
            == x + y,
{
    let sp = Seq::new(spaces, |i: int| 0x20u8);
    let t = x + seq![0x24u8, 0x0au8] + sp + y;
    let n = x.len() as int;
    let k = n + 2 + spaces;
    let len = t.len() as int;
    assert forall|j: int| 0 <= j < n implies t[j] != 0x24 by {
        assert(t[j] == x[j]);
    }
    assert(t[n] == 0x24);
    lemma_eval_from_dollar(t, n, envs, start);
    assert(t.subrange(0, n) =~= x);
    assert(t[n + 1] == 0x0a);
    assert forall|j: int| n + 2 <= j < k implies #[trigger] t[j] == 0x20 by {
        assert(t[j] == sp[j - n - 2]);
    }
    if k < len {
        assert(t[k] == y[0]);
    }
    lemma_text_spaces_end_at(t, n + 2, k);
    assert(parse_parts(t, n) == parse_parts(t, k)) by {
        lemma_next_part(t, k, k);
    }
    assert forall|j: int| k <= j < len implies t[j] != 0x24 by {
        assert(t[j] == y[j - k]);
    }
    lemma_eval_plain_tail(t, k, envs, start);
    assert(t.subrange(k, len) =~= y);
}

/// The spaces from `i` end at `k`.
proof fn lemma_text_spaces_end_at(t: Seq<u8>, i: int, k: int)
    requires
        0 <= i <= k <= t.len(),
        forall|j: int| i <= j < k ==> #[trigger] t[j] == 0x20,
        k == t.len() || t[k] != 0x20,
    ensures
        text_spaces_end(t, i) == k,
    decreases k - i,
{
    if i < k {
        lemma_text_spaces_end_at(t, i + 1, k);
    }
}

/// A variable takes its value from the earliest frame, from `start` on,
/// that binds it; a value that is itself an eval string is expanded in the
/// frames after that one; a variable that no frame binds is empty.
pub proof fn law_var_lookup(name: Seq<u8>, envs: Seq<FrameFn>, start: int, j: int)
    requires
        0 <= start <= j <= envs.len(),
        forall|i: int| start <= i < j ==> (#[trigger] envs[i])(name) is None,
    ensures
        j == envs.len() ==> eval_var(name, envs, start) == Seq::<u8>::empty(),
        j < envs.len() ==> match (envs[j])(name) {
            Some(VarValueView::Literal(s)) => eval_var(name, envs, start) == s,
            Some(VarValueView::Unevaluated(raw)) => eval_var(name, envs, start) == eval_text(
                raw,
                envs,
                j + 1,
            ),
            None => true,
        },
{
    lemma_lookup_skips(name, envs, start, j);
}

/// Frames that do not bind the name are passed over.
proof fn lemma_lookup_skips(name: Seq<u8>, envs: Seq<FrameFn>, i: int, j: int)
    requires
        0 <= i <= j <= envs.len(),
        forall|k: int| i <= k < j ==> (#[trigger] envs[k])(name) is None,
    ensures
        lookup(envs, name, i) == lookup(envs, name, j),
    decreases j - i,
{
    if i < j {
        assert((envs[i])(name) is None);
        lemma_lookup_skips(name, envs, i + 1, j);
    }
}

} // verus!
