//! Path canonicalization.
//!
//! Paths are handled as bytes: only the ASCII bytes `/`, `\` and `.` carry
//! meaning, every other byte is copied through unchanged.
use vstd::prelude::*;

verus! {

/// `/` and `\` both separate path components.
pub open spec fn is_sep(b: u8) -> bool {
    b == 0x2f || b == 0x5c
}

/// Index just past the component that starts at `i`: one past the first
/// separator at or after `i`, or the end of the path.
pub open spec fn component_end(p: Seq<u8>, i: int) -> int
    decreases p.len() - i,
{
    if i >= p.len() {
        p.len() as int
    } else if is_sep(p[i]) {
        i + 1
    } else {
        component_end(p, i + 1)
    }
}

/// A `..` component starts at `i`.
pub open spec fn is_parent_at(p: Seq<u8>, i: int) -> bool {
    &&& i + 1 < p.len()
    &&& p[i] == 0x2e
    &&& p[i + 1] == 0x2e
    &&& (i + 2 == p.len() || is_sep(p[i + 2]))
}

pub proof fn lemma_component_end(p: Seq<u8>, i: int)
    requires
        0 <= i < p.len(),
    ensures
        i < component_end(p, i) <= p.len(),
        forall|k: int| i <= k < component_end(p, i) - 1 ==> !is_sep(#[trigger] p[k]),
        component_end(p, i) < p.len() ==> is_sep(p[component_end(p, i) - 1]),
        component_end(p, i) == p.len() ==> (is_sep(p[p.len() - 1]) || forall|k: int|
            i <= k < p.len() ==> !is_sep(#[trigger] p[k])),
    decreases p.len() - i,
{
    if !is_sep(p[i]) {
        if i + 1 < p.len() {
            lemma_component_end(p, i + 1);
        } else {
            assert(component_end(p, i + 1) == p.len());
        }
    }
}

/// Canonicalization of the rest of `p` from `src`, given the output `out`
/// produced so far and the output offsets `stack` at which each component
/// that a later `..` may remove begins.
///
/// Separators are skipped; `./` is dropped; a trailing `.` ends the path;
/// `..` removes the last removable component, or is kept (with the
/// separator that follows it) when there is none; any other component is
/// copied together with the separator that ends it.
pub open spec fn canon_from(p: Seq<u8>, src: int, out: Seq<u8>, stack: Seq<usize>) -> Seq<u8>
    decreases p.len() - src,
{
    if src >= p.len() || src < 0 {
        out
    } else if is_sep(p[src]) {
        canon_from(p, src + 1, out, stack)
    } else if p[src] == 0x2e && src + 1 == p.len() {
        out
    } else if p[src] == 0x2e && is_sep(p[src + 1]) {
        canon_from(p, src + 2, out, stack)
    } else if is_parent_at(p, src) {
        if stack.len() > 0 {
            canon_from(p, parent_next(p, src), out.subrange(0, stack.last() as int), stack.drop_last())
        } else if src + 2 == p.len() {
            canon_from(p, p.len() as int, out + seq![0x2eu8, 0x2eu8], stack)
        } else {
            canon_from(p, src + 3, out + seq![0x2eu8, 0x2eu8, p[src + 2]], stack)
        }
    } else {
        proof {
            lemma_component_end(p, src);
        }
        let e = component_end(p, src);
        canon_from(p, e, out + p.subrange(src, e), stack.push(out.len() as usize))
    }
}

/// An ordinary path component: not empty, without separators, and neither
/// `.` nor `..`.
pub open spec fn ordinary(c: Seq<u8>) -> bool {
    &&& c.len() > 0
    &&& forall|k: int| 0 <= k < c.len() ==> !is_sep(#[trigger] c[k])
    &&& c != seq![0x2eu8]
    &&& c != seq![0x2eu8, 0x2eu8]
}

/// An ordinary component `c` at `src` of `p`, ended by a separator or the
/// end of the path, is copied to the output with what ends it, and a later
/// `..` may remove it.
proof fn lemma_canon_component(p: Seq<u8>, src: int, c: Seq<u8>, out: Seq<u8>, stack: Seq<usize>)
    requires
        0 <= src,
        src + c.len() <= p.len(),
        p.subrange(src, src + c.len()) == c,
        ordinary(c),
        src + c.len() == p.len() || is_sep(p[src + c.len()]),
    ensures
        ({
            let e = if src + c.len() < p.len() {
                src + c.len() + 1
            } else {
                p.len() as int
            };
            canon_from(p, src, out, stack) == canon_from(p, e, out + p.subrange(src, e), stack.push(out.len() as usize))
        }),
{
    let n = c.len() as int;
    assert(p[src] == c[0]);
    assert(!is_sep(p[src]));
    if n == 1 {
        if p[src] == 0x2e {
            assert(c =~= seq![0x2eu8]);
        }
    } else {
        assert(p[src + 1] == c[1]);
        assert(!is_sep(p[src + 1]));
        if n == 2 && p[src] == 0x2e && p[src + 1] == 0x2e {
            assert(c =~= seq![0x2eu8, 0x2eu8]);
        }
        if n > 2 {
            assert(p[src + 2] == c[2]);
        }
    }
    assert(!is_parent_at(p, src));
    let e = if src + n < p.len() {
        src + n + 1
    } else {
        p.len() as int
    };
    assert forall|j: int| src <= j < e - 1 implies !is_sep(#[trigger] p[j]) by {
        assert(p[j] == c[j - src]);
    }
    if src + n < p.len() {
        lemma_component_end_at(p, src, e);
    } else {
        assert(!is_sep(p[e - 1])) by {
            assert(p[e - 1] == c[n - 1]);
        }
        lemma_component_end_at(p, src, e);
    }
}

/// A `..` removes exactly the one component before it: for ordinary
/// components `x`, `y` and `z`, `x/y/../z` is canonically `x/z`, as `x/z`
/// itself is.
pub proof fn law_parent_removes_one(x: Seq<u8>, y: Seq<u8>, z: Seq<u8>)
    requires
        ordinary(x),
        ordinary(y),
        ordinary(z),
        x.len() + y.len() + z.len() + 6 <= usize::MAX,
    ensures
        spec_canon_path(x + seq![0x2fu8] + y + seq![0x2fu8, 0x2eu8, 0x2eu8, 0x2fu8] + z) == x + seq![0x2fu8] + z,
        spec_canon_path(x + seq![0x2fu8] + z) == x + seq![0x2fu8] + z,
{
    let p = x + seq![0x2fu8] + y + seq![0x2fu8, 0x2eu8, 0x2eu8, 0x2fu8] + z;
    let lx = x.len() as int;
    let ly = y.len() as int;
    let lz = z.len() as int;
    let a = lx + ly + 2;
    let len = p.len() as int;
    assert(len == a + 3 + lz);
    assert(p[0] == x[0]);
    assert(!is_sep(p[0]));
    assert(p.subrange(0, lx) =~= x);
    assert(p[lx] == 0x2f);
    lemma_canon_component(p, 0, x, seq![], seq![]);
    let o1 = p.subrange(0, lx + 1);
    assert(o1 =~= x + seq![0x2fu8]);
    assert(Seq::<u8>::empty() + o1 =~= o1);
    assert(p.subrange(lx + 1, lx + 1 + ly) =~= y);
    assert(p[lx + 1 + ly] == 0x2f);
    lemma_canon_component(p, lx + 1, y, o1, seq![0usize]);
    let o2 = o1 + p.subrange(lx + 1, a);
    let s2 = seq![0usize].push(o1.len() as usize);
    assert(p[a] == 0x2e && p[a + 1] == 0x2e && p[a + 2] == 0x2f);
    assert(!is_sep(p[a]));
    assert(is_parent_at(p, a));
    assert(s2.last() == lx + 1);
    assert(o2.subrange(0, lx + 1) =~= o1);
    assert(s2.drop_last() =~= seq![0usize]);
    assert(parent_next(p, a) == a + 3);
    assert(canon_from(p, a, o2, s2) == canon_from(p, a + 3, o1, seq![0usize]));
    assert(p.subrange(a + 3, len) =~= z);
    lemma_canon_component(p, a + 3, z, o1, seq![0usize]);
    let o3 = o1 + p.subrange(a + 3, len);
    assert(o3 =~= x + seq![0x2fu8] + z);
    assert(canon_from(p, 0, seq![], seq![]) == o3);
    // And `x/z` itself.
    let q = x + seq![0x2fu8] + z;
    assert(q[0] == x[0]);
    assert(q.subrange(0, lx) =~= x);
    assert(q[lx] == 0x2f);
    lemma_canon_component(q, 0, x, seq![], seq![]);
    let r1 = q.subrange(0, lx + 1);
    assert(Seq::<u8>::empty() + r1 =~= r1);
    assert(q.subrange(lx + 1, q.len() as int) =~= z);
    lemma_canon_component(q, lx + 1, z, r1, seq![0usize]);
    assert(r1 + q.subrange(lx + 1, q.len() as int) =~= q);
}

/// `.` components and empty components are dropped: for ordinary
/// components `x` and `z`, `x/./z` and `x//z` are canonically `x/z`.
pub proof fn law_dot_and_empty_dropped(x: Seq<u8>, z: Seq<u8>)
    requires
        ordinary(x),
        ordinary(z),
        x.len() + z.len() + 3 <= usize::MAX,
    ensures
        spec_canon_path(x + seq![0x2fu8, 0x2eu8, 0x2fu8] + z) == x + seq![0x2fu8] + z,
        spec_canon_path(x + seq![0x2fu8, 0x2fu8] + z) == x + seq![0x2fu8] + z,
{
    let lx = x.len() as int;
    let lz = z.len() as int;
    // `x/./z`
    let p = x + seq![0x2fu8, 0x2eu8, 0x2fu8] + z;
    let len = p.len() as int;
    assert(p[0] == x[0]);
    assert(!is_sep(p[0]));
    assert(p.subrange(0, lx) =~= x);
    assert(p[lx] == 0x2f);
    lemma_canon_component(p, 0, x, seq![], seq![]);
    let o1 = p.subrange(0, lx + 1);
    assert(o1 =~= x + seq![0x2fu8]);
    assert(Seq::<u8>::empty() + o1 =~= o1);
    assert(p[lx + 1] == 0x2e && p[lx + 2] == 0x2f);
    assert(canon_from(p, lx + 1, o1, seq![0usize]) == canon_from(p, lx + 3, o1, seq![0usize]));
    assert(p.subrange(lx + 3, len) =~= z);
    lemma_canon_component(p, lx + 3, z, o1, seq![0usize]);
    assert(o1 + p.subrange(lx + 3, len) =~= x + seq![0x2fu8] + z);
    // `x//z`
    let q = x + seq![0x2fu8, 0x2fu8] + z;
    let lq = q.len() as int;
    assert(q[0] == x[0]);
    assert(!is_sep(q[0]));
    assert(q.subrange(0, lx) =~= x);
    assert(q[lx] == 0x2f);
    lemma_canon_component(q, 0, x, seq![], seq![]);
    let r1 = q.subrange(0, lx + 1);
    assert(r1 =~= x + seq![0x2fu8]);
    assert(Seq::<u8>::empty() + r1 =~= r1);
    assert(q[lx + 1] == 0x2f);
    assert(canon_from(q, lx + 1, r1, seq![0usize]) == canon_from(q, lx + 2, r1, seq![0usize]));
    assert(q.subrange(lx + 2, lq) =~= z);
    lemma_canon_component(q, lx + 2, z, r1, seq![0usize]);
    assert(r1 + q.subrange(lx + 2, lq) =~= x + seq![0x2fu8] + z);
}

/// A `..` with nothing before it to remove is kept: for an ordinary
/// component `z`, `../z` is canonically itself.
pub proof fn law_leading_parent_kept(z: Seq<u8>)
    requires
        ordinary(z),
        z.len() + 3 <= usize::MAX,
    ensures
        spec_canon_path(seq![0x2eu8, 0x2eu8, 0x2fu8] + z) == seq![0x2eu8, 0x2eu8, 0x2fu8] + z,
{
    let p = seq![0x2eu8, 0x2eu8, 0x2fu8] + z;
    let len = p.len() as int;
    assert(p[0] == 0x2e && p[1] == 0x2e && p[2] == 0x2f);
    assert(!is_sep(p[0]));
    assert(is_parent_at(p, 0));
    let o1 = seq![0x2eu8, 0x2eu8, p[2]];
    assert(canon_from(p, 0, seq![], seq![]) == canon_from(p, 3, Seq::<u8>::empty() + o1, seq![]));
    assert(Seq::<u8>::empty() + o1 =~= o1);
    assert(p.subrange(3, len) =~= z);
    lemma_canon_component(p, 3, z, o1, seq![]);
    assert(o1 + p.subrange(3, len) =~= p);
}

/// A byte with `/` written as `\`.
pub open spec fn to_backslash(b: u8) -> u8 {
    if b == 0x2f {
        0x5c
    } else {
        b
    }
}

/// A path with every `/` written as `\`.
pub open spec fn backslashed(p: Seq<u8>) -> Seq<u8> {
    p.map_values(|b: u8| to_backslash(b))
}

proof fn lemma_component_end_backslashed(p: Seq<u8>, i: int)
    requires
        0 <= i,
    ensures
        component_end(backslashed(p), i) == component_end(p, i),
    decreases p.len() - i,
{
    let q = backslashed(p);
    assert(q.len() == p.len());
    if 0 <= i < p.len() {
        assert(q[i] == to_backslash(p[i]));
        if !is_sep(p[i]) {
            lemma_component_end_backslashed(p, i + 1);
        }
    }
}

proof fn lemma_canon_from_backslashed(p: Seq<u8>, src: int, out: Seq<u8>, stack: Seq<usize>)
    requires
        0 <= src <= p.len(),
        p.len() <= usize::MAX,
        out.len() <= src,
        stack_ok(stack, out.len() as int),
    ensures
        canon_from(backslashed(p), src, backslashed(out), stack) == backslashed(canon_from(p, src, out, stack)),
    decreases p.len() - src,
{
    let q = backslashed(p);
    let bo = backslashed(out);
    if src >= p.len() || src < 0 {
    } else {
        assert(q[src] == to_backslash(p[src]));
        if src + 1 < p.len() {
            assert(q[src + 1] == to_backslash(p[src + 1]));
        }
        if src + 2 < p.len() {
            assert(q[src + 2] == to_backslash(p[src + 2]));
        }
        assert(is_parent_at(q, src) == is_parent_at(p, src));
        if is_sep(p[src]) {
            lemma_canon_from_backslashed(p, src + 1, out, stack);
        } else if p[src] == 0x2e && src + 1 == p.len() {
        } else if p[src] == 0x2e && is_sep(p[src + 1]) {
            lemma_canon_from_backslashed(p, src + 2, out, stack);
        } else if is_parent_at(p, src) {
            if stack.len() > 0 {
                let k = stack.last() as int;
                assert(backslashed(out.subrange(0, k)) =~= bo.subrange(0, k));
                assert(stack_ok(stack.drop_last(), k));
                lemma_canon_from_backslashed(p, parent_next(p, src), out.subrange(0, k), stack.drop_last());
            } else if src + 2 == p.len() {
                assert(backslashed(out + seq![0x2eu8, 0x2eu8]) =~= bo + seq![0x2eu8, 0x2eu8]);
                lemma_canon_from_backslashed(p, p.len() as int, out + seq![0x2eu8, 0x2eu8], stack);
            } else {
                assert(backslashed(out + seq![0x2eu8, 0x2eu8, p[src + 2]]) =~= bo + seq![0x2eu8, 0x2eu8, q[src + 2]]);
                lemma_canon_from_backslashed(p, src + 3, out + seq![0x2eu8, 0x2eu8, p[src + 2]], stack);
            }
        } else {
            lemma_component_end(p, src);
            lemma_component_end_backslashed(p, src);
            let e = component_end(p, src);
            assert(backslashed(out + p.subrange(src, e)) =~= bo + q.subrange(src, e));
            assert(stack_ok(stack.push(out.len() as usize), out.len() + e - src));
            lemma_canon_from_backslashed(p, e, out + p.subrange(src, e), stack.push(out.len() as usize));
        }
    }
}

/// `\` separates components exactly as `/` does: writing every `/` of a
/// path as `\` gives the canonical form with every `/` written as `\`.
pub proof fn law_canon_backslash(p: Seq<u8>)
    requires
        p.len() <= usize::MAX,
    ensures
        spec_canon_path(backslashed(p)) == backslashed(spec_canon_path(p)),
{
    let q = backslashed(p);
    if p.len() > 0 && is_sep(p[0]) {
        assert(q[0] == to_backslash(p[0]));
        assert(backslashed(seq![p[0]]) =~= seq![q[0]]);
        lemma_canon_from_backslashed(p, 1, seq![p[0]], seq![]);
    } else {
        if p.len() > 0 {
            assert(q[0] == to_backslash(p[0]));
        }
        assert(backslashed(Seq::<u8>::empty()) =~= Seq::<u8>::empty());
        lemma_canon_from_backslashed(p, 0, seq![], seq![]);
    }
    assert(backslashed(seq![0x2eu8]) =~= seq![0x2eu8]);
}

/// Where scanning resumes after a `..` component at `src`.
pub open spec fn parent_next(p: Seq<u8>, src: int) -> int {
    if src + 2 == p.len() {
        p.len() as int
    } else {
        src + 3
    }
}

/// The lexically canonical form of a path: a leading separator is kept, the
/// rest is simplified by `canon_from`, and an empty result becomes `.`.
pub open spec fn spec_canon_path(p: Seq<u8>) -> Seq<u8> {
    let r = if p.len() > 0 && is_sep(p[0]) {
        canon_from(p, 1, seq![p[0]], seq![])
    } else {
        canon_from(p, 0, seq![], seq![])
    };
    if r.len() == 0 {
        seq![0x2eu8]
    } else {
        r
    }
}

/// Stack offsets are ordered and within the output.
pub open spec fn stack_ok(stack: Seq<usize>, out_len: int) -> bool {
    &&& forall|i: int| 0 <= i < stack.len() ==> #[trigger] stack[i] <= out_len
    &&& forall|i: int, j: int| 0 <= i < j < stack.len() ==> stack[i] <= stack[j]
}

/// Canonicalizing never makes the output grow faster than the input is
/// consumed.
pub proof fn lemma_canon_from_len(p: Seq<u8>, src: int, out: Seq<u8>, stack: Seq<usize>)
    requires
        0 <= src <= p.len(),
        p.len() <= usize::MAX,
        out.len() <= src,
        stack_ok(stack, out.len() as int),
    ensures
        canon_from(p, src, out, stack).len() <= p.len(),
    decreases p.len() - src,
{
    if src >= p.len() {
    } else if is_sep(p[src]) {
        lemma_canon_from_len(p, src + 1, out, stack);
    } else if p[src] == 0x2e && src + 1 == p.len() {
    } else if p[src] == 0x2e && is_sep(p[src + 1]) {
        lemma_canon_from_len(p, src + 2, out, stack);
    } else if is_parent_at(p, src) {
        if stack.len() > 0 {
            let o2 = out.subrange(0, stack.last() as int);
            let s2 = stack.drop_last();
            assert(stack_ok(s2, o2.len() as int));
            lemma_canon_from_len(p, parent_next(p, src), o2, s2);
        } else if src + 2 == p.len() {
            lemma_canon_from_len(p, p.len() as int, out + seq![0x2eu8, 0x2eu8], stack);
        } else {
            lemma_canon_from_len(p, src + 3, out + seq![0x2eu8, 0x2eu8, p[src + 2]], stack);
        }
    } else {
        lemma_component_end(p, src);
        let e = component_end(p, src);
        let o2 = out + p.subrange(src, e);
        let s2 = stack.push(out.len() as usize);
        assert(stack_ok(s2, o2.len() as int));
        lemma_canon_from_len(p, e, o2, s2);
    }
}

/// A `.` component starts at `i`.
pub open spec fn is_dot_at(p: Seq<u8>, i: int) -> bool {
    &&& 0 <= i < p.len()
    &&& p[i] == 0x2e
    &&& (i + 1 == p.len() || is_sep(p[i + 1]))
}

/// From `i` on, `p` is a canonical path body: no empty and no `.`
/// components; `..` components only first (while `parents` holds), each
/// with the separator that follows it; then ordinary components, each with
/// its separator but for the last.
pub open spec fn canonical_from(p: Seq<u8>, i: int, parents: bool) -> bool
    decreases p.len() - i,
{
    if i < 0 || i >= p.len() {
        true
    } else if is_sep(p[i]) || is_dot_at(p, i) {
        false
    } else if is_parent_at(p, i) {
        parents && canonical_from(p, parent_next(p, i), true)
    } else {
        proof {
            lemma_component_end(p, i);
        }
        canonical_from(p, component_end(p, i), false)
    }
}

/// A path in canonical form: an optional leading separator and a canonical
/// body, which is not empty, or just `.`.
pub open spec fn is_canonical(p: Seq<u8>) -> bool {
    ||| p == seq![0x2eu8]
    ||| p.len() > 0 && is_sep(p[0]) && canonical_from(p, 1, true)
    ||| p.len() > 0 && !is_sep(p[0]) && canonical_from(p, 0, true)
}

proof fn lemma_canon_from_canonical(p: Seq<u8>, i: int, out: Seq<u8>, stack: Seq<usize>, parents: bool)
    requires
        0 <= i <= p.len(),
        canonical_from(p, i, parents),
        parents ==> stack.len() == 0,
    ensures
        canon_from(p, i, out, stack) == out + p.subrange(i, p.len() as int),
    decreases p.len() - i,
{
    if i >= p.len() {
        assert(out + p.subrange(i, p.len() as int) =~= out);
    } else if is_parent_at(p, i) {
        if i + 2 == p.len() {
            assert(canon_from(p, p.len() as int, out + seq![0x2eu8, 0x2eu8], stack) == out + seq![0x2eu8, 0x2eu8]);
            assert(p.subrange(i, p.len() as int) =~= seq![0x2eu8, 0x2eu8]);
        } else {
            lemma_canon_from_canonical(p, i + 3, out + seq![0x2eu8, 0x2eu8, p[i + 2]], stack, true);
            assert(out + seq![0x2eu8, 0x2eu8, p[i + 2]] + p.subrange(i + 3, p.len() as int) =~= out + p.subrange(
                i,
                p.len() as int,
            ));
        }
    } else {
        lemma_component_end(p, i);
        let e = component_end(p, i);
        lemma_canon_from_canonical(p, e, out + p.subrange(i, e), stack.push(out.len() as usize), false);
        assert(out + p.subrange(i, e) + p.subrange(e, p.len() as int) =~= out + p.subrange(i, p.len() as int));
    }
}

/// Canonicalizing a path that is already in canonical form leaves it as it
/// is.
pub proof fn law_canonical_is_fixed(p: Seq<u8>)
    requires
        is_canonical(p),
    ensures
        spec_canon_path(p) == p,
{
    if p == seq![0x2eu8] {
        assert(is_dot_at(p, 0));
        assert(spec_canon_path(p) =~= p);
    } else if is_sep(p[0]) {
        lemma_canon_from_canonical(p, 1, seq![p[0]], seq![], true);
        assert(seq![p[0]] + p.subrange(1, p.len() as int) =~= p);
    } else {
        lemma_canon_from_canonical(p, 0, seq![], seq![], true);
        assert(Seq::<u8>::empty() + p.subrange(0, p.len() as int) =~= p);
    }
}

/// From `i` on, `q` is a run of `..` components, each with its separator.
pub open spec fn parents_from(q: Seq<u8>, i: int) -> bool
    decreases q.len() - i,
{
    if i >= q.len() {
        i == q.len()
    } else {
        &&& 0 <= i
        &&& i + 3 <= q.len()
        &&& q[i] == 0x2e
        &&& q[i + 1] == 0x2e
        &&& is_sep(q[i + 2])
        &&& parents_from(q, i + 3)
    }
}

/// An ordinary component starts at `k` and ends, with its separator, at the
/// end of `q`.
pub open spec fn last_component(q: Seq<u8>, k: int) -> bool {
    &&& 0 <= k < q.len()
    &&& !is_sep(q[k])
    &&& !is_dot_at(q, k)
    &&& !is_parent_at(q, k)
    &&& component_end(q, k) == q.len()
    &&& is_sep(q[q.len() - 1])
}

/// The output of canonicalization so far, with the stack of where its
/// removable components start: after `base` come `..` components, then the
/// components on the stack, each with its separator.
pub open spec fn shape_ok(out: Seq<u8>, stack: Seq<usize>, base: int) -> bool
    decreases stack.len(),
{
    if stack.len() == 0 {
        0 <= base <= out.len() && parents_from(out, base)
    } else {
        let k = stack.last() as int;
        &&& base <= k
        &&& last_component(out, k)
        &&& shape_ok(out.subrange(0, k), stack.drop_last(), base)
    }
}

proof fn lemma_component_end_at(q: Seq<u8>, k: int, m: int)
    requires
        0 <= k < m <= q.len(),
        forall|j: int| k <= j < m - 1 ==> !is_sep(#[trigger] q[j]),
        is_sep(q[m - 1]) || (m == q.len() && !is_sep(q[m - 1])),
    ensures
        component_end(q, k) == m,
    decreases m - k,
{
    if k < m - 1 {
        lemma_component_end_at(q, k + 1, m);
        assert(!is_sep(q[k]));
    } else if !is_sep(q[k]) {
        assert(component_end(q, k + 1) == q.len());
    }
}

proof fn lemma_parents_walk(o: Seq<u8>, b: Seq<u8>, i: int)
    requires
        0 <= i <= o.len(),
        parents_from(o, i),
    ensures
        canonical_from(o + b, i, true) == canonical_from(o + b, o.len() as int, true),
    decreases o.len() - i,
{
    let q = o + b;
    if i < o.len() {
        assert(q[i] == o[i] && q[i + 1] == o[i + 1] && q[i + 2] == o[i + 2]);
        assert(is_parent_at(q, i));
        assert(!is_dot_at(q, i));
        assert(parent_next(q, i) == i + 3);
        lemma_parents_walk(o, b, i + 3);
    }
}

proof fn lemma_shape_walk(out: Seq<u8>, stack: Seq<usize>, base: int, b: Seq<u8>)
    requires
        shape_ok(out, stack, base),
    ensures
        0 <= base <= out.len(),
        canonical_from(out + b, base, true) == canonical_from(out + b, out.len() as int, stack.len() == 0),
    decreases stack.len(),
{
    if stack.len() == 0 {
        lemma_parents_walk(out, b, base);
    } else {
        let k = stack.last() as int;
        let pre = out.subrange(0, k);
        let rest = out.subrange(k, out.len() as int) + b;
        lemma_shape_walk(pre, stack.drop_last(), base, rest);
        let q = out + b;
        assert(pre + rest =~= q);
        lemma_component_end(out, k);
        assert(out.len() >= k + 2);
        assert(q[k] == out[k] && q[k + 1] == out[k + 1]);
        assert(!is_dot_at(q, k));
        assert(!is_parent_at(q, k)) by {
            if k + 2 < out.len() {
                assert(q[k + 2] == out[k + 2]);
            }
        }
        assert forall|j: int| k <= j < out.len() - 1 implies !is_sep(#[trigger] q[j]) by {
            assert(q[j] == out[j]);
        }
        lemma_component_end_at(q, k, out.len() as int);
    }
}

proof fn lemma_parents_push(o: Seq<u8>, i: int, t: Seq<u8>)
    requires
        0 <= i <= o.len(),
        parents_from(o, i),
        t.len() == 3,
        t[0] == 0x2e,
        t[1] == 0x2e,
        is_sep(t[2]),
    ensures
        parents_from(o + t, i),
    decreases o.len() - i,
{
    let q = o + t;
    if i < o.len() {
        lemma_parents_push(o, i + 3, t);
    } else {
        assert(parents_from(q, i + 3));
    }
}

/// The result of canonicalization has canonical form, given a consistent
/// state.
proof fn lemma_canon_from_shape(p: Seq<u8>, src: int, out: Seq<u8>, stack: Seq<usize>, base: int)
    requires
        0 <= src <= p.len(),
        p.len() <= usize::MAX,
        out.len() <= src,
        shape_ok(out, stack, base),
    ensures
        canonical_from(canon_from(p, src, out, stack), base, true),
        canon_from(p, src, out, stack).len() >= base,
        canon_from(p, src, out, stack).subrange(0, base) == out.subrange(0, base),
    decreases p.len() - src,
{
    let r = canon_from(p, src, out, stack);
    lemma_shape_walk(out, stack, base, Seq::empty());
    if src >= p.len() {
        lemma_shape_walk(out, stack, base, Seq::empty());
        assert(out + Seq::<u8>::empty() =~= out);
    } else if is_sep(p[src]) {
        lemma_canon_from_shape(p, src + 1, out, stack, base);
    } else if p[src] == 0x2e && src + 1 == p.len() {
        lemma_shape_walk(out, stack, base, Seq::empty());
        assert(out + Seq::<u8>::empty() =~= out);
    } else if p[src] == 0x2e && is_sep(p[src + 1]) {
        lemma_canon_from_shape(p, src + 2, out, stack, base);
    } else if is_parent_at(p, src) {
        if stack.len() > 0 {
            lemma_canon_from_shape(p, parent_next(p, src), out.subrange(0, stack.last() as int), stack.drop_last(), base);
        } else if src + 2 == p.len() {
            let t = seq![0x2eu8, 0x2eu8];
            lemma_shape_walk(out, stack, base, t);
            let q = out + t;
            assert(canon_from(p, p.len() as int, q, stack) == q);
            assert(q[out.len() as int] == 0x2e && q[out.len() as int + 1] == 0x2e);
            assert(is_parent_at(q, out.len() as int));
            assert(!is_dot_at(q, out.len() as int));
            assert(canonical_from(q, q.len() as int, true));
        } else {
            let t = seq![0x2eu8, 0x2eu8, p[src + 2]];
            lemma_parents_push(out, base, t);
            lemma_canon_from_shape(p, src + 3, out + t, stack, base);
        }
    } else {
        lemma_component_end(p, src);
        let e = component_end(p, src);
        let c = p.subrange(src, e);
        let q = out + c;
        let m = out.len() as int;
        assert forall|j: int| m <= j < q.len() - 1 implies !is_sep(#[trigger] q[j]) by {
            assert(q[j] == p[src + (j - m)]);
        }
        assert(q[m] == p[src]);
        if e - src >= 2 {
            assert(q[m + 1] == p[src + 1]);
        }
        assert(!is_dot_at(q, m));
        assert(!is_parent_at(q, m)) by {
            if m + 2 < q.len() {
                assert(q[m + 2] == p[src + 2]);
            }
            if is_parent_at(q, m) && m + 2 == q.len() {
                assert(e == src + 2);
                if e < p.len() {
                    assert(is_sep(p[e - 1]));
                }
            }
        }
        if is_sep(p[e - 1]) {
            assert(q[q.len() - 1] == p[e - 1]);
            lemma_component_end_at(q, m, q.len() as int);
            let s2 = stack.push(m as usize);
            assert(q.subrange(0, m) =~= out);
            assert(s2.drop_last() =~= stack);
            assert(shape_ok(q, s2, base));
            lemma_canon_from_shape(p, e, q, s2, base);
        } else {
            assert(e == p.len());
            assert(q[q.len() - 1] == p[e - 1]);
            lemma_component_end_at(q, m, q.len() as int);
            lemma_shape_walk(out, stack, base, c);
            assert(canon_from(p, e, q, stack.push(m as usize)) == q);
            assert(canonical_from(q, q.len() as int, false));
        }
    }
}

/// Canonicalizing gives a path in canonical form.
pub proof fn law_canon_is_canonical(p: Seq<u8>)
    requires
        p.len() <= usize::MAX,
    ensures
        is_canonical(spec_canon_path(p)),
{
    if p.len() > 0 && is_sep(p[0]) {
        let o = seq![p[0]];
        assert(parents_from(o, 1));
        lemma_canon_from_shape(p, 1, o, seq![], 1);
        let r = canon_from(p, 1, o, seq![]);
        assert(r[0] == r.subrange(0, 1)[0]);
    } else {
        assert(parents_from(Seq::<u8>::empty(), 0));
        lemma_canon_from_shape(p, 0, seq![], seq![], 0);
    }
}

/// Canonicalizing twice is canonicalizing once: the result of `canon_path`
/// is a fixed point of it, so a name looked up after canonicalization finds
/// the names stored canonical.
pub proof fn law_canon_idempotent(p: Seq<u8>)
    requires
        p.len() <= usize::MAX,
    ensures
        spec_canon_path(spec_canon_path(p)) == spec_canon_path(p),
{
    law_canon_is_canonical(p);
    law_canonical_is_fixed(spec_canon_path(p));
}

/// Index just past the component that starts at `i`.
fn find_component_end(p: &[u8], i: usize) -> (e: usize)
    requires
        i < p@.len(),
    ensures
        e == component_end(p@, i as int),
{
    let mut j = i;
    while j < p.len()
        invariant
            i <= j <= p@.len(),
            component_end(p@, i as int) == component_end(p@, j as int),
        decreases p@.len() - j,
    {
        if p[j] == 0x2fu8 || p[j] == 0x5cu8 {
            return j + 1;
        }
        j = j + 1;
    }
    j
}

/// Lexically canonicalize a path, removing redundant components.
/// Does not access the disk, but only simplifies things like
/// "foo/./bar" => "foo/bar".
/// These paths can show up due to variable expansion in particular.
pub fn canon_path(path: &[u8]) -> (r: Vec<u8>)
    requires
        path@.len() > 0,
    ensures
        r@ == spec_canon_path(path@),
        0 < r@.len() <= path@.len(),
{
    let p = path;
    let end = p.len();
    let mut out: Vec<u8> = Vec::new();
    let mut stack: Vec<usize> = Vec::new();
    let mut src: usize = 0;
    if p[0] == 0x2fu8 || p[0] == 0x5cu8 {
        out.push(p[0]);
        src = 1;
    }
    let ghost init_src = src as int;
    let ghost init_out = out@;
    assert(stack@ =~= seq![]);
    proof {
        lemma_canon_from_len(p@, src as int, out@, seq![]);
    }
    while src < end
        invariant
            end == p@.len(),
            0 <= src <= end,
            out@.len() <= src,
            stack_ok(stack@, out@.len() as int),
            canon_from(p@, src as int, out@, stack@)
                == canon_from(p@, init_src, init_out, seq![]),
        decreases end - src,
    {
        let ghost gstack = stack@;
        assert(out@.len() < usize::MAX);
        let c = p[src];
        if c == 0x2fu8 || c == 0x5cu8 {
            src = src + 1;
            continue;
        }
        if c == 0x2eu8 {
            if src + 1 == end {
                // A trailing `.` is dropped.
                src = end;
                continue;
            }
            let d = p[src + 1];
            if d == 0x2fu8 || d == 0x5cu8 {
                src = src + 2;
                continue;
            }
            if d == 0x2eu8 {
                let peek = src + 2;
                if peek == end || p[peek] == 0x2fu8 || p[peek] == 0x5cu8 {
                    assert(is_parent_at(p@, src as int));
                    let ghost out0 = out@;
                    let ghost stack0 = stack@;
                    match stack.pop() {
                        Some(ofs) => {
                            out.truncate(ofs);
                        },
                        None => {
                            out.push(0x2eu8);
                            out.push(0x2eu8);
                            if peek != end {
                                out.push(p[peek]);
                            }
                        },
                    }
                    let ghost src0 = src as int;
                    if peek == end {
                        src = end;
                    } else {
                        src = src + 3;
                    }
                    assert(src as int == parent_next(p@, src0));
                    proof {
                        if stack0.len() > 0 {
                            assert(out@ =~= out0.subrange(0, stack0.last() as int));
                            assert(stack@ =~= stack0.drop_last());
                        } else if src0 + 2 == p@.len() {
                            assert(out@ =~= out0 + seq![0x2eu8, 0x2eu8]);
                        } else {
                            assert(out@ =~= out0 + seq![0x2eu8, 0x2eu8, p@[src0 + 2]]);
                        }
                    }
                    continue;
                }
            }
        }
        // An ordinary component: remember where it starts, then copy it
        // together with its trailing separator.
        let ghost out_before = out@;
        proof {
            lemma_component_end(p@, src as int);
        }
        stack.push(out.len());
        let e = find_component_end(p, src);
        let mut k = src;
        while k < e
            invariant
                src <= k <= e <= end,
                end == p@.len(),
                out@ == out_before + p@.subrange(src as int, k as int),
            decreases e - k,
        {
            out.push(p[k]);
            assert(out@ =~= out_before + p@.subrange(src as int, k + 1));
            k = k + 1;
        }
        src = e;
    }
    if out.len() == 0 {
        out.push(0x2eu8);
    }
    out
}

/// In-place form of `canon_path`.
pub fn canon_path_fast(path: &mut Vec<u8>)
    requires
        old(path)@.len() > 0,
    ensures
        final(path)@ == spec_canon_path(old(path)@),
{
    let r = canon_path(path.as_slice());
    *path = r;
}

} // verus!
