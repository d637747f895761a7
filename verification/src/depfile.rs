//! Parsing of Makefile syntax as found in `.d` files emitted by C compilers.
use vstd::prelude::*;
use crate::scanner::{ParseResult, Scanner, nul_terminated, spaces_end, expected_msg};
use crate::smallmap::{SmallMap, spec_insert, map_entry_values};
use crate::text::bytes_of;
use vstd::string::StringSliceAdditionalSpecFns;

verus! {

/// A depfile parse error: where it occurred and its message.
pub type DepError = (int, Seq<u8>);

/// Where skipping spaces and backslashed newlines from `i` stops: `Ok` with
/// the position of the next other byte, or `Err` with the error at the position just past
/// a backslash that does not escape a newline.
pub open spec fn dep_skip(buf: Seq<u8>, i: int) -> Result<int, DepError>
    decreases buf.len() - i,
{
    if i < 0 || i + 1 >= buf.len() {
        Ok(i)
    } else if buf[i] == 0x20 {
        dep_skip(buf, i + 1)
    } else if buf[i] == 0x5c {
        if buf[i + 1] == 0x0a {
            dep_skip(buf, i + 2)
        } else {
            Err((i + 2, "invalid backslash escape".spec_bytes()))
        }
    } else {
        Ok(i)
    }
}

/// End of the path that starts at `i`: the first nul, space or newline, or
/// the backslash of a backslashed newline.
pub open spec fn path_end(buf: Seq<u8>, i: int) -> int
    decreases buf.len() - i,
{
    if i < 0 || i + 1 >= buf.len() {
        i
    } else if buf[i] == 0 || buf[i] == 0x20 || buf[i] == 0x0a {
        i
    } else if buf[i] == 0x5c && buf[i + 1] == 0x0a {
        i
    } else {
        path_end(buf, i + 1)
    }
}

/// One path read from `i`: after skipping, the path's bounds (none when it
/// is empty) and the position after it.
pub open spec fn spec_read_path(buf: Seq<u8>, i: int) -> Result<(Option<(int, int)>, int), DepError> {
    match dep_skip(buf, i) {
        Err(e) => Err(e),
        Ok(s) => {
            let e = path_end(buf, s);
            if e == s {
                Ok((None, s))
            } else {
                Ok((Some((s, e)), e))
            }
        },
    }
}

/// First position at or after `i` that is neither a space nor a newline.
pub open spec fn blank_end(buf: Seq<u8>, i: int) -> int
    decreases buf.len() - i,
{
    if 0 <= i < buf.len() && (buf[i] == 0x20 || buf[i] == 0x0a) {
        blank_end(buf, i + 1)
    } else {
        i
    }
}

/// The dependency paths read from `i` up to the first empty path: the paths
/// and the position after them, or the error.
pub open spec fn spec_read_deps(buf: Seq<u8>, i: int) -> Result<(Seq<Seq<u8>>, int), DepError>
    decreases buf.len() - i,
{
    match spec_read_path(buf, i) {
        Err(e) => Err(e),
        Ok((None, p)) => Ok((Seq::empty(), p)),
        Ok((Some((s, e)), p)) => {
            if i < p && p <= buf.len() {
                match spec_read_deps(buf, p) {
                    Err(x) => Err(x),
                    Ok((rest, q)) => Ok((seq![buf.subrange(s, e)] + rest, q)),
                }
            } else {
                Err((p, Seq::empty()))
            }
        },
    }
}

/// The entries of a parsed depfile: each target with its dependencies.
pub type DepEntries = Seq<(Seq<u8>, Seq<Seq<u8>>)>;

/// A whole depfile from position `i`: each target with its dependencies, in
/// the order first seen, or the error.  A repeated target keeps
/// the dependencies of its last occurrence.
pub open spec fn spec_parse_from(buf: Seq<u8>, i: int, acc: DepEntries) -> Result<DepEntries, DepError>
    decreases buf.len() - i,
{
    let b = blank_end(buf, i);
    match spec_read_path(buf, b) {
        Err(e) => Err(e),
        Ok((None, p)) => if 0 <= p < buf.len() && buf[p] == 0 {
            Ok(acc)
        } else {
            Err((p, expected_msg(0, buf[p])))
        },
        Ok((Some((s, e)), p)) => {
            let after = spaces_end(buf, p);
            let colon = buf[e - 1] == 0x3a;
            let t = if colon {
                buf.subrange(s, e - 1)
            } else {
                buf.subrange(s, e)
            };
            if !colon && !(0 <= after < buf.len() && buf[after] == 0x3a) {
                Err((after, expected_msg(0x3a, buf[after])))
            } else {
                let ds = if colon {
                    after
                } else {
                    after + 1
                };
                match spec_read_deps(buf, ds) {
                    Err(x) => Err(x),
                    Ok((deps, q)) => if i < q <= buf.len() {
                        spec_parse_from(buf, q, spec_insert(acc, t, deps))
                    } else {
                        Err((q, Seq::empty()))
                    },
                }
            }
        },
    }
}

/// The parse of a whole depfile buffer from position `i`.
pub open spec fn spec_parse(buf: Seq<u8>, i: int) -> Result<DepEntries, DepError> {
    spec_parse_from(buf, i, Seq::empty())
}

/// The parsed entries of a depfile map, by value.
pub open spec fn deps_view(m: SmallMap<Vec<u8>, Vec<Vec<u8>>>) -> DepEntries {
    map_entry_values(m.kv(), |v: Vec<Vec<u8>>| paths_view(v@))
}

/// A list of paths, each as its bytes.
pub open spec fn paths_view(v: Seq<Vec<u8>>) -> Seq<Seq<u8>> {
    v.map_values(|x: Vec<u8>| x@)
}

proof fn lemma_dep_skip_bounds(buf: Seq<u8>, i: int)
    requires
        nul_terminated(buf),
        0 <= i < buf.len(),
    ensures
        dep_skip(buf, i) matches Ok(p) ==> i <= p < buf.len(),
        dep_skip(buf, i) matches Err((p, _)) ==> i < p <= buf.len(),
    decreases buf.len() - i,
{
    if i + 1 < buf.len() {
        if buf[i] == 0x20 {
            lemma_dep_skip_bounds(buf, i + 1);
        } else if buf[i] == 0x5c && buf[i + 1] == 0x0a {
            lemma_dep_skip_bounds(buf, i + 2);
        }
    }
}

proof fn lemma_path_end_bounds(buf: Seq<u8>, i: int)
    requires
        nul_terminated(buf),
        0 <= i < buf.len(),
    ensures
        i <= path_end(buf, i) < buf.len(),
    decreases buf.len() - i,
{
    if i + 1 < buf.len() && !(buf[i] == 0 || buf[i] == 0x20 || buf[i] == 0x0a) && !(buf[i] == 0x5c
        && buf[i + 1] == 0x0a) {
        lemma_path_end_bounds(buf, i + 1);
    }
}

proof fn lemma_read_path_bounds(buf: Seq<u8>, i: int)
    requires
        nul_terminated(buf),
        0 <= i < buf.len(),
    ensures
        spec_read_path(buf, i) matches Ok((Some((s, e)), p)) ==> i <= s < e && e == p && p < buf.len(),
        spec_read_path(buf, i) matches Ok((None, p)) ==> i <= p < buf.len(),
        spec_read_path(buf, i) matches Err((p, _)) ==> i < p <= buf.len(),
{
    lemma_dep_skip_bounds(buf, i);
    if let Ok(s) = dep_skip(buf, i) {
        lemma_path_end_bounds(buf, s);
    }
}

proof fn lemma_read_deps_bounds(buf: Seq<u8>, i: int)
    requires
        nul_terminated(buf),
        0 <= i < buf.len(),
    ensures
        spec_read_deps(buf, i) matches Ok((d, q)) ==> i <= q < buf.len(),
    decreases buf.len() - i,
{
    lemma_read_path_bounds(buf, i);
    if let Ok((Some((s, e)), p)) = spec_read_path(buf, i) {
        lemma_read_deps_bounds(buf, p);
    }
}

proof fn lemma_spaces_end_bounds(buf: Seq<u8>, i: int)
    requires
        nul_terminated(buf),
        0 <= i < buf.len(),
    ensures
        i <= spaces_end(buf, i) < buf.len(),
    decreases buf.len() - i,
{
    if buf[i] == 0x20 {
        lemma_spaces_end_bounds(buf, i + 1);
    }
}

/// Skip spaces and backslashed newlines.
fn skip_spaces(scanner: &mut Scanner) -> (r: ParseResult<()>)
    requires
        old(scanner).wf(),
    ensures
        r matches Err(x) ==> x.ofs <= old(scanner).buf@.len(),
        final(scanner).buf == old(scanner).buf,
        final(scanner).chunk_index == old(scanner).chunk_index,
        final(scanner).valid(),
        match dep_skip(old(scanner).buf@, old(scanner).ofs as int) {
            Ok(p) => r is Ok && final(scanner).wf() && final(scanner).ofs == p,
            Err((p, m)) => r matches Err(e) && e.ofs == p && e.msg@ == m,
        },
{
    loop
        invariant
            scanner.wf(),
            scanner.buf == old(scanner).buf,
            scanner.chunk_index == old(scanner).chunk_index,
            dep_skip(scanner.buf@, scanner.ofs as int) == dep_skip(
                old(scanner).buf@,
                old(scanner).ofs as int,
            ),
        decreases scanner.buf@.len() - scanner.ofs,
    {
        let c = scanner.read();
        if c == 0x20u8 {
        } else if c == 0x5cu8 {
            let d = scanner.read();
            if d != 0x0au8 {
                return scanner.parse_error(bytes_of("invalid backslash escape"));
            }
        } else {
            scanner.back();
            return Ok(());
        }
    }
}

/// Read one path from the input scanner.
/// Note: treats colon as a valid character in a path because of Windows-style
/// paths, but this means that the inital `output: ...` path will include the
/// trailing colon.
fn read_path(scanner: &mut Scanner) -> (r: ParseResult<Option<Vec<u8>>>)
    requires
        old(scanner).wf(),
    ensures
        r matches Err(x) ==> x.ofs <= old(scanner).buf@.len(),
        final(scanner).buf == old(scanner).buf,
        final(scanner).chunk_index == old(scanner).chunk_index,
        final(scanner).valid(),
        match spec_read_path(old(scanner).buf@, old(scanner).ofs as int) {
            Ok((None, p)) => r matches Ok(None) && final(scanner).wf() && final(scanner).ofs == p,
            Ok((Some((s, e)), p)) => r matches Ok(Some(v)) && final(scanner).wf()
                && final(scanner).ofs == p && v@ == old(scanner).buf@.subrange(s, e),
            Err((p, m)) => r matches Err(x) && x.ofs == p && x.msg@ == m,
        },
{
    proof {
        lemma_dep_skip_bounds(scanner.buf@, scanner.ofs as int);
    }
    skip_spaces(scanner)?;
    let start = scanner.ofs;
    proof {
        lemma_path_end_bounds(scanner.buf@, start as int);
    }
    loop
        invariant
            scanner.wf(),
            scanner.buf == old(scanner).buf,
            scanner.chunk_index == old(scanner).chunk_index,
            start <= scanner.ofs,
            path_end(scanner.buf@, start as int) == path_end(scanner.buf@, scanner.ofs as int),
        ensures
            scanner.wf(),
            scanner.buf == old(scanner).buf,
            scanner.chunk_index == old(scanner).chunk_index,
            start <= scanner.ofs,
            path_end(scanner.buf@, start as int) == scanner.ofs,
        decreases scanner.buf@.len() - scanner.ofs,
    {
        let c = scanner.read();
        if c == 0 || c == 0x20u8 || c == 0x0au8 {
            scanner.back();
            break;
        }
        if c == 0x5cu8 {
            if scanner.peek() == 0x0au8 {
                scanner.back();
                break;
            }
        }
    }
    let end = scanner.ofs;
    if end == start {
        return Ok(None);
    }
    Ok(Some(scanner.slice(start, end)))
}

/// Read dependency paths up to the first empty one.
fn read_deps(scanner: &mut Scanner) -> (r: ParseResult<Vec<Vec<u8>>>)
    requires
        old(scanner).wf(),
    ensures
        r matches Err(x) ==> x.ofs <= old(scanner).buf@.len(),
        final(scanner).buf == old(scanner).buf,
        final(scanner).chunk_index == old(scanner).chunk_index,
        match spec_read_deps(old(scanner).buf@, old(scanner).ofs as int) {
            Ok((d, q)) => r matches Ok(v) && paths_view(v@) == d && final(scanner).wf()
                && final(scanner).ofs == q,
            Err((p, m)) => r matches Err(x) && x.ofs == p && x.msg@ == m,
        },
{
    let ghost buf = scanner.buf@;
    let ghost ds = scanner.ofs as int;
    let mut deps: Vec<Vec<u8>> = Vec::new();
    assert(paths_view(deps@) =~= Seq::<Seq<u8>>::empty());
    loop
        invariant
            scanner.wf(),
            scanner.buf == old(scanner).buf,
            scanner.chunk_index == old(scanner).chunk_index,
            scanner.buf@ == buf,
            buf == old(scanner).buf@,
            ds == old(scanner).ofs,
            ds <= scanner.ofs,
            match spec_read_deps(buf, scanner.ofs as int) {
                Ok((rest, q)) => spec_read_deps(buf, ds) == Ok::<(Seq<Seq<u8>>, int), DepError>(
                    (paths_view(deps@) + rest, q),
                ),
                Err(x) => spec_read_deps(buf, ds) == Err::<(Seq<Seq<u8>>, int), DepError>(x),
            },
        decreases buf.len() - scanner.ofs,
    {
        let ghost o = scanner.ofs as int;
        proof {
            lemma_read_path_bounds(buf, o);
        }
        match read_path(scanner) {
            Err(x) => {
                assert(spec_read_deps(buf, o) == Err::<(Seq<Seq<u8>>, int), DepError>((x.ofs as int, x.msg@)));
                return Err(x);
            },
            Ok(Some(path)) => {
                let ghost dv = paths_view(deps@);
                deps.push(path);
                assert(paths_view(deps@) =~= dv.push(path@));
                proof {
                    if let Ok((rest, q)) = spec_read_deps(buf, scanner.ofs as int) {
                        assert(dv + (seq![path@] + rest) =~= paths_view(deps@) + rest);
                    }
                }
            },
            Ok(None) => {
                assert(paths_view(deps@) + Seq::<Seq<u8>>::empty() =~= paths_view(deps@));
                return Ok(deps);
            },
        }
    }
}

/// Parse a `.d` file into its targets and their dependencies.
pub fn parse(scanner: &mut Scanner) -> (r: ParseResult<SmallMap<Vec<u8>, Vec<Vec<u8>>>>)
    requires
        old(scanner).wf(),
    ensures
        r matches Err(x) ==> x.ofs <= old(scanner).buf@.len(),
        match spec_parse(old(scanner).buf@, old(scanner).ofs as int) {
            Ok(e) => r matches Ok(m) && deps_view(m) == e,
            Err((p, m)) => r matches Err(x) && x.ofs == p && x.msg@ == m,
        },
{
    let mut result: SmallMap<Vec<u8>, Vec<Vec<u8>>> = SmallMap::new();
    let ghost buf = scanner.buf@;
    proof {
        result.lemma_kv();
        assert(deps_view(result) =~= Seq::<(Seq<u8>, Seq<Seq<u8>>)>::empty());
    }
    loop
        invariant
            scanner.wf(),
            scanner.buf@ == buf,
            buf == old(scanner).buf@,
            spec_parse_from(buf, scanner.ofs as int, deps_view(result)) == spec_parse(
                buf,
                old(scanner).ofs as int,
            ),
        decreases buf.len() - scanner.ofs,
    {
        let ghost i0 = scanner.ofs as int;
        let ghost acc0 = deps_view(result);
        while scanner.peek() == 0x20u8 || scanner.peek() == 0x0au8
            invariant
                scanner.wf(),
                scanner.buf@ == buf,
                i0 <= scanner.ofs,
                blank_end(buf, i0) == blank_end(buf, scanner.ofs as int),
            decreases buf.len() - scanner.ofs,
        {
            scanner.next();
        }
        let ghost b = scanner.ofs as int;
        assert(blank_end(buf, b) == b);
        proof {
            lemma_read_path_bounds(buf, b);
        }
        let target = match read_path(scanner) {
            Err(x) => {
                assert(spec_parse_from(buf, i0, acc0) == Err::<DepEntries, DepError>((x.ofs as int, x.msg@)));
                return Err(x);
            },
            Ok(None) => {
                match scanner.expect(0) {
                    Err(x) => {
                        assert(spec_parse_from(buf, i0, acc0) == Err::<DepEntries, DepError>((x.ofs as int, x.msg@)));
                        return Err(x);
                    },
                    Ok(()) => {
                        return Ok(result);
                    },
                }
            },
            Ok(Some(o)) => o,
        };
        let ghost p = scanner.ofs as int;
        let ghost tv0 = target@;
        scanner.skip_spaces();
        let ghost after = scanner.ofs as int;
        let tlen = target.len();
        let colon = target[tlen - 1] == 0x3au8;
        let target = if colon {
            crate::text::copy_range(target.as_slice(), 0, tlen - 1)
        } else {
            match scanner.expect(0x3au8) {
                Err(x) => {
                    return Err(x);
                },
                Ok(()) => {},
            }
            target
        };
        let ghost ds = scanner.ofs as int;
        proof {
            if colon {
                assert(target@ =~= tv0.subrange(0, tv0.len() - 1));
            }
            lemma_spaces_end_bounds(buf, p);
            lemma_read_deps_bounds(buf, ds);
        }
        let deps = match read_deps(scanner) {
            Err(x) => {
                return Err(x);
            },
            Ok(d) => d,
        };
        let ghost dvec = deps;
        let ghost kv0 = result.kv();
        let ghost tv = target@;
        result.insert(target, deps);
        proof {
            crate::smallmap::lemma_insert_map(kv0, |v: Vec<Vec<u8>>| paths_view(v@), tv, dvec);
            assert(deps_view(result) == spec_insert(acc0, tv, paths_view(dvec@)));
            let rp = spec_read_path(buf, b);
            let se = rp->Ok_0.0->Some_0;
            let s0 = se.0;
            let e0 = se.1;
            assert(tv0 == buf.subrange(s0, e0));
            assert(tv0[tv0.len() - 1] == buf[e0 - 1]);
            assert(colon == (buf[e0 - 1] == 0x3a));
            assert(tv == if colon {
                buf.subrange(s0, e0 - 1)
            } else {
                buf.subrange(s0, e0)
            });
            assert(ds == if colon {
                after
            } else {
                after + 1
            });
            assert(spec_read_deps(buf, ds) == Ok::<(Seq<Seq<u8>>, int), DepError>(
                (paths_view(dvec@), scanner.ofs as int),
            ));
            assert(spec_parse_from(buf, i0, acc0) == spec_parse_from(
                buf,
                scanner.ofs as int,
                deps_view(result),
            ));
        }
    }
}

/// A path that reads as itself: not empty, and without nul, space, newline
/// or backslash.
pub open spec fn plain_path(p: Seq<u8>) -> bool {
    &&& p.len() > 0
    &&& forall|k: int|
        0 <= k < p.len() ==> (#[trigger] p[k]) != 0 && p[k] != 0x20 && p[k] != 0x0a && p[k] != 0x5c
}

/// `deps` written one after another, each after a space.
pub open spec fn spaced(deps: Seq<Seq<u8>>) -> Seq<u8>
    decreases deps.len(),
{
    if deps.len() == 0 {
        Seq::empty()
    } else {
        seq![0x20u8] + deps[0] + spaced(deps.drop_first())
    }
}

/// A path whose bytes are ordinary up to a space or newline ends there.
proof fn lemma_path_end_at(buf: Seq<u8>, s: int, e: int)
    requires
        0 <= s <= e,
        e + 1 < buf.len(),
        forall|j: int|
            s <= j < e ==> (#[trigger] buf[j]) != 0 && buf[j] != 0x20 && buf[j] != 0x0a && buf[j] != 0x5c,
        buf[e] == 0x20 || buf[e] == 0x0a,
    ensures
        path_end(buf, s) == e,
    decreases e - s,
{
    if s < e {
        lemma_path_end_at(buf, s + 1, e);
    }
}

/// Plain paths, each after a space, up to a newline, read as themselves.
proof fn lemma_read_deps_spaced(buf: Seq<u8>, p: int, deps: Seq<Seq<u8>>)
    requires
        0 <= p,
        forall|k: int| 0 <= k < deps.len() ==> plain_path(#[trigger] deps[k]),
        p + spaced(deps).len() + 1 < buf.len(),
        buf.subrange(p, p + spaced(deps).len()) == spaced(deps),
        buf[p + spaced(deps).len()] == 0x0a,
    ensures
        spec_read_deps(buf, p) == Ok::<(Seq<Seq<u8>>, int), DepError>((deps, p + spaced(deps).len())),
    decreases deps.len(),
{
    if deps.len() == 0 {
        assert(dep_skip(buf, p) == Ok::<int, DepError>(p));
        assert(path_end(buf, p) == p);
        assert(spec_read_path(buf, p) == Ok::<(Option<(int, int)>, int), DepError>((None, p)));
        assert(deps =~= Seq::<Seq<u8>>::empty());
    } else {
        let d0 = deps[0];
        let n0 = d0.len() as int;
        let rest = deps.drop_first();
        let l = spaced(deps).len() as int;
        let lr = spaced(rest).len() as int;
        assert(l == 1 + n0 + lr);
        assert(plain_path(d0));
        assert(buf[p] == spaced(deps)[0]);
        assert(buf[p] == 0x20);
        assert(buf[p + 1] == spaced(deps)[1]);
        assert(buf[p + 1] == d0[0]);
        assert(dep_skip(buf, p + 1) == Ok::<int, DepError>(p + 1));
        assert(dep_skip(buf, p) == Ok::<int, DepError>(p + 1));
        assert forall|j: int| p + 1 <= j < p + 1 + n0 implies (#[trigger] buf[j]) != 0 && buf[j] != 0x20
            && buf[j] != 0x0a && buf[j] != 0x5c by {
            assert(buf[j] == spaced(deps)[j - p]);
            assert(spaced(deps)[j - p] == d0[j - p - 1]);
        }
        if lr > 0 {
            assert(buf[p + 1 + n0] == spaced(deps)[1 + n0]);
            assert(spaced(deps)[1 + n0] == spaced(rest)[0]);
        }
        lemma_path_end_at(buf, p + 1, p + 1 + n0);
        assert(buf.subrange(p + 1, p + 1 + n0) =~= d0) by {
            assert forall|j: int| 0 <= j < n0 implies buf.subrange(p + 1, p + 1 + n0)[j] == d0[j] by {
                assert(buf[p + 1 + j] == spaced(deps)[1 + j]);
            }
        }
        let q = p + 1 + n0;
        assert(buf.subrange(q, q + lr) =~= spaced(rest)) by {
            assert forall|j: int| 0 <= j < lr implies buf.subrange(q, q + lr)[j] == spaced(rest)[j] by {
                assert(buf[q + j] == spaced(deps)[1 + n0 + j]);
            }
        }
        assert forall|k: int| 0 <= k < rest.len() implies plain_path(#[trigger] rest[k]) by {
            assert(rest[k] == deps[k + 1]);
        }
        lemma_read_deps_spaced(buf, q, rest);
        assert(spec_read_path(buf, p) == Ok::<(Option<(int, int)>, int), DepError>((Some((p + 1, q)), q)));
        assert(seq![buf.subrange(p + 1, q)] + rest =~= deps);
        assert(q + lr == p + l);
    }
}

/// A depfile of one rule, `target: dep dep ...` and a newline, whose paths
/// are plain, parses to that target with those dependencies, in order.
pub proof fn law_depfile_one_rule(t: Seq<u8>, deps: Seq<Seq<u8>>)
    requires
        plain_path(t),
        forall|k: int| 0 <= k < deps.len() ==> plain_path(#[trigger] deps[k]),
    ensures
        spec_parse(t + seq![0x3au8] + spaced(deps) + seq![0x0au8, 0x00u8], 0) == Ok::<DepEntries, DepError>(
            seq![(t, deps)],
        ),
{
    let buf = t + seq![0x3au8] + spaced(deps) + seq![0x0au8, 0x00u8];
    let n = t.len() as int;
    let e = n + 1;
    let l = spaced(deps).len() as int;
    let q = e + l;
    assert(buf.len() == q + 2);
    assert(buf[0] == t[0]);
    assert(blank_end(buf, 0) == 0);
    assert(dep_skip(buf, 0) == Ok::<int, DepError>(0));
    assert forall|j: int| 0 <= j < e implies (#[trigger] buf[j]) != 0 && buf[j] != 0x20 && buf[j] != 0x0a
        && buf[j] != 0x5c by {
        if j < n {
            assert(buf[j] == t[j]);
        } else {
            assert(buf[j] == 0x3a);
        }
    }
    assert(buf.subrange(e, q) =~= spaced(deps));
    assert(buf[q] == 0x0a);
    if l > 0 {
        assert(buf[e] == spaced(deps)[0]);
    }
    lemma_path_end_at(buf, 0, e);
    assert(buf[e - 1] == 0x3a);
    assert(buf.subrange(0, e - 1) =~= t);
    lemma_read_deps_spaced(buf, e, deps);
    if l > 0 {
        let d0 = deps[0];
        assert(plain_path(d0));
        assert(buf[e] == 0x20);
        assert(buf[e + 1] == spaced(deps)[1]);
        assert(buf[e + 1] == d0[0]);
        assert(spaces_end(buf, e + 1) == e + 1);
        assert(spaces_end(buf, e) == e + 1);
        assert(dep_skip(buf, e) == dep_skip(buf, e + 1));
        assert(spec_read_path(buf, e) == spec_read_path(buf, e + 1));
        assert(spec_read_deps(buf, e + 1) == spec_read_deps(buf, e));
    } else {
        assert(spaces_end(buf, e) == e);
    }
    let acc = spec_insert(Seq::<(Seq<u8>, Seq<Seq<u8>>)>::empty(), t, deps);
    assert(acc =~= seq![(t, deps)]);
    assert(buf[q + 1] == 0);
    assert(blank_end(buf, q + 1) == q + 1);
    assert(blank_end(buf, q) == q + 1);
    assert(spec_parse_from(buf, q, acc) == Ok::<DepEntries, DepError>(acc));
}

} // verus!
