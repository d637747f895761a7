//! The n2 database stores information about previous builds for determining
//! which files are up to date.
//!
//! The file starts with the signature "n2db" and a little-endian u32
//! version, then holds records one after another.  A path record is a u16
//! length (high bit clear) and that many bytes of file name; the n-th path
//! record gives the file of database id n.  A build record is a u16 count of
//! outputs with the high bit set, their ids as u24s, a u16 count of
//! discovered inputs, their ids as u24s, and the build's u64 hash.
//!
//! The caller owns the file: it hands the library what it read and appends
//! what the writer produces.
use vstd::prelude::*;
use vstd::string::StringSliceAdditionalSpecFns;
use std::collections::HashMap;
use crate::densemap::{DenseMap, Index};
use crate::graph::{BuildId, FileId, Graph, Hashes, build_ok, file_ok, same_but_discovered, ids_below};
use crate::hash::BuildHash;
use crate::text::{bytes_eq, bytes_of, le_bytes, push_bytes, push_decimal_u64, push_le, push_slice, spec_decimal};

verus! {

broadcast use vstd::std_specs::hash::group_hash_axioms;

pub const VERSION: u32 = 1;

/// Powers of 256.
pub open spec fn pow256(n: nat) -> nat
    decreases n,
{
    if n == 0 {
        1
    } else {
        256 * pow256((n - 1) as nat)
    }
}

/// The number whose little-endian bytes are `s`.
pub open spec fn le_value(s: Seq<u8>) -> nat
    decreases s.len(),
{
    if s.len() == 0 {
        0
    } else {
        s[0] as nat + 256 * le_value(s.subrange(1, s.len() as int))
    }
}

proof fn lemma_pow256_pos(n: nat)
    ensures
        pow256(n) >= 1,
    decreases n,
{
    if n > 0 {
        lemma_pow256_pos((n - 1) as nat);
    }
}

proof fn lemma_le_bytes_len(x: nat, n: nat)
    ensures
        le_bytes(x, n).len() == n,
    decreases n,
{
    if n > 0 {
        lemma_le_bytes_len(x / 256, (n - 1) as nat);
    }
}

/// Decoding the low `n` little-endian bytes of `x` gives `x` back when it
/// fits in them.
pub proof fn lemma_le_roundtrip(x: nat, n: nat)
    requires
        x < pow256(n),
    ensures
        le_value(le_bytes(x, n)) == x,
    decreases n,
{
    if n > 0 {
        let p = pow256((n - 1) as nat);
        lemma_pow256_pos((n - 1) as nat);
        assert(x / 256 < p) by (nonlinear_arith)
            requires
                x < 256 * p,
                p >= 1,
        ;
        lemma_le_roundtrip(x / 256, (n - 1) as nat);
        let s = le_bytes(x, n);
        assert(s.subrange(1, s.len() as int) =~= le_bytes(x / 256, (n - 1) as nat));
    }
}

/// The value of little-endian bytes is below 256 to the number of bytes.
pub proof fn lemma_le_value_bound(s: Seq<u8>)
    ensures
        le_value(s) < pow256(s.len()),
    decreases s.len(),
{
    if s.len() > 0 {
        let rest = s.subrange(1, s.len() as int);
        lemma_le_value_bound(rest);
        let v = le_value(rest);
        let p = pow256(rest.len());
        let b = s[0] as nat;
        assert(b + 256 * v < 256 * p) by (nonlinear_arith)
            requires
                v < p,
                b < 256,
        ;
    }
}

/// The u16 at position `p` of `b`.
pub open spec fn u16_at(b: Seq<u8>, p: int) -> nat {
    le_value(b.subrange(p, p + 2))
}

/// The u24 at position `p` of `b`.
pub open spec fn u24_at(b: Seq<u8>, p: int) -> nat {
    le_value(b.subrange(p, p + 3))
}

/// The u64 at position `p` of `b`.
pub open spec fn u64_at(b: Seq<u8>, p: int) -> nat {
    le_value(b.subrange(p, p + 8))
}

/// A record of the database, as the format holds it.
pub enum DbRecord {
    /// The name of the file of the next database id.
    Path(Seq<u8>),
    /// A build: the ids of its outputs and discovered inputs, and its hash.
    Build(Seq<u32>, Seq<u32>, u64),
}

/// The u24 encodings of `ids`, one after another.
pub open spec fn ids_bytes(ids: Seq<u32>) -> Seq<u8>
    decreases ids.len(),
{
    if ids.len() == 0 {
        Seq::empty()
    } else {
        ids_bytes(ids.drop_last()) + le_bytes(ids.last() as nat, 3)
    }
}

/// The bytes of one record.  Counts are written in 16 bits, ids in 24:
/// larger values lose their high bits.
pub open spec fn record_bytes(r: DbRecord) -> Seq<u8> {
    match r {
        DbRecord::Path(name) => le_bytes(name.len(), 2) + name,
        DbRecord::Build(outs, deps, hash) => le_bytes(((outs.len() as u16) | 0x8000u16) as nat, 2)
            + ids_bytes(outs) + le_bytes((deps.len() as u16) as nat, 2) + ids_bytes(deps) + le_bytes(
            hash as nat,
            8,
        ),
    }
}

/// The bytes of `rs`, one after another.
pub open spec fn records_bytes(rs: Seq<DbRecord>) -> Seq<u8>
    decreases rs.len(),
{
    if rs.len() == 0 {
        Seq::empty()
    } else {
        records_bytes(rs.drop_last()) + record_bytes(rs.last())
    }
}

/// The file's opening: the signature and the version.
pub open spec fn signature_bytes() -> Seq<u8> {
    "n2db".spec_bytes() + le_bytes(VERSION as nat, 4)
}

/// `n` u24 ids starting at position `q` of `b`.
pub open spec fn ids_at(b: Seq<u8>, q: int, n: nat) -> Seq<u32> {
    Seq::new(n, |i: int| u24_at(b, q + 3 * i) as u32)
}

/// Where the record at `p` ends, if `b` holds all of it.
pub open spec fn record_end(b: Seq<u8>, p: int) -> int {
    let len = u16_at(b, p);
    if len < 0x8000 {
        p + 2 + len
    } else {
        let n = len - 0x8000;
        let r = p + 2 + 3 * n;
        if r + 2 > b.len() {
            r + 2
        } else {
            r + 2 + 3 * u16_at(b, r) + 8
        }
    }
}

/// The record at `p`; meaningful when `record_end(b, p) <= b.len()`.
pub open spec fn record_at(b: Seq<u8>, p: int) -> DbRecord {
    let len = u16_at(b, p);
    if len < 0x8000 {
        DbRecord::Path(b.subrange(p + 2, p + 2 + len))
    } else {
        let n = (len - 0x8000) as nat;
        let r = p + 2 + 3 * n;
        let m = u16_at(b, r);
        DbRecord::Build(ids_at(b, p + 2, n), ids_at(b, r + 2, m), u64_at(b, r + 2 + 3 * m) as u64)
    }
}

/// The records from position `p` on, or None if the last one is cut short.
/// Fewer than two bytes left is the end.
pub open spec fn parse_records(b: Seq<u8>, p: int) -> Option<Seq<DbRecord>>
    decreases b.len() - p,
{
    if p < 0 || b.len() - p < 2 {
        Some(Seq::empty())
    } else if record_end(b, p) > b.len() {
        None
    } else {
        match parse_records(b, record_end(b, p)) {
            Some(rest) => Some(seq![record_at(b, p)] + rest),
            None => None,
        }
    }
}

/// A record that the format can hold exactly: names and counts within 15
/// and 16 bits, ids within 24.
pub open spec fn record_fits(r: DbRecord) -> bool {
    match r {
        DbRecord::Path(name) => name.len() < 0x8000,
        DbRecord::Build(outs, deps, hash) => {
            &&& outs.len() < 0x8000
            &&& deps.len() < 0x10000
            &&& forall|i: int| 0 <= i < outs.len() ==> #[trigger] outs[i] < 0x1000000
            &&& forall|i: int| 0 <= i < deps.len() ==> #[trigger] deps[i] < 0x1000000
        },
    }
}

proof fn lemma_ids_bytes(ids: Seq<u32>)
    ensures
        ids_bytes(ids).len() == 3 * ids.len(),
        forall|i: int|
            0 <= i < ids.len() ==> #[trigger] ids_bytes(ids).subrange(3 * i, 3 * i + 3) == le_bytes(
                ids[i] as nat,
                3,
            ),
    decreases ids.len(),
{
    if ids.len() > 0 {
        let init = ids.drop_last();
        lemma_ids_bytes(init);
        lemma_le_bytes_len(ids.last() as nat, 3);
        let s = ids_bytes(ids);
        assert forall|i: int| 0 <= i < ids.len() implies #[trigger] s.subrange(3 * i, 3 * i + 3) == le_bytes(
            ids[i] as nat,
            3,
        ) by {
            if i < init.len() {
                assert(s.subrange(3 * i, 3 * i + 3) =~= ids_bytes(init).subrange(3 * i, 3 * i + 3));
            } else {
                assert(s.subrange(3 * i, 3 * i + 3) =~= le_bytes(ids.last() as nat, 3));
            }
        }
    }
}

/// The ids encoded at `q` of `b` are `ids` back, when they fit in 24 bits.
proof fn lemma_ids_decode(b: Seq<u8>, q: int, ids: Seq<u32>)
    requires
        0 <= q,
        q + 3 * ids.len() <= b.len(),
        b.subrange(q, q + 3 * ids.len()) == ids_bytes(ids),
        forall|i: int| 0 <= i < ids.len() ==> #[trigger] ids[i] < 0x1000000,
    ensures
        ids_at(b, q, ids.len()) == ids,
{
    lemma_ids_bytes(ids);
    assert(pow256(3) == 0x1000000) by {
        reveal_with_fuel(pow256, 4);
    }
    assert forall|i: int| 0 <= i < ids.len() implies #[trigger] ids_at(b, q, ids.len())[i] == ids[i] by {
        let x = ids_bytes(ids);
        assert(b.subrange(q + 3 * i, q + 3 * i + 3) =~= x.subrange(3 * i, 3 * i + 3));
        lemma_le_roundtrip(ids[i] as nat, 3);
    }
    assert(ids_at(b, q, ids.len()) =~= ids);
}

/// The bytes of `b` from `p` are those of `x`.
proof fn lemma_bytes_at(b: Seq<u8>, p: int, x: Seq<u8>)
    requires
        0 <= p,
        p + x.len() <= b.len(),
        b.subrange(p, p + x.len()) == x,
    ensures
        forall|k: int| 0 <= k < x.len() ==> #[trigger] b[p + k] == x[k],
{
    assert forall|k: int| 0 <= k < x.len() implies #[trigger] b[p + k] == x[k] by {
        assert(b.subrange(p, p + x.len())[k] == b[p + k]);
    }
}

proof fn lemma_u16_decode(b: Seq<u8>, p: int, x: nat)
    requires
        0 <= p,
        p + 2 <= b.len(),
        x < 0x10000,
        b.subrange(p, p + 2) == le_bytes(x, 2),
    ensures
        u16_at(b, p) == x,
{
    assert(pow256(2) == 0x10000) by {
        reveal_with_fuel(pow256, 3);
    }
    lemma_le_roundtrip(x, 2);
}

proof fn lemma_mark(n: u16)
    requires
        n < 0x8000,
    ensures
        (n | 0x8000u16) as nat == n + 0x8000,
{
    assert(n < 0x8000 ==> (n | 0x8000u16) == n + 0x8000u16) by (bit_vector);
}

/// A record that fits decodes, from where its bytes stand, to itself, and
/// ends where its bytes end.
proof fn lemma_record_decode(b: Seq<u8>, p: int, r: DbRecord)
    requires
        0 <= p,
        p + record_bytes(r).len() <= b.len(),
        b.subrange(p, p + record_bytes(r).len()) == record_bytes(r),
        record_fits(r),
    ensures
        record_end(b, p) == p + record_bytes(r).len(),
        record_at(b, p) == r,
{
    let x = record_bytes(r);
    lemma_bytes_at(b, p, x);
    match r {
        DbRecord::Path(name) => {
            lemma_le_bytes_len(name.len(), 2);
            assert(b.subrange(p, p + 2) =~= x.subrange(0, 2));
            assert(x.subrange(0, 2) =~= le_bytes(name.len(), 2));
            lemma_u16_decode(b, p, name.len());
            assert forall|k: int| 0 <= k < name.len() implies #[trigger] b.subrange(p + 2, p + 2 + name.len())[k]
                == name[k] by {
                assert(b[p + (2 + k)] == x[2 + k]);
            }
            assert(b.subrange(p + 2, p + 2 + name.len()) =~= name);
        },
        DbRecord::Build(outs, deps, hash) => {
            let n = outs.len();
            let m = deps.len();
            lemma_mark(n as u16);
            let mark = ((n as u16) | 0x8000u16) as nat;
            lemma_le_bytes_len(mark, 2);
            lemma_le_bytes_len(m, 2);
            lemma_le_bytes_len(hash as nat, 8);
            lemma_ids_bytes(outs);
            lemma_ids_bytes(deps);
            assert((m as u16) as nat == m);
            let q = p + 2;
            let r1 = q + 3 * n;
            let q2 = r1 + 2;
            let h = q2 + 3 * m;
            let ob = ids_bytes(outs);
            let db = ids_bytes(deps);
            let x1 = le_bytes(mark, 2);
            let x3 = le_bytes(m, 2);
            let x5 = le_bytes(hash as nat, 8);
            assert(x =~= x1 + ob + x3 + db + x5);
            assert forall|k: int| 0 <= k < 2 implies #[trigger] b.subrange(p, p + 2)[k] == x1[k] by {
                assert(b[p + k] == x[k]);
            }
            assert(b.subrange(p, p + 2) =~= x1);
            lemma_u16_decode(b, p, mark);
            assert forall|k: int| 0 <= k < 3 * n implies #[trigger] b.subrange(q, r1)[k] == ob[k] by {
                assert(b[p + (2 + k)] == x[2 + k]);
            }
            assert(b.subrange(q, r1) =~= ob);
            lemma_ids_decode(b, q, outs);
            assert forall|k: int| 0 <= k < 2 implies #[trigger] b.subrange(r1, r1 + 2)[k] == x3[k] by {
                assert(b[p + (2 + 3 * n + k)] == x[2 + 3 * n + k]);
            }
            assert(b.subrange(r1, r1 + 2) =~= x3);
            lemma_u16_decode(b, r1, m);
            assert forall|k: int| 0 <= k < 3 * m implies #[trigger] b.subrange(q2, h)[k] == db[k] by {
                assert(b[p + (4 + 3 * n + k)] == x[4 + 3 * n + k]);
            }
            assert(b.subrange(q2, h) =~= db);
            lemma_ids_decode(b, q2, deps);
            assert forall|k: int| 0 <= k < 8 implies #[trigger] b.subrange(h, h + 8)[k] == x5[k] by {
                assert(b[p + (4 + 3 * n + 3 * m + k)] == x[4 + 3 * n + 3 * m + k]);
            }
            assert(b.subrange(h, h + 8) =~= x5);
            assert(pow256(8) == 0x1_0000_0000_0000_0000) by {
                reveal_with_fuel(pow256, 9);
            }
            lemma_le_roundtrip(hash as nat, 8);
        },
    }
}

proof fn lemma_record_len(r: DbRecord)
    ensures
        record_bytes(r).len() >= 2,
{
    match r {
        DbRecord::Path(name) => {
            lemma_le_bytes_len(name.len(), 2);
        },
        DbRecord::Build(outs, deps, hash) => {
            lemma_le_bytes_len(((outs.len() as u16) | 0x8000u16) as nat, 2);
        },
    }
}

proof fn lemma_records_bytes_front(rs: Seq<DbRecord>)
    requires
        rs.len() > 0,
    ensures
        records_bytes(rs) == record_bytes(rs[0]) + records_bytes(rs.subrange(1, rs.len() as int)),
    decreases rs.len(),
{
    if rs.len() == 1 {
        assert(rs.drop_last() =~= Seq::<DbRecord>::empty());
        assert(rs.subrange(1, 1) =~= Seq::<DbRecord>::empty());
        assert(records_bytes(rs.drop_last()) =~= Seq::<u8>::empty());
        assert(rs.last() == rs[0]);
        assert(records_bytes(rs) =~= record_bytes(rs[0]));
        assert(records_bytes(rs.subrange(1, 1)) =~= Seq::<u8>::empty());
        assert(record_bytes(rs[0]) + Seq::<u8>::empty() =~= record_bytes(rs[0]));
    } else {
        let init = rs.drop_last();
        lemma_records_bytes_front(init);
        assert(init.subrange(1, init.len() as int) =~= rs.subrange(1, rs.len() as int).drop_last());
        assert(rs.subrange(1, rs.len() as int).last() == rs.last());
        assert(records_bytes(rs) =~= record_bytes(rs[0]) + records_bytes(rs.subrange(1, rs.len() as int)));
    }
}

/// Records laid out from position `p` to the end of `b` parse back to
/// themselves.
proof fn lemma_parse_records(b: Seq<u8>, p: int, rs: Seq<DbRecord>)
    requires
        0 <= p <= b.len(),
        b.subrange(p, b.len() as int) == records_bytes(rs),
        forall|i: int| 0 <= i < rs.len() ==> record_fits(#[trigger] rs[i]),
    ensures
        parse_records(b, p) == Some(rs),
    decreases rs.len(),
{
    if rs.len() == 0 {
        assert(b.subrange(p, b.len() as int).len() == 0);
    } else {
        lemma_records_bytes_front(rs);
        let x = record_bytes(rs[0]);
        let rest = rs.subrange(1, rs.len() as int);
        lemma_record_len(rs[0]);
        let whole = records_bytes(rs);
        assert(whole =~= x + records_bytes(rest));
        lemma_bytes_at(b, p, whole);
        assert forall|k: int| 0 <= k < x.len() implies #[trigger] b.subrange(p, p + x.len())[k] == x[k] by {
            assert(b[p + k] == whole[k]);
        }
        assert(b.subrange(p, p + x.len()) =~= x);
        assert(record_fits(rs[0]));
        lemma_record_decode(b, p, rs[0]);
        assert forall|k: int| 0 <= k < records_bytes(rest).len() implies #[trigger] b.subrange(p + x.len(), b.len() as int)[k]
            == records_bytes(rest)[k] by {
            assert(b[p + (x.len() + k)] == whole[x.len() + k]);
        }
        assert(b.subrange(p + x.len(), b.len() as int) =~= records_bytes(rest));
        assert forall|i: int| 0 <= i < rest.len() implies record_fits(#[trigger] rest[i]) by {
            assert(rest[i] == rs[i + 1]);
        }
        lemma_parse_records(b, p + x.len(), rest);
        assert(seq![rs[0]] + rest =~= rs);
    }
}

/// A record read from the database.
pub enum Record {
    Path(Vec<u8>),
    Build(Vec<u32>, Vec<u32>, u64),
}

impl Record {
    pub open spec fn view(&self) -> DbRecord {
        match self {
            Record::Path(name) => DbRecord::Path(name@),
            Record::Build(outs, deps, hash) => DbRecord::Build(outs@, deps@, *hash),
        }
    }
}

/// The records that `v` holds.
pub open spec fn records_view(v: Seq<Record>) -> Seq<DbRecord> {
    v.map_values(|r: Record| r.view())
}

proof fn lemma_le_value_step(b: Seq<u8>, i: int, j: int)
    requires
        0 <= i < j <= b.len(),
    ensures
        le_value(b.subrange(i, j)) == b[i] as nat + 256 * le_value(b.subrange(i + 1, j)),
{
    let s = b.subrange(i, j);
    assert(s.subrange(1, s.len() as int) =~= b.subrange(i + 1, j));
}

proof fn lemma_pow256_mono(i: nat, j: nat)
    requires
        i <= j,
    ensures
        pow256(i) <= pow256(j),
    decreases j,
{
    if i < j {
        lemma_pow256_mono(i, (j - 1) as nat);
        lemma_pow256_pos((j - 1) as nat);
    }
}

/// The `n`-byte little-endian number at position `p` of `b`.
fn read_le(b: &[u8], p: usize, n: usize) -> (r: u64)
    requires
        n <= 8,
        p + n <= b@.len(),
    ensures
        r == le_value(b@.subrange(p as int, p + n)),
{
    proof {
        assert(pow256(8) == 0x1_0000_0000_0000_0000) by {
            reveal_with_fuel(pow256, 9);
        }
    }
    let mut acc: u64 = 0;
    let mut k: usize = n;
    assert(b@.subrange(p + n, p + n).len() == 0);
    while k > 0
        invariant
            k <= n <= 8,
            p + n <= b@.len(),
            p + n <= b.len(),
            pow256(8) == 0x1_0000_0000_0000_0000,
            acc == le_value(b@.subrange(p + k, p + n)),
        decreases k,
    {
        proof {
            lemma_le_value_step(b@, p + k - 1, p + n);
            lemma_le_value_bound(b@.subrange(p + k, p + n));
            lemma_pow256_mono((n - k) as nat, 7);
            assert(pow256(8) == 256 * pow256(7));
            let a = acc as nat;
            let q = pow256(7);
            let x = b@[p + k - 1] as nat;
            assert(x + 256 * a < 256 * q) by (nonlinear_arith)
                requires
                    a < q,
                    x < 256,
            ;
        }
        acc = b[p + k - 1] as u64 + 256 * acc;
        k = k - 1;
    }
    acc
}

/// `n` u24 ids from position `q` of `b`.
fn read_ids(b: &[u8], q: usize, n: usize) -> (r: Vec<u32>)
    requires
        q + 3 * n <= b@.len(),
    ensures
        r@ == ids_at(b@, q as int, n as nat),
{
    let mut v: Vec<u32> = Vec::new();
    let mut i: usize = 0;
    while i < n
        invariant
            i <= n,
            q + 3 * n <= b@.len(),
            q + 3 * n <= b.len(),
            v@.len() == i,
            forall|j: int| 0 <= j < i ==> #[trigger] v@[j] == u24_at(b@, q + 3 * j) as u32,
        decreases n - i,
    {
        proof {
            lemma_le_value_bound(b@.subrange(q + 3 * i, q + 3 * i + 3));
            assert(pow256(3) == 0x1000000) by {
                reveal_with_fuel(pow256, 4);
            }
        }
        let x = read_le(b, q + 3 * i, 3);
        v.push(x as u32);
        i = i + 1;
    }
    assert(v@ =~= ids_at(b@, q as int, n as nat));
    v
}

/// The record at position `p` of `b` and where it ends, or None if `b` is
/// cut short within it.
fn read_record(b: &[u8], p: usize) -> (r: Option<(Record, usize)>)
    requires
        p + 2 <= b@.len(),
    ensures
        match r {
            None => record_end(b@, p as int) > b@.len(),
            Some((rec, e)) => e == record_end(b@, p as int) && e <= b@.len() && rec.view() == record_at(b@, p as int),
        },
{
    let len = read_le(b, p, 2);
    proof {
        lemma_le_value_bound(b@.subrange(p as int, p + 2));
        assert(pow256(2) == 0x10000) by {
            reveal_with_fuel(pow256, 3);
        }
    }
    let rest = b.len() - p - 2;
    if len < 0x8000 {
        let len = len as usize;
        if len > rest {
            return None;
        }
        let mut name: Vec<u8> = Vec::new();
        push_slice(&mut name, vstd::slice::slice_subrange(b, p + 2, p + 2 + len));
        Some((Record::Path(name), p + 2 + len))
    } else {
        let n = (len - 0x8000) as usize;
        if n > rest / 3 || 3 * n + 2 > rest {
            return None;
        }
        let outs = read_ids(b, p + 2, n);
        let r1 = p + 2 + 3 * n;
        let m = read_le(b, r1, 2) as usize;
        proof {
            lemma_le_value_bound(b@.subrange(r1 as int, r1 + 2));
        }
        let rest2 = b.len() - r1 - 2;
        if m > rest2 / 3 || 3 * m + 8 > rest2 {
            return None;
        }
        let deps = read_ids(b, r1 + 2, m);
        let hash = read_le(b, r1 + 2 + 3 * m, 8);
        Some((Record::Build(outs, deps, hash), r1 + 2 + 3 * m + 8))
    }
}

/// The records from position `start` of `b` to its end, or None if the
/// last one is cut short.
pub fn read_records(b: &[u8], start: usize) -> (r: Option<Vec<Record>>)
    requires
        start <= b@.len(),
    ensures
        match r {
            None => parse_records(b@, start as int) is None,
            Some(v) => parse_records(b@, start as int) == Some(records_view(v@)),
        },
{
    let mut v: Vec<Record> = Vec::new();
    let mut p = start;
    while b.len() - p >= 2
        invariant
            start <= p <= b@.len(),
            parse_records(b@, start as int) == match parse_records(b@, p as int) {
                Some(rest) => Some(records_view(v@) + rest),
                None => None,
            },
        decreases b@.len() - p,
    {
        match read_record(b, p) {
            None => {
                return None;
            },
            Some((rec, e)) => {
                let ghost old_v = v@;
                proof {
                    match parse_records(b@, e as int) {
                        Some(rest) => {
                            assert(records_view(old_v.push(rec)) =~= records_view(old_v).push(rec.view()));
                            assert(records_view(old_v) + (seq![rec.view()] + rest) =~= records_view(old_v.push(rec))
                                + rest);
                        },
                        None => {},
                    }
                }
                v.push(rec);
                p = e;
            },
        }
    }
    assert(records_view(v@) + Seq::<DbRecord>::empty() =~= records_view(v@));
    Some(v)
}

/// Files are identified by integers that are stable across n2 executions.
#[derive(Debug, Clone, Copy, PartialEq, Eq, Structural)]
pub struct Id(pub u32);

impl Index for Id {
    open spec fn spec_index(&self) -> int {
        self.0 as int
    }

    fn index(&self) -> (r: usize) {
        self.0 as usize
    }

    fn from_index(u: usize) -> (r: Id) {
        Id(u as u32)
    }
}

/// The loaded state of a database, as needed to make updates to the stored
/// state.  Other state is directly loaded into the build graph.
pub struct IdMap {
    /// Maps db::Id to FileId.
    pub fileids: DenseMap<Id, FileId>,
    /// Maps FileId to db::Id.
    pub db_ids: HashMap<u32, Id>,
}

impl IdMap {
    /// Every database id names a file of a graph with `file_count` files,
    /// and each of those files maps back to a database id naming it.
    pub open spec fn wf(&self, file_count: int) -> bool {
        &&& self.fileids.view().len() < u32::MAX
        &&& forall|i: int| 0 <= i < self.fileids.view().len() ==> (#[trigger] self.fileids.view()[i]).0 < file_count
        &&& forall|k: u32|
            #[trigger] self.db_ids@.contains_key(k) ==> self.db_ids@[k].0 < self.fileids.view().len()
                && self.fileids.view()[self.db_ids@[k].0 as int].0 == k
        &&& forall|i: int|
            0 <= i < self.fileids.view().len() ==> self.db_ids@.contains_key((#[trigger] self.fileids.view()[i]).0)
    }

    pub fn new() -> (r: IdMap)
        ensures
            r.fileids.view().len() == 0,
            r.db_ids@ == Map::<u32, Id>::empty(),
            r.wf(0),
    {
        IdMap { fileids: DenseMap::new(), db_ids: HashMap::new() }
    }
}

/// What reading records has established: the file name of each database
/// id, and for each build the discovered inputs and hash last recorded.
pub struct DbState {
    pub names: Seq<Seq<u8>>,
    pub assigned: Map<u32, (Seq<u32>, u64)>,
}

/// The build that produces the file named `name` in `g`, if any.
pub open spec fn input_of(g: &Graph, name: Seq<u8>) -> Option<BuildId> {
    match g.spec_lookup(name) {
        Some(f) => g.files.view()[f.0 as int].input,
        None => None,
    }
}

/// The build a record with outputs `outs` is about, scanning from the
/// `k`-th output with `uniq` found so far: Some(b) when all of them are
/// produced by build b, Some(None) when one is produced by no build or by
/// another (the record is obsolete), None when an id without a name comes
/// first.
pub open spec fn record_target(
    outs: Seq<u32>,
    names: Seq<Seq<u8>>,
    g: &Graph,
    k: int,
    uniq: Option<BuildId>,
) -> Option<Option<BuildId>>
    decreases outs.len() - k,
{
    if k < 0 || k >= outs.len() {
        Some(uniq)
    } else if outs[k] >= names.len() {
        None
    } else {
        match input_of(g, names[outs[k] as int]) {
            None => Some(None),
            Some(b) => match uniq {
                Some(u) => if u == b {
                    record_target(outs, names, g, k + 1, uniq)
                } else {
                    Some(None)
                },
                None => record_target(outs, names, g, k + 1, Some(b)),
            },
        }
    }
}

/// Every id of `ids` has a name.
pub open spec fn ids_named(ids: Seq<u32>, n: int) -> bool {
    forall|j: int| 0 <= j < ids.len() ==> #[trigger] ids[j] < n
}

/// The state after one more record, or None if it names an id without a
/// name.  A build record whose outputs are all produced by one build
/// records that build's discovered inputs and hash.
pub open spec fn apply_record(st: DbState, rec: DbRecord, g: &Graph) -> Option<DbState> {
    match rec {
        DbRecord::Path(name) => Some(DbState { names: st.names.push(name), assigned: st.assigned }),
        DbRecord::Build(outs, deps, hash) => match record_target(outs, st.names, g, 0, None) {
            None => None,
            Some(t) => if !ids_named(deps, st.names.len() as int) {
                None
            } else {
                match t {
                    None => Some(st),
                    Some(b) => Some(DbState { names: st.names, assigned: st.assigned.insert(b.0, (deps, hash)) }),
                }
            },
        },
    }
}

/// The state after `recs`, starting from `st`.
pub open spec fn apply_records(st: DbState, recs: Seq<DbRecord>, g: &Graph) -> Option<DbState>
    decreases recs.len(),
{
    if recs.len() == 0 {
        Some(st)
    } else {
        match apply_records(st, recs.drop_last(), g) {
            None => None,
            Some(s) => apply_record(s, recs.last(), g),
        }
    }
}

/// The state before any record.
pub open spec fn empty_state() -> DbState {
    DbState { names: Seq::empty(), assigned: Map::empty() }
}

/// The hashes after loading: those recorded, over those there were.
pub open spec fn hashes_after(h0: Map<u32, crate::graph::Hash>, a: Map<u32, (Seq<u32>, u64)>) -> Map<u32, crate::graph::Hash> {
    Map::new(
        |k: u32| h0.contains_key(k) || a.contains_key(k),
        |k: u32|
            if a.contains_key(k) {
                crate::graph::Hash(a[k].1)
            } else {
                h0[k]
            },
    )
}

/// The file ids that database ids `ds` stand for.
pub open spec fn files_of(ds: Seq<u32>, fileids: Seq<FileId>) -> Seq<FileId> {
    ds.map_values(|d: u32| fileids[d as int])
}

/// How loading `st` into `g0` and `h0` left `g`, `h` and `ids`.
pub open spec fn loaded(g0: &Graph, h0: &Hashes, g: &Graph, h: &Hashes, ids: &IdMap, st: DbState) -> bool {
    &&& g.wf()
    &&& g.build_count() == g0.build_count()
    &&& g0.file_count() <= g.file_count()
    &&& forall|i: int| 0 <= i < g0.file_count() ==> #[trigger] g.files.view()[i] == g0.files.view()[i]
    &&& forall|i: int| g0.file_count() <= i < g.file_count() ==> (#[trigger] g.files.view()[i]).input is None
    &&& ids.wf(g.file_count())
    &&& ids.fileids.view().len() == st.names.len()
    &&& forall|i: int|
        0 <= i < st.names.len() ==> #[trigger] g.name_of(ids.fileids.view()[i].0 as int) == st.names[i]
    &&& forall|k: u32| #[trigger] st.assigned.contains_key(k) ==> ids_named(st.assigned[k].0, st.names.len() as int)
    &&& forall|b: int|
        0 <= b < g.build_count() ==> same_but_discovered(
            &g0.builds.view()[b],
            &#[trigger] g.builds.view()[b],
        ) && g.builds.view()[b].discovered_ins@ == if st.assigned.contains_key(b as u32) {
            files_of(st.assigned[b as u32].0, ids.fileids.view())
        } else {
            g0.builds.view()[b].discovered_ins@
        }
    &&& h.view() == hashes_after(h0.view(), st.assigned)
}

/// The file of a database name has, in the grown graph, the input it had
/// in the graph loading started from.
proof fn lemma_input_of(g0: &Graph, g: &Graph, name: Seq<u8>, f: FileId)
    requires
        g0.wf(),
        g.wf(),
        g0.file_count() <= g.file_count(),
        forall|i: int| 0 <= i < g0.file_count() ==> #[trigger] g.files.view()[i] == g0.files.view()[i],
        forall|i: int| g0.file_count() <= i < g.file_count() ==> (#[trigger] g.files.view()[i]).input is None,
        f.0 < g.file_count(),
        g.name_of(f.0 as int) == name,
    ensures
        g.files.view()[f.0 as int].input == input_of(g0, name),
        g.spec_lookup(name) == Some(f),
{
    g.lemma_lookup_at(f.0 as int);
    if f.0 < g0.file_count() {
        assert(g0.name_of(f.0 as int) == name);
        g0.lemma_lookup_at(f.0 as int);
    } else {
        if exists|i: int| 0 <= i < g0.file_count() && #[trigger] g0.name_of(i) == name {
            let i = choose|i: int| 0 <= i < g0.file_count() && #[trigger] g0.name_of(i) == name;
            assert(g.name_of(i) == name);
            assert(g.name_of(i) != g.name_of(f.0 as int));
        }
    }
}

/// The relation between the graph being loaded and the one loading started
/// from that the scan of a record's outputs needs.
pub open spec fn grown_from(g0: &Graph, g: &Graph, ids: &IdMap, names: Seq<Seq<u8>>) -> bool {
    &&& g0.wf()
    &&& g.wf()
    &&& g0.file_count() <= g.file_count()
    &&& forall|i: int| 0 <= i < g0.file_count() ==> #[trigger] g.files.view()[i] == g0.files.view()[i]
    &&& forall|i: int| g0.file_count() <= i < g.file_count() ==> (#[trigger] g.files.view()[i]).input is None
    &&& ids.wf(g.file_count())
    &&& ids.fileids.view().len() == names.len()
    &&& forall|i: int| 0 <= i < names.len() ==> #[trigger] g.name_of(ids.fileids.view()[i].0 as int) == names[i]
}

/// Which build the record with outputs `outs` is about.
fn target_of(graph: &Graph, ids: &IdMap, outs: &[u32], Ghost(g0): Ghost<Graph>, Ghost(names): Ghost<Seq<Seq<u8>>>) -> (r: Option<Option<BuildId>>)
    requires
        grown_from(&g0, graph, ids, names),
    ensures
        r == record_target(outs@, names, &g0, 0, None),
        r matches Some(Some(b)) ==> b.0 < graph.build_count(),
{
    let mut uniq: Option<BuildId> = None;
    let mut k: usize = 0;
    while k < outs.len()
        invariant
            grown_from(&g0, graph, ids, names),
            k <= outs@.len(),
            record_target(outs@, names, &g0, 0, None) == record_target(outs@, names, &g0, k as int, uniq),
            uniq matches Some(b) ==> b.0 < graph.build_count(),
        decreases outs@.len() - k,
    {
        let o = outs[k];
        if o as usize >= ids.fileids.len() {
            return None;
        }
        let fid = *ids.fileids.get(&Id(o));
        proof {
            lemma_input_of(&g0, graph, names[o as int], fid);
            assert(file_ok(&graph.files.view()[fid.0 as int], graph.build_count()));
        }
        match graph.file(fid).input {
            None => {
                return Some(None);
            },
            Some(b) => match uniq {
                Some(u) => {
                    if u != b {
                        return Some(None);
                    }
                },
                None => {
                    uniq = Some(b);
                },
            },
        }
        k = k + 1;
    }
    Some(uniq)
}

/// The file ids of database ids `deps`, or None if one has no name.
fn files_for(ids: &IdMap, deps: &[u32]) -> (r: Option<Vec<FileId>>)
    ensures
        match r {
            None => !ids_named(deps@, ids.fileids.view().len() as int),
            Some(v) => ids_named(deps@, ids.fileids.view().len() as int) && v@ == files_of(
                deps@,
                ids.fileids.view(),
            ),
        },
{
    let mut v: Vec<FileId> = Vec::new();
    let mut k: usize = 0;
    while k < deps.len()
        invariant
            k <= deps@.len(),
            v@.len() == k,
            forall|j: int| 0 <= j < k ==> #[trigger] deps@[j] < ids.fileids.view().len(),
            forall|j: int| 0 <= j < k ==> #[trigger] v@[j] == ids.fileids.view()[deps@[j] as int],
        decreases deps@.len() - k,
    {
        let d = deps[k];
        if d as usize >= ids.fileids.len() {
            return None;
        }
        v.push(*ids.fileids.get(&Id(d)));
        k = k + 1;
    }
    assert(v@ =~= files_of(deps@, ids.fileids.view()));
    Some(v)
}

/// Load one record into `graph`, `hashes` and `ids`.
fn load_record(
    graph: &mut Graph,
    hashes: &mut Hashes,
    ids: &mut IdMap,
    rec: &Record,
    Ghost(g0): Ghost<Graph>,
    Ghost(h0): Ghost<Hashes>,
    Ghost(st): Ghost<DbState>,
) -> (r: Result<(), Vec<u8>>)
    requires
        g0.wf(),
        loaded(&g0, &h0, old(graph), old(hashes), old(ids), st),
        old(graph).file_count() + 1 < u32::MAX,
        old(ids).fileids.view().len() + 1 < u32::MAX,
    ensures
        final(ids).fileids.view().len() <= old(ids).fileids.view().len() + 1,
        match apply_record(st, rec.view(), &g0) {
            None => r matches Err(m) && m@ == "invalid db file id".spec_bytes(),
            Some(st2) => r is Ok && loaded(&g0, &h0, final(graph), final(hashes), final(ids), st2),
        },
        final(graph).file_count() <= old(graph).file_count() + 1,
{
    match rec {
        Record::Path(name) => {
            let ghost g1 = *graph;
            let fid = graph.file_id(name.clone());
            let ghost i = ids.fileids.view().len();
            let id = ids.fileids.push(fid);
            ids.db_ids.insert(fid.0, id);
            proof {
                let st2 = DbState { names: st.names.push(name@), assigned: st.assigned };
                assert forall|k: int| 0 <= k < st2.names.len() implies #[trigger] graph.name_of(
                    ids.fileids.view()[k].0 as int,
                ) == st2.names[k] by {
                    if k < st.names.len() {
                        assert(g1.name_of(ids.fileids.view()[k].0 as int) == st.names[k]);
                    }
                }
                assert forall|k: u32| #[trigger] ids.db_ids@.contains_key(k) implies ids.db_ids@[k].0
                    < ids.fileids.view().len() && ids.fileids.view()[ids.db_ids@[k].0 as int].0 == k by {
                    if k != fid.0 {
                        assert(old(ids).db_ids@.contains_key(k));
                    }
                }
                assert forall|k: int| 0 <= k < ids.fileids.view().len() implies ids.db_ids@.contains_key(
                    (#[trigger] ids.fileids.view()[k]).0,
                ) by {
                    if k < i {
                        assert(old(ids).db_ids@.contains_key(old(ids).fileids.view()[k].0));
                    }
                }
                assert forall|k: int| 0 <= k < ids.fileids.view().len() implies (#[trigger] ids.fileids.view()[k]).0
                    < graph.file_count() by {
                    if k < i {
                        assert(old(ids).fileids.view()[k].0 < g1.file_count());
                    }
                }
                assert forall|b: int| 0 <= b < graph.build_count() implies same_but_discovered(
                    &g0.builds.view()[b],
                    &#[trigger] graph.builds.view()[b],
                ) && graph.builds.view()[b].discovered_ins@ == if st2.assigned.contains_key(b as u32) {
                    files_of(st2.assigned[b as u32].0, ids.fileids.view())
                } else {
                    g0.builds.view()[b].discovered_ins@
                } by {
                    assert(graph.builds.view()[b] == g1.builds.view()[b]);
                    if st.assigned.contains_key(b as u32) {
                        let ds = st.assigned[b as u32].0;
                        assert(ids_named(ds, st.names.len() as int));
                        assert(files_of(ds, ids.fileids.view()) =~= files_of(ds, old(ids).fileids.view()));
                    }
                }
                assert forall|k: u32| #[trigger] st2.assigned.contains_key(k) implies ids_named(
                    st2.assigned[k].0,
                    st2.names.len() as int,
                ) by {
                    assert(ids_named(st.assigned[k].0, st.names.len() as int));
                }
                assert forall|x: int| g0.file_count() <= x < graph.file_count() implies (
                #[trigger] graph.files.view()[x]).input is None by {
                    if x < g1.file_count() {
                        assert(graph.files.view()[x] == g1.files.view()[x]);
                    }
                }
                assert forall|x: int| 0 <= x < g0.file_count() implies #[trigger] graph.files.view()[x]
                    == g0.files.view()[x] by {
                    assert(graph.files.view()[x] == g1.files.view()[x]);
                }
                assert(loaded(&g0, &h0, graph, hashes, ids, st2));
            }
            Ok(())
        },
        Record::Build(outs, deps, hash) => {
            let target = target_of(graph, ids, outs.as_slice(), Ghost(g0), Ghost(st.names));
            let t = match target {
                None => {
                    return Err(bytes_of("invalid db file id"));
                },
                Some(t) => t,
            };
            let files = match files_for(ids, deps.as_slice()) {
                None => {
                    return Err(bytes_of("invalid db file id"));
                },
                Some(v) => v,
            };
            match t {
                None => {},
                Some(b) => {
                    let ghost g1 = *graph;
                    proof {
                        assert forall|j: int| 0 <= j < files@.len() implies (#[trigger] files@[j]).0
                            < graph.file_count() by {
                            assert(deps@[j] < ids.fileids.view().len());
                        }
                    }
                    graph.set_discovered(b, files);
                    hashes.set(b, crate::graph::Hash(*hash));
                    proof {
                        let st2 = DbState {
                            names: st.names,
                            assigned: st.assigned.insert(b.0, (deps@, *hash)),
                        };
                        assert forall|x: int| 0 <= x < graph.build_count() implies same_but_discovered(
                            &g0.builds.view()[x],
                            &#[trigger] graph.builds.view()[x],
                        ) && graph.builds.view()[x].discovered_ins@ == if st2.assigned.contains_key(x as u32) {
                            files_of(st2.assigned[x as u32].0, ids.fileids.view())
                        } else {
                            g0.builds.view()[x].discovered_ins@
                        } by {
                            assert(same_but_discovered(&g0.builds.view()[x], &g1.builds.view()[x]));
                            if x != b.0 {
                                assert(graph.builds.view()[x] == g1.builds.view()[x]);
                                assert(x as u32 != b.0);
                            }
                        }
                        assert(hashes.view() =~= hashes_after(h0.view(), st2.assigned));
                        assert forall|x: int| 0 <= x < graph.file_count() implies #[trigger] graph.name_of(x)
                            == g1.name_of(x) by {}
                        assert(loaded(&g0, &h0, graph, hashes, ids, st2));
                    }
                },
            }
            Ok(())
        },
    }
}

/// What reading a cut-short file gives.
pub open spec fn eof_message() -> Seq<u8> {
    "failed to fill whole buffer".spec_bytes()
}

/// What a database file holds: its records, or the error reading it gives.
pub open spec fn db_contents(b: Seq<u8>) -> Result<Seq<DbRecord>, Seq<u8>> {
    if b.len() < 4 {
        Err(eof_message())
    } else if b.subrange(0, 4) != "n2db".spec_bytes() {
        Err("invalid db signature".spec_bytes())
    } else if b.len() < 8 {
        Err(eof_message())
    } else if le_value(b.subrange(4, 8)) != VERSION {
        Err(
            "db version mismatch: got ".spec_bytes() + spec_decimal(le_value(b.subrange(4, 8)))
                + ", expected 1".spec_bytes(),
        )
    } else {
        match parse_records(b, 8) {
            Some(rs) => Ok(rs),
            None => Err(eof_message()),
        }
    }
}

/// What loading the records of a database file into `g` gives: None if
/// one of them names an id without a name.
pub open spec fn db_state(recs: Seq<DbRecord>, g: &Graph) -> Option<DbState> {
    apply_records(empty_state(), recs, g)
}

proof fn lemma_parse_records_len(b: Seq<u8>, p: int)
    requires
        0 <= p <= b.len(),
    ensures
        parse_records(b, p) matches Some(rs) ==> 2 * rs.len() <= b.len() - p,
    decreases b.len() - p,
{
    if b.len() - p >= 2 && record_end(b, p) <= b.len() {
        lemma_parse_records_len(b, record_end(b, p));
    }
}

proof fn lemma_apply_none(st: DbState, recs: Seq<DbRecord>, k: int, g: &Graph)
    requires
        0 <= k <= recs.len(),
        apply_records(st, recs.take(k), g) is None,
    ensures
        apply_records(st, recs, g) is None,
    decreases recs.len() - k,
{
    if k < recs.len() {
        assert(recs.take(k + 1).drop_last() =~= recs.take(k));
        lemma_apply_none(st, recs, k + 1, g);
    } else {
        assert(recs.take(k) =~= recs);
    }
}

/// Load `recs` into `graph` and `hashes`, returning the database ids.
fn load_records(graph: &mut Graph, hashes: &mut Hashes, recs: &Vec<Record>) -> (r: Result<IdMap, Vec<u8>>)
    requires
        old(graph).wf(),
        old(graph).file_count() + recs@.len() + 1 < u32::MAX,
    ensures
        match db_state(records_view(recs@), old(graph)) {
            None => r matches Err(m) && m@ == "invalid db file id".spec_bytes(),
            Some(st) => r matches Ok(ids) && loaded(old(graph), old(hashes), final(graph), final(hashes), &ids, st),
        },
{
    let ghost g0 = *graph;
    let ghost h0 = *hashes;
    let ghost rv = records_view(recs@);
    let mut ids = IdMap::new();
    let ghost mut st = empty_state();
    proof {
        assert(rv.take(0) =~= Seq::<DbRecord>::empty());
        assert(hashes.view() =~= hashes_after(h0.view(), st.assigned));
        assert forall|x: int| 0 <= x < graph.build_count() implies same_but_discovered(
            &g0.builds.view()[x],
            &#[trigger] graph.builds.view()[x],
        ) by {}
    }
    let mut k: usize = 0;
    while k < recs.len()
        invariant
            g0.wf(),
            g0 == *old(graph),
            h0 == *old(hashes),
            k <= recs@.len(),
            rv == records_view(recs@),
            g0.file_count() + recs@.len() + 1 < u32::MAX,
            apply_records(empty_state(), rv.take(k as int), &g0) == Some(st),
            loaded(&g0, &h0, graph, hashes, &ids, st),
            graph.file_count() <= g0.file_count() + k,
            ids.fileids.view().len() <= k,
        decreases recs@.len() - k,
    {
        let ghost before = st;
        let res = load_record(graph, hashes, &mut ids, &recs[k], Ghost(g0), Ghost(h0), Ghost(st));
        proof {
            assert(rv.take(k + 1).drop_last() =~= rv.take(k as int));
            assert(rv.take(k + 1).last() == recs@[k as int].view());
        }
        match res {
            Err(e) => {
                proof {
                    assert(apply_record(before, recs@[k as int].view(), &g0) is None);
                    assert(apply_records(empty_state(), rv.take(k + 1), &g0) is None);
                    lemma_apply_none(empty_state(), rv, k + 1, &g0);
                    assert(g0 == *old(graph));
                }
                return Err(e);
            },
            Ok(()) => {},
        }
        proof {
            st = apply_record(before, recs@[k as int].view(), &g0).unwrap();
        }
        k = k + 1;
    }
    assert(rv.take(k as int) =~= rv);
    Ok(ids)
}

/// Check the signature and version at the start of `b`.
fn read_signature(b: &[u8]) -> (r: Result<(), Vec<u8>>)
    ensures
        r is Ok <==> (b@.len() >= 8 && b@.subrange(0, 4) == "n2db".spec_bytes() && le_value(b@.subrange(4, 8))
            == VERSION),
        r matches Err(e) ==> db_contents(b@) == Err::<Seq<DbRecord>, Seq<u8>>(e@),
{
    if b.len() < 4 {
        return Err(bytes_of("failed to fill whole buffer"));
    }
    if !bytes_eq(vstd::slice::slice_subrange(b, 0, 4), "n2db".as_bytes()) {
        return Err(bytes_of("invalid db signature"));
    }
    if b.len() < 8 {
        return Err(bytes_of("failed to fill whole buffer"));
    }
    let version = read_le(b, 4, 4);
    if version != VERSION as u64 {
        let mut msg = bytes_of("db version mismatch: got ");
        push_decimal_u64(&mut msg, version);
        push_bytes(&mut msg, ", expected 1");
        return Err(msg);
    }
    Ok(())
}

/// Reads an on-disk database, loading its state into the provided graph
/// and hashes.
pub fn read(b: &[u8], graph: &mut Graph, hashes: &mut Hashes) -> (r: Result<IdMap, Vec<u8>>)
    requires
        old(graph).wf(),
        old(graph).file_count() + b@.len() + 1 < u32::MAX,
    ensures
        match db_contents(b@) {
            Err(e) => r matches Err(m) && m@ == e,
            Ok(recs) => match db_state(recs, old(graph)) {
                None => r matches Err(m) && m@ == "invalid db file id".spec_bytes(),
                Some(st) => r matches Ok(ids) && loaded(old(graph), old(hashes), final(graph), final(hashes), &ids, st),
            },
        },
{
    match read_signature(b) {
        Err(e) => {
            return Err(e);
        },
        Ok(()) => {},
    }
    let recs = match read_records(b, 8) {
        None => {
            return Err(bytes_of("failed to fill whole buffer"));
        },
        Some(v) => v,
    };
    proof {
        lemma_parse_records_len(b@, 8);
    }
    load_records(graph, hashes, &recs)
}

/// RecordWriter buffers writes into a Vec<u8>.
/// A full record is handed on at once, to lessen the chance of writing
/// partial records.
pub struct RecordWriter(pub Vec<u8>);

impl RecordWriter {
    pub fn new() -> (r: RecordWriter)
        ensures
            r.0@.len() == 0,
    {
        RecordWriter(Vec::new())
    }

    fn write(&mut self, buf: &[u8])
        ensures
            final(self).0@ == old(self).0@ + buf@,
    {
        push_slice(&mut self.0, buf);
    }

    fn write_u16(&mut self, n: u16)
        ensures
            final(self).0@ == old(self).0@ + le_bytes(n as nat, 2),
    {
        push_le(&mut self.0, n as u64, 2);
    }

    fn write_u24(&mut self, n: u32)
        ensures
            final(self).0@ == old(self).0@ + le_bytes(n as nat, 3),
    {
        push_le(&mut self.0, n as u64, 3);
    }

    fn write_u64(&mut self, n: u64)
        ensures
            final(self).0@ == old(self).0@ + le_bytes(n as nat, 8),
    {
        push_le(&mut self.0, n, 8);
    }

    fn write_str(&mut self, s: &[u8])
        ensures
            final(self).0@ == old(self).0@ + le_bytes((s@.len() as u16) as nat, 2) + s@,
    {
        self.write_u16(s.len() as u16);
        self.write(s);
    }

    fn write_id(&mut self, id: Id)
        requires
            id.0 <= 0x1000000,
        ensures
            final(self).0@ == old(self).0@ + le_bytes(id.0 as nat, 3),
    {
        self.write_u24(id.0);
    }

    /// Hand the record on to `w`.
    fn finish(&self, w: &mut Vec<u8>)
        ensures
            final(w)@ == old(w)@ + self.0@,
    {
        push_slice(w, self.0.as_slice());
    }
}

/// Ids given to files: a file already known keeps its id, another gets the
/// next one.  Returns the known files, the files by id, and the id.
pub open spec fn assign_step(known: Map<u32, Id>, fileids: Seq<FileId>, f: FileId) -> (Map<u32, Id>, Seq<FileId>, u32) {
    if known.contains_key(f.0) {
        (known, fileids, known[f.0].0)
    } else {
        (known.insert(f.0, Id(fileids.len() as u32)), fileids.push(f), fileids.len() as u32)
    }
}

/// Ids given to `files` in turn.
pub open spec fn assign_all(known: Map<u32, Id>, fileids: Seq<FileId>, files: Seq<FileId>) -> (
    Map<u32, Id>,
    Seq<FileId>,
    Seq<u32>,
)
    decreases files.len(),
{
    if files.len() == 0 {
        (known, fileids, Seq::empty())
    } else {
        let (k, f, ids) = assign_all(known, fileids, files.drop_last());
        let (k2, f2, i) = assign_step(k, f, files.last());
        (k2, f2, ids.push(i))
    }
}

proof fn lemma_assign_all(known: Map<u32, Id>, fileids: Seq<FileId>, files: Seq<FileId>)
    ensures
        ({
            let (k, fs, ids) = assign_all(known, fileids, files);
            &&& fileids.len() <= fs.len() <= fileids.len() + files.len()
            &&& fs.subrange(0, fileids.len() as int) == fileids
            &&& ids.len() == files.len()
        }),
    decreases files.len(),
{
    if files.len() > 0 {
        lemma_assign_all(known, fileids, files.drop_last());
        let (k, fs, ids) = assign_all(known, fileids, files.drop_last());
        assert(fs.push(files.last()).subrange(0, fileids.len() as int) =~= fs.subrange(0, fileids.len() as int));
    }
}

proof fn lemma_assign_concat(known: Map<u32, Id>, fileids: Seq<FileId>, a: Seq<FileId>, b: Seq<FileId>)
    ensures
        ({
            let (k1, f1, i1) = assign_all(known, fileids, a);
            let (k2, f2, i2) = assign_all(k1, f1, b);
            assign_all(known, fileids, a + b) == (k2, f2, i1 + i2)
        }),
    decreases b.len(),
{
    if b.len() == 0 {
        assert(a + b =~= a);
        let (k1, f1, i1) = assign_all(known, fileids, a);
        assert(i1 + Seq::<u32>::empty() =~= i1);
    } else {
        lemma_assign_concat(known, fileids, a, b.drop_last());
        assert((a + b).drop_last() =~= a + b.drop_last());
        assert((a + b).last() == b.last());
        let (k1, f1, i1) = assign_all(known, fileids, a);
        let (k2, f2, i2) = assign_all(k1, f1, b.drop_last());
        let (k3, f3, i) = assign_step(k2, f2, b.last());
        assert((i1 + i2).push(i) =~= i1 + i2.push(i));
    }
}

proof fn lemma_records_bytes_concat(a: Seq<DbRecord>, b: Seq<DbRecord>)
    ensures
        records_bytes(a + b) == records_bytes(a) + records_bytes(b),
    decreases b.len(),
{
    if b.len() == 0 {
        assert(a + b =~= a);
        assert(records_bytes(a) + records_bytes(b) =~= records_bytes(a));
    } else {
        lemma_records_bytes_concat(a, b.drop_last());
        assert((a + b).drop_last() =~= a + b.drop_last());
        assert((a + b).last() == b.last());
        assert(records_bytes(a + b) =~= records_bytes(a) + records_bytes(b));
    }
}

/// The path records naming `fs` in `g`.
pub open spec fn path_records(g: &Graph, fs: Seq<FileId>) -> Seq<DbRecord> {
    fs.map_values(|f: FileId| DbRecord::Path(g.name_of(f.0 as int)))
}

/// The records written for build `b` of `g` with hash `hash`, when the
/// files known so far are `known` with ids `fileids`: a path record for
/// each file that gets a new id, then the build record.
pub open spec fn build_records(g: &Graph, b: BuildId, hash: u64, known: Map<u32, Id>, fileids: Seq<FileId>) -> Seq<
    DbRecord,
> {
    let build = g.builds.view()[b.0 as int];
    let outs = build.outs.ids@;
    let deps = build.discovered_ins@;
    let (k, fs, ids) = assign_all(known, fileids, outs + deps);
    path_records(g, fs.subrange(fileids.len() as int, fs.len() as int)).push(
        DbRecord::Build(ids.take(outs.len() as int), ids.skip(outs.len() as int), hash),
    )
}

/// What the writer knows after writing build `b`: the known files and the
/// files by id.
pub open spec fn ids_after_build(g: &Graph, b: BuildId, known: Map<u32, Id>, fileids: Seq<FileId>) -> (
    Map<u32, Id>,
    Seq<FileId>,
) {
    let build = g.builds.view()[b.0 as int];
    let (k, fs, ids) = assign_all(known, fileids, build.outs.ids@ + build.discovered_ins@);
    (k, fs)
}

/// Every file of build `b` has a name that a path record can hold.
pub open spec fn names_fit(g: &Graph, b: BuildId) -> bool {
    let build = g.builds.view()[b.0 as int];
    &&& forall|i: int| 0 <= i < build.outs.ids@.len() ==> g.name_of((#[trigger] build.outs.ids@[i]).0 as int).len() < 0x8000
    &&& forall|i: int|
        0 <= i < build.discovered_ins@.len() ==> g.name_of((#[trigger] build.discovered_ins@[i]).0 as int).len()
            < 0x8000
}

/// An opened database, ready for writes.  What it writes collects in
/// `out`, for the caller to append to the file.
pub struct Writer {
    pub ids: IdMap,
    pub out: Vec<u8>,
}

impl Writer {
    /// A writer for a new file: it starts with the signature.
    pub fn create() -> (r: Writer)
        ensures
            r.out@ == signature_bytes(),
            r.ids.fileids.view().len() == 0,
            r.ids.db_ids@ == Map::<u32, Id>::empty(),
    {
        let mut w = Writer::from_opened(IdMap::new());
        w.write_signature();
        w
    }

    /// A writer for a file that was read, with the ids read from it.
    pub fn from_opened(ids: IdMap) -> (r: Writer)
        ensures
            r.ids == ids,
            r.out@.len() == 0,
    {
        Writer { ids, out: Vec::new() }
    }

    fn write_signature(&mut self)
        ensures
            final(self).out@ == old(self).out@ + signature_bytes(),
            final(self).ids == old(self).ids,
    {
        push_bytes(&mut self.out, "n2db");
        push_le(&mut self.out, VERSION as u64, 4);
    }

    fn write_path(&mut self, name: &[u8])
        requires
            name@.len() < 0x8000,
        ensures
            final(self).out@ == old(self).out@ + record_bytes(DbRecord::Path(name@)),
            final(self).ids == old(self).ids,
    {
        let mut w = RecordWriter::new();
        w.write_str(name);
        w.finish(&mut self.out);
        assert((name@.len() as u16) as nat == name@.len());
    }

    fn ensure_id(&mut self, graph: &Graph, file: FileId) -> (r: Id)
        requires
            graph.wf(),
            old(self).ids.wf(graph.file_count()),
            file.0 < graph.file_count(),
            graph.name_of(file.0 as int).len() < 0x8000,
            old(self).ids.fileids.view().len() + 1 < u32::MAX,
        ensures
            (final(self).ids.db_ids@, final(self).ids.fileids.view(), r.0) == assign_step(
                old(self).ids.db_ids@,
                old(self).ids.fileids.view(),
                file,
            ),
            final(self).out@ == old(self).out@ + if old(self).ids.db_ids@.contains_key(file.0) {
                Seq::empty()
            } else {
                record_bytes(DbRecord::Path(graph.name_of(file.0 as int)))
            },
            final(self).ids.wf(graph.file_count()),
    {
        match self.ids.db_ids.get(&file.0) {
            Some(id) => {
                assert(self.out@ =~= old(self).out@ + Seq::<u8>::empty());
                *id
            },
            None => {
                let ghost ids0 = self.ids;
                let id = self.ids.fileids.push(file);
                self.ids.db_ids.insert(file.0, id);
                proof {
                    assert forall|k: u32| #[trigger] self.ids.db_ids@.contains_key(k) implies self.ids.db_ids@[k].0
                        < self.ids.fileids.view().len() && self.ids.fileids.view()[self.ids.db_ids@[k].0 as int].0
                        == k by {
                        if k != file.0 {
                            assert(ids0.db_ids@.contains_key(k));
                        }
                    }
                    assert forall|i: int| 0 <= i < self.ids.fileids.view().len() implies self.ids.db_ids@.contains_key(
                        (#[trigger] self.ids.fileids.view()[i]).0,
                    ) by {
                        if i < ids0.fileids.view().len() {
                            assert(ids0.db_ids@.contains_key(ids0.fileids.view()[i].0));
                        }
                    }
                }
                self.write_path(graph.file(file).name.as_slice());
                id
            },
        }
    }

    /// Give each of `files` its id, writing a path record for each new
    /// one, and append the ids to `w`.
    fn write_file_ids(&mut self, graph: &Graph, files: &[FileId], w: &mut RecordWriter)
        requires
            graph.wf(),
            old(self).ids.wf(graph.file_count()),
            ids_below(files@, graph.file_count()),
            forall|i: int| 0 <= i < files@.len() ==> graph.name_of((#[trigger] files@[i]).0 as int).len() < 0x8000,
            old(self).ids.fileids.view().len() + files@.len() <= 0x1000001,
        ensures
            ({
                let (kk, fs, ids) = assign_all(old(self).ids.db_ids@, old(self).ids.fileids.view(), files@);
                &&& final(self).ids.db_ids@ == kk
                &&& final(self).ids.fileids.view() == fs
                &&& final(self).out@ == old(self).out@ + records_bytes(
                    path_records(graph, fs.subrange(old(self).ids.fileids.view().len() as int, fs.len() as int)),
                )
                &&& final(w).0@ == old(w).0@ + ids_bytes(ids)
            }),
            final(self).ids.wf(graph.file_count()),
            final(self).ids.fileids.view().len() <= old(self).ids.fileids.view().len() + files@.len(),
    {
        let ghost k0 = self.ids.db_ids@;
        let ghost f0 = self.ids.fileids.view();
        let ghost l0 = f0.len() as int;
        let ghost out0 = self.out@;
        let ghost w0 = w.0@;
        proof {
            assert(files@.take(0) =~= Seq::<FileId>::empty());
            assert(f0.subrange(l0, l0) =~= Seq::<FileId>::empty());
            assert(path_records(graph, Seq::<FileId>::empty()) =~= Seq::<DbRecord>::empty());
            assert(self.out@ =~= out0 + records_bytes(Seq::<DbRecord>::empty()));
            assert(w.0@ =~= w0 + ids_bytes(Seq::<u32>::empty()));
        }
        let mut k: usize = 0;
        while k < files.len()
            invariant
                graph.wf(),
                ids_below(files@, graph.file_count()),
                forall|i: int| 0 <= i < files@.len() ==> graph.name_of((#[trigger] files@[i]).0 as int).len() < 0x8000,
                k <= files@.len(),
                l0 == f0.len(),
                l0 + files@.len() <= 0x1000001,
                self.ids.wf(graph.file_count()),
                ({
                    let (kk, fs, ids) = assign_all(k0, f0, files@.take(k as int));
                    &&& self.ids.db_ids@ == kk
                    &&& self.ids.fileids.view() == fs
                    &&& l0 <= fs.len() <= l0 + k
                    &&& self.out@ == out0 + records_bytes(path_records(graph, fs.subrange(l0, fs.len() as int)))
                    &&& w.0@ == w0 + ids_bytes(ids)
                }),
            decreases files@.len() - k,
        {
            let ghost before = assign_all(k0, f0, files@.take(k as int));
            proof {
                assert(files@.take(k + 1).drop_last() =~= files@.take(k as int));
                assert(files@.take(k + 1).last() == files@[k as int]);
                lemma_assign_all(k0, f0, files@.take(k as int));
            }
            let ghost ob = self.out@;
            let i = self.ensure_id(graph, files[k]);
            proof {
                assert(before.2.push(i.0).drop_last() =~= before.2);
                let fs = before.1;
                let fs2 = self.ids.fileids.view();
                if before.0.contains_key(files@[k as int].0) {
                    assert(self.out@ =~= ob);
                } else {
                    assert(fs2.subrange(l0, fs2.len() as int) =~= fs.subrange(l0, fs.len() as int).push(files@[k as int]));
                    let pr = path_records(graph, fs.subrange(l0, fs.len() as int));
                    let pr2 = path_records(graph, fs2.subrange(l0, fs2.len() as int));
                    let rec = DbRecord::Path(graph.name_of(files@[k as int].0 as int));
                    assert(pr2 =~= pr.push(rec));
                    assert(pr2.drop_last() =~= pr);
                    assert(records_bytes(pr2) == records_bytes(pr) + record_bytes(rec));
                    assert(self.out@ =~= out0 + records_bytes(pr2));
                }
            }
            w.write_id(i);
            k = k + 1;
            proof {
                assert(w.0@ =~= w0 + ids_bytes(assign_all(k0, f0, files@.take(k as int)).2));
                lemma_assign_all(k0, f0, files@.take(k as int));
                let (kk, fs, ids) = assign_all(k0, f0, files@.take(k as int));
                assert(self.ids.db_ids@ == kk);
                assert(self.ids.fileids.view() == fs);
                assert(l0 <= fs.len() <= l0 + k);
                assert(self.out@ == out0 + records_bytes(path_records(graph, fs.subrange(l0, fs.len() as int))));
            }
        }
        assert(files@.take(k as int) =~= files@);
    }

    /// Whether build `id` can be written: its file names fit a path record
    /// and the ids it may need fit 24 bits.
    pub fn can_write_build(&self, graph: &Graph, id: BuildId) -> (r: bool)
        requires
            graph.wf(),
            id.0 < graph.build_count(),
        ensures
            r == (names_fit(graph, id) && self.ids.fileids.view().len() + graph.builds.view()[id.0 as int].outs.ids@.len()
                + graph.builds.view()[id.0 as int].discovered_ins@.len() <= 0x1000001),
    {
        let build = graph.build(id);
        proof {
            assert(crate::graph::build_ok(build, graph.file_count()));
        }
        let outs = build.outs();
        let deps = build.discovered_ins();
        let mut k: usize = 0;
        while k < outs.len()
            invariant
                graph.wf(),
                build == &graph.builds.view()[id.0 as int],
                crate::graph::build_ok(build, graph.file_count()),
                outs@ == build.outs.ids@,
                k <= outs@.len(),
                forall|i: int| 0 <= i < k ==> graph.name_of((#[trigger] build.outs.ids@[i]).0 as int).len() < 0x8000,
            decreases outs@.len() - k,
        {
            if graph.file(outs[k]).name.len() >= 0x8000 {
                return false;
            }
            k = k + 1;
        }
        let mut k: usize = 0;
        while k < deps.len()
            invariant
                graph.wf(),
                build == &graph.builds.view()[id.0 as int],
                crate::graph::build_ok(build, graph.file_count()),
                deps@ == build.discovered_ins@,
                k <= deps@.len(),
                forall|i: int| 0 <= i < build.outs.ids@.len() ==> graph.name_of((#[trigger] build.outs.ids@[i]).0 as int).len() < 0x8000,
                forall|i: int| 0 <= i < k ==> graph.name_of((#[trigger] build.discovered_ins@[i]).0 as int).len() < 0x8000,
            decreases deps@.len() - k,
        {
            if graph.file(deps[k]).name.len() >= 0x8000 {
                return false;
            }
            k = k + 1;
        }
        let n = self.ids.fileids.len();
        n <= 0x1000001 && outs.len() <= 0x1000001 - n && deps.len() <= 0x1000001 - n - outs.len()
    }

    /// Record build `id` with hash `hash`: a path record for each of its
    /// files new to the database, then the build record.
    pub fn write_build(&mut self, graph: &Graph, id: BuildId, hash: BuildHash)
        requires
            graph.wf(),
            id.0 < graph.build_count(),
            old(self).ids.wf(graph.file_count()),
            names_fit(graph, id),
            old(self).ids.fileids.view().len() + graph.builds.view()[id.0 as int].outs.ids@.len()
                + graph.builds.view()[id.0 as int].discovered_ins@.len() <= 0x1000001,
        ensures
            final(self).out@ == old(self).out@ + records_bytes(
                build_records(graph, id, hash.0, old(self).ids.db_ids@, old(self).ids.fileids.view()),
            ),
            (final(self).ids.db_ids@, final(self).ids.fileids.view()) == ids_after_build(
                graph,
                id,
                old(self).ids.db_ids@,
                old(self).ids.fileids.view(),
            ),
            final(self).ids.wf(graph.file_count()),
    {
        let build = graph.build(id);
        let ghost k0 = self.ids.db_ids@;
        let ghost f0 = self.ids.fileids.view();
        let ghost out0 = self.out@;
        let outs = build.outs();
        let deps = build.discovered_ins();
        proof {
            assert(build_ok(build, graph.file_count()));
        }
        let mut w = RecordWriter::new();
        let mark = (outs.len() as u16) | 0x8000u16;
        w.write_u16(mark);
        let ghost w1 = w.0@;
        self.write_file_ids(graph, outs, &mut w);
        let ghost out1 = self.out@;
        let ghost w2 = w.0@;
        let ghost s1 = assign_all(k0, f0, outs@);
        w.write_u16(deps.len() as u16);
        let ghost w3 = w.0@;
        self.write_file_ids(graph, deps, &mut w);
        let ghost s2 = assign_all(s1.0, s1.1, deps@);
        w.write_u64(hash.0);
        proof {
            lemma_assign_concat(k0, f0, outs@, deps@);
            lemma_assign_all(k0, f0, outs@);
            lemma_assign_all(s1.0, s1.1, deps@);
            let ids = s1.2 + s2.2;
            assert(ids.take(outs@.len() as int) =~= s1.2);
            assert(ids.skip(outs@.len() as int) =~= s2.2);
            let rec = DbRecord::Build(s1.2, s2.2, hash.0);
            assert(w.0@ =~= record_bytes(rec));
            let l0 = f0.len() as int;
            let l1 = s1.1.len() as int;
            let l2 = s2.1.len() as int;
            assert(s2.1.subrange(0, l1) == s1.1);
            assert(s2.1.subrange(l0, l1) =~= s1.1.subrange(l0, l1));
            assert(path_records(graph, s2.1.subrange(l0, l2)) =~= path_records(graph, s1.1.subrange(l0, l1))
                + path_records(graph, s2.1.subrange(l1, l2)));
            lemma_records_bytes_concat(
                path_records(graph, s1.1.subrange(l0, l1)),
                path_records(graph, s2.1.subrange(l1, l2)),
            );
        }
        w.finish(&mut self.out);
        proof {
            let l0 = f0.len() as int;
            let l1 = s1.1.len() as int;
            let l2 = s2.1.len() as int;
            let p1 = path_records(graph, s1.1.subrange(l0, l1));
            let p2 = path_records(graph, s2.1.subrange(l1, l2));
            let paths = path_records(graph, s2.1.subrange(l0, l2));
            let rec = DbRecord::Build(s1.2, s2.2, hash.0);
            assert(out1 == out0 + records_bytes(p1));
            assert(paths == p1 + p2);
            assert(records_bytes(paths) == records_bytes(p1) + records_bytes(p2));
            assert(paths.push(rec).drop_last() =~= paths);
            assert(records_bytes(paths.push(rec)) == records_bytes(paths) + record_bytes(rec));
            assert(self.out@ =~= out0 + records_bytes(paths.push(rec)));
        }
    }
}

/// Opens a database: with no file yet, a writer for a new one; else the
/// file's contents are read into `graph` and `hashes`, and the writer
/// carries on from the ids read.
pub fn open(contents: Option<&[u8]>, graph: &mut Graph, hashes: &mut Hashes) -> (r: Result<Writer, Vec<u8>>)
    requires
        old(graph).wf(),
        contents matches Some(b) ==> old(graph).file_count() + b@.len() + 1 < u32::MAX,
    ensures
        r matches Ok(w) ==> w.ids.wf(final(graph).file_count()) && final(graph).wf(),
        match contents {
            None => r matches Ok(w) && w.out@ == signature_bytes() && w.ids.fileids.view().len() == 0
                && w.ids.db_ids@ == Map::<u32, Id>::empty() && *final(graph) == *old(graph) && *final(hashes)
                == *old(hashes),
            Some(b) => match db_contents(b@) {
                Err(e) => r matches Err(m) && m@ == e,
                Ok(recs) => match db_state(recs, old(graph)) {
                    None => r matches Err(m) && m@ == "invalid db file id".spec_bytes(),
                    Some(st) => r matches Ok(w) && w.out@.len() == 0 && loaded(
                        old(graph),
                        old(hashes),
                        final(graph),
                        final(hashes),
                        &w.ids,
                        st,
                    ),
                },
            },
        },
{
    match contents {
        None => Ok(Writer::create()),
        Some(b) => {
            let ids = read(b, graph, hashes)?;
            Ok(Writer::from_opened(ids))
        },
    }
}

/// The known files map each to an id that names it, and every id's file
/// is known.
pub open spec fn known_ok(known: Map<u32, Id>, fileids: Seq<FileId>) -> bool {
    &&& forall|k: u32|
        #[trigger] known.contains_key(k) ==> known[k].0 < fileids.len() && fileids[known[k].0 as int].0 == k
    &&& forall|i: int| 0 <= i < fileids.len() ==> known.contains_key((#[trigger] fileids[i]).0)
}

proof fn lemma_assign_props(known: Map<u32, Id>, fileids: Seq<FileId>, files: Seq<FileId>)
    requires
        known_ok(known, fileids),
        fileids.len() + files.len() < u32::MAX,
    ensures
        ({
            let (k, fs, ids) = assign_all(known, fileids, files);
            &&& known_ok(k, fs)
            &&& forall|j: int| 0 <= j < files.len() ==> #[trigger] ids[j] < fs.len() && fs[ids[j] as int] == files[j]
            &&& forall|i: int| fileids.len() <= i < fs.len() ==> files.contains(#[trigger] fs[i])
        }),
    decreases files.len(),
{
    lemma_assign_all(known, fileids, files);
    if files.len() > 0 {
        let init = files.drop_last();
        lemma_assign_props(known, fileids, init);
        lemma_assign_all(known, fileids, init);
        let (k, fs, ids) = assign_all(known, fileids, init);
        let f = files.last();
        let (k2, fs2, i) = assign_step(k, fs, f);
        if k.contains_key(f.0) {
            assert(fs[k[f.0].0 as int] == f);
        } else {
            assert forall|x: u32| #[trigger] k2.contains_key(x) implies k2[x].0 < fs2.len() && fs2[k2[x].0 as int].0
                == x by {
                if x != f.0 {
                    assert(k.contains_key(x));
                }
            }
            assert forall|y: int| 0 <= y < fs2.len() implies k2.contains_key((#[trigger] fs2[y]).0) by {
                if y < fs.len() {
                    assert(k.contains_key(fs[y].0));
                }
            }
        }
        assert forall|y: int| fileids.len() <= y < fs2.len() implies files.contains(#[trigger] fs2[y]) by {
            if y < fs.len() {
                assert(init.contains(fs[y]));
                let j = choose|j: int| 0 <= j < init.len() && init[j] == fs[y];
                assert(files[j] == fs[y]);
            } else {
                assert(fs2[y] == f);
                assert(files[files.len() - 1] == f);
            }
        }
        let ids2 = ids.push(i);
        assert forall|j: int| 0 <= j < files.len() implies #[trigger] ids2[j] < fs2.len() && fs2[ids2[j] as int]
            == files[j] by {
            if j < init.len() {
                assert(ids2[j] == ids[j]);
                assert(init[j] == files[j]);
                assert(fs2[ids[j] as int] == fs[ids[j] as int]);
            }
        }
    }
}

proof fn lemma_apply_paths(st: DbState, g: &Graph, fs: Seq<FileId>)
    ensures
        apply_records(st, path_records(g, fs), g) == Some(
            DbState { names: st.names + fs.map_values(|f: FileId| g.name_of(f.0 as int)), assigned: st.assigned },
        ),
    decreases fs.len(),
{
    let names = |f: FileId| g.name_of(f.0 as int);
    if fs.len() == 0 {
        assert(path_records(g, fs) =~= Seq::<DbRecord>::empty());
        assert(st.names + fs.map_values(names) =~= st.names);
    } else {
        lemma_apply_paths(st, g, fs.drop_last());
        assert(path_records(g, fs).drop_last() =~= path_records(g, fs.drop_last()));
        assert((st.names + fs.drop_last().map_values(names)).push(names(fs.last())) =~= st.names + fs.map_values(
            names,
        ));
    }
}

proof fn lemma_target_all(outs: Seq<u32>, names: Seq<Seq<u8>>, g: &Graph, k: int, b: BuildId)
    requires
        0 <= k <= outs.len(),
        forall|j: int| k <= j < outs.len() ==> #[trigger] outs[j] < names.len() && input_of(g, names[outs[j] as int]) == Some(b),
    ensures
        record_target(outs, names, g, k, Some(b)) == Some(Some(b)),
    decreases outs.len() - k,
{
    if k < outs.len() {
        assert(outs[k] < names.len());
        lemma_target_all(outs, names, g, k + 1, b);
    }
}

/// Every record of `rs` fits the format.
pub open spec fn all_fit(rs: Seq<DbRecord>) -> bool {
    forall|i: int| 0 <= i < rs.len() ==> record_fits(#[trigger] rs[i])
}

/// Reading what a writer wrote for build `b` gives `b` back its discovered
/// inputs and its hash: the records written fit the format, and applied
/// after those that gave the reader the writer's names, they record for
/// `b` the ids of its discovered inputs, which name those very files, and
/// the hash.
pub proof fn law_read_after_write(
    g: &Graph,
    b: BuildId,
    hash: u64,
    known: Map<u32, Id>,
    fileids: Seq<FileId>,
    st: DbState,
)
    requires
        g.wf(),
        b.0 < g.build_count(),
        g.builds.view()[b.0 as int].outs.ids@.len() > 0,
        forall|j: int|
            0 <= j < g.builds.view()[b.0 as int].outs.ids@.len() ==> g.files.view()[(
            #[trigger] g.builds.view()[b.0 as int].outs.ids@[j]).0 as int].input == Some(b),
        names_fit(g, b),
        known_ok(known, fileids),
        ids_below(fileids, g.file_count()),
        fileids.len() + g.builds.view()[b.0 as int].outs.ids@.len() + g.builds.view()[b.0 as int].discovered_ins@.len()
            <= 0x1000000,
        g.builds.view()[b.0 as int].outs.ids@.len() < 0x8000,
        g.builds.view()[b.0 as int].discovered_ins@.len() < 0x10000,
        st.names.len() == fileids.len(),
        forall|i: int| 0 <= i < fileids.len() ==> st.names[i] == g.name_of((#[trigger] fileids[i]).0 as int),
    ensures
        ({
            let build = g.builds.view()[b.0 as int];
            let recs = build_records(g, b, hash, known, fileids);
            let (k2, fs) = ids_after_build(g, b, known, fileids);
            let deps = recs.last()->Build_1;
            &&& all_fit(recs)
            &&& apply_records(st, recs, g) == Some(
                DbState { names: st.names + fs.subrange(fileids.len() as int, fs.len() as int).map_values(
                    |f: FileId| g.name_of(f.0 as int),
                ), assigned: st.assigned.insert(b.0, (deps, hash)) },
            )
            &&& files_of(deps, fs) == build.discovered_ins@
        }),
{
    let build = g.builds.view()[b.0 as int];
    assert(build_ok(&build, g.file_count()));
    let outs = build.outs.ids@;
    let deps = build.discovered_ins@;
    let all = outs + deps;
    let n = outs.len() as int;
    let l0 = fileids.len() as int;
    lemma_assign_all(known, fileids, all);
    lemma_assign_props(known, fileids, all);
    let (k2, fs, ids) = assign_all(known, fileids, all);
    let fresh = fs.subrange(l0, fs.len() as int);
    let paths = path_records(g, fresh);
    let brec = DbRecord::Build(ids.take(n), ids.skip(n), hash);
    let recs = paths.push(brec);
    lemma_apply_paths(st, g, fresh);
    let nm = |f: FileId| g.name_of(f.0 as int);
    let names2 = st.names + fresh.map_values(nm);
    assert forall|i: int| 0 <= i < fs.len() implies #[trigger] names2[i] == g.name_of(fs[i].0 as int) by {
        if i < l0 {
            assert(fs[i] == fileids[i]);
        } else {
            assert(fresh[i - l0] == fs[i]);
        }
    }
    assert(recs.drop_last() =~= paths);
    let out_ids = ids.take(n);
    let dep_ids = ids.skip(n);
    assert forall|j: int| 0 <= j < n implies #[trigger] out_ids[j] < names2.len() && input_of(g, names2[out_ids[j] as int])
        == Some(b) by {
        assert(all[j] == outs[j]);
        assert(ids[j] == out_ids[j]);
        let f = fs[ids[j] as int];
        assert(f == outs[j]);
        assert(outs[j].0 < g.file_count());
        g.lemma_lookup_at(f.0 as int);
        assert(g.files.view()[outs[j].0 as int].input == Some(b));
    }
    assert(out_ids[0] < names2.len());
    lemma_target_all(out_ids, names2, g, 1, b);
    assert(record_target(out_ids, names2, g, 0, None) == Some(Some(b)));
    assert forall|j: int| 0 <= j < dep_ids.len() implies #[trigger] dep_ids[j] < names2.len() by {
        assert(dep_ids[j] == ids[n + j]);
    }
    assert(ids_named(dep_ids, names2.len() as int));
    assert forall|j: int| 0 <= j < deps.len() implies #[trigger] files_of(dep_ids, fs)[j] == deps[j] by {
        assert(dep_ids[j] == ids[n + j]);
        assert(all[n + j] == deps[j]);
    }
    assert(files_of(dep_ids, fs) =~= deps);
    assert forall|i: int| 0 <= i < recs.len() implies record_fits(#[trigger] recs[i]) by {
        if i < paths.len() {
            assert(recs[i] == DbRecord::Path(g.name_of(fresh[i].0 as int)));
            let f = fresh[i];
            assert(f == fs[l0 + i]);
            assert(all.contains(f));
            let j = choose|j: int| 0 <= j < all.len() && all[j] == f;
            if j < n {
                assert(outs[j] == f);
            } else {
                assert(deps[j - n] == f);
            }
        } else {
            assert(recs[i] == brec);
            assert forall|j: int| 0 <= j < out_ids.len() implies #[trigger] out_ids[j] < 0x1000000 by {
                assert(ids[j] == out_ids[j]);
            }
            assert forall|j: int| 0 <= j < dep_ids.len() implies #[trigger] dep_ids[j] < 0x1000000 by {
                assert(ids[n + j] == dep_ids[j]);
            }
        }
    }
}

/// A file made of the signature and records that fit the format reads
/// back as those records.
pub proof fn law_db_roundtrip(rs: Seq<DbRecord>)
    requires
        all_fit(rs),
    ensures
        db_contents(signature_bytes() + records_bytes(rs)) == Ok::<Seq<DbRecord>, Seq<u8>>(rs),
{
    let b = signature_bytes() + records_bytes(rs);
    reveal_strlit("n2db");
    assert(vstd::string::is_ascii("n2db"));
    vstd::string::is_ascii_spec_bytes("n2db");
    lemma_le_bytes_len(VERSION as nat, 4);
    assert(b.subrange(0, 4) =~= "n2db".spec_bytes());
    assert(b.subrange(4, 8) =~= le_bytes(VERSION as nat, 4));
    assert(pow256(4) == 0x1_0000_0000) by {
        reveal_with_fuel(pow256, 5);
    }
    lemma_le_roundtrip(VERSION as nat, 4);
    assert(b.subrange(8, b.len() as int) =~= records_bytes(rs));
    lemma_parse_records(b, 8, rs);
}

proof fn lemma_apply_concat(st: DbState, a: Seq<DbRecord>, b: Seq<DbRecord>, g: &Graph)
    ensures
        apply_records(st, a + b, g) == match apply_records(st, a, g) {
            Some(s) => apply_records(s, b, g),
            None => None,
        },
    decreases b.len(),
{
    if b.len() == 0 {
        assert(a + b =~= a);
    } else {
        lemma_apply_concat(st, a, b.drop_last(), g);
        assert((a + b).drop_last() =~= a + b.drop_last());
        assert((a + b).last() == b.last());
    }
}

/// What is read back from a database file after a writer appended build
/// `b` to it: the file reads as its records followed by those written, and
/// loading them records for `b` the ids of its discovered inputs, which
/// name those very files, and its hash.  The writer carries on from the
/// ids the file's records gave.
pub proof fn law_read_back_file(
    g: &Graph,
    old_records: Seq<DbRecord>,
    b: BuildId,
    hash: u64,
    known: Map<u32, Id>,
    fileids: Seq<FileId>,
)
    requires
        g.wf(),
        all_fit(old_records),
        db_state(old_records, g) is Some,
        b.0 < g.build_count(),
        g.builds.view()[b.0 as int].outs.ids@.len() > 0,
        forall|j: int|
            0 <= j < g.builds.view()[b.0 as int].outs.ids@.len() ==> g.files.view()[(
            #[trigger] g.builds.view()[b.0 as int].outs.ids@[j]).0 as int].input == Some(b),
        names_fit(g, b),
        known_ok(known, fileids),
        ids_below(fileids, g.file_count()),
        fileids.len() + g.builds.view()[b.0 as int].outs.ids@.len() + g.builds.view()[b.0 as int].discovered_ins@.len()
            <= 0x1000000,
        g.builds.view()[b.0 as int].outs.ids@.len() < 0x8000,
        g.builds.view()[b.0 as int].discovered_ins@.len() < 0x10000,
        db_state(old_records, g).unwrap().names.len() == fileids.len(),
        forall|i: int|
            0 <= i < fileids.len() ==> db_state(old_records, g).unwrap().names[i] == g.name_of(
                (#[trigger] fileids[i]).0 as int,
            ),
    ensures
        ({
            let recs = build_records(g, b, hash, known, fileids);
            let (k2, fs) = ids_after_build(g, b, known, fileids);
            let deps = recs.last()->Build_1;
            let file = signature_bytes() + records_bytes(old_records) + records_bytes(recs);
            &&& db_contents(file) == Ok::<Seq<DbRecord>, Seq<u8>>(old_records + recs)
            &&& db_state(old_records + recs, g) matches Some(st2) && st2.assigned.contains_key(b.0)
                && st2.assigned[b.0] == (deps, hash)
            &&& files_of(deps, fs) == g.builds.view()[b.0 as int].discovered_ins@
        }),
{
    let st = db_state(old_records, g).unwrap();
    law_read_after_write(g, b, hash, known, fileids, st);
    let recs = build_records(g, b, hash, known, fileids);
    let all = old_records + recs;
    assert forall|i: int| 0 <= i < all.len() implies record_fits(#[trigger] all[i]) by {
        if i < old_records.len() {
            assert(all[i] == old_records[i]);
        } else {
            assert(all[i] == recs[i - old_records.len()]);
        }
    }
    law_db_roundtrip(all);
    lemma_records_bytes_concat(old_records, recs);
    assert(signature_bytes() + records_bytes(old_records) + records_bytes(recs) =~= signature_bytes()
        + records_bytes(all));
    lemma_apply_concat(empty_state(), old_records, recs, g);
}

} // verus!
