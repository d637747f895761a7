//! Byte-string helpers shared by the parsers and message builders.
use vstd::prelude::*;
use vstd::string::StringSliceAdditionalSpecFns;

verus! {

/// Number of `\n` bytes in `s`.
pub open spec fn count_nl(s: Seq<u8>) -> nat
    decreases s.len(),
{
    if s.len() == 0 {
        0
    } else {
        count_nl(s.drop_last()) + if s.last() == 0x0a {
            1nat
        } else {
            0nat
        }
    }
}

pub proof fn lemma_count_nl_push(buf: Seq<u8>, i: int)
    requires
        0 <= i < buf.len(),
    ensures
        count_nl(buf.subrange(0, i + 1)) == count_nl(buf.subrange(0, i)) + if buf[i] == 0x0a {
            1nat
        } else {
            0nat
        },
        count_nl(buf.subrange(0, i)) <= i,
        count_nl(buf.subrange(0, i + 1)) <= i + 1,
{
    assert(buf.subrange(0, i + 1).drop_last() =~= buf.subrange(0, i));
    lemma_count_nl_le(buf.subrange(0, i));
}

pub proof fn lemma_count_nl_le(s: Seq<u8>)
    ensures
        count_nl(s) <= s.len(),
    decreases s.len(),
{
    if s.len() > 0 {
        lemma_count_nl_le(s.drop_last());
    }
}

/// `s` begins with `p`.
pub open spec fn has_prefix(s: Seq<u8>, p: Seq<u8>) -> bool {
    p.len() <= s.len() && s.subrange(0, p.len() as int) == p
}

/// `s` holds no `\n`.
pub open spec fn no_nl(s: Seq<u8>) -> bool {
    forall|i: int| 0 <= i < s.len() ==> s[i] != 0x0a
}

pub proof fn lemma_count_nl_concat(a: Seq<u8>, b: Seq<u8>)
    ensures
        count_nl(a + b) == count_nl(a) + count_nl(b),
    decreases b.len(),
{
    if b.len() > 0 {
        lemma_count_nl_concat(a, b.drop_last());
        assert((a + b).drop_last() =~= a + b.drop_last());
    } else {
        assert(a + b =~= a);
    }
}

pub proof fn lemma_no_nl_count(s: Seq<u8>)
    requires
        no_nl(s),
    ensures
        count_nl(s) == 0,
    decreases s.len(),
{
    if s.len() > 0 {
        lemma_no_nl_count(s.drop_last());
    }
}

pub proof fn lemma_decimal_no_nl(n: nat)
    ensures
        no_nl(spec_decimal(n)),
    decreases n,
{
    if n >= 10 {
        lemma_decimal_no_nl(n / 10);
        let d = spec_decimal(n / 10);
        assert forall|i: int| 0 <= i < spec_decimal(n).len() implies spec_decimal(n)[i] != 0x0a by {
            if i < d.len() {
                assert(spec_decimal(n)[i] == d[i]);
            }
        }
    }
}

/// Number of `\n` bytes in `buf[0..n]`.
pub fn count_newlines(buf: &[u8], n: usize) -> (r: usize)
    requires
        n <= buf@.len(),
    ensures
        r == count_nl(buf@.subrange(0, n as int)),
        r <= n,
{
    let mut i: usize = 0;
    let mut c: usize = 0;
    proof {
        assert(buf@.subrange(0, 0) =~= Seq::<u8>::empty());
    }
    while i < n
        invariant
            i <= n <= buf@.len(),
            c == count_nl(buf@.subrange(0, i as int)),
            c <= i,
        decreases n - i,
    {
        proof {
            lemma_count_nl_push(buf@, i as int);
        }
        if buf[i] == 0x0au8 {
            c = c + 1;
        }
        i = i + 1;
    }
    c
}

/// A copy of `buf[start..end]`.
pub fn copy_range(buf: &[u8], start: usize, end: usize) -> (r: Vec<u8>)
    requires
        start <= end <= buf@.len(),
    ensures
        r@ == buf@.subrange(start as int, end as int),
{
    let mut r: Vec<u8> = Vec::new();
    let mut i = start;
    while i < end
        invariant
            start <= i <= end <= buf@.len(),
            r@ == buf@.subrange(start as int, i as int),
        decreases end - i,
    {
        r.push(buf[i]);
        i = i + 1;
        assert(r@ =~= buf@.subrange(start as int, i as int));
    }
    r
}

/// A copy of a byte string.
pub fn copy_vec(v: &Vec<u8>) -> (r: Vec<u8>)
    ensures
        r@ == v@,
{
    let r = copy_range(v.as_slice(), 0, v.len());
    assert(r@ =~= v@);
    r
}

/// Appends `s` to `out`.
pub fn push_slice(out: &mut Vec<u8>, s: &[u8])
    ensures
        final(out)@ == old(out)@ + s@,
{
    let ghost o = out@;
    let mut i: usize = 0;
    while i < s.len()
        invariant
            i <= s@.len(),
            out@ == o + s@.subrange(0, i as int),
        decreases s@.len() - i,
    {
        out.push(s[i]);
        i = i + 1;
        assert(out@ =~= o + s@.subrange(0, i as int));
    }
    assert(s@.subrange(0, s@.len() as int) =~= s@);
}

/// The bytes of a string.
pub fn bytes_of(s: &str) -> (r: Vec<u8>)
    ensures
        r@ == s.spec_bytes(),
{
    let mut r: Vec<u8> = Vec::new();
    push_slice(&mut r, s.as_bytes());
    assert(r@ =~= s.spec_bytes());
    r
}

/// Appends the bytes of a string to `out`.
pub fn push_bytes(out: &mut Vec<u8>, s: &str)
    ensures
        final(out)@ == old(out)@ + s.spec_bytes(),
{
    push_slice(out, s.as_bytes());
}

/// Decimal digits of `n`, most significant first.
pub open spec fn spec_decimal(n: nat) -> Seq<u8>
    decreases n,
{
    if n < 10 {
        seq![(0x30 + n) as u8]
    } else {
        spec_decimal(n / 10) + seq![(0x30 + n % 10) as u8]
    }
}

pub proof fn lemma_decimal_len(n: nat)
    ensures
        1 <= spec_decimal(n).len() <= n + 1,
    decreases n,
{
    if n >= 10 {
        lemma_decimal_len(n / 10);
    }
}

/// Appends the decimal digits of `n` to `out`.
pub fn push_decimal(out: &mut Vec<u8>, n: usize)
    ensures
        final(out)@ == old(out)@ + spec_decimal(n as nat),
    decreases n,
{
    if n >= 10 {
        push_decimal(out, n / 10);
    }
    out.push(0x30u8 + (n % 10) as u8);
}

/// Appends the decimal digits of a 64-bit `n` to `out`.
pub fn push_decimal_u64(out: &mut Vec<u8>, n: u64)
    ensures
        final(out)@ == old(out)@ + spec_decimal(n as nat),
    decreases n,
{
    if n >= 10 {
        push_decimal_u64(out, n / 10);
    }
    out.push(0x30u8 + (n % 10) as u8);
}

/// The decimal digits of `n`.
pub fn decimal(n: usize) -> (r: Vec<u8>)
    ensures
        r@ == spec_decimal(n as nat),
{
    let mut r: Vec<u8> = Vec::new();
    push_decimal(&mut r, n);
    assert(r@ =~= spec_decimal(n as nat));
    r
}

/// Appends `n` spaces.
pub fn push_spaces(out: &mut Vec<u8>, n: usize)
    ensures
        final(out)@ == old(out)@ + Seq::new(n as nat, |k: int| 0x20u8),
{
    let ghost o = out@;
    let mut i: usize = 0;
    while i < n
        invariant
            i <= n,
            out@ == o + Seq::new(i as nat, |k: int| 0x20u8),
        decreases n - i,
    {
        out.push(0x20u8);
        i = i + 1;
        assert(out@ =~= o + Seq::new(i as nat, |k: int| 0x20u8));
    }
}

/// A hex digit of `d`, lower case.
pub open spec fn hex_digit(d: int) -> u8 {
    if d < 10 {
        (0x30 + d) as u8
    } else {
        (0x61 + d - 10) as u8
    }
}

/// The escape that Rust's debug formatting of a string writes for byte `c`:
/// `\"`, `\\`, `\n`, `\r`, `\t`, `\0`, `\u{..}` for other control bytes,
/// the byte itself otherwise.
pub open spec fn escape_byte(c: u8) -> Seq<u8> {
    if c == 0x22 || c == 0x5c {
        seq![0x5cu8, c]
    } else if c == 0x0a {
        seq![0x5cu8, 0x6eu8]
    } else if c == 0x0d {
        seq![0x5cu8, 0x72u8]
    } else if c == 0x09 {
        seq![0x5cu8, 0x74u8]
    } else if c == 0 {
        seq![0x5cu8, 0x30u8]
    } else if c < 0x20 || c == 0x7f {
        seq![0x5cu8, 0x75u8, 0x7bu8] + (if c >= 16 {
            seq![hex_digit((c / 16) as int), hex_digit((c % 16) as int)]
        } else {
            seq![hex_digit(c as int)]
        }) + seq![0x7du8]
    } else {
        seq![c]
    }
}

/// The escapes of all bytes of `s`, in order.
pub open spec fn escaped(s: Seq<u8>) -> Seq<u8>
    decreases s.len(),
{
    if s.len() == 0 {
        Seq::empty()
    } else {
        escaped(s.drop_last()) + escape_byte(s.last())
    }
}

/// `s` in double quotes, escaped as Rust's debug formatting of a string
/// writes it.
pub open spec fn quoted(s: Seq<u8>) -> Seq<u8> {
    seq![0x22u8] + escaped(s) + seq![0x22u8]
}

fn push_hex_digit(out: &mut Vec<u8>, d: u8)
    requires
        d < 16,
    ensures
        final(out)@ == old(out)@.push(hex_digit(d as int)),
{
    if d < 10 {
        out.push(0x30u8 + d);
    } else {
        out.push(0x61u8 + (d - 10));
    }
}

/// Appends the escape of byte `c`.
pub fn push_escaped_byte(out: &mut Vec<u8>, c: u8)
    ensures
        final(out)@ == old(out)@ + escape_byte(c),
{
    let ghost o = out@;
    if c == 0x22u8 || c == 0x5cu8 {
        out.push(0x5cu8);
        out.push(c);
    } else if c == 0x0au8 {
        out.push(0x5cu8);
        out.push(0x6eu8);
    } else if c == 0x0du8 {
        out.push(0x5cu8);
        out.push(0x72u8);
    } else if c == 0x09u8 {
        out.push(0x5cu8);
        out.push(0x74u8);
    } else if c == 0 {
        out.push(0x5cu8);
        out.push(0x30u8);
    } else if c < 0x20u8 || c == 0x7fu8 {
        out.push(0x5cu8);
        out.push(0x75u8);
        out.push(0x7bu8);
        if c >= 16 {
            push_hex_digit(out, c / 16);
        }
        push_hex_digit(out, c % 16);
        out.push(0x7du8);
    } else {
        out.push(c);
    }
    assert(out@ =~= o + escape_byte(c));
}

/// Appends a string in double quotes with `"`, `\\` and control bytes
/// escaped, as Rust's debug formatting of a string writes it.
pub fn push_quoted(out: &mut Vec<u8>, s: &[u8])
    ensures
        final(out)@ == old(out)@ + quoted(s@),
{
    let ghost o = out@;
    out.push(0x22u8);
    let mut i: usize = 0;
    assert(s@.take(0) =~= Seq::<u8>::empty());
    while i < s.len()
        invariant
            i <= s@.len(),
            out@ == o + seq![0x22u8] + escaped(s@.take(i as int)),
        decreases s@.len() - i,
    {
        push_escaped_byte(out, s[i]);
        assert(s@.take(i + 1).drop_last() =~= s@.take(i as int));
        i = i + 1;
        assert(out@ =~= o + seq![0x22u8] + escaped(s@.take(i as int)));
    }
    assert(s@.take(i as int) =~= s@);
    out.push(0x22u8);
    assert(out@ =~= o + quoted(s@));
}

/// Whether two byte strings are equal.
pub fn bytes_eq(a: &[u8], b: &[u8]) -> (r: bool)
    ensures
        r == (a@ == b@),
{
    if a.len() != b.len() {
        return false;
    }
    let mut i: usize = 0;
    while i < a.len()
        invariant
            a@.len() == b@.len(),
            i <= a@.len(),
            forall|k: int| 0 <= k < i ==> a@[k] == b@[k],
        decreases a@.len() - i,
    {
        if a[i] != b[i] {
            return false;
        }
        i = i + 1;
    }
    assert(a@ =~= b@);
    true
}

/// The low `n` bytes of `x`, least significant first.
pub open spec fn le_bytes(x: nat, n: nat) -> Seq<u8>
    decreases n,
{
    if n == 0 {
        Seq::empty()
    } else {
        seq![(x % 256) as u8] + le_bytes(x / 256, (n - 1) as nat)
    }
}

/// Appends the low `n` bytes of `x`, least significant first.
pub fn push_le(out: &mut Vec<u8>, x: u64, n: usize)
    requires
        n <= 8,
    ensures
        final(out)@ == old(out)@ + le_bytes(x as nat, n as nat),
    decreases n,
{
    if n > 0 {
        out.push((x % 256) as u8);
        push_le(out, x / 256, n - 1);
        assert(final(out)@ =~= old(out)@ + le_bytes(x as nat, n as nat));
    }
}

/// Lower-case hex digits of `n`, most significant first, without leading
/// zeros ("0" for zero).
pub open spec fn spec_hex(n: nat) -> Seq<u8>
    decreases n,
{
    if n < 16 {
        seq![hex_digit(n as int)]
    } else {
        spec_hex(n / 16).push(hex_digit((n % 16) as int))
    }
}

/// Appends the lower-case hex digits of `n`.
pub fn push_hex(out: &mut Vec<u8>, n: u64)
    ensures
        final(out)@ == old(out)@ + spec_hex(n as nat),
    decreases n,
{
    if n < 16 {
        push_hex_digit(out, n as u8);
        assert(final(out)@ =~= old(out)@ + spec_hex(n as nat));
    } else {
        push_hex(out, n / 16);
        push_hex_digit(out, (n % 16) as u8);
        assert(final(out)@ =~= old(out)@ + spec_hex(n as nat));
    }
}

} // verus!
