//! Scans an input buffer (source file) byte by byte.
//!
//! The buffer ends in a nul byte, which lets the scanner stop at the end of
//! the input without a separate bounds check at every step.
use vstd::prelude::*;
use vstd::string::StringSliceAdditionalSpecFns;
use crate::text::{bytes_of, push_bytes, push_decimal, spec_decimal, count_nl, lemma_count_nl_push};

verus! {

/// A parse failure at byte offset `ofs` of the scanned buffer.
pub struct ParseError {
    pub msg: Vec<u8>,
    pub ofs: usize,
    pub chunk_index: usize,
}

pub type ParseResult<T> = Result<T, ParseError>;

pub struct Scanner<'a> {
    pub buf: &'a [u8],
    pub ofs: usize,
    pub line: usize,
    pub chunk_index: usize,
}

/// A buffer the scanner accepts: non-empty and nul-terminated.
pub open spec fn nul_terminated(buf: Seq<u8>) -> bool {
    buf.len() > 0 && buf[buf.len() - 1] == 0
}

impl<'a> Scanner<'a> {
    /// The scanner's position is at most one past the end, and `line` is the
    /// 1-based number of the line that `ofs` is on.
    pub open spec fn valid(&self) -> bool {
        &&& nul_terminated(self.buf@)
        &&& self.ofs <= self.buf@.len()
        &&& self.line == 1 + count_nl(self.buf@.subrange(0, self.ofs as int))
    }

    /// A valid scanner that points at a byte of the buffer.
    pub open spec fn wf(&self) -> bool {
        self.valid() && self.ofs < self.buf@.len()
    }

    /// The byte at the current position.
    pub open spec fn cur(&self) -> u8 {
        self.buf@[self.ofs as int]
    }

    pub fn new(buf: &'a [u8], chunk_index: usize) -> (r: Scanner<'a>)
        requires
            nul_terminated(buf@),
        ensures
            r.wf(),
            r.buf@ == buf@,
            r.ofs == 0,
            r.line == 1,
            r.chunk_index == chunk_index,
    {
        proof {
            assert(buf@.subrange(0, 0) =~= Seq::<u8>::empty());
        }
        Scanner { buf, ofs: 0, line: 1, chunk_index }
    }

    /// A copy of the bytes in `start..end`.
    pub fn slice(&self, start: usize, end: usize) -> (r: Vec<u8>)
        requires
            start <= end <= self.buf@.len(),
        ensures
            r@ == self.buf@.subrange(start as int, end as int),
    {
        crate::text::copy_range(self.buf, start, end)
    }

    pub fn peek(&self) -> (c: u8)
        requires
            self.wf(),
        ensures
            c == self.cur(),
    {
        self.buf[self.ofs]
    }

    /// True at a `\n` or a `\r\n` pair.
    pub fn peek_newline(&self) -> (r: bool)
        requires
            self.wf(),
        ensures
            r == (self.cur() == 0x0a || (self.ofs + 1 < self.buf@.len() && self.cur() == 0x0d
                && self.buf@[self.ofs + 1] == 0x0a)),
    {
        let peek = self.peek();
        if peek == 0x0au8 {
            return true;
        }
        if self.ofs >= self.buf.len() - 1 {
            return false;
        }
        let peek2 = self.buf[self.ofs + 1];
        peek == 0x0du8 && peek2 == 0x0au8
    }

    /// Step past the current byte.
    pub fn next(&mut self)
        requires
            old(self).wf(),
        ensures
            final(self).valid(),
            final(self).buf == old(self).buf,
            final(self).chunk_index == old(self).chunk_index,
            final(self).ofs == old(self).ofs + 1,
            old(self).cur() != 0 ==> final(self).wf(),
            final(self).line == old(self).line + if old(self).cur() == 0x0a { 1int } else { 0int },
    {
        proof {
            lemma_count_nl_push(self.buf@, self.ofs as int);
        }
        let len = self.buf.len();
        if self.peek() == 0x0au8 {
            self.line = self.line + 1;
        }
        self.ofs = self.ofs + 1;
    }

    /// Step back over the previous byte.
    pub fn back(&mut self)
        requires
            old(self).valid(),
            old(self).ofs > 0,
        ensures
            final(self).wf(),
            final(self).buf == old(self).buf,
            final(self).chunk_index == old(self).chunk_index,
            final(self).ofs == old(self).ofs - 1,
    {
        proof {
            lemma_count_nl_push(self.buf@, self.ofs - 1);
        }
        let prev = self.buf[self.ofs - 1];
        if prev == 0x0au8 {
            self.line = self.line - 1;
        }
        self.ofs = self.ofs - 1;
    }

    /// Return the current byte and step past it.
    pub fn read(&mut self) -> (c: u8)
        requires
            old(self).wf(),
        ensures
            c == old(self).cur(),
            final(self).valid(),
            final(self).buf == old(self).buf,
            final(self).chunk_index == old(self).chunk_index,
            final(self).ofs == old(self).ofs + 1,
            c != 0 ==> final(self).wf(),
    {
        let c = self.peek();
        self.next();
        c
    }

    /// Step past the current byte if it is `ch` (past the terminating nul
    /// too, when `ch` is nul).
    pub fn skip(&mut self, ch: u8) -> (r: bool)
        requires
            old(self).wf(),
        ensures
            r == (old(self).cur() == ch),
            final(self).valid(),
            !(r && ch == 0) ==> final(self).wf(),
            final(self).line == old(self).line + if r && ch == 0x0a { 1int } else { 0int },
            final(self).buf == old(self).buf,
            final(self).chunk_index == old(self).chunk_index,
            final(self).ofs == if r { old(self).ofs + 1 } else { old(self).ofs as int },
    {
        if self.peek() == ch {
            self.next();
            return true;
        }
        false
    }

    /// Step past a run of spaces.
    pub fn skip_spaces(&mut self)
        requires
            old(self).wf(),
        ensures
            final(self).wf(),
            final(self).buf == old(self).buf,
            final(self).chunk_index == old(self).chunk_index,
            final(self).ofs == spaces_end(old(self).buf@, old(self).ofs as int),
    {
        while self.skip(0x20u8)
            invariant
                self.wf(),
                self.buf == old(self).buf,
                self.chunk_index == old(self).chunk_index,
                old(self).ofs <= self.ofs,
                spaces_end(self.buf@, self.ofs as int) == spaces_end(
                    old(self).buf@,
                    old(self).ofs as int,
                ),
            decreases self.buf@.len() - self.ofs,
        {
        }
    }

    /// Step past `ch`, or fail without moving.
    pub fn expect(&mut self, ch: u8) -> (r: ParseResult<()>)
        requires
            old(self).wf(),
        ensures
            final(self).valid(),
            (r is Err || ch != 0) ==> final(self).wf(),
            final(self).buf == old(self).buf,
            final(self).chunk_index == old(self).chunk_index,
            r is Ok <==> old(self).cur() == ch,
            r is Ok ==> final(self).ofs == old(self).ofs + 1,
            r is Err ==> final(self).ofs == old(self).ofs && r->Err_0.ofs == old(self).ofs,
            r matches Err(e) ==> e.msg@ == expected_msg(ch, old(self).cur()),
    {
        let r = self.read();
        if r != ch {
            self.back();
            let mut msg = bytes_of("expected ");
            push_char_debug(&mut msg, ch);
            push_bytes(&mut msg, ", got ");
            push_char_debug(&mut msg, r);
            return self.parse_error(msg);
        }
        Ok(())
    }

    /// A parse error at the current position.
    pub fn parse_error<T>(&self, msg: Vec<u8>) -> (r: ParseResult<T>)
        ensures
            r matches Err(e) && e.msg == msg && e.ofs == self.ofs && e.chunk_index
                == self.chunk_index,
    {
        Err(ParseError { msg, ofs: self.ofs, chunk_index: self.chunk_index })
    }
}

/// The first position at or after `i` that is not a space.
pub open spec fn spaces_end(buf: Seq<u8>, i: int) -> int
    decreases buf.len() - i,
{
    if 0 <= i < buf.len() && buf[i] == 0x20 {
        spaces_end(buf, i + 1)
    } else {
        i
    }
}

pub proof fn lemma_spaces_end_ge(buf: Seq<u8>, i: int)
    ensures
        i <= spaces_end(buf, i),
    decreases buf.len() - i,
{
    if 0 <= i < buf.len() && buf[i] == 0x20 {
        lemma_spaces_end_ge(buf, i + 1);
    }
}

/// The error for finding byte `got` where `want` must stand.
pub open spec fn expected_msg(want: u8, got: u8) -> Seq<u8> {
    "expected ".spec_bytes() + char_debug(want) + ", got ".spec_bytes() + char_debug(got)
}

/// Whether Rust's debug formatting writes the character of byte `c` (a
/// code point below 256) as a `\u{..}` escape: control characters, the
/// no-break space and the soft hyphen.
pub open spec fn unicode_escaped(c: u8) -> bool {
    c < 0x20 || (0x7f <= c && c <= 0xa0) || c == 0xad
}

/// What Rust's debug formatting of byte `c` read as a `char` writes, quotes
/// included: a backslash escape for tab, newline, carriage return, nul,
/// quote and backslash, `\u{..}` in lower-case hex for the characters that
/// are not printable, else the character in UTF-8.
pub open spec fn char_debug(c: u8) -> Seq<u8> {
    seq![0x27u8] + char_debug_body(c) + seq![0x27u8]
}

/// `char_debug` without the quotes.
pub open spec fn char_debug_body(c: u8) -> Seq<u8> {
    if c == 0x09 {
        seq![0x5cu8, 0x74u8]
    } else if c == 0x0a {
        seq![0x5cu8, 0x6eu8]
    } else if c == 0x0d {
        seq![0x5cu8, 0x72u8]
    } else if c == 0 {
        seq![0x5cu8, 0x30u8]
    } else if c == 0x27 || c == 0x5c {
        seq![0x5cu8, c]
    } else if unicode_escaped(c) {
        seq![0x5cu8, 0x75u8, 0x7bu8] + (if c >= 16 {
            seq![crate::text::hex_digit((c / 16) as int), crate::text::hex_digit((c % 16) as int)]
        } else {
            seq![crate::text::hex_digit(c as int)]
        }) + seq![0x7du8]
    } else if c < 0x80 {
        seq![c]
    } else {
        seq![(0xc0 + c / 64) as u8, (0x80 + c % 64) as u8]
    }
}

/// Appends the quoted form of a byte read as a character, as Rust's
/// debug formatting of a `char` writes it.
pub fn push_char_debug(out: &mut Vec<u8>, c: u8)
    ensures
        final(out)@ == old(out)@ + char_debug(c),
{
    let ghost o = out@;
    let mut body: Vec<u8> = Vec::new();
    if c == 0x09u8 {
        body.push(0x5cu8);
        body.push(0x74u8);
    } else if c == 0x0au8 {
        body.push(0x5cu8);
        body.push(0x6eu8);
    } else if c == 0x0du8 {
        body.push(0x5cu8);
        body.push(0x72u8);
    } else if c == 0 {
        body.push(0x5cu8);
        body.push(0x30u8);
    } else if c == 0x27u8 || c == 0x5cu8 {
        body.push(0x5cu8);
        body.push(c);
    } else if c < 0x20u8 || (0x7fu8 <= c && c <= 0xa0u8) || c == 0xadu8 {
        body.push(0x5cu8);
        body.push(0x75u8);
        body.push(0x7bu8);
        if c >= 16 {
            body.push(hex_digit(c / 16));
        }
        body.push(hex_digit(c % 16));
        body.push(0x7du8);
        proof {
            if c < 16 {
                assert(c % 16 == c);
            }
        }
    } else if c < 0x80u8 {
        body.push(c);
    } else {
        body.push(0xc0u8 + c / 64);
        body.push(0x80u8 + c % 64);
    }
    assert(body@ =~= char_debug_body(c));
    out.push(0x27u8);
    crate::text::push_slice(out, body.as_slice());
    out.push(0x27u8);
    assert(out@ =~= o + char_debug(c));
}

fn hex_digit(d: u8) -> (r: u8)
    requires
        d < 16,
    ensures
        r == crate::text::hex_digit(d as int),
{
    if d < 10 {
        0x30u8 + d
    } else {
        0x61u8 + (d - 10)
    }
}

/// The offset within `buf` at which the line holding `rel` starts.
pub open spec fn line_start(buf: Seq<u8>, rel: int) -> int
    decreases rel,
{
    if rel <= 0 {
        0
    } else if buf[rel - 1] == 0x0a {
        rel
    } else {
        line_start(buf, rel - 1)
    }
}

/// The offset within `buf` at which the line holding `rel` ends (its
/// newline, or the end of the buffer).
pub open spec fn line_end(buf: Seq<u8>, rel: int) -> int
    decreases buf.len() - rel,
{
    if rel >= buf.len() {
        buf.len() as int
    } else if buf[rel] == 0x0a {
        rel
    } else {
        line_end(buf, rel + 1)
    }
}

proof fn lemma_line_bounds(buf: Seq<u8>, rel: int)
    requires
        0 <= rel <= buf.len(),
    ensures
        0 <= line_start(buf, rel) <= rel <= line_end(buf, rel) <= buf.len(),
    decreases buf.len() - rel + rel,
{
    if rel > 0 && buf[rel - 1] != 0x0a {
        lemma_line_start(buf, rel);
    }
    lemma_line_end(buf, rel);
}

proof fn lemma_line_start(buf: Seq<u8>, rel: int)
    requires
        0 <= rel <= buf.len(),
    ensures
        0 <= line_start(buf, rel) <= rel,
    decreases rel,
{
    if rel > 0 && buf[rel - 1] != 0x0a {
        lemma_line_start(buf, rel - 1);
    }
}

proof fn lemma_line_end(buf: Seq<u8>, rel: int)
    requires
        0 <= rel <= buf.len(),
    ensures
        rel <= line_end(buf, rel) <= buf.len(),
    decreases buf.len() - rel,
{
    if rel < buf.len() && buf[rel] != 0x0a {
        lemma_line_end(buf, rel + 1);
    }
}

/// The text shown for the error's line: the line from its start, trimmed to
/// fit on screen, with the column of the caret under it.
pub open spec fn error_context(line: Seq<u8>, col: int) -> (Seq<u8>, int) {
    let (lead, ctx, c) = if col > 40 {
        (seq![0x2eu8, 0x2eu8, 0x2eu8], line.subrange(col - 20, line.len() as int), 23int)
    } else {
        (Seq::<u8>::empty(), line, col)
    };
    if ctx.len() > 40 {
        (lead + ctx.subrange(0, 40) + seq![0x2eu8, 0x2eu8, 0x2eu8], c)
    } else {
        (lead + ctx, c)
    }
}

/// The caret stands under the byte where the error is: the shown line
/// holds, at the caret's column, the byte at the error's column (except
/// where that column falls exactly on the cut of a long line, which shows
/// `...` there).
pub proof fn law_caret_under_error(line: Seq<u8>, col: int)
    requires
        0 <= col < line.len(),
        col != 40,
    ensures
        error_context(line, col).1 < error_context(line, col).0.len(),
        error_context(line, col).0[error_context(line, col).1] == line[col],
{
    if col > 40 {
        let ctx = line.subrange(col - 20, line.len() as int);
        assert(ctx[20] == line[col]);
        if ctx.len() > 40 {
            let shown = seq![0x2eu8, 0x2eu8, 0x2eu8] + ctx.subrange(0, 40) + seq![0x2eu8, 0x2eu8, 0x2eu8];
            assert(shown[23] == ctx[20]);
        } else {
            let shown = seq![0x2eu8, 0x2eu8, 0x2eu8] + ctx;
            assert(shown[23] == ctx[20]);
        }
    } else if line.len() > 40 {
        let shown = Seq::<u8>::empty() + line.subrange(0, 40) + seq![0x2eu8, 0x2eu8, 0x2eu8];
        assert(shown[col] == line[col]);
    } else {
        assert((Seq::<u8>::empty() + line)[col] == line[col]);
    }
}

/// The full text of a formatted parse error: the message, then the line in
/// `filename:line: ` form, then a caret under the failing column.
pub open spec fn spec_format_parse_error(
    base: int,
    buf: Seq<u8>,
    filename: Seq<u8>,
    msg: Seq<u8>,
    err_ofs: int,
) -> Seq<u8> {
    let rel = err_ofs - base;
    let start = line_start(buf, rel);
    let end = line_end(buf, rel);
    let line_number = 1 + count_nl(buf.subrange(0, rel));
    let prefix = filename + seq![0x3au8] + spec_decimal(line_number) + seq![0x3au8, 0x20u8];
    let (context, col) = error_context(buf.subrange(start, end), rel - start);
    "parse error: ".spec_bytes() + msg + seq![0x0au8] + prefix + context
        + seq![0x0au8] + Seq::new((prefix.len() + col) as nat, |i: int| 0x20u8) + seq![
        0x5eu8,
        0x0au8,
    ]
}

fn find_line_start(buf: &[u8], rel: usize) -> (start: usize)
    requires
        rel <= buf@.len(),
    ensures
        start == line_start(buf@, rel as int),
        start <= rel,
{
    let mut start: usize = rel;
    while start > 0 && buf[start - 1] != 0x0au8
        invariant
            start <= rel <= buf@.len(),
            line_start(buf@, rel as int) == line_start(buf@, start as int),
        decreases start,
    {
        start = start - 1;
    }
    start
}

fn find_line_end(buf: &[u8], rel: usize) -> (end: usize)
    requires
        rel <= buf@.len(),
    ensures
        end == line_end(buf@, rel as int),
        rel <= end <= buf@.len(),
{
    let mut end: usize = rel;
    while end < buf.len() && buf[end] != 0x0au8
        invariant
            rel <= end <= buf@.len(),
            line_end(buf@, rel as int) == line_end(buf@, end as int),
        decreases buf@.len() - end,
    {
        end = end + 1;
    }
    end
}

/// Appends the error's line, trimmed to fit, returning the caret column.
fn push_context(msg: &mut Vec<u8>, buf: &[u8], start: usize, end: usize, col: usize) -> (c: usize)
    requires
        start <= end <= buf@.len(),
        col <= end - start,
    ensures
        final(msg)@ == old(msg)@ + error_context(buf@.subrange(start as int, end as int), col as int).0,
        c == error_context(buf@.subrange(start as int, end as int), col as int).1,
        c <= 40,
{
    let ghost line = buf@.subrange(start as int, end as int);
    let mut c = col;
    let mut cstart = start;
    let ghost m0 = msg@;
    if col > 40 {
        msg.push(0x2eu8);
        msg.push(0x2eu8);
        msg.push(0x2eu8);
        cstart = start + col - 20;
        c = 23;
        assert(line.subrange(col - 20, line.len() as int) =~= buf@.subrange(cstart as int, end as int));
    }
    let ghost m1 = msg@;
    if end - cstart > 40 {
        let part = crate::text::copy_range(buf, cstart, cstart + 40);
        crate::text::push_slice(msg, part.as_slice());
        msg.push(0x2eu8);
        msg.push(0x2eu8);
        msg.push(0x2eu8);
        proof {
            if col > 40 {
                assert(line.subrange(col - 20, line.len() as int).subrange(0, 40) =~= part@);
            } else {
                assert(line.subrange(0, 40) =~= part@);
            }
        }
    } else {
        let part = crate::text::copy_range(buf, cstart, end);
        crate::text::push_slice(msg, part.as_slice());
        assert(col <= 40 ==> line =~= part@);
    }
    assert(msg@ =~= m0 + error_context(line, col as int).0);
    c
}

/// Render a parse error with the line it occurred on.  `ofs` is the offset
/// of `buf` within the scanned input the error's offset refers to.
pub fn format_parse_error(ofs: usize, buf: &[u8], filename: &[u8], err: ParseError) -> (r: Vec<u8>)
    requires
        ofs <= err.ofs <= ofs + buf@.len(),
        buf@.len() + filename@.len() + 128 < usize::MAX,
    ensures
        r@ == spec_format_parse_error(ofs as int, buf@, filename@, err.msg@, err.ofs as int),
{
    let rel = err.ofs - ofs;
    proof {
        lemma_line_bounds(buf@, rel as int);
    }
    let start = find_line_start(buf, rel);
    let end = find_line_end(buf, rel);
    let line_number = crate::text::count_newlines(buf, rel) + 1;
    let mut msg = bytes_of("parse error: ");
    crate::text::push_slice(&mut msg, err.msg.as_slice());
    msg.push(0x0au8);
    let mut prefix: Vec<u8> = Vec::new();
    crate::text::push_slice(&mut prefix, filename);
    prefix.push(0x3au8);
    push_decimal(&mut prefix, line_number);
    prefix.push(0x3au8);
    prefix.push(0x20u8);
    crate::text::push_slice(&mut msg, prefix.as_slice());
    let col = push_context(&mut msg, buf, start, end, rel - start);
    msg.push(0x0au8);
    proof {
        crate::text::lemma_decimal_len(line_number as nat);
    }
    crate::text::push_spaces(&mut msg, prefix.len() + col);
    msg.push(0x5eu8);
    msg.push(0x0au8);
    assert(prefix@ =~= filename@ + seq![0x3au8] + spec_decimal(line_number as nat) + seq![0x3au8, 0x20u8]);
    assert(msg@ =~= spec_format_parse_error(ofs as int, buf@, filename@, err.msg@, err.ofs as int));
    msg
}

} // verus!
