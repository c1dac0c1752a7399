//! The wire-frame codec: six frame variants, each written as a tagged line
//! (`+` simple text, `-` error text, `:` integer, `$` bulk bytes, `*` array,
//! and a null written `$-1`), every line ending in `\r\n`. Parsing is
//! incremental: a cursor over a byte buffer is checked for one complete
//! frame before the frame is materialized.

use vstd::prelude::*;
use vstd::utf8::decode_utf8;
use vstd::utf8::encode_utf8;
use vstd::utf8::valid_utf8;

verus! {

/// One protocol frame.
#[derive(Debug, PartialEq)]
pub enum Frame {
    Simple(String),
    Error(String),
    Integer(u64),
    Bulk(Vec<u8>),
    Null,
    Array(Vec<Frame>),
}

/// The mathematical model of a frame.
pub enum FrameV {
    Simple(Seq<char>),
    Error(Seq<char>),
    Integer(u64),
    Bulk(Seq<u8>),
    Null,
    Array(Seq<FrameV>),
}

/// The model of one frame.
pub open spec fn frame_view(f: Frame) -> FrameV
    decreases f,
{
    match f {
        Frame::Simple(s) => FrameV::Simple(s@),
        Frame::Error(s) => FrameV::Error(s@),
        Frame::Integer(n) => FrameV::Integer(n),
        Frame::Bulk(b) => FrameV::Bulk(b@),
        Frame::Null => FrameV::Null,
        Frame::Array(_) => FrameV::Array(frame_views(f->Array_0@)),
    }
}

/// The models of a sequence of frames, in order.
pub open spec fn frame_views(items: Seq<Frame>) -> Seq<FrameV>
    decreases items,
{
    if items.len() == 0 {
        Seq::empty()
    } else {
        seq![frame_view(items[0])] + frame_views(items.drop_first())
    }
}

pub proof fn lemma_frame_views_index(items: Seq<Frame>)
    ensures
        frame_views(items).len() == items.len(),
        forall|i: int| 0 <= i < items.len() ==> frame_views(items)[i] == frame_view(items[i]),
    decreases items.len(),
{
    if items.len() > 0 {
        lemma_frame_views_index(items.drop_first());
    }
}

pub proof fn lemma_frame_views_push(items: Seq<Frame>, f: Frame)
    ensures
        frame_views(items.push(f)) == frame_views(items).push(frame_view(f)),
    decreases items.len(),
{
    reveal_with_fuel(frame_views, 3);
    if items.len() == 0 {
        assert(items.push(f)[0] == f);
        assert(items.push(f).drop_first() =~= Seq::<Frame>::empty());
        assert(frame_views(items.push(f)) =~= frame_views(items).push(frame_view(f)));
    } else {
        assert(items.push(f).drop_first() =~= items.drop_first().push(f));
        assert(items.push(f)[0] == items[0]);
        lemma_frame_views_push(items.drop_first(), f);
        assert(frame_views(items.push(f)) == seq![frame_view(items[0])] + frame_views(
            items.drop_first(),
        ).push(frame_view(f)));
        assert(seq![frame_view(items[0])] + frame_views(items.drop_first()).push(frame_view(f))
            =~= (seq![frame_view(items[0])] + frame_views(items.drop_first())).push(
            frame_view(f),
        ));
    }
}

impl View for Frame {
    type V = FrameV;

    open spec fn view(&self) -> FrameV {
        frame_view(*self)
    }
}

/// How the codec reports a frame it cannot return: the buffer holds only a
/// prefix of a frame, or bytes no frame starts with.
#[derive(Debug, Clone, Copy, PartialEq, Eq, Structural)]
pub enum FrameError {
    Incomplete,
    Malformed,
}

/// The result of scanning for one `\r\n`-terminated line.
pub enum LineOutcome {
    /// The line's content and the position just past its terminator.
    Line(Seq<u8>, int),
    Incomplete,
    Malformed,
}

/// Scan from `pos` for a line: bytes up to the first `\r`, which must be
/// followed by `\n`. A `\r` followed by anything else is malformed; running
/// out of buffer first is incomplete.
pub open spec fn line_at(buf: Seq<u8>, pos: int) -> LineOutcome
    decreases buf.len() - pos,
    when 0 <= pos <= buf.len()
{
    if pos >= buf.len() {
        LineOutcome::Incomplete
    } else if buf[pos] == 13 {
        if pos + 1 >= buf.len() {
            LineOutcome::Incomplete
        } else if buf[pos + 1] == 10 {
            LineOutcome::Line(Seq::empty(), pos + 2)
        } else {
            LineOutcome::Malformed
        }
    } else {
        match line_at(buf, pos + 1) {
            LineOutcome::Line(c, next) => LineOutcome::Line(seq![buf[pos]] + c, next),
            o => o,
        }
    }
}

/// A found line lies within the buffer: its content is exactly the bytes
/// before its terminator, and holds no `\r`.
pub proof fn lemma_line_at_bounds(buf: Seq<u8>, pos: int)
    requires
        0 <= pos <= buf.len(),
        line_at(buf, pos) is Line,
    ensures
        ({
            let n = line_at(buf, pos)->Line_1;
            &&& pos + 2 <= n <= buf.len()
            &&& line_at(buf, pos)->Line_0 == buf.subrange(pos, n - 2)
            &&& forall|j: int| pos <= j < n - 2 ==> buf[j] != 13
            &&& buf[n - 2] == 13 && buf[n - 1] == 10
        }),
    decreases buf.len() - pos,
{
    if buf[pos] == 13 {
        assert(line_at(buf, pos)->Line_0 =~= buf.subrange(pos, pos));
    } else {
        lemma_line_at_bounds(buf, pos + 1);
        let n = line_at(buf, pos)->Line_1;
        assert(line_at(buf, pos)->Line_0 =~= buf.subrange(pos, n - 2));
    }
}

/// Scanning a buffer whose bytes from `pos` to `i` hold no `\r` gives the
/// same outcome as scanning from `i`, with those bytes prefixed to the line.
proof fn lemma_line_skip(buf: Seq<u8>, pos: int, i: int)
    requires
        0 <= pos <= i <= buf.len(),
        forall|j: int| pos <= j < i ==> buf[j] != 13,
    ensures
        line_at(buf, pos) == (match line_at(buf, i) {
            LineOutcome::Line(c, next) => LineOutcome::Line(buf.subrange(pos, i) + c, next),
            o => o,
        }),
    decreases i - pos,
{
    if pos < i {
        lemma_line_skip(buf, pos + 1, i);
        match line_at(buf, i) {
            LineOutcome::Line(c, next) => {
                assert(seq![buf[pos]] + (buf.subrange(pos + 1, i) + c) =~= buf.subrange(pos, i)
                    + c);
            },
            _ => {},
        }
    } else {
        match line_at(buf, i) {
            LineOutcome::Line(c, next) => {
                assert(buf.subrange(pos, i) + c =~= c);
            },
            _ => {},
        }
    }
}

/// Consume one `\r\n`-terminated line from the cursor, returning its
/// content.
pub fn get_line(buf: &Vec<u8>, pos: &mut usize) -> (r: Result<Vec<u8>, FrameError>)
    requires
        *old(pos) <= buf@.len(),
    ensures
        match r {
            Ok(line) => line_at(buf@, *old(pos) as int) is Line && line@ == line_at(
                buf@,
                *old(pos) as int,
            )->Line_0 && *final(pos) == line_at(buf@, *old(pos) as int)->Line_1,
            Err(FrameError::Incomplete) => line_at(buf@, *old(pos) as int) is Incomplete,
            Err(FrameError::Malformed) => line_at(buf@, *old(pos) as int) is Malformed,
        },
        *old(pos) <= *final(pos) <= buf@.len(),
{
    let start = *pos;
    let n = buf.len();
    let mut i: usize = start;
    while i < n
        invariant
            start <= i <= n,
            n == buf@.len(),
            start == *old(pos),
            *pos == start,
            forall|j: int| start <= j < i ==> buf@[j] != 13,
        decreases n - i,
    {
        if buf[i] == 13 {
            proof {
                lemma_line_skip(buf@, start as int, i as int);
            }
            if i + 1 >= n {
                return Err(FrameError::Incomplete);
            }
            if buf[i + 1] == 10 {
                let line = crate::record::copy_range(buf, start, i);
                *pos = i + 2;
                proof {
                    assert(buf@.subrange(start as int, i as int) + Seq::<u8>::empty()
                        =~= buf@.subrange(start as int, i as int));
                }
                return Ok(line);
            }
            return Err(FrameError::Malformed);
        }
        i = i + 1;
    }
    proof {
        lemma_line_skip(buf@, start as int, n as int);
    }
    Err(FrameError::Incomplete)
}

/// The decimal digits of an unsigned integer, most significant first.
pub open spec fn dec_digits(n: u64) -> Seq<u8>
    decreases n,
{
    if n < 10 {
        seq![(48 + n) as u8]
    } else {
        dec_digits(n / 10).push((48 + n % 10) as u8)
    }
}

/// Whether every byte is an ASCII digit, and there is at least one.
pub open spec fn is_dec_digits(s: Seq<u8>) -> bool {
    s.len() > 0 && forall|i: int| 0 <= i < s.len() ==> 48 <= #[trigger] s[i] <= 57
}

/// The number a sequence of ASCII digits denotes.
pub open spec fn dec_value(s: Seq<u8>) -> int
    decreases s.len(),
{
    if s.len() == 0 {
        0
    } else {
        dec_value(s.drop_last()) * 10 + (s.last() - 48)
    }
}

pub proof fn lemma_dec_value_nonneg(s: Seq<u8>)
    requires
        forall|i: int| 0 <= i < s.len() ==> 48 <= #[trigger] s[i] <= 57,
    ensures
        dec_value(s) >= 0,
    decreases s.len(),
{
    if s.len() > 0 {
        assert(forall|i: int|
            0 <= i < s.drop_last().len() ==> 48 <= #[trigger] s.drop_last()[i] <= 57);
        lemma_dec_value_nonneg(s.drop_last());
    }
}

/// The digits of `n` denote `n`, and are digits.
pub proof fn lemma_dec_digits_value(n: u64)
    ensures
        is_dec_digits(dec_digits(n)),
        dec_value(dec_digits(n)) == n,
    decreases n,
{
    if n < 10 {
        let d = dec_digits(n);
        reveal_with_fuel(dec_value, 2);
        assert(d.len() == 1);
        assert(d.drop_last() =~= Seq::<u8>::empty());
        assert(d.last() == (48 + n) as u8);
        assert(dec_value(d.drop_last()) == 0);
        assert(dec_value(d) == n);
    } else {
        lemma_dec_digits_value(n / 10);
        let d = dec_digits(n);
        assert(d.drop_last() =~= dec_digits(n / 10));
        assert(dec_value(d) == (n / 10) * 10 + n % 10);
        assert((n / 10) * 10 + n % 10 == n) by (nonlinear_arith);
    }
}

/// The digits of an integer, as bytes.
pub fn u64_to_dec(n: u64) -> (r: Vec<u8>)
    ensures
        r@ == dec_digits(n),
    decreases n,
{
    if n < 10 {
        let mut v: Vec<u8> = Vec::new();
        v.push(48 + (n as u8));
        proof {
            assert(v@ =~= dec_digits(n));
        }
        v
    } else {
        let mut v = u64_to_dec(n / 10);
        v.push(48 + ((n % 10) as u8));
        v
    }
}

/// Parse ASCII digits as an unsigned 64-bit integer; anything else, or a
/// value that does not fit, is rejected.
pub fn dec_to_u64(s: &Vec<u8>) -> (r: Option<u64>)
    ensures
        match r {
            Some(v) => is_dec_digits(s@) && dec_value(s@) == v,
            None => !(is_dec_digits(s@) && dec_value(s@) <= u64::MAX),
        },
{
    let n = s.len();
    if n == 0 {
        return None;
    }
    let mut acc: u64 = 0;
    let mut i: usize = 0;
    while i < n
        invariant
            0 < n == s@.len(),
            i <= n,
            forall|j: int| 0 <= j < i ==> 48 <= #[trigger] s@[j] <= 57,
            acc == dec_value(s@.subrange(0, i as int)),
        decreases n - i,
    {
        let b = s[i];
        if b < 48 || b > 57 {
            assert(!is_dec_digits(s@));
            return None;
        }
        let d = (b - 48) as u64;
        proof {
            lemma_dec_value_nonneg(s@.subrange(0, i as int));
        }
        if acc > (u64::MAX - d) / 10 {
            proof {
                let pre = s@.subrange(0, i + 1);
                assert(pre.drop_last() =~= s@.subrange(0, i as int));
                assert(acc * 10 + d > u64::MAX) by (nonlinear_arith)
                    requires
                        acc > (u64::MAX - d) / 10,
                        d <= 9,
                ;
                assert(dec_value(pre) > u64::MAX);
                if is_dec_digits(s@) {
                    lemma_dec_value_grows(s@, i + 1);
                }
            }
            return None;
        }
        proof {
            assert(acc * 10 + d <= u64::MAX) by (nonlinear_arith)
                requires
                    acc <= (u64::MAX - d) / 10,
                    d <= 9,
                    acc >= 0,
            ;
            let pre = s@.subrange(0, i + 1);
            assert(pre.drop_last() =~= s@.subrange(0, i as int));
            assert(pre.last() == s@[i as int]);
        }
        acc = acc * 10 + d;
        i = i + 1;
    }
    proof {
        assert(s@.subrange(0, n as int) =~= s@);
    }
    Some(acc)
}

/// What `String::from_utf8_lossy` yields on a byte sequence; the result
/// depends on the bytes alone.
pub uninterp spec fn lossy_utf8(bytes: Seq<u8>) -> Seq<char>;

/// Relies on String::from_utf8_lossy: the result is a function of the bytes
/// alone, and valid UTF-8 decodes to exactly its character sequence.
#[verifier::external_body]
pub(crate) fn bytes_to_string_lossy(b: &Vec<u8>) -> (r: String)
    ensures
        r@ == lossy_utf8(b@),
        valid_utf8(b@) ==> r@ == decode_utf8(b@),
{
    String::from_utf8_lossy(b.as_slice()).into_owned()
}

/// The characters a line's bytes denote: an exact decoding when the bytes
/// are valid UTF-8, and what the lossy decoding yields otherwise.
pub open spec fn text_of(bytes: Seq<u8>) -> Seq<char> {
    if valid_utf8(bytes) {
        decode_utf8(bytes)
    } else {
        lossy_utf8(bytes)
    }
}

/// The result of parsing one frame at a position.
pub enum ParseOutcome {
    Parsed(FrameV, int),
    Incomplete,
    Malformed,
}

/// The result of parsing a run of consecutive frames.
pub enum ParseManyOutcome {
    Parsed(Seq<FrameV>, int),
    Incomplete,
    Malformed,
}

/// Parse one frame at `pos`: a tag byte, a `\r\n`-terminated line, and for
/// bulk and array frames the payload the line announces. `$-1` and `*-1`
/// are the null frame.
pub open spec fn parse_at(buf: Seq<u8>, pos: int) -> ParseOutcome
    decreases buf.len() - pos, 0int,
    when 0 <= pos <= buf.len()
{
    if pos == buf.len() {
        ParseOutcome::Incomplete
    } else {
        let tag = buf[pos];
        if tag == 43 || tag == 45 {
            match line_at(buf, pos + 1) {
                LineOutcome::Line(c, next) => ParseOutcome::Parsed(
                    if tag == 43 {
                        FrameV::Simple(text_of(c))
                    } else {
                        FrameV::Error(text_of(c))
                    },
                    next,
                ),
                LineOutcome::Incomplete => ParseOutcome::Incomplete,
                LineOutcome::Malformed => ParseOutcome::Malformed,
            }
        } else if tag == 58 {
            match line_at(buf, pos + 1) {
                LineOutcome::Line(c, next) => if is_dec_digits(c) && dec_value(c) <= u64::MAX {
                    ParseOutcome::Parsed(FrameV::Integer(dec_value(c) as u64), next)
                } else {
                    ParseOutcome::Malformed
                },
                LineOutcome::Incomplete => ParseOutcome::Incomplete,
                LineOutcome::Malformed => ParseOutcome::Malformed,
            }
        } else if tag == 36 {
            match line_at(buf, pos + 1) {
                LineOutcome::Line(c, next) => if c == seq![45u8, 49u8] {
                    ParseOutcome::Parsed(FrameV::Null, next)
                } else if is_dec_digits(c) && dec_value(c) <= u32::MAX && 0 <= next
                    <= buf.len() {
                    let len = dec_value(c);
                    if next + len + 2 <= buf.len() {
                        if buf[next + len] == 13 && buf[next + len + 1] == 10 {
                            ParseOutcome::Parsed(
                                FrameV::Bulk(buf.subrange(next, next + len)),
                                next + len + 2,
                            )
                        } else {
                            ParseOutcome::Malformed
                        }
                    } else {
                        ParseOutcome::Incomplete
                    }
                } else {
                    ParseOutcome::Malformed
                },
                LineOutcome::Incomplete => ParseOutcome::Incomplete,
                LineOutcome::Malformed => ParseOutcome::Malformed,
            }
        } else if tag == 42 {
            match line_at(buf, pos + 1) {
                LineOutcome::Line(c, next) => if c == seq![45u8, 49u8] {
                    ParseOutcome::Parsed(FrameV::Null, next)
                } else if is_dec_digits(c) && dec_value(c) <= u32::MAX && pos < next
                    <= buf.len() {
                    match parse_n(buf, next, dec_value(c)) {
                        ParseManyOutcome::Parsed(items, end) => ParseOutcome::Parsed(
                            FrameV::Array(items),
                            end,
                        ),
                        ParseManyOutcome::Incomplete => ParseOutcome::Incomplete,
                        ParseManyOutcome::Malformed => ParseOutcome::Malformed,
                    }
                } else {
                    ParseOutcome::Malformed
                },
                LineOutcome::Incomplete => ParseOutcome::Incomplete,
                LineOutcome::Malformed => ParseOutcome::Malformed,
            }
        } else {
            ParseOutcome::Malformed
        }
    }
}

/// Parse `n` consecutive frames starting at `pos`.
pub open spec fn parse_n(buf: Seq<u8>, pos: int, n: int) -> ParseManyOutcome
    decreases buf.len() - pos, 1int + (if n > 0 {
        n
    } else {
        0
    }),
    when 0 <= pos <= buf.len()
{
    if n <= 0 {
        ParseManyOutcome::Parsed(Seq::empty(), pos)
    } else {
        match parse_at(buf, pos) {
            ParseOutcome::Parsed(f, next) => if pos < next <= buf.len() {
                match parse_n(buf, next, n - 1) {
                    ParseManyOutcome::Parsed(fs, end) => ParseManyOutcome::Parsed(
                        seq![f] + fs,
                        end,
                    ),
                    o => o,
                }
            } else {
                ParseManyOutcome::Malformed
            },
            ParseOutcome::Incomplete => ParseManyOutcome::Incomplete,
            ParseOutcome::Malformed => ParseManyOutcome::Malformed,
        }
    }
}

/// Whether a line's content is exactly `-1`, the marker of a null frame.
fn is_neg_one(line: &Vec<u8>) -> (r: bool)
    ensures
        r == (line@ == seq![45u8, 49u8]),
{
    if line.len() != 2 {
        assert(line@ != seq![45u8, 49u8]);
        return false;
    }
    if line[0] != 45 {
        assert(line@[0] != seq![45u8, 49u8][0]);
        return false;
    }
    if line[1] != 49 {
        assert(line@[1] != seq![45u8, 49u8][1]);
        return false;
    }
    assert(line@ =~= seq![45u8, 49u8]);
    true
}

/// Advance past one complete frame without materializing it.
fn check_from(buf: &Vec<u8>, pos: usize) -> (r: Result<usize, FrameError>)
    requires
        pos <= buf@.len(),
    ensures
        match r {
            Ok(next) => parse_at(buf@, pos as int) is Parsed && next as int == parse_at(
                buf@,
                pos as int,
            )->Parsed_1 && pos < next <= buf@.len(),
            Err(FrameError::Incomplete) => parse_at(buf@, pos as int) is Incomplete,
            Err(FrameError::Malformed) => parse_at(buf@, pos as int) is Malformed,
        },
    decreases buf@.len() - pos,
{
    if pos == buf.len() {
        return Err(FrameError::Incomplete);
    }
    let tag = buf[pos];
    let mut cur: usize = pos + 1;
    if tag == 43 || tag == 45 {
        match get_line(buf, &mut cur) {
            Ok(_) => Ok(cur),
            Err(e) => Err(e),
        }
    } else if tag == 58 {
        match get_line(buf, &mut cur) {
            Ok(line) => match dec_to_u64(&line) {
                Some(_) => Ok(cur),
                None => Err(FrameError::Malformed),
            },
            Err(e) => Err(e),
        }
    } else if tag == 36 {
        match get_line(buf, &mut cur) {
            Ok(line) => {
                if is_neg_one(&line) {
                    return Ok(cur);
                }
                match dec_to_u64(&line) {
                    Some(v) => {
                        if v > u32::MAX as u64 {
                            return Err(FrameError::Malformed);
                        }
                        proof {
                            lemma_dec_value_nonneg(line@);
                        }
                        let len = v as usize;
                        let rem = buf.len() - cur;
                        if rem < 2 || rem - 2 < len {
                            return Err(FrameError::Incomplete);
                        }
                        if buf[cur + len] == 13 && buf[cur + len + 1] == 10 {
                            Ok(cur + len + 2)
                        } else {
                            Err(FrameError::Malformed)
                        }
                    },
                    None => Err(FrameError::Malformed),
                }
            },
            Err(e) => Err(e),
        }
    } else if tag == 42 {
        match get_line(buf, &mut cur) {
            Ok(line) => {
                if is_neg_one(&line) {
                    return Ok(cur);
                }
                match dec_to_u64(&line) {
                    Some(v) => {
                        if v > u32::MAX as u64 {
                            return Err(FrameError::Malformed);
                        }
                        proof {
                            lemma_dec_value_nonneg(line@);
                            lemma_line_at_bounds(buf@, pos as int + 1);
                        }
                        let ghost start_items = cur as int;
                        let mut i: u64 = 0;
                        while i < v
                            invariant
                                i <= v,
                                pos < buf@.len(),
                                buf@[pos as int] == 42,
                                pos < cur <= buf@.len(),
                                pos + 1 < start_items <= buf@.len(),
                                line_at(buf@, pos + 1) is Line,
                                line_at(buf@, pos + 1)->Line_0 == line@,
                                line_at(buf@, pos + 1)->Line_1 == start_items,
                                line@ != seq![45u8, 49u8],
                                is_dec_digits(line@),
                                dec_value(line@) == v,
                                v <= u32::MAX,
                                ({
                                    let whole = parse_n(buf@, start_items, v as int);
                                    match parse_n(buf@, cur as int, v as int - i as int) {
                                        ParseManyOutcome::Parsed(fs, end) => whole is Parsed
                                            && whole->Parsed_1 == end,
                                        ParseManyOutcome::Incomplete => whole is Incomplete,
                                        ParseManyOutcome::Malformed => whole is Malformed,
                                    }
                                }),
                            decreases v - i,
                        {
                            match check_from(buf, cur) {
                                Ok(next) => {
                                    cur = next;
                                },
                                Err(e) => {
                                    return Err(e);
                                },
                            }
                            i = i + 1;
                        }
                        Ok(cur)
                    },
                    None => Err(FrameError::Malformed),
                }
            },
            Err(e) => Err(e),
        }
    } else {
        Err(FrameError::Malformed)
    }
}

/// Parse one complete frame starting at `pos`, returning it and the
/// position one past its bytes.
fn parse_from(buf: &Vec<u8>, pos: usize) -> (r: Result<(Frame, usize), FrameError>)
    requires
        pos <= buf@.len(),
    ensures
        match r {
            Ok((f, next)) => parse_at(buf@, pos as int) is Parsed && frame_view(f) == parse_at(
                buf@,
                pos as int,
            )->Parsed_0 && next as int == parse_at(buf@, pos as int)->Parsed_1 && pos < next
                <= buf@.len(),
            Err(FrameError::Incomplete) => parse_at(buf@, pos as int) is Incomplete,
            Err(FrameError::Malformed) => parse_at(buf@, pos as int) is Malformed,
        },
    decreases buf@.len() - pos,
{
    if pos == buf.len() {
        return Err(FrameError::Incomplete);
    }
    let tag = buf[pos];
    let mut cur: usize = pos + 1;
    if tag == 43 || tag == 45 {
        match get_line(buf, &mut cur) {
            Ok(line) => {
                let text = bytes_to_string_lossy(&line);
                if tag == 43 {
                    Ok((Frame::Simple(text), cur))
                } else {
                    Ok((Frame::Error(text), cur))
                }
            },
            Err(e) => Err(e),
        }
    } else if tag == 58 {
        match get_line(buf, &mut cur) {
            Ok(line) => match dec_to_u64(&line) {
                Some(v) => Ok((Frame::Integer(v), cur)),
                None => Err(FrameError::Malformed),
            },
            Err(e) => Err(e),
        }
    } else if tag == 36 {
        match get_line(buf, &mut cur) {
            Ok(line) => {
                if is_neg_one(&line) {
                    return Ok((Frame::Null, cur));
                }
                match dec_to_u64(&line) {
                    Some(v) => {
                        if v > u32::MAX as u64 {
                            return Err(FrameError::Malformed);
                        }
                        proof {
                            lemma_dec_value_nonneg(line@);
                        }
                        let len = v as usize;
                        let rem = buf.len() - cur;
                        if rem < 2 || rem - 2 < len {
                            return Err(FrameError::Incomplete);
                        }
                        if buf[cur + len] == 13 && buf[cur + len + 1] == 10 {
                            let data = crate::record::copy_range(buf, cur, cur + len);
                            Ok((Frame::Bulk(data), cur + len + 2))
                        } else {
                            Err(FrameError::Malformed)
                        }
                    },
                    None => Err(FrameError::Malformed),
                }
            },
            Err(e) => Err(e),
        }
    } else if tag == 42 {
        match get_line(buf, &mut cur) {
            Ok(line) => {
                if is_neg_one(&line) {
                    return Ok((Frame::Null, cur));
                }
                match dec_to_u64(&line) {
                    Some(v) => {
                        if v > u32::MAX as u64 {
                            return Err(FrameError::Malformed);
                        }
                        proof {
                            lemma_dec_value_nonneg(line@);
                            lemma_line_at_bounds(buf@, pos as int + 1);
                        }
                        let ghost start_items = cur as int;
                        let mut items: Vec<Frame> = Vec::new();
                        let mut i: u64 = 0;
                        while i < v
                            invariant
                                i <= v,
                                pos < buf@.len(),
                                buf@[pos as int] == 42,
                                pos < cur <= buf@.len(),
                                pos + 1 < start_items <= buf@.len(),
                                line_at(buf@, pos + 1) is Line,
                                line_at(buf@, pos + 1)->Line_0 == line@,
                                line_at(buf@, pos + 1)->Line_1 == start_items,
                                line@ != seq![45u8, 49u8],
                                is_dec_digits(line@),
                                dec_value(line@) == v,
                                v <= u32::MAX,
                                items@.len() == i,
                                ({
                                    let whole = parse_n(buf@, start_items, v as int);
                                    match parse_n(buf@, cur as int, v as int - i as int) {
                                        ParseManyOutcome::Parsed(fs, end) => whole
                                            == ParseManyOutcome::Parsed(
                                            frame_views(items@) + fs,
                                            end,
                                        ),
                                        ParseManyOutcome::Incomplete => whole is Incomplete,
                                        ParseManyOutcome::Malformed => whole is Malformed,
                                    }
                                }),
                            decreases v - i,
                        {
                            match parse_from(buf, cur) {
                                Ok((f, next)) => {
                                    proof {
                                        lemma_frame_views_push(items@, f);
                                        let fs_rest = parse_n(buf@, next as int, v - i - 1);
                                        if fs_rest is Parsed {
                                            assert(frame_views(items@) + (seq![frame_view(f)]
                                                + fs_rest->Parsed_0) =~= frame_views(
                                                items@.push(f),
                                            ) + fs_rest->Parsed_0);
                                        }
                                    }
                                    items.push(f);
                                    cur = next;
                                },
                                Err(e) => {
                                    return Err(e);
                                },
                            }
                            i = i + 1;
                        }
                        proof {
                            assert(frame_views(items@) + Seq::<FrameV>::empty() =~= frame_views(
                                items@,
                            ));
                        }
                        Ok((Frame::Array(items), cur))
                    },
                    None => Err(FrameError::Malformed),
                }
            },
            Err(e) => Err(e),
        }
    } else {
        Err(FrameError::Malformed)
    }
}

impl Frame {
    /// Advance the cursor past one complete frame, without materializing
    /// it: the first pass of the two-pass incremental parse.
    pub fn check(buf: &Vec<u8>, pos: &mut usize) -> (r: Result<(), FrameError>)
        requires
            *old(pos) <= buf@.len(),
        ensures
            match r {
                Ok(()) => parse_at(buf@, *old(pos) as int) is Parsed && *final(pos) == parse_at(
                    buf@,
                    *old(pos) as int,
                )->Parsed_1 && *old(pos) < *final(pos) <= buf@.len(),
                Err(FrameError::Incomplete) => parse_at(buf@, *old(pos) as int) is Incomplete
                    && *final(pos) == *old(pos),
                Err(FrameError::Malformed) => parse_at(buf@, *old(pos) as int) is Malformed
                    && *final(pos) == *old(pos),
            },
    {
        match check_from(buf, *pos) {
            Ok(next) => {
                *pos = next;
                Ok(())
            },
            Err(e) => Err(e),
        }
    }

    /// Materialize one complete frame at the cursor: the second pass, run
    /// after `check` has succeeded on a copy of the cursor.
    pub fn parse(buf: &Vec<u8>, pos: &mut usize) -> (r: Result<Frame, FrameError>)
        requires
            *old(pos) <= buf@.len(),
        ensures
            match r {
                Ok(f) => parse_at(buf@, *old(pos) as int) is Parsed && frame_view(f) == parse_at(
                    buf@,
                    *old(pos) as int,
                )->Parsed_0 && *final(pos) == parse_at(buf@, *old(pos) as int)->Parsed_1 && *old(
                    pos,
                ) < *final(pos) <= buf@.len(),
                Err(FrameError::Incomplete) => parse_at(buf@, *old(pos) as int) is Incomplete
                    && *final(pos) == *old(pos),
                Err(FrameError::Malformed) => parse_at(buf@, *old(pos) as int) is Malformed
                    && *final(pos) == *old(pos),
            },
    {
        match parse_from(buf, *pos) {
            Ok((f, next)) => {
                *pos = next;
                Ok(f)
            },
            Err(e) => Err(e),
        }
    }
}

/// The bytes a frame is written as.
pub open spec fn encode_frame(f: FrameV) -> Seq<u8>
    decreases f,
{
    match f {
        FrameV::Simple(s) => seq![43u8] + encode_utf8(s) + seq![13u8, 10u8],
        FrameV::Error(s) => seq![45u8] + encode_utf8(s) + seq![13u8, 10u8],
        FrameV::Integer(n) => seq![58u8] + dec_digits(n) + seq![13u8, 10u8],
        FrameV::Bulk(b) => seq![36u8] + dec_digits(b.len() as u64) + seq![13u8, 10u8] + b
            + seq![13u8, 10u8],
        FrameV::Null => seq![36u8, 45u8, 49u8, 13u8, 10u8],
        FrameV::Array(_) => seq![42u8] + dec_digits(f->Array_0.len() as u64) + seq![13u8, 10u8]
            + encode_seq(f->Array_0),
    }
}

/// The bytes a run of frames is written as, in order.
pub open spec fn encode_seq(items: Seq<FrameV>) -> Seq<u8>
    decreases items,
{
    if items.len() == 0 {
        Seq::empty()
    } else {
        encode_frame(items[0]) + encode_seq(items.drop_first())
    }
}

pub proof fn lemma_encode_seq_push(items: Seq<FrameV>, f: FrameV)
    ensures
        encode_seq(items.push(f)) == encode_seq(items) + encode_frame(f),
    decreases items.len(),
{
    reveal_with_fuel(encode_seq, 3);
    if items.len() == 0 {
        assert(items.push(f)[0] == f);
        assert(items.push(f).drop_first() =~= Seq::<FrameV>::empty());
        assert(encode_seq(items.push(f)) =~= encode_seq(items) + encode_frame(f));
    } else {
        assert(items.push(f).drop_first() =~= items.drop_first().push(f));
        assert(items.push(f)[0] == items[0]);
        lemma_encode_seq_push(items.drop_first(), f);
        assert(encode_seq(items.push(f)) == encode_frame(items[0]) + (encode_seq(
            items.drop_first(),
        ) + encode_frame(f)));
        assert(encode_frame(items[0]) + (encode_seq(items.drop_first()) + encode_frame(f)) =~= (
        encode_frame(items[0]) + encode_seq(items.drop_first())) + encode_frame(f));
    }
}

/// Append the bytes of one frame to `out`.
fn encode_into(f: &Frame, out: &mut Vec<u8>)
    ensures
        final(out)@ == old(out)@ + encode_frame(frame_view(*f)),
    decreases *f,
{
    match f {
        Frame::Simple(s) => {
            out.push(43);
            out.extend_from_slice(s.as_str().as_bytes());
            out.push(13);
            out.push(10);
            assert(out@ =~= old(out)@ + encode_frame(frame_view(*f)));
        },
        Frame::Error(s) => {
            out.push(45);
            out.extend_from_slice(s.as_str().as_bytes());
            out.push(13);
            out.push(10);
            assert(out@ =~= old(out)@ + encode_frame(frame_view(*f)));
        },
        Frame::Integer(n) => {
            out.push(58);
            let digits = u64_to_dec(*n);
            out.extend_from_slice(digits.as_slice());
            out.push(13);
            out.push(10);
            assert(out@ =~= old(out)@ + encode_frame(frame_view(*f)));
        },
        Frame::Bulk(b) => {
            out.push(36);
            let digits = u64_to_dec(b.len() as u64);
            out.extend_from_slice(digits.as_slice());
            out.push(13);
            out.push(10);
            out.extend_from_slice(b.as_slice());
            out.push(13);
            out.push(10);
            assert(out@ =~= old(out)@ + encode_frame(frame_view(*f)));
        },
        Frame::Null => {
            out.push(36);
            out.push(45);
            out.push(49);
            out.push(13);
            out.push(10);
            assert(out@ =~= old(out)@ + encode_frame(frame_view(*f)));
        },
        Frame::Array(items) => {
            out.push(42);
            let digits = u64_to_dec(items.len() as u64);
            out.extend_from_slice(digits.as_slice());
            out.push(13);
            out.push(10);
            let ghost base = out@;
            proof {
                assert(base =~= old(out)@ + (seq![42u8] + dec_digits(items@.len() as u64)
                    + seq![13u8, 10u8]));
                lemma_frame_views_index(items@);
            }
            let n = items.len();
            let mut i: usize = 0;
            while i < n
                invariant
                    i <= n,
                    n == items@.len(),
                    (*f) is Array,
                    f->Array_0 == *items,
                    base == old(out)@ + (seq![42u8] + dec_digits(items@.len() as u64)
                        + seq![13u8, 10u8]),
                    frame_views(items@).len() == n,
                    forall|j: int| 0 <= j < n ==> frame_views(items@)[j] == frame_view(items@[j]),
                    out@ == base + encode_seq(frame_views(items@).subrange(0, i as int)),
                decreases n - i,
            {
                proof {
                    broadcast use vstd::std_specs::vec::group_vec_axioms;

                    assert((*f) is Array);
                    assert(f->Array_0 == *items);
                    assert(decreases_to!(*f => f->Array_0));
                    assert(decreases_to!(f->Array_0 => f->Array_0[i as int]));
                    assert(decreases_to!(*f => items@[i as int]));
                }
                let ghost pre = out@;
                encode_into(&items[i], out);
                proof {
                    let views = frame_views(items@);
                    assert(views.subrange(0, i + 1) =~= views.subrange(0, i as int).push(
                        views[i as int],
                    ));
                    lemma_encode_seq_push(views.subrange(0, i as int), views[i as int]);
                    assert(out@ =~= base + encode_seq(views.subrange(0, i + 1)));
                }
                i = i + 1;
            }
            proof {
                let views = frame_views(items@);
                assert(views.subrange(0, n as int) =~= views);
                assert(out@ =~= old(out)@ + encode_frame(frame_view(*f)));
            }
        },
    }
}

impl Frame {
    /// The frame written as a self-contained byte sequence.
    pub fn encode(&self) -> (r: Vec<u8>)
        ensures
            r@ == encode_frame(self@),
    {
        let mut out: Vec<u8> = Vec::new();
        encode_into(self, &mut out);
        proof {
            assert(Seq::<u8>::empty() + encode_frame(frame_view(*self)) =~= encode_frame(
                frame_view(*self),
            ));
        }
        out
    }
}

/// A value read from more digits is at least the value read from a prefix.
proof fn lemma_dec_value_grows(s: Seq<u8>, i: int)
    requires
        0 <= i <= s.len(),
        forall|j: int| 0 <= j < s.len() ==> 48 <= #[trigger] s[j] <= 57,
    ensures
        dec_value(s) >= dec_value(s.subrange(0, i)),
    decreases s.len() - i,
{
    if i < s.len() {
        lemma_dec_value_grows(s, i + 1);
        let longer = s.subrange(0, i + 1);
        let shorter = s.subrange(0, i);
        assert(longer.drop_last() =~= shorter);
        lemma_dec_value_nonneg(shorter);
        assert(dec_value(longer) == dec_value(shorter) * 10 + (longer.last() - 48));
        assert(dec_value(shorter) * 10 >= dec_value(shorter)) by (nonlinear_arith)
            requires
                dec_value(shorter) >= 0,
        ;
    } else {
        assert(s.subrange(0, i) =~= s);
    }
}

} // verus!

verus! {

/// A frame the encoder writes in a form its own parser reads back: simple
/// and error text holds no carriage return, and bulk payloads and array
/// lengths fit their 32-bit length fields.
pub open spec fn wf_frame(f: FrameV) -> bool
    decreases f,
{
    match f {
        FrameV::Simple(s) => forall|i: int| 0 <= i < s.len() ==> s[i] != '\r',
        FrameV::Error(s) => forall|i: int| 0 <= i < s.len() ==> s[i] != '\r',
        FrameV::Integer(_) => true,
        FrameV::Bulk(b) => b.len() <= u32::MAX,
        FrameV::Null => true,
        FrameV::Array(_) => f->Array_0.len() <= u32::MAX && (forall|i: int|
            0 <= i < f->Array_0.len() ==> wf_frame(#[trigger] f->Array_0[i])),
    }
}

/// The UTF-8 bytes of text free of carriage returns hold no carriage-return
/// byte: multi-byte sequences use only bytes at or above 0x80.
pub proof fn lemma_encode_utf8_no_cr(s: Seq<char>)
    requires
        forall|i: int| 0 <= i < s.len() ==> s[i] != '\r',
    ensures
        forall|j: int| 0 <= j < encode_utf8(s).len() ==> encode_utf8(s)[j] != 13,
    decreases s.len(),
{
    broadcast use vstd::utf8::char_is_scalar;
    broadcast use vstd::utf8::char_u32_cast;

    if s.len() > 0 {
        assert(forall|i: int| 0 <= i < s.drop_first().len() ==> s.drop_first()[i] != '\r');
        lemma_encode_utf8_no_cr(s.drop_first());
        let c = s[0];
        let sc = c as u32;
        assert(sc != 13) by {
            if sc == 13 {
                vstd::utf8::char_u32_cast(c, 13u32);
                vstd::utf8::char_u32_cast('\r', 13u32);
            }
        }
        let e = vstd::utf8::encode_scalar(sc);
        assert forall|j: int| 0 <= j < e.len() implies e[j] != 13 by {
            if vstd::utf8::has_width_1_encoding(sc) {
                assert((sc & 0x7F) == sc && sc != 13 ==> (sc & 0x7F) as u8 != 13) by (bit_vector);
                assert(sc & 0x7F == sc) by (bit_vector)
                    requires
                        sc <= 0x7F,
                ;
            } else {
                assert(forall|x: u32| (0xC0u8 | ((x >> 6) & 0x1F) as u8) != 13) by (bit_vector);
                assert(forall|x: u32| (0xE0u8 | ((x >> 12) & 0x0F) as u8) != 13) by (bit_vector);
                assert(forall|x: u32| (0xF0u8 | ((x >> 18) & 0x7) as u8) != 13) by (bit_vector);
                assert(forall|x: u32| (0x80u8 | (x & 0x3F) as u8) != 13) by (bit_vector);
                assert(forall|x: u32| (0x80u8 | ((x >> 6) & 0x3F) as u8) != 13) by (bit_vector);
                assert(forall|x: u32| (0x80u8 | ((x >> 12) & 0x3F) as u8) != 13) by (bit_vector);
            }
        }
        assert(encode_utf8(s) == e + encode_utf8(s.drop_first()));
    }
}

/// A buffer region holding line content free of carriage returns, then the
/// terminator, scans as exactly that line.
proof fn lemma_line_at_exact(buf: Seq<u8>, pos: int, content: Seq<u8>)
    requires
        0 <= pos,
        pos + content.len() + 2 <= buf.len(),
        buf.subrange(pos, pos + content.len()) == content,
        forall|i: int| 0 <= i < content.len() ==> content[i] != 13,
        buf[pos + content.len()] == 13,
        buf[pos + content.len() + 1] == 10,
    ensures
        line_at(buf, pos) == LineOutcome::Line(content, pos + content.len() + 2),
{
    assert forall|j: int| pos <= j < pos + content.len() implies buf[j] != 13 by {
        assert(buf[j] == content[j - pos]);
    }
    lemma_line_skip(buf, pos, pos + content.len());
    assert(line_at(buf, pos + content.len()) == LineOutcome::Line(
        Seq::<u8>::empty(),
        pos + content.len() + 2,
    ));
    assert(buf.subrange(pos, pos + content.len()) + Seq::<u8>::empty() =~= content);
}

/// A buffer that ends inside a line's content or terminator scans as
/// incomplete.
proof fn lemma_line_at_truncated(buf: Seq<u8>, pos: int, content: Seq<u8>)
    requires
        0 <= pos <= buf.len(),
        buf.len() < pos + content.len() + 2,
        forall|i: int| 0 <= i < content.len() ==> content[i] != 13,
        forall|j: int|
            pos <= j < buf.len() ==> buf[j] == (content + seq![13u8, 10u8])[j - pos],
    ensures
        line_at(buf, pos) is Incomplete,
{
    if buf.len() - pos <= content.len() {
        assert forall|j: int| pos <= j < buf.len() implies buf[j] != 13 by {
            assert(buf[j] == content[j - pos]);
        }
        lemma_line_skip(buf, pos, buf.len() as int);
    } else {
        let cr = pos + content.len();
        assert(buf.len() == cr + 1);
        assert forall|j: int| pos <= j < cr implies buf[j] != 13 by {
            assert(buf[j] == content[j - pos]);
        }
        lemma_line_skip(buf, pos, cr);
        assert(buf[cr] == 13);
        assert(line_at(buf, cr) is Incomplete);
    }
}

/// Frame round-trip law: a frame written by the encoder anywhere in a
/// buffer parses back as exactly that frame, the cursor landing one past
/// its bytes; an array recurses into its elements.
#[verifier::rlimit(100)]
pub proof fn lemma_frame_round_trip(f: FrameV, buf: Seq<u8>, pos: int)
    requires
        wf_frame(f),
        0 <= pos,
        pos + encode_frame(f).len() <= buf.len(),
        buf.subrange(pos, pos + encode_frame(f).len() as int) == encode_frame(f),
    ensures
        parse_at(buf, pos) == ParseOutcome::Parsed(f, pos + encode_frame(f).len()),
    decreases f, 0int,
{
    broadcast use vstd::utf8::encode_utf8_valid_utf8;
    broadcast use vstd::utf8::encode_utf8_decode_utf8;

    let e = encode_frame(f);
    assert forall|j: int| pos <= j < pos + e.len() implies buf[j] == e[j - pos] by {
        assert(buf.subrange(pos, pos + e.len() as int)[j - pos] == buf[j]);
    }
    match f {
        FrameV::Simple(s) => {
            let body = encode_utf8(s);
            lemma_encode_utf8_no_cr(s);
            assert(buf[pos] == 43);
            assert(buf.subrange(pos + 1, pos + 1 + body.len()) =~= body);
            lemma_line_at_exact(buf, pos + 1, body);
            assert(text_of(body) == s);
        },
        FrameV::Error(s) => {
            let body = encode_utf8(s);
            lemma_encode_utf8_no_cr(s);
            assert(buf[pos] == 45);
            assert(buf.subrange(pos + 1, pos + 1 + body.len()) =~= body);
            lemma_line_at_exact(buf, pos + 1, body);
            assert(text_of(body) == s);
        },
        FrameV::Integer(n) => {
            let body = dec_digits(n);
            lemma_dec_digits_value(n);
            assert(buf[pos] == 58);
            assert(buf.subrange(pos + 1, pos + 1 + body.len()) =~= body);
            lemma_line_at_exact(buf, pos + 1, body);
            assert(dec_value(body) as u64 == n);
        },
        FrameV::Bulk(b) => {
            let body = dec_digits(b.len() as u64);
            lemma_dec_digits_value(b.len() as u64);
            assert(buf[pos] == 36);
            assert(buf.subrange(pos + 1, pos + 1 + body.len()) =~= body);
            lemma_line_at_exact(buf, pos + 1, body);
            assert(body[0] >= 48);
            assert(body != seq![45u8, 49u8]);
            let next = pos + 1 + body.len() + 2;
            let len = b.len() as int;
            assert(buf.subrange(next, next + len) =~= b);
            assert(buf[next + len] == 13 && buf[next + len + 1] == 10);
            assert(next + len + 2 == pos + e.len());
        },
        FrameV::Null => {
            assert(buf[pos] == 36);
            assert(buf.subrange(pos + 1, pos + 3) =~= seq![45u8, 49u8]);
            lemma_line_at_exact(buf, pos + 1, seq![45u8, 49u8]);
        },
        FrameV::Array(_) => {
            let items = f->Array_0;
            let body = dec_digits(items.len() as u64);
            lemma_dec_digits_value(items.len() as u64);
            assert(buf[pos] == 42);
            assert(buf.subrange(pos + 1, pos + 1 + body.len()) =~= body);
            lemma_line_at_exact(buf, pos + 1, body);
            assert(body[0] >= 48);
            assert(body != seq![45u8, 49u8]);
            let next = pos + 1 + body.len() + 2;
            assert(buf.subrange(next, next + encode_seq(items).len()) =~= encode_seq(items));
            lemma_parse_n_round_trip(items, buf, next);
        },
    }
}

/// A run of well-formed frames written one after another parses back as
/// exactly those frames, in order.
#[verifier::rlimit(100)]
pub proof fn lemma_parse_n_round_trip(items: Seq<FrameV>, buf: Seq<u8>, pos: int)
    requires
        forall|i: int| 0 <= i < items.len() ==> wf_frame(#[trigger] items[i]),
        0 <= pos,
        pos + encode_seq(items).len() <= buf.len(),
        buf.subrange(pos, pos + encode_seq(items).len() as int) == encode_seq(items),
    ensures
        parse_n(buf, pos, items.len() as int) == ParseManyOutcome::Parsed(
            items,
            pos + encode_seq(items).len(),
        ),
    decreases items, 1int,
{
    let e = encode_seq(items);
    assert forall|j: int| pos <= j < pos + e.len() implies buf[j] == e[j - pos] by {
        assert(buf.subrange(pos, pos + e.len() as int)[j - pos] == buf[j]);
    }
    if items.len() == 0 {
        assert(parse_n(buf, pos, 0) == ParseManyOutcome::Parsed(Seq::<FrameV>::empty(), pos));
        assert(items =~= Seq::<FrameV>::empty());
    } else {
        let f0 = items[0];
        let e0 = encode_frame(f0);
        let rest = items.drop_first();
        assert(e == e0 + encode_seq(rest));
        assert(e0.len() >= 1);
        assert(buf.subrange(pos, pos + e0.len()) =~= e0);
        lemma_frame_round_trip(f0, buf, pos);
        let next = pos + e0.len();
        assert(buf.subrange(next, next + encode_seq(rest).len() as int) =~= encode_seq(rest));
        lemma_parse_n_round_trip(rest, buf, next);
        assert(seq![f0] + rest =~= items);
    }
}

/// Incremental-parse law, first half: while the buffer holds only a strict
/// prefix of an encoded frame, the parser reports it incomplete, so a
/// connection waits for more bytes rather than failing.
#[verifier::rlimit(100)]
pub proof fn lemma_parse_prefix_incomplete(f: FrameV, buf: Seq<u8>, pos: int)
    requires
        wf_frame(f),
        0 <= pos <= buf.len(),
        buf.len() < pos + encode_frame(f).len(),
        buf.subrange(pos, buf.len() as int) == encode_frame(f).subrange(0, buf.len() - pos),
    ensures
        parse_at(buf, pos) is Incomplete,
    decreases f, 0int,
{
    let e = encode_frame(f);
    let avail = buf.len() - pos;
    assert forall|j: int| pos <= j < buf.len() implies buf[j] == e[j - pos] by {
        assert(buf.subrange(pos, buf.len() as int)[j - pos] == buf[j]);
        assert(e.subrange(0, avail)[j - pos] == e[j - pos]);
    }
    if avail == 0 {
    } else {
        match f {
            FrameV::Simple(s) => {
                let body = encode_utf8(s);
                lemma_encode_utf8_no_cr(s);
                assert(buf[pos] == 43);
                assert forall|j: int|
                    pos + 1 <= j < buf.len() implies buf[j] == (body + seq![13u8, 10u8])[j - pos
                    - 1] by {
                    assert(buf[j] == e[j - pos]);
                }
                lemma_line_at_truncated(buf, pos + 1, body);
            },
            FrameV::Error(s) => {
                let body = encode_utf8(s);
                lemma_encode_utf8_no_cr(s);
                assert(buf[pos] == 45);
                assert forall|j: int|
                    pos + 1 <= j < buf.len() implies buf[j] == (body + seq![13u8, 10u8])[j - pos
                    - 1] by {
                    assert(buf[j] == e[j - pos]);
                }
                lemma_line_at_truncated(buf, pos + 1, body);
            },
            FrameV::Integer(n) => {
                let body = dec_digits(n);
                lemma_dec_digits_value(n);
                assert(buf[pos] == 58);
                assert forall|j: int|
                    pos + 1 <= j < buf.len() implies buf[j] == (body + seq![13u8, 10u8])[j - pos
                    - 1] by {
                    assert(buf[j] == e[j - pos]);
                }
                lemma_line_at_truncated(buf, pos + 1, body);
            },
            FrameV::Bulk(b) => {
                let body = dec_digits(b.len() as u64);
                lemma_dec_digits_value(b.len() as u64);
                assert(buf[pos] == 36);
                if avail < 1 + body.len() + 2 {
                    assert forall|j: int|
                        pos + 1 <= j < buf.len() implies buf[j] == (body + seq![13u8, 10u8])[j
                        - pos - 1] by {
                        assert(buf[j] == e[j - pos]);
                    }
                    lemma_line_at_truncated(buf, pos + 1, body);
                } else {
                    assert(buf.subrange(pos + 1, pos + 1 + body.len()) =~= body);
                    lemma_line_at_exact(buf, pos + 1, body);
                    assert(body[0] >= 48);
                    assert(body != seq![45u8, 49u8]);
                    let next = pos + 1 + body.len() + 2;
                    assert(next + b.len() + 2 == pos + e.len());
                    assert(next + b.len() + 2 > buf.len());
                }
            },
            FrameV::Null => {
                assert(buf[pos] == 36);
                assert forall|j: int|
                    pos + 1 <= j < buf.len() implies buf[j] == (seq![45u8, 49u8]
                        + seq![13u8, 10u8])[j - pos - 1] by {
                    assert(buf[j] == e[j - pos]);
                }
                lemma_line_at_truncated(buf, pos + 1, seq![45u8, 49u8]);
            },
            FrameV::Array(_) => {
                let items = f->Array_0;
                let body = dec_digits(items.len() as u64);
                lemma_dec_digits_value(items.len() as u64);
                assert(buf[pos] == 42);
                if avail < 1 + body.len() + 2 {
                    assert forall|j: int|
                        pos + 1 <= j < buf.len() implies buf[j] == (body + seq![13u8, 10u8])[j
                        - pos - 1] by {
                        assert(buf[j] == e[j - pos]);
                    }
                    lemma_line_at_truncated(buf, pos + 1, body);
                } else {
                    assert(buf.subrange(pos + 1, pos + 1 + body.len()) =~= body);
                    lemma_line_at_exact(buf, pos + 1, body);
                    assert(body[0] >= 48);
                    assert(body != seq![45u8, 49u8]);
                    let next = pos + 1 + body.len() + 2;
                    assert(buf.subrange(next, buf.len() as int) =~= encode_seq(items).subrange(
                        0,
                        buf.len() - next,
                    ));
                    lemma_parse_n_prefix_incomplete(items, buf, next);
                }
            },
        }
    }
}

/// A buffer that ends inside a run of consecutive encoded frames parses as
/// incomplete: the elements before the cut parse back whole, and the one
/// under the cut reports the shortage.
#[verifier::rlimit(100)]
pub proof fn lemma_parse_n_prefix_incomplete(items: Seq<FrameV>, buf: Seq<u8>, pos: int)
    requires
        forall|i: int| 0 <= i < items.len() ==> wf_frame(#[trigger] items[i]),
        0 <= pos <= buf.len(),
        buf.len() < pos + encode_seq(items).len(),
        buf.subrange(pos, buf.len() as int) == encode_seq(items).subrange(0, buf.len() - pos),
    ensures
        parse_n(buf, pos, items.len() as int) is Incomplete,
    decreases items, 1int,
{
    let e = encode_seq(items);
    let avail = buf.len() - pos;
    assert forall|j: int| pos <= j < buf.len() implies buf[j] == e[j - pos] by {
        assert(buf.subrange(pos, buf.len() as int)[j - pos] == buf[j]);
        assert(e.subrange(0, avail)[j - pos] == e[j - pos]);
    }
    if items.len() == 0 {
        assert(e.len() == 0);
        assert(false);
    }
    let f0 = items[0];
    let e0 = encode_frame(f0);
    let rest = items.drop_first();
    assert(e == e0 + encode_seq(rest));
    if buf.len() < pos + e0.len() {
        assert(buf.subrange(pos, buf.len() as int) =~= e0.subrange(0, avail));
        lemma_parse_prefix_incomplete(f0, buf, pos);
    } else {
        assert(buf.subrange(pos, pos + e0.len()) =~= e0);
        lemma_frame_round_trip(f0, buf, pos);
        let next = pos + e0.len();
        assert(e0.len() >= 1);
        assert(buf.subrange(next, buf.len() as int) =~= encode_seq(rest).subrange(
            0,
            buf.len() - next,
        ));
        lemma_parse_n_prefix_incomplete(rest, buf, next);
    }
}

/// Incremental-parse law: feeding a serialized frame byte by byte, every
/// strict prefix parses as incomplete, and the full bytes parse as exactly
/// that frame with the cursor at the end — so a connection that drains
/// parsed bytes is left with an empty buffer.
pub proof fn lemma_incremental_parse(f: FrameV)
    requires
        wf_frame(f),
    ensures
        forall|k: int|
            0 <= k < encode_frame(f).len() ==> parse_at(
                #[trigger] encode_frame(f).subrange(0, k),
                0,
            ) is Incomplete,
        parse_at(encode_frame(f), 0) == ParseOutcome::Parsed(f, encode_frame(f).len() as int),
{
    let e = encode_frame(f);
    assert forall|k: int| 0 <= k < e.len() implies parse_at(
        #[trigger] e.subrange(0, k),
        0,
    ) is Incomplete by {
        let p = e.subrange(0, k);
        assert(p.subrange(0, p.len() as int) =~= e.subrange(0, k));
        lemma_parse_prefix_incomplete(f, p, 0);
    }
    assert(e.subrange(0, e.len() as int) =~= e);
    lemma_frame_round_trip(f, e, 0);
}

} // verus!
