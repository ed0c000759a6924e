//! Reading an HTTP/1.1 response off the front of the bytes a connection has
//! delivered so far: its status, and its body, framed by a Content-Length,
//! by chunked transfer coding, or by the end of the stream.
//!
//! `response` says what the bytes `s` hold. `parse_response` computes it.
//! Each line (the status line, a header, a chunk size, a chunk's closing
//! CRLF, a trailer) must end within `cap` bytes of its start: that is the
//! room a connection's read buffer has for it.

use vstd::prelude::*;

use vstd::slice::slice_to_vec;

use crate::bytes::{
    all_digits, byte_from, contains_lower, digit_value, digits_value, eq_lower, find_byte, has_word, is_word, lemma_byte_from_bounds,
    lemma_parse_uint_nonneg, lemma_trim_bounds, lower, parse_uint, read_uint, skip_ws, skip_ws_back,
    trim_end, trim_start,
};

verus! {

/// The largest body the client accepts: 64 MiB.
pub const MAX_BODY_SIZE: usize = 67108864;

/// Why a response could not be read.
#[derive(Clone, Copy, Debug, PartialEq, Eq, Structural)]
pub enum HttpError {
    /// The stream ended before the response did.
    Eof,
    /// A line without a colon, or one longer than the buffer.
    MalformedHeaderLine,
    /// A status line that is not `HTTP/1.x NNN`.
    MalformedStatusLine,
    /// A Content-Length that is not a number.
    BadContentLength,
    /// A body longer than `MAX_BODY_SIZE`.
    BodyTooLarge,
    /// A body framed by neither Content-Length nor chunked coding, where
    /// that is not allowed.
    NoLength,
    /// A chunk size that is not a hex number, or chunk data not followed
    /// by CRLF.
    MalformedChunk,
}

/// How a body with neither a Content-Length nor chunked framing is taken:
/// an error on a keep-alive connection, whose next response it would
/// swallow, and the rest of the stream on a connection the server closes
/// after answering.
#[derive(Clone, Copy, Debug, PartialEq, Eq, Structural)]
pub enum NoLength {
    Error,
    UntilEof,
}

/// A line that starts at some position: its content `begin..end` (without
/// the `\n` and one `\r` before it), and where the next line starts.
pub enum LineAt {
    Line { begin: int, end: int, next: int },
    TooLong,
    Short,
}

/// The line at `p`: its `\n` must come within `cap` bytes.
pub open spec fn line_at(s: Seq<u8>, p: int, cap: int) -> LineAt {
    let k = byte_from(s, p, s.len() as int, 10);
    if k - p >= cap {
        LineAt::TooLong
    } else if k < s.len() {
        LineAt::Line {
            begin: p,
            end: if k > p && s[k - 1] == 13 {
                k - 1
            } else {
                k
            },
            next: k + 1,
        }
    } else {
        LineAt::Short
    }
}

pub proof fn lemma_line_advances(s: Seq<u8>, q: int, cap: int)
    ensures
        line_at(s, q, cap) matches LineAt::Line { begin, end, next } ==> {
            &&& begin == q
            &&& q <= end < next <= s.len()
            &&& byte_from(s, q, s.len() as int, 10) == next - 1
        },
{
    if q <= s.len() {
        lemma_byte_from_bounds(s, q, s.len() as int, 10);
    }
}

/// `HTTP/1.`
pub open spec fn http1() -> Seq<u8> {
    seq![72u8, 84u8, 84u8, 80u8, 47u8, 49u8, 46u8]
}

/// `content-length`
pub open spec fn content_length_word() -> Seq<u8> {
    seq![99u8, 111u8, 110u8, 116u8, 101u8, 110u8, 116u8, 45u8, 108u8, 101u8, 110u8, 103u8, 116u8, 104u8]
}

/// `transfer-encoding`
pub open spec fn transfer_encoding_word() -> Seq<u8> {
    seq![116u8, 114u8, 97u8, 110u8, 115u8, 102u8, 101u8, 114u8, 45u8, 101u8, 110u8, 99u8, 111u8, 100u8, 105u8, 110u8, 103u8]
}

/// `chunked`
pub open spec fn chunked_word() -> Seq<u8> {
    seq![99u8, 104u8, 117u8, 110u8, 107u8, 101u8, 100u8]
}

pub open spec fn is_digit(b: u8) -> bool {
    48 <= b <= 57
}

/// The code of a status line `s[b..e]` such as `HTTP/1.1 200 OK`: `HTTP/1.`
/// and any byte, a space, three digits, and either the end or a space.
pub open spec fn status_of(s: Seq<u8>, b: int, e: int) -> Option<int> {
    if e - b >= 12 && s.subrange(b, b + 7) == http1() && s[b + 8] == 32 && is_digit(s[b + 9])
        && is_digit(s[b + 10]) && is_digit(s[b + 11]) && (e - b > 12 ==> s[b + 12] == 32) {
        Some((s[b + 9] - 48) * 100 + (s[b + 10] - 48) * 10 + (s[b + 11] - 48))
    } else {
        None
    }
}

/// What the header lines have said so far about the body's framing.
pub struct Head {
    pub content_length: Option<int>,
    pub chunked: bool,
}

pub enum HeadEnd {
    Done { head: Head, next: int },
    More,
    Fail(HttpError),
}

/// The header lines from `q` to the blank line that ends them. Of several
/// Content-Length or Transfer-Encoding lines, the last one counts.
pub open spec fn headers(s: Seq<u8>, q: int, cap: int, head: Head) -> HeadEnd
    decreases s.len() - q,
{
    match line_at(s, q, cap) {
        LineAt::TooLong => HeadEnd::Fail(HttpError::MalformedHeaderLine),
        LineAt::Short => HeadEnd::More,
        LineAt::Line { begin, end, next } => {
            if begin == end {
                HeadEnd::Done { head, next }
            } else {
                let colon = byte_from(s, begin, end, 58);
                if colon >= end || colon == begin {
                    HeadEnd::Fail(HttpError::MalformedHeaderLine)
                } else {
                    let vb = trim_start(s, colon + 1, end);
                    let ve = trim_end(s, vb, end);
                    proof {
                        lemma_line_advances(s, q, cap);
                    }
                    if eq_lower(s, begin, colon, content_length_word()) {
                        match parse_uint(s, vb, ve, 10) {
                            None => HeadEnd::Fail(HttpError::BadContentLength),
                            Some(n) => headers(
                                s,
                                next,
                                cap,
                                Head { content_length: Some(n), chunked: head.chunked },
                            ),
                        }
                    } else if eq_lower(s, begin, colon, transfer_encoding_word()) {
                        headers(
                            s,
                            next,
                            cap,
                            Head {
                                content_length: head.content_length,
                                chunked: contains_lower(s, vb, ve, chunked_word()),
                            },
                        )
                    } else {
                        headers(s, next, cap, head)
                    }
                }
            }
        },
    }
}

pub enum BodyEnd {
    Done { len: int, body: Seq<u8>, next: int },
    More,
    Fail(HttpError),
}

/// The trailer after the last chunk: lines up to a blank one.
pub open spec fn trailer(s: Seq<u8>, q: int, cap: int, len: int, body: Seq<u8>) -> BodyEnd
    decreases s.len() - q,
{
    match line_at(s, q, cap) {
        LineAt::TooLong => BodyEnd::Fail(HttpError::MalformedHeaderLine),
        LineAt::Short => BodyEnd::More,
        LineAt::Line { begin, end, next } => {
            if begin == end {
                BodyEnd::Done { len, body, next }
            } else {
                proof {
                    lemma_line_advances(s, q, cap);
                }
                trailer(s, next, cap, len, body)
            }
        },
    }
}

/// Chunks from `q` on, after `len` bytes of body, `body`, in earlier ones:
/// a hex size (up to any `;`), that many bytes, and CRLF; a zero size ends
/// them.
pub open spec fn chunks(s: Seq<u8>, q: int, cap: int, len: int, body: Seq<u8>) -> BodyEnd
    decreases s.len() - q,
{
    match line_at(s, q, cap) {
        LineAt::TooLong => BodyEnd::Fail(HttpError::MalformedHeaderLine),
        LineAt::Short => BodyEnd::More,
        LineAt::Line { begin, end, next } => {
            let semi = byte_from(s, begin, end, 59);
            let vb = trim_start(s, begin, semi);
            let ve = trim_end(s, vb, semi);
            match parse_uint(s, vb, ve, 16) {
                None => BodyEnd::Fail(HttpError::MalformedChunk),
                Some(size) => {
                    if size == 0 {
                        trailer(s, next, cap, len, body)
                    } else if len + size > MAX_BODY_SIZE {
                        BodyEnd::Fail(HttpError::BodyTooLarge)
                    } else if next + size > s.len() {
                        BodyEnd::More
                    } else {
                        match line_at(s, next + size, cap) {
                            LineAt::TooLong => BodyEnd::Fail(HttpError::MalformedHeaderLine),
                            LineAt::Short => BodyEnd::More,
                            LineAt::Line { begin: b2, end: e2, next: n2 } => {
                                if b2 != e2 {
                                    BodyEnd::Fail(HttpError::MalformedChunk)
                                } else {
                                    proof {
                                        lemma_line_advances(s, q, cap);
                                        lemma_line_advances(s, next + size, cap);
                                        lemma_parse_uint_nonneg(s, vb, ve, 16);
                                    }
                                    chunks(
                                        s,
                                        n2,
                                        cap,
                                        len + size,
                                        body + s.subrange(next, next + size),
                                    )
                                }
                            },
                        }
                    }
                },
            }
        },
    }
}

/// What reading a response from `s` comes to.
pub enum Outcome {
    /// A whole response: its status, its body's length and bytes, and how
    /// many bytes of `s` it took.
    Done { status: int, len: int, body: Seq<u8>, consumed: int },
    /// The response goes on past `s`: more bytes are needed.
    More,
    Fail(HttpError),
}

pub open spec fn empty_head() -> Head {
    Head { content_length: None, chunked: false }
}

/// The response at the front of `s`, where `eof` says whether the stream
/// ends after `s`. An informational, 204 or 304 response has no body.
/// Otherwise chunked coding, if the Transfer-Encoding names it, frames the
/// body; then the Content-Length; and else `no_length` decides.
pub open spec fn response_bytes(s: Seq<u8>, cap: int, eof: bool, no_length: NoLength) -> Outcome {
    match line_at(s, 0, cap) {
        LineAt::TooLong => Outcome::Fail(HttpError::MalformedHeaderLine),
        LineAt::Short => Outcome::More,
        LineAt::Line { begin, end, next } => match status_of(s, begin, end) {
            None => Outcome::Fail(HttpError::MalformedStatusLine),
            Some(status) => match headers(s, next, cap, empty_head()) {
                HeadEnd::Fail(err) => Outcome::Fail(err),
                HeadEnd::More => Outcome::More,
                HeadEnd::Done { head, next: body_at } => {
                    if status / 100 == 1 || status == 204 || status == 304 {
                        Outcome::Done { status, len: 0, body: seq![], consumed: body_at }
                    } else if head.chunked {
                        match chunks(s, body_at, cap, 0, seq![]) {
                            BodyEnd::Done { len, body, next } => Outcome::Done {
                                status,
                                len,
                                body,
                                consumed: next,
                            },
                            BodyEnd::More => Outcome::More,
                            BodyEnd::Fail(err) => Outcome::Fail(err),
                        }
                    } else {
                        match head.content_length {
                            Some(n) => {
                                if n > MAX_BODY_SIZE {
                                    Outcome::Fail(HttpError::BodyTooLarge)
                                } else if body_at + n > s.len() {
                                    Outcome::More
                                } else {
                                    Outcome::Done {
                                        status,
                                        len: n,
                                        body: s.subrange(body_at, body_at + n),
                                        consumed: body_at + n,
                                    }
                                }
                            },
                            None => match no_length {
                                NoLength::Error => Outcome::Fail(HttpError::NoLength),
                                NoLength::UntilEof => {
                                    if eof {
                                        Outcome::Done {
                                            status,
                                            len: s.len() - body_at,
                                            body: s.subrange(body_at, s.len() as int),
                                            consumed: s.len() as int,
                                        }
                                    } else {
                                        Outcome::More
                                    }
                                },
                            },
                        }
                    }
                },
            },
        },
    }
}

/// `response_bytes`, where a stream that ends before the response does is
/// an error.
pub open spec fn response(s: Seq<u8>, cap: int, eof: bool, no_length: NoLength) -> Outcome {
    match response_bytes(s, cap, eof, no_length) {
        Outcome::More => if eof {
            Outcome::Fail(HttpError::Eof)
        } else {
            Outcome::More
        },
        other => other,
    }
}

} // verus!

verus! {

/// A line found by `find_line`.
pub enum Line {
    Line { begin: usize, end: usize, next: usize },
    TooLong,
    Short,
}

impl Line {
    pub open spec fn agrees(self, l: LineAt) -> bool {
        match (self, l) {
            (Line::Line { begin, end, next }, LineAt::Line { begin: b, end: e, next: n }) => {
                begin == b && end == e && next == n
            },
            (Line::TooLong, LineAt::TooLong) => true,
            (Line::Short, LineAt::Short) => true,
            _ => false,
        }
    }
}

/// The line starting at `p`.
pub fn find_line(s: &[u8], p: usize, cap: usize) -> (r: Line)
    requires
        p <= s@.len(),
    ensures
        r.agrees(line_at(s@, p as int, cap as int)),
        r matches Line::Line { begin, end, next } ==> p <= end < next <= s@.len(),
{
    let k = find_byte(s, p, s.len(), 10);
    proof {
        lemma_byte_from_bounds(s@, p as int, s@.len() as int, 10);
    }
    if k - p >= cap {
        Line::TooLong
    } else if k < s.len() {
        let end = if k > p && s[k - 1] == 13 {
            k - 1
        } else {
            k
        };
        Line::Line { begin: p, end, next: k + 1 }
    } else {
        Line::Short
    }
}

/// The code of the status line `s[b..e]`.
pub fn parse_status(s: &[u8], b: usize, e: usize) -> (r: Option<u16>)
    requires
        b <= e <= s@.len(),
    ensures
        r matches Some(v) ==> status_of(s@, b as int, e as int) == Some(v as int),
        r is None ==> status_of(s@, b as int, e as int) is None,
{
    if e - b < 12 {
        return None;
    }
    let ok_prefix = s[b] == 72 && s[b + 1] == 84 && s[b + 2] == 84 && s[b + 3] == 80 && s[b + 4]
        == 47 && s[b + 5] == 49 && s[b + 6] == 46;
    proof {
        let sub = s@.subrange(b as int, b + 7);
        if ok_prefix {
            assert(sub =~= http1());
        } else {
            assert(sub[0] != http1()[0] || sub[1] != http1()[1] || sub[2] != http1()[2] || sub[3]
                != http1()[3] || sub[4] != http1()[4] || sub[5] != http1()[5] || sub[6]
                != http1()[6]);
        }
    }
    if !ok_prefix || s[b + 8] != 32 {
        return None;
    }
    let d0 = s[b + 9];
    let d1 = s[b + 10];
    let d2 = s[b + 11];
    if d0 < 48 || d0 > 57 || d1 < 48 || d1 > 57 || d2 < 48 || d2 > 57 {
        return None;
    }
    if e - b > 12 && s[b + 12] != 32 {
        return None;
    }
    Some((d0 - 48) as u16 * 100 + (d1 - 48) as u16 * 10 + (d2 - 48) as u16)
}

pub open spec fn opt_int(o: Option<usize>) -> Option<int> {
    match o {
        Some(v) => Some(v as int),
        None => None,
    }
}

/// The header lines as `read_headers` finds them.
pub enum Headers {
    Done { content_length: Option<usize>, chunked: bool, next: usize },
    More,
    Fail(HttpError),
}

impl Headers {
    pub open spec fn agrees(self, h: HeadEnd) -> bool {
        match (self, h) {
            (Headers::Done { content_length, chunked, next }, HeadEnd::Done { head, next: n }) => {
                opt_int(content_length) == head.content_length && chunked == head.chunked && next
                    == n
            },
            (Headers::More, HeadEnd::More) => true,
            (Headers::Fail(e), HeadEnd::Fail(f)) => e == f,
            _ => false,
        }
    }
}

/// The header lines from `q`.
pub fn read_headers(s: &[u8], q: usize, cap: usize) -> (r: Headers)
    requires
        q <= s@.len(),
    ensures
        r.agrees(headers(s@, q as int, cap as int, empty_head())),
        r matches Headers::Done { next, .. } ==> next <= s@.len(),
{
    let cl_word: [u8; 14] = [
        99u8,
        111u8,
        110u8,
        116u8,
        101u8,
        110u8,
        116u8,
        45u8,
        108u8,
        101u8,
        110u8,
        103u8,
        116u8,
        104u8,
    ];
    let te_word: [u8; 17] = [
        116u8,
        114u8,
        97u8,
        110u8,
        115u8,
        102u8,
        101u8,
        114u8,
        45u8,
        101u8,
        110u8,
        99u8,
        111u8,
        100u8,
        105u8,
        110u8,
        103u8,
    ];
    let ch_word: [u8; 7] = [99u8, 104u8, 117u8, 110u8, 107u8, 101u8, 100u8];
    assert(cl_word@ =~= content_length_word());
    assert(te_word@ =~= transfer_encoding_word());
    assert(ch_word@ =~= chunked_word());
    let mut at = q;
    let mut content_length: Option<usize> = None;
    let mut chunked = false;
    loop
        invariant
            at <= s@.len(),
            cl_word@ == content_length_word(),
            te_word@ == transfer_encoding_word(),
            ch_word@ == chunked_word(),
            headers(s@, at as int, cap as int, Head { content_length: opt_int(content_length), chunked })
                == headers(s@, q as int, cap as int, empty_head()),
        decreases s@.len() - at,
    {
        match find_line(s, at, cap) {
            Line::TooLong => {
                return Headers::Fail(HttpError::MalformedHeaderLine);
            },
            Line::Short => {
                return Headers::More;
            },
            Line::Line { begin, end, next } => {
                if begin == end {
                    return Headers::Done { content_length, chunked, next };
                }
                let colon = find_byte(s, begin, end, 58);
                if colon >= end || colon == begin {
                    return Headers::Fail(HttpError::MalformedHeaderLine);
                }
                proof {
                    lemma_byte_from_bounds(s@, begin as int, end as int, 58);
                }
                let vb = skip_ws(s, colon + 1, end);
                proof {
                    lemma_trim_bounds(s@, colon + 1, end as int);
                }
                let ve = skip_ws_back(s, vb, end);
                proof {
                    lemma_trim_bounds(s@, vb as int, end as int);
                }
                let cl_slice: &[u8] = &cl_word;
                let te_slice: &[u8] = &te_word;
                let ch_slice: &[u8] = &ch_word;
                if is_word(s, begin, colon, cl_slice) {
                    match read_uint(s, vb, ve, 10) {
                        None => {
                            return Headers::Fail(HttpError::BadContentLength);
                        },
                        Some(n) => {
                            content_length = Some(n);
                        },
                    }
                } else if is_word(s, begin, colon, te_slice) {
                    chunked = has_word(s, vb, ve, ch_slice);
                }
                at = next;
            },
        }
    }
}

} // verus!

verus! {

/// A chunked body as `read_chunks` finds it.
pub enum Chunks {
    Done { len: usize, next: usize },
    More,
    Fail(HttpError),
}

impl Chunks {
    pub open spec fn agrees(self, b: BodyEnd, kept: Seq<u8>, keep_body: bool) -> bool {
        match (self, b) {
            (Chunks::Done { len, next }, BodyEnd::Done { len: l, body, next: n }) => {
                len == l && next == n && kept == (if keep_body {
                    body
                } else {
                    seq![]
                })
            },
            (Chunks::More, BodyEnd::More) => true,
            (Chunks::Fail(e), BodyEnd::Fail(f)) => e == f,
            _ => false,
        }
    }
}

/// The chunks of a body from `q`, their data appended to `body` when
/// `keep_body`.
pub fn read_chunks(s: &[u8], q: usize, cap: usize, keep_body: bool, body: &mut Vec<u8>) -> (r:
    Chunks)
    requires
        q <= s@.len(),
        old(body)@ == Seq::<u8>::empty(),
    ensures
        r.agrees(chunks(s@, q as int, cap as int, 0, seq![]), final(body)@, keep_body),
{
    let mut at = q;
    let mut len: usize = 0;
    let ghost mut all: Seq<u8> = seq![];
    loop
        invariant
            at <= s@.len(),
            len <= MAX_BODY_SIZE,
            all.len() == len,
            body@ == (if keep_body {
                all
            } else {
                seq![]
            }),
            chunks(s@, at as int, cap as int, len as int, all) == chunks(
                s@,
                q as int,
                cap as int,
                0,
                seq![],
            ),
        decreases s@.len() - at,
    {
        match find_line(s, at, cap) {
            Line::TooLong => {
                return Chunks::Fail(HttpError::MalformedHeaderLine);
            },
            Line::Short => {
                return Chunks::More;
            },
            Line::Line { begin, end, next } => {
                let semi = find_byte(s, begin, end, 59);
                proof {
                    lemma_byte_from_bounds(s@, begin as int, end as int, 59);
                }
                let vb = skip_ws(s, begin, semi);
                proof {
                    lemma_trim_bounds(s@, begin as int, semi as int);
                }
                let ve = skip_ws_back(s, vb, semi);
                proof {
                    lemma_trim_bounds(s@, vb as int, semi as int);
                }
                let size = match read_uint(s, vb, ve, 16) {
                    None => {
                        return Chunks::Fail(HttpError::MalformedChunk);
                    },
                    Some(v) => v,
                };
                if size == 0 {
                    return read_trailer(s, next, cap, len, Ghost(all), keep_body, body);
                }
                if size > MAX_BODY_SIZE - len {
                    return Chunks::Fail(HttpError::BodyTooLarge);
                }
                if size > s.len() - next {
                    return Chunks::More;
                }
                let data_end = next + size;
                match find_line(s, data_end, cap) {
                    Line::TooLong => {
                        return Chunks::Fail(HttpError::MalformedHeaderLine);
                    },
                    Line::Short => {
                        return Chunks::More;
                    },
                    Line::Line { begin: b2, end: e2, next: n2 } => {
                        if b2 != e2 {
                            return Chunks::Fail(HttpError::MalformedChunk);
                        }
                        if keep_body {
                            body.extend_from_slice(&s[next..data_end]);
                        }
                        proof {
                            all = all + s@.subrange(next as int, data_end as int);
                        }
                        len = len + size;
                        at = n2;
                    },
                }
            },
        }
    }
}

/// The trailer lines after the last chunk, up to a blank one.
fn read_trailer(
    s: &[u8],
    q: usize,
    cap: usize,
    len: usize,
    Ghost(all): Ghost<Seq<u8>>,
    keep_body: bool,
    body: &Vec<u8>,
) -> (r: Chunks)
    requires
        q <= s@.len(),
        body@ == (if keep_body {
            all
        } else {
            seq![]
        }),
    ensures
        r.agrees(trailer(s@, q as int, cap as int, len as int, all), body@, keep_body),
{
    let mut at = q;
    loop
        invariant
            at <= s@.len(),
            body@ == (if keep_body {
                all
            } else {
                seq![]
            }),
            trailer(s@, at as int, cap as int, len as int, all) == trailer(
                s@,
                q as int,
                cap as int,
                len as int,
                all,
            ),
        decreases s@.len() - at,
    {
        match find_line(s, at, cap) {
            Line::TooLong => {
                return Chunks::Fail(HttpError::MalformedHeaderLine);
            },
            Line::Short => {
                return Chunks::More;
            },
            Line::Line { begin, end, next } => {
                if begin == end {
                    return Chunks::Done { len, next };
                }
                at = next;
            },
        }
    }
}

/// A whole response read off the front of a connection's bytes.
pub struct Response {
    pub status: u16,
    /// The body's length.
    pub len: usize,
    /// The body, when it was asked for; empty otherwise.
    pub body: Vec<u8>,
    /// How many bytes the response took.
    pub consumed: usize,
}

/// What `parse_response` found.
pub enum Parse {
    Done(Response),
    /// The response goes on past the bytes at hand.
    More,
    Fail(HttpError),
}

impl Parse {
    /// `self` is the outcome `o`, with the body kept only when `keep_body`.
    pub open spec fn agrees(self, o: Outcome, keep_body: bool) -> bool {
        match (self, o) {
            (Parse::Done(r), Outcome::Done { status, len, body, consumed }) => {
                &&& r.status == status
                &&& r.len == len
                &&& r.consumed == consumed
                &&& r.body@ == (if keep_body {
                    body
                } else {
                    seq![]
                })
            },
            (Parse::More, Outcome::More) => true,
            (Parse::Fail(e), Outcome::Fail(f)) => e == f,
            _ => false,
        }
    }
}

/// The response at the front of `s`, where each line must end within
/// `cap` bytes and `eof` says that the stream ends after `s`; its body is
/// returned when `keep_body`.
pub fn parse_response(s: &[u8], cap: usize, eof: bool, no_length: NoLength, keep_body: bool) -> (r:
    Parse)
    ensures
        r.agrees(response(s@, cap as int, eof, no_length), keep_body),
{
    let r = parse_bytes(s, cap, eof, no_length, keep_body);
    match r {
        Parse::More => if eof {
            Parse::Fail(HttpError::Eof)
        } else {
            Parse::More
        },
        other => other,
    }
}

fn parse_bytes(s: &[u8], cap: usize, eof: bool, no_length: NoLength, keep_body: bool) -> (r: Parse)
    ensures
        r.agrees(response_bytes(s@, cap as int, eof, no_length), keep_body),
{
    let (begin, end, next) = match find_line(s, 0, cap) {
        Line::TooLong => {
            return Parse::Fail(HttpError::MalformedHeaderLine);
        },
        Line::Short => {
            return Parse::More;
        },
        Line::Line { begin, end, next } => (begin, end, next),
    };
    let status = match parse_status(s, begin, end) {
        None => {
            return Parse::Fail(HttpError::MalformedStatusLine);
        },
        Some(v) => v,
    };
    let (content_length, chunked, body_at) = match read_headers(s, next, cap) {
        Headers::Fail(err) => {
            return Parse::Fail(err);
        },
        Headers::More => {
            return Parse::More;
        },
        Headers::Done { content_length, chunked, next } => (content_length, chunked, next),
    };
    if status / 100 == 1 || status == 204 || status == 304 {
        return Parse::Done(Response { status, len: 0, body: Vec::new(), consumed: body_at });
    }
    if chunked {
        let mut body: Vec<u8> = Vec::new();
        return match read_chunks(s, body_at, cap, keep_body, &mut body) {
            Chunks::Done { len, next } => Parse::Done(
                Response { status, len, body, consumed: next },
            ),
            Chunks::More => Parse::More,
            Chunks::Fail(err) => Parse::Fail(err),
        };
    }
    match content_length {
        Some(n) => {
            if n > MAX_BODY_SIZE {
                Parse::Fail(HttpError::BodyTooLarge)
            } else if n > s.len() - body_at {
                Parse::More
            } else {
                let body = if keep_body {
                    slice_to_vec(&s[body_at..body_at + n])
                } else {
                    Vec::new()
                };
                Parse::Done(Response { status, len: n, body, consumed: body_at + n })
            }
        },
        None => match no_length {
            NoLength::Error => Parse::Fail(HttpError::NoLength),
            NoLength::UntilEof => {
                if eof {
                    let body = if keep_body {
                        slice_to_vec(&s[body_at..s.len()])
                    } else {
                        Vec::new()
                    };
                    Parse::Done(
                        Response { status, len: s.len() - body_at, body, consumed: s.len() },
                    )
                } else {
                    Parse::More
                }
            },
        },
    }
}

} // verus!

verus! {

/// `s` is the start of `s2`.
pub open spec fn starts(s: Seq<u8>, s2: Seq<u8>) -> bool {
    &&& s.len() <= s2.len()
    &&& forall|i: int| 0 <= i < s.len() ==> #[trigger] s2[i] == s[i]
}

proof fn lemma_byte_from_starts(s: Seq<u8>, s2: Seq<u8>, p: int, e: int, x: u8)
    requires
        starts(s, s2),
        0 <= p,
        e <= s.len(),
    ensures
        byte_from(s2, p, e, x) == byte_from(s, p, e, x),
    decreases e - p,
{
    if p < e {
        lemma_byte_from_starts(s, s2, p + 1, e, x);
    }
}

proof fn lemma_newline_starts(s: Seq<u8>, s2: Seq<u8>, p: int)
    requires
        starts(s, s2),
        0 <= p <= s.len(),
    ensures
        byte_from(s, p, s.len() as int, 10) < s.len() ==> byte_from(s2, p, s2.len() as int, 10)
            == byte_from(s, p, s.len() as int, 10),
        byte_from(s2, p, s2.len() as int, 10) >= byte_from(s, p, s.len() as int, 10),
    decreases s.len() - p,
{
    if p < s.len() {
        lemma_newline_starts(s, s2, p + 1);
    } else {
        lemma_byte_from_bounds(s2, p, s2.len() as int, 10);
    }
}

proof fn lemma_line_starts(s: Seq<u8>, s2: Seq<u8>, p: int, cap: int)
    requires
        starts(s, s2),
        0 <= p <= s.len(),
    ensures
        !(line_at(s, p, cap) is Short) ==> line_at(s2, p, cap) == line_at(s, p, cap),
{
    lemma_newline_starts(s, s2, p);
    lemma_byte_from_bounds(s, p, s.len() as int, 10);
}

proof fn lemma_trim_starts(s: Seq<u8>, s2: Seq<u8>, b: int, e: int)
    requires
        starts(s, s2),
        0 <= b,
        e <= s.len(),
    ensures
        trim_start(s2, b, e) == trim_start(s, b, e),
        trim_end(s2, b, e) == trim_end(s, b, e),
    decreases e - b,
{
    if b < e {
        lemma_trim_starts(s, s2, b + 1, e);
        lemma_trim_starts(s, s2, b, e - 1);
    }
}

proof fn lemma_digits_starts(s: Seq<u8>, s2: Seq<u8>, b: int, e: int, radix: int)
    requires
        starts(s, s2),
        0 <= b,
        e <= s.len(),
    ensures
        digits_value(s2, b, e, radix) == digits_value(s, b, e, radix),
        all_digits(s2, b, e, radix) == all_digits(s, b, e, radix),
        parse_uint(s2, b, e, radix) == parse_uint(s, b, e, radix),
    decreases e - b,
{
    if b < e {
        lemma_digits_starts(s, s2, b, e - 1, radix);
        lemma_digits_starts(s, s2, b + 1, e, radix);
        assert(all_digits(s2, b, e, radix) == all_digits(s, b, e, radix)) by {
            assert forall|i: int| b <= i < e implies digit_value(s2[i], radix) == digit_value(
                s[i],
                radix,
            ) by {}
        }
    }
}

proof fn lemma_eq_lower_starts(s: Seq<u8>, s2: Seq<u8>, b: int, e: int, w: Seq<u8>)
    requires
        starts(s, s2),
        0 <= b,
        e <= s.len(),
    ensures
        eq_lower(s2, b, e, w) == eq_lower(s, b, e, w),
{
    if e - b == w.len() {
        if eq_lower(s, b, e, w) {
            assert forall|i: int| 0 <= i < w.len() implies lower(#[trigger] s2[b + i]) == w[i] by {
                assert(s2[b + i] == s[b + i]);
            }
        }
        if eq_lower(s2, b, e, w) {
            assert forall|i: int| 0 <= i < w.len() implies lower(#[trigger] s[b + i]) == w[i] by {
                assert(s2[b + i] == s[b + i]);
            }
        }
    }
}

proof fn lemma_words_starts(s: Seq<u8>, s2: Seq<u8>, b: int, e: int, w: Seq<u8>)
    requires
        starts(s, s2),
        0 <= b,
        e <= s.len(),
    ensures
        eq_lower(s2, b, e, w) == eq_lower(s, b, e, w),
        contains_lower(s2, b, e, w) == contains_lower(s, b, e, w),
{
    lemma_eq_lower_starts(s, s2, b, e, w);
    if contains_lower(s, b, e, w) {
        let i = choose|i: int| b <= i && i + w.len() <= e && #[trigger] eq_lower(s, i, i + w.len(), w);
        lemma_eq_lower_starts(s, s2, i, i + w.len(), w);
    }
    if contains_lower(s2, b, e, w) {
        let i = choose|i: int| b <= i && i + w.len() <= e && #[trigger] eq_lower(s2, i, i + w.len(), w);
        lemma_eq_lower_starts(s, s2, i, i + w.len(), w);
    }
}

proof fn lemma_status_starts(s: Seq<u8>, s2: Seq<u8>, b: int, e: int)
    requires
        starts(s, s2),
        0 <= b <= e,
        e <= s.len(),
    ensures
        status_of(s2, b, e) == status_of(s, b, e),
{
    if e - b >= 12 {
        assert(s2.subrange(b, b + 7) =~= s.subrange(b, b + 7));
    }
}

proof fn lemma_headers_starts(s: Seq<u8>, s2: Seq<u8>, q: int, cap: int, head: Head)
    requires
        starts(s, s2),
        0 <= q <= s.len(),
    ensures
        !(headers(s, q, cap, head) is More) ==> headers(s2, q, cap, head) == headers(
            s,
            q,
            cap,
            head,
        ),
    decreases s.len() - q,
{
    lemma_line_starts(s, s2, q, cap);
    lemma_line_advances(s, q, cap);
    if let LineAt::Line { begin, end, next } = line_at(s, q, cap) {
        if begin != end {
            lemma_byte_from_starts(s, s2, begin, end, 58);
            lemma_byte_from_bounds(s, begin, end, 58);
            let colon = byte_from(s, begin, end, 58);
            if colon < end && colon != begin {
                lemma_trim_starts(s, s2, colon + 1, end);
                lemma_trim_bounds(s, colon + 1, end);
                let vb = trim_start(s, colon + 1, end);
                lemma_trim_starts(s, s2, vb, end);
                lemma_trim_bounds(s, vb, end);
                let ve = trim_end(s, vb, end);
                lemma_words_starts(s, s2, begin, colon, content_length_word());
                lemma_words_starts(s, s2, begin, colon, transfer_encoding_word());
                lemma_words_starts(s, s2, vb, ve, chunked_word());
                lemma_digits_starts(s, s2, vb, ve, 10);
                let cl = parse_uint(s, vb, ve, 10);
                if eq_lower(s, begin, colon, content_length_word()) {
                    if let Some(n) = cl {
                        lemma_headers_starts(
                            s,
                            s2,
                            next,
                            cap,
                            Head { content_length: Some(n), chunked: head.chunked },
                        );
                    }
                } else if eq_lower(s, begin, colon, transfer_encoding_word()) {
                    lemma_headers_starts(
                        s,
                        s2,
                        next,
                        cap,
                        Head {
                            content_length: head.content_length,
                            chunked: contains_lower(s, vb, ve, chunked_word()),
                        },
                    );
                } else {
                    lemma_headers_starts(s, s2, next, cap, head);
                }
            }
        }
    }
}

proof fn lemma_headers_done(s: Seq<u8>, q: int, cap: int, head: Head)
    requires
        0 <= q <= s.len(),
        head.content_length matches Some(n) ==> n >= 0,
    ensures
        headers(s, q, cap, head) matches HeadEnd::Done { head: h, next } ==> {
            &&& q <= next <= s.len()
            &&& h.content_length matches Some(n) ==> n >= 0
        },
    decreases s.len() - q,
{
    lemma_line_advances(s, q, cap);
    if let LineAt::Line { begin, end, next } = line_at(s, q, cap) {
        if begin != end {
            lemma_byte_from_bounds(s, begin, end, 58);
            let colon = byte_from(s, begin, end, 58);
            if colon < end && colon != begin {
                let vb = trim_start(s, colon + 1, end);
                let ve = trim_end(s, vb, end);
                lemma_parse_uint_nonneg(s, vb, ve, 10);
                let cl = parse_uint(s, vb, ve, 10);
                if eq_lower(s, begin, colon, content_length_word()) {
                    if let Some(n) = cl {
                        lemma_headers_done(
                            s,
                            next,
                            cap,
                            Head { content_length: Some(n), chunked: head.chunked },
                        );
                    }
                } else if eq_lower(s, begin, colon, transfer_encoding_word()) {
                    lemma_headers_done(
                        s,
                        next,
                        cap,
                        Head {
                            content_length: head.content_length,
                            chunked: contains_lower(s, vb, ve, chunked_word()),
                        },
                    );
                } else {
                    lemma_headers_done(s, next, cap, head);
                }
            }
        }
    }
}

proof fn lemma_trailer_starts(s: Seq<u8>, s2: Seq<u8>, q: int, cap: int, len: int, body: Seq<u8>)
    requires
        starts(s, s2),
        0 <= q <= s.len(),
    ensures
        !(trailer(s, q, cap, len, body) is More) ==> trailer(s2, q, cap, len, body) == trailer(
            s,
            q,
            cap,
            len,
            body,
        ),
    decreases s.len() - q,
{
    lemma_line_starts(s, s2, q, cap);
    lemma_line_advances(s, q, cap);
    if let LineAt::Line { begin, end, next } = line_at(s, q, cap) {
        if begin != end {
            lemma_trailer_starts(s, s2, next, cap, len, body);
        }
    }
}

proof fn lemma_chunks_starts(s: Seq<u8>, s2: Seq<u8>, q: int, cap: int, len: int, body: Seq<u8>)
    requires
        starts(s, s2),
        0 <= q <= s.len(),
    ensures
        !(chunks(s, q, cap, len, body) is More) ==> chunks(s2, q, cap, len, body) == chunks(
            s,
            q,
            cap,
            len,
            body,
        ),
    decreases s.len() - q,
{
    lemma_line_starts(s, s2, q, cap);
    lemma_line_advances(s, q, cap);
    if let LineAt::Line { begin, end, next } = line_at(s, q, cap) {
        lemma_byte_from_starts(s, s2, begin, end, 59);
        lemma_byte_from_bounds(s, begin, end, 59);
        let semi = byte_from(s, begin, end, 59);
        lemma_trim_starts(s, s2, begin, semi);
        lemma_trim_bounds(s, begin, semi);
        let vb = trim_start(s, begin, semi);
        lemma_trim_starts(s, s2, vb, semi);
        lemma_trim_bounds(s, vb, semi);
        let ve = trim_end(s, vb, semi);
        lemma_digits_starts(s, s2, vb, ve, 16);
        lemma_parse_uint_nonneg(s, vb, ve, 16);
        if let Some(size) = parse_uint(s, vb, ve, 16) {
            if size == 0 {
                lemma_trailer_starts(s, s2, next, cap, len, body);
            } else if len + size <= MAX_BODY_SIZE && next + size <= s.len() {
                lemma_line_starts(s, s2, next + size, cap);
                lemma_line_advances(s, next + size, cap);
                assert(s2.subrange(next, next + size) =~= s.subrange(next, next + size));
                if let LineAt::Line { begin: b2, end: e2, next: n2 } = line_at(s, next + size, cap) {
                    if b2 == e2 {
                        lemma_chunks_starts(
                            s,
                            s2,
                            n2,
                            cap,
                            len + size,
                            body + s.subrange(next, next + size),
                        );
                    }
                }
            }
        }
    }
}

/// A response does not depend on what follows it: once the bytes at hand
/// settle a response (read it whole, or fail on it) without the end of
/// the stream, any further bytes, and the end of the stream after them,
/// leave it as it was.
pub proof fn law_response_settled(
    s: Seq<u8>,
    t: Seq<u8>,
    cap: int,
    no_length: NoLength,
    eof: bool,
)
    requires
        !(response(s, cap, false, no_length) is More),
    ensures
        response(s + t, cap, eof, no_length) == response(s, cap, false, no_length),
{
    let s2 = s + t;
    assert(starts(s, s2));
    lemma_line_starts(s, s2, 0, cap);
    lemma_line_advances(s, 0, cap);
    if let LineAt::Line { begin, end, next } = line_at(s, 0, cap) {
        lemma_status_starts(s, s2, begin, end);
        lemma_headers_starts(s, s2, next, cap, empty_head());
        lemma_headers_done(s, next, cap, empty_head());
        if let HeadEnd::Done { head, next: body_at } = headers(s, next, cap, empty_head()) {
            lemma_chunks_starts(s, s2, body_at, cap, 0, seq![]);
            if let Some(n) = head.content_length {
                if body_at + n <= s.len() {
                    assert(s2.subrange(body_at, body_at + n) =~= s.subrange(body_at, body_at + n));
                }
            }
        }
    }
}

} // verus!

verus! {

/// The bytes a connection has delivered and no response has taken yet,
/// and the room its read buffer has for a line.
pub struct RBuf {
    buf: Vec<u8>,
    start: usize,
    cap: usize,
}

impl RBuf {
    #[verifier::type_invariant]
    spec fn wf(self) -> bool {
        &&& self.start <= self.buf@.len()
        &&& self.cap >= 512
    }

    /// The bytes waiting to be read.
    pub closed spec fn pending(self) -> Seq<u8> {
        self.buf@.subrange(self.start as int, self.buf@.len() as int)
    }

    /// The line limit: every line of a response must end within this many
    /// bytes of its start.
    pub closed spec fn spec_capacity(self) -> usize {
        self.cap
    }

    /// A buffer with room for `capacity` bytes, and at least 512.
    pub fn new(capacity: usize) -> (r: RBuf)
        ensures
            r.pending() == Seq::<u8>::empty(),
            r.spec_capacity() == if capacity > 512 {
                capacity
            } else {
                512
            },
    {
        let cap = if capacity > 512 {
            capacity
        } else {
            512
        };
        RBuf { buf: Vec::new(), start: 0, cap }
    }

    /// How long a line may be.
    pub fn capacity(&self) -> (r: usize)
        ensures
            r == self.spec_capacity(),
            r >= 512,
    {
        proof {
            use_type_invariant(self);
        }
        self.cap
    }

    /// How many bytes are waiting.
    pub fn pending_len(&self) -> (r: usize)
        ensures
            r == self.pending().len(),
    {
        proof {
            use_type_invariant(self);
        }
        self.buf.len() - self.start
    }

    /// Adds `data`, just read off the connection, after what is waiting.
    pub fn append(&mut self, data: &[u8])
        ensures
            final(self).pending() == old(self).pending() + data@,
            final(self).spec_capacity() == old(self).spec_capacity(),
    {
        proof {
            use_type_invariant(&*self);
        }
        if self.start == self.buf.len() {
            let mut fresh: Vec<u8> = Vec::new();
            fresh.extend_from_slice(data);
            *self = RBuf { buf: fresh, start: 0, cap: self.cap };
            proof {
                assert(self.pending() =~= old(self).pending() + data@);
            }
        } else if self.start >= self.cap {
            let mut rest = slice_to_vec(&self.buf.as_slice()[self.start..self.buf.len()]);
            rest.extend_from_slice(data);
            *self = RBuf { buf: rest, start: 0, cap: self.cap };
            proof {
                assert(self.pending() =~= old(self).pending() + data@);
            }
        } else {
            let mut taken = RBuf { buf: Vec::new(), start: 0, cap: 512 };
            core::mem::swap(self, &mut taken);
            proof {
                use_type_invariant(&taken);
            }
            let RBuf { mut buf, start, cap } = taken;
            buf.extend_from_slice(data);
            *self = RBuf { buf, start, cap };
            proof {
                assert(self.pending() =~= old(self).pending() + data@);
            }
        }
    }

    /// Reads the response at the front of the waiting bytes, where `eof`
    /// says that the connection has nothing more to deliver; a response
    /// read whole is taken off the front.
    pub fn next_response(&mut self, eof: bool, no_length: NoLength, keep_body: bool) -> (r: Parse)
        ensures
            r.agrees(
                response(old(self).pending(), old(self).spec_capacity() as int, eof, no_length),
                keep_body,
            ),
            final(self).spec_capacity() == old(self).spec_capacity(),
            final(self).pending() == (match r {
                Parse::Done(resp) => old(self).pending().skip(resp.consumed as int),
                _ => old(self).pending(),
            }),
    {
        proof {
            use_type_invariant(&*self);
        }
        let r = parse_response(
            &self.buf.as_slice()[self.start..self.buf.len()],
            self.cap,
            eof,
            no_length,
            keep_body,
        );
        if let Parse::Done(resp) = &r {
            proof {
                lemma_consumed_within(self.pending(), self.cap as int, eof, no_length);
            }
            self.start = self.start + resp.consumed;
            proof {
                assert(self.pending() =~= old(self).pending().skip(resp.consumed as int));
            }
        }
        r
    }
}

/// A response read whole takes no more bytes than there are.
pub proof fn lemma_consumed_within(s: Seq<u8>, cap: int, eof: bool, no_length: NoLength)
    ensures
        response(s, cap, eof, no_length) matches Outcome::Done { consumed, len, .. } ==> 0
            <= consumed <= s.len() && len >= 0,
{
    lemma_line_advances(s, 0, cap);
    if let LineAt::Line { begin, end, next } = line_at(s, 0, cap) {
        lemma_headers_done(s, next, cap, empty_head());
        if let HeadEnd::Done { head, next: body_at } = headers(s, next, cap, empty_head()) {
            lemma_chunks_done(s, body_at, cap, 0, seq![]);
        }
    }
}

proof fn lemma_trailer_done(s: Seq<u8>, q: int, cap: int, len: int, body: Seq<u8>)
    requires
        0 <= q <= s.len(),
    ensures
        trailer(s, q, cap, len, body) matches BodyEnd::Done { len: l, next, .. } ==> q <= next
            <= s.len() && l == len,
    decreases s.len() - q,
{
    lemma_line_advances(s, q, cap);
    if let LineAt::Line { begin, end, next } = line_at(s, q, cap) {
        if begin != end {
            lemma_trailer_done(s, next, cap, len, body);
        }
    }
}

proof fn lemma_chunks_done(s: Seq<u8>, q: int, cap: int, len: int, body: Seq<u8>)
    requires
        0 <= q <= s.len(),
        len >= 0,
    ensures
        chunks(s, q, cap, len, body) matches BodyEnd::Done { len: l, next, .. } ==> q <= next
            <= s.len() && l >= 0,
    decreases s.len() - q,
{
    lemma_line_advances(s, q, cap);
    if let LineAt::Line { begin, end, next } = line_at(s, q, cap) {
        let semi = byte_from(s, begin, end, 59);
        let vb = trim_start(s, begin, semi);
        let ve = trim_end(s, vb, semi);
        lemma_parse_uint_nonneg(s, vb, ve, 16);
        if let Some(size) = parse_uint(s, vb, ve, 16) {
            if size == 0 {
                lemma_trailer_done(s, next, cap, len, body);
            } else if len + size <= MAX_BODY_SIZE && next + size <= s.len() {
                lemma_line_advances(s, next + size, cap);
                if let LineAt::Line { begin: b2, end: e2, next: n2 } = line_at(s, next + size, cap) {
                    if b2 == e2 {
                        lemma_chunks_done(s, n2, cap, len + size, body + s.subrange(next, next + size));
                    }
                }
            }
        }
    }
}

} // verus!

verus! {

/// The ASCII decimal digits of `n`.
pub open spec fn decimal_bytes(n: nat) -> Seq<u8>
    decreases n,
{
    if n < 10 {
        seq![(48 + n) as u8]
    } else {
        decimal_bytes(n / 10).push((48 + n % 10) as u8)
    }
}

/// `Content-Length: `
pub open spec fn content_length_label() -> Seq<u8> {
    seq![67u8, 111u8, 110u8, 116u8, 101u8, 110u8, 116u8, 45u8, 76u8, 101u8, 110u8, 103u8, 116u8, 104u8, 58u8, 32u8]
}

/// `HTTP/1.1 <code> OK` and its CRLF.
pub open spec fn ok_status_line(code: int) -> Seq<u8> {
    http1() + seq![
        49u8,
        32u8,
        (48 + code / 100) as u8,
        (48 + code / 10 % 10) as u8,
        (48 + code % 10) as u8,
        32u8,
        79u8,
        75u8,
        13u8,
        10u8,
    ]
}

/// A response as the servers answer a request: a status line, a
/// Content-Length header, a blank line, and the body.
pub open spec fn length_response(code: int, body: Seq<u8>) -> Seq<u8> {
    ok_status_line(code) + content_length_label() + decimal_bytes(body.len()) + seq![
        13u8,
        10u8,
        13u8,
        10u8,
    ] + body
}

/// `byte_from` finds the first `x` from `p` on.
proof fn lemma_byte_from_at(s: Seq<u8>, p: int, e: int, x: u8, k: int)
    requires
        p <= k < e,
        s[k] == x,
        forall|i: int| p <= i < k ==> s[i] != x,
    ensures
        byte_from(s, p, e, x) == k,
    decreases k - p,
{
    if p < k {
        lemma_byte_from_at(s, p + 1, e, x, k);
    }
}

/// A number below `10^k` has at most `k` digits, and at least one.
proof fn lemma_decimal_len(n: nat, k: nat)
    requires
        k >= 1,
        n < crate::duration::pow10(k),
    ensures
        1 <= decimal_bytes(n).len() <= k,
    decreases k,
{
    assert(crate::duration::pow10(k) == 10 * crate::duration::pow10((k - 1) as nat));
    if n >= 10 {
        if k == 1 {
            assert(crate::duration::pow10(0) == 1);
        } else {
            lemma_decimal_len(n / 10, (k - 1) as nat);
        }
    }
}

/// The digits of `n`, wherever they stand in `s`, are digits and read as
/// `n`.
proof fn lemma_decimal_value(s: Seq<u8>, b: int, n: nat)
    requires
        0 <= b,
        b + decimal_bytes(n).len() <= s.len(),
        s.subrange(b, b + decimal_bytes(n).len()) == decimal_bytes(n),
    ensures
        all_digits(s, b, b + decimal_bytes(n).len(), 10),
        digits_value(s, b, b + decimal_bytes(n).len(), 10) == n,
        forall|i: int| b <= i < b + decimal_bytes(n).len() ==> 48 <= #[trigger] s[i] <= 57,
    decreases n,
{
    let d = decimal_bytes(n);
    let e = b + d.len();
    if n < 10 {
        assert(s[b] == d[0]);
        assert(digits_value(s, b, b, 10) == 0);
    } else {
        let d1 = decimal_bytes(n / 10);
        assert(d == d1.push((48 + n % 10) as u8));
        assert(s.subrange(b, b + d1.len()) =~= d1) by {
            assert forall|i: int| 0 <= i < d1.len() implies s.subrange(b, b + d1.len())[i]
                == d1[i] by {
                assert(s.subrange(b, e)[i] == d[i]);
            }
        }
        lemma_decimal_value(s, b, n / 10);
        assert(s[e - 1] == d[d.len() - 1]);
        assert(digit_value(s[e - 1], 10) == Some((n % 10) as int));
        assert forall|i: int| b <= i < e implies 48 <= #[trigger] s[i] <= 57 by {
            if i < e - 1 {
                assert(48 <= s[i] <= 57);
            }
        }
        assert forall|i: int| b <= i < e implies (#[trigger] digit_value(s[i], 10)) is Some by {
            assert(48 <= s[i] <= 57);
        }
    }
}

/// Where the parts of a `length_response` stand at the front of `s`.
pub open spec fn laid_out(s: Seq<u8>, code: int, body: Seq<u8>, nd: int) -> bool {
    &&& 1 <= nd <= 8
    &&& decimal_bytes(body.len()).len() == nd
    &&& s.len() >= 37 + nd + body.len()
    &&& forall|i: int| 0 <= i < 17 ==> #[trigger] s[i] == ok_status_line(code)[i]
    &&& forall|i: int| 17 <= i < 33 ==> #[trigger] s[i] == content_length_label()[i - 17]
    &&& s.subrange(33, 33 + nd) == decimal_bytes(body.len())
    &&& s[33 + nd] == 13 && s[34 + nd] == 10 && s[35 + nd] == 13 && s[36 + nd] == 10
    &&& s.subrange(37 + nd, 37 + nd + body.len()) == body
}

proof fn lemma_laid_out(code: int, body: Seq<u8>, rest: Seq<u8>)
    requires
        200 <= code <= 999,
        body.len() <= MAX_BODY_SIZE,
    ensures
        laid_out(
            length_response(code, body) + rest,
            code,
            body,
            decimal_bytes(body.len()).len() as int,
        ),
        length_response(code, body).len() == 37 + decimal_bytes(body.len()).len() + body.len(),
{
    let n = body.len();
    let p1 = ok_status_line(code);
    let p2 = content_length_label();
    let d = decimal_bytes(n);
    let p4 = seq![13u8, 10u8, 13u8, 10u8];
    let r = length_response(code, body);
    let s = r + rest;
    assert(crate::duration::pow10(8) == 100_000_000) by {
        reveal_with_fuel(crate::duration::pow10, 9);
    }
    lemma_decimal_len(n, 8);
    let nd = d.len() as int;
    assert(p1.len() == 17);
    assert(p2.len() == 16);
    assert(r =~= p1 + p2 + d + p4 + body);
    assert(s.subrange(0, 17) =~= p1);
    assert(s.subrange(17, 33) =~= p2);
    assert(s.subrange(33, 33 + nd) =~= d);
    assert(s.subrange(33 + nd, 37 + nd) =~= p4);
    assert(s.subrange(37 + nd, 37 + nd + n) =~= body);
    assert forall|i: int| 0 <= i < 17 implies #[trigger] s[i] == p1[i] by {
        assert(s.subrange(0, 17)[i] == s[i]);
    }
    assert forall|i: int| 17 <= i < 33 implies #[trigger] s[i] == p2[i - 17] by {
        assert(s.subrange(17, 33)[i - 17] == s[i]);
    }
    assert(s.subrange(33 + nd, 37 + nd)[0] == s[33 + nd]);
    assert(s.subrange(33 + nd, 37 + nd)[1] == s[34 + nd]);
    assert(s.subrange(33 + nd, 37 + nd)[2] == s[35 + nd]);
    assert(s.subrange(33 + nd, 37 + nd)[3] == s[36 + nd]);
}

proof fn lemma_status_part(s: Seq<u8>, code: int, body: Seq<u8>, nd: int, cap: int)
    requires
        200 <= code <= 999,
        cap >= 64,
        laid_out(s, code, body, nd),
    ensures
        line_at(s, 0, cap) == (LineAt::Line { begin: 0, end: 15, next: 17 }),
        status_of(s, 0, 15) == Some(code),
{
    let p1 = ok_status_line(code);
    assert forall|i: int| 0 <= i < 16 implies #[trigger] s[i] != 10 by {
        assert(s[i] == p1[i]);
    }
    assert(s[16] == p1[16]);
    lemma_byte_from_at(s, 0, s.len() as int, 10, 16);
    assert(s[15] == p1[15]);
    assert(s.subrange(0, 7) =~= http1()) by {
        assert forall|i: int| 0 <= i < 7 implies s.subrange(0, 7)[i] == http1()[i] by {
            assert(s[i] == p1[i]);
        }
    }
    assert(s[8] == p1[8] && s[12] == p1[12]);
    assert(s[9] == p1[9] && s[10] == p1[10] && s[11] == p1[11]);
}

proof fn lemma_length_part(s: Seq<u8>, code: int, body: Seq<u8>, nd: int, cap: int)
    requires
        cap >= 64,
        body.len() <= MAX_BODY_SIZE,
        laid_out(s, code, body, nd),
    ensures
        headers(s, 17, cap, empty_head()) == (HeadEnd::Done {
            head: Head { content_length: Some(body.len() as int), chunked: false },
            next: 37 + nd,
        }),
{
    let n = body.len();
    let p2 = content_length_label();
    lemma_decimal_value(s, 33, n);
    let e1 = 33 + nd;
    assert forall|i: int| 17 <= i < 34 + nd implies #[trigger] s[i] != 10 by {
        if i < 33 {
            assert(s[i] == p2[i - 17]);
        } else if i < e1 {
            assert(48 <= s[i] <= 57);
        }
    }
    lemma_byte_from_at(s, 17, s.len() as int, 10, 34 + nd);
    assert(line_at(s, 17, cap) == (LineAt::Line { begin: 17, end: e1, next: 35 + nd }));
    assert forall|i: int| 17 <= i < 31 implies #[trigger] s[i] != 58 by {
        assert(s[i] == p2[i - 17]);
    }
    assert(s[31] == p2[14]);
    lemma_byte_from_at(s, 17, e1, 58, 31);
    assert(s[32] == p2[15]);
    assert(48 <= s[33] <= 57);
    assert(trim_start(s, 33, e1) == 33);
    assert(trim_start(s, 32, e1) == 33);
    assert(48 <= s[e1 - 1] <= 57);
    assert(trim_end(s, 33, e1) == e1);
    assert forall|i: int| 0 <= i < 14 implies lower(#[trigger] s[17 + i]) == content_length_word()[i]
        by {
        assert(s[17 + i] == p2[i]);
    }
    assert(eq_lower(s, 17, 31, content_length_word()));
    assert(parse_uint(s, 33, e1, 10) == Some(n as int));
    lemma_byte_from_at(s, 35 + nd, s.len() as int, 10, 36 + nd);
    assert(line_at(s, 35 + nd, cap) == (LineAt::Line {
        begin: 35 + nd,
        end: 35 + nd,
        next: 37 + nd,
    }));
    let h = Head { content_length: Some(n as int), chunked: false };
    assert(headers(s, 35 + nd, cap, h) == (HeadEnd::Done { head: h, next: 37 + nd }));
}

/// The client reads back what a server writes: the response a server
/// answers with, a status other than 204 and 304 and a Content-Length
/// header framing its body, whatever follows it on the connection, reads as
/// that status and exactly that body, and takes exactly its own bytes, when
/// each of its lines fits the buffer.
pub proof fn law_reads_what_was_written(
    code: int,
    body: Seq<u8>,
    rest: Seq<u8>,
    cap: int,
    eof: bool,
    no_length: NoLength,
)
    requires
        200 <= code <= 999,
        code != 204,
        code != 304,
        body.len() <= MAX_BODY_SIZE,
        cap >= 64,
    ensures
        response(length_response(code, body) + rest, cap, eof, no_length) == (Outcome::Done {
            status: code,
            len: body.len() as int,
            body,
            consumed: length_response(code, body).len() as int,
        }),
{
    let s = length_response(code, body) + rest;
    let nd = decimal_bytes(body.len()).len() as int;
    lemma_laid_out(code, body, rest);
    lemma_status_part(s, code, body, nd, cap);
    lemma_length_part(s, code, body, nd, cap);
}

/// The lower-case hexadecimal digit for `d`, below 16.
pub open spec fn hex_digit_byte(d: int) -> u8 {
    if d < 10 {
        (48 + d) as u8
    } else {
        (87 + d) as u8
    }
}

/// `n` in lower-case hexadecimal digits, as a chunk size is written.
pub open spec fn hex_bytes(n: nat) -> Seq<u8>
    decreases n,
{
    if n < 16 {
        seq![hex_digit_byte(n as int)]
    } else {
        hex_bytes(n / 16).push(hex_digit_byte((n % 16) as int))
    }
}

/// The chunked transfer coding of the chunks `cs`: each one's size in
/// hexadecimal, CRLF, its bytes and CRLF; then a zero size and the blank
/// line that ends an empty trailer.
pub open spec fn chunked_coding(cs: Seq<Seq<u8>>) -> Seq<u8>
    decreases cs.len(),
{
    if cs.len() == 0 {
        seq![48u8, 13u8, 10u8, 13u8, 10u8]
    } else {
        hex_bytes(cs[0].len()) + seq![13u8, 10u8] + cs[0] + seq![13u8, 10u8] + chunked_coding(
            cs.drop_first(),
        )
    }
}

/// The chunks `cs` one after another: the body they carry.
pub open spec fn joined(cs: Seq<Seq<u8>>) -> Seq<u8>
    decreases cs.len(),
{
    if cs.len() == 0 {
        Seq::<u8>::empty()
    } else {
        cs[0] + joined(cs.drop_first())
    }
}

proof fn lemma_joined_len(cs: Seq<Seq<u8>>)
    ensures
        cs.len() > 0 ==> joined(cs).len() >= cs[0].len(),
        cs.len() > 0 ==> joined(cs).len() == cs[0].len() + joined(cs.drop_first()).len(),
{
}

/// 16 to the `k`.
pub open spec fn pow16(k: nat) -> nat
    decreases k,
{
    if k == 0 {
        1
    } else {
        16 * pow16((k - 1) as nat)
    }
}

/// A number below `16^k` has at most `k` hexadecimal digits, and at least
/// one.
proof fn lemma_hex_len(n: nat, k: nat)
    requires
        k >= 1,
        n < pow16(k),
    ensures
        1 <= hex_bytes(n).len() <= k,
    decreases k,
{
    if n >= 16 {
        if k == 1 {
            assert(pow16(0) == 1);
        } else {
            lemma_hex_len(n / 16, (k - 1) as nat);
        }
    }
}

/// The hexadecimal digits of `n`, wherever they stand in `s`, are digits
/// in base 16 and read as `n`.
proof fn lemma_hex_value(s: Seq<u8>, b: int, n: nat)
    requires
        0 <= b,
        b + hex_bytes(n).len() <= s.len(),
        s.subrange(b, b + hex_bytes(n).len()) == hex_bytes(n),
    ensures
        all_digits(s, b, b + hex_bytes(n).len(), 16),
        digits_value(s, b, b + hex_bytes(n).len(), 16) == n,
        forall|i: int|
            b <= i < b + hex_bytes(n).len() ==> (48 <= #[trigger] s[i] <= 57 || 97 <= s[i] <= 102),
    decreases n,
{
    let d = hex_bytes(n);
    let e = b + d.len();
    if n < 16 {
        assert(s[b] == d[0]);
        assert(digits_value(s, b, b, 16) == 0);
    } else {
        let d1 = hex_bytes(n / 16);
        assert(d == d1.push(hex_digit_byte((n % 16) as int)));
        assert(s.subrange(b, b + d1.len()) =~= d1) by {
            assert forall|i: int| 0 <= i < d1.len() implies s.subrange(b, b + d1.len())[i]
                == d1[i] by {
                assert(s.subrange(b, e)[i] == d[i]);
            }
        }
        lemma_hex_value(s, b, n / 16);
        assert(s[e - 1] == d[d.len() - 1]);
        assert(digit_value(s[e - 1], 16) == Some((n % 16) as int));
        assert forall|i: int| b <= i < e implies (48 <= #[trigger] s[i] <= 57 || 97 <= s[i] <= 102) by {
            if i < e - 1 {
                assert(48 <= s[i] <= 57 || 97 <= s[i] <= 102);
            }
        }
        assert forall|i: int| b <= i < e implies (#[trigger] digit_value(s[i], 16)) is Some by {
            assert(48 <= s[i] <= 57 || 97 <= s[i] <= 102);
        }
    }
}

/// `byte_from` finds nothing where there is nothing to find.
proof fn lemma_byte_from_none(s: Seq<u8>, p: int, e: int, x: u8)
    requires
        0 <= p <= e <= s.len(),
        forall|i: int| p <= i < e ==> s[i] != x,
    ensures
        byte_from(s, p, e, x) == e,
    decreases e - p,
{
    if p < e {
        lemma_byte_from_none(s, p + 1, e, x);
    }
}

/// The chunks from `q` on, where `s` holds the chunked coding of `cs`
/// there, read as all of `cs`, after `len` bytes of `body` before them.
proof fn lemma_chunks_read(
    s: Seq<u8>,
    q: int,
    cap: int,
    len: int,
    body: Seq<u8>,
    cs: Seq<Seq<u8>>,
)
    requires
        0 <= q,
        q + chunked_coding(cs).len() <= s.len(),
        s.subrange(q, q + chunked_coding(cs).len()) == chunked_coding(cs),
        forall|i: int| 0 <= i < cs.len() ==> (#[trigger] cs[i]).len() >= 1,
        0 <= len,
        len + joined(cs).len() <= MAX_BODY_SIZE,
        cap >= 16,
    ensures
        chunks(s, q, cap, len, body) == (BodyEnd::Done {
            len: len + joined(cs).len(),
            body: body + joined(cs),
            next: q + chunked_coding(cs).len(),
        }),
    decreases cs.len(),
{
    let t = chunked_coding(cs);
    assert forall|i: int| 0 <= i < t.len() implies #[trigger] s[q + i] == t[i] by {
        assert(s.subrange(q, q + t.len())[i] == t[i]);
    }
    if cs.len() == 0 {
        assert(s[q] == t[0] && s[q + 1] == t[1] && s[q + 2] == t[2]);
        assert(s[q + 3] == t[3] && s[q + 4] == t[4]);
        lemma_byte_from_at(s, q, s.len() as int, 10, q + 2);
        assert(line_at(s, q, cap) == (LineAt::Line { begin: q, end: q + 1, next: q + 3 }));
        assert(byte_from(s, q, q + 1, 59) == q + 1) by {
            lemma_byte_from_none(s, q, q + 1, 59);
        }
        assert(trim_start(s, q, q + 1) == q);
        assert(trim_end(s, q, q + 1) == q + 1);
        assert(digits_value(s, q, q, 16) == 0);
        assert(parse_uint(s, q, q + 1, 16) == Some(0int));
        lemma_byte_from_at(s, q + 3, s.len() as int, 10, q + 4);
        assert(line_at(s, q + 3, cap) == (LineAt::Line { begin: q + 3, end: q + 3, next: q + 5 }));
        assert(body + joined(cs) =~= body);
    } else {
        let c = cs[0];
        let rest = cs.drop_first();
        let n = c.len();
        let hx = hex_bytes(n);
        let h = hx.len() as int;
        let tail = chunked_coding(rest);
        assert(t =~= hx + seq![13u8, 10u8] + c + seq![13u8, 10u8] + tail);
        lemma_joined_len(cs);
        assert(n <= MAX_BODY_SIZE);
        assert(pow16(7) == 268435456) by {
            reveal_with_fuel(pow16, 8);
        }
        lemma_hex_len(n, 7);
        assert(s.subrange(q, q + h) =~= hx) by {
            assert forall|i: int| 0 <= i < h implies s.subrange(q, q + h)[i] == hx[i] by {
                assert(s[q + i] == t[i]);
            }
        }
        lemma_hex_value(s, q, n);
        assert(s[q + h] == t[h] && s[q + h + 1] == t[h + 1]);
        assert(s[q + h] == 13 && s[q + h + 1] == 10);
        assert forall|i: int| q <= i < q + h + 1 implies #[trigger] s[i] != 10 by {
            if i < q + h {
                assert(48 <= s[i] <= 57 || 97 <= s[i] <= 102);
            }
        }
        lemma_byte_from_at(s, q, s.len() as int, 10, q + h + 1);
        let next = q + h + 2;
        assert(line_at(s, q, cap) == (LineAt::Line { begin: q, end: q + h, next }));
        assert forall|i: int| q <= i < q + h implies #[trigger] s[i] != 59 by {
            assert(48 <= s[i] <= 57 || 97 <= s[i] <= 102);
        }
        lemma_byte_from_none(s, q, q + h, 59);
        assert(48 <= s[q] <= 57 || 97 <= s[q] <= 102);
        assert(trim_start(s, q, q + h) == q);
        assert(48 <= s[q + h - 1] <= 57 || 97 <= s[q + h - 1] <= 102);
        assert(trim_end(s, q, q + h) == q + h);
        assert(parse_uint(s, q, q + h, 16) == Some(n as int));
        assert(s[next + n] == t[h + 2 + n] && s[next + n + 1] == t[h + 3 + n]);
        lemma_byte_from_at(s, next + n, s.len() as int, 10, next + n + 1);
        assert(line_at(s, next + n, cap) == (LineAt::Line {
            begin: next + n,
            end: next + n,
            next: next + n + 2,
        }));
        assert(s.subrange(next, next + n) =~= c) by {
            assert forall|i: int| 0 <= i < n implies s.subrange(next, next + n)[i] == c[i] by {
                assert(s[q + (h + 2 + i)] == t[h + 2 + i]);
            }
        }
        let n2 = next + n + 2;
        assert(s.subrange(n2, n2 + tail.len()) =~= tail) by {
            assert forall|i: int| 0 <= i < tail.len() implies s.subrange(n2, n2 + tail.len())[i]
                == tail[i] by {
                assert(s[q + (h + 4 + n + i)] == t[h + 4 + n + i]);
            }
        }
        assert forall|i: int| 0 <= i < rest.len() implies (#[trigger] rest[i]).len() >= 1 by {
            assert(rest[i] == cs[i + 1]);
        }
        lemma_chunks_read(s, n2, cap, len + n, body + c, rest);
        assert(body + c + joined(rest) =~= body + joined(cs));
    }
}

/// Chunked coding reads back as what it carries: the chunked coding of any
/// chunks, each of at least one byte and their sizes written in
/// hexadecimal, whatever follows it, reads as the chunks one after another,
/// with their total length, and takes exactly its own bytes, when it
/// carries no more than `MAX_BODY_SIZE` bytes.
pub proof fn law_chunked_round_trip(cs: Seq<Seq<u8>>, rest: Seq<u8>, cap: int)
    requires
        forall|i: int| 0 <= i < cs.len() ==> (#[trigger] cs[i]).len() >= 1,
        joined(cs).len() <= MAX_BODY_SIZE,
        cap >= 16,
    ensures
        chunks(chunked_coding(cs) + rest, 0, cap, 0, seq![]) == (BodyEnd::Done {
            len: joined(cs).len() as int,
            body: joined(cs),
            next: chunked_coding(cs).len() as int,
        }),
{
    let s = chunked_coding(cs) + rest;
    assert(s.subrange(0, chunked_coding(cs).len() as int) =~= chunked_coding(cs));
    lemma_chunks_read(s, 0, cap, 0, seq![], cs);
    assert(Seq::<u8>::empty() + joined(cs) =~= joined(cs));
}

/// `Transfer-Encoding: chunked`, its CRLF, and the blank line after it.
pub open spec fn chunked_label() -> Seq<u8> {
    seq![84u8, 114u8, 97u8, 110u8, 115u8, 102u8, 101u8, 114u8, 45u8, 69u8, 110u8, 99u8, 111u8, 100u8, 105u8, 110u8, 103u8, 58u8, 32u8, 99u8, 104u8, 117u8, 110u8, 107u8, 101u8, 100u8, 13u8, 10u8, 13u8, 10u8]
}

/// A response whose body is sent in chunks: a status line, a
/// `Transfer-Encoding: chunked` header, a blank line, and the chunked
/// coding of `cs`.
pub open spec fn chunked_response(code: int, cs: Seq<Seq<u8>>) -> Seq<u8> {
    ok_status_line(code) + chunked_label() + chunked_coding(cs)
}

proof fn lemma_chunked_head(s: Seq<u8>, code: int, cap: int)
    requires
        200 <= code <= 999,
        cap >= 64,
        s.len() >= 47,
        s.subrange(0, 47) == ok_status_line(code) + chunked_label(),
    ensures
        line_at(s, 0, cap) == (LineAt::Line { begin: 0, end: 15, next: 17 }),
        status_of(s, 0, 15) == Some(code),
        headers(s, 17, cap, empty_head()) == (HeadEnd::Done {
            head: Head { content_length: None, chunked: true },
            next: 47,
        }),
{
    let p1 = ok_status_line(code);
    let p2 = chunked_label();
    let t = p1 + p2;
    assert forall|i: int| 0 <= i < 47 implies #[trigger] s[i] == t[i] by {
        assert(s.subrange(0, 47)[i] == t[i]);
    }
    assert forall|i: int| 0 <= i < 16 implies #[trigger] s[i] != 10 by {
        assert(s[i] == p1[i]);
    }
    assert(s[16] == t[16]);
    lemma_byte_from_at(s, 0, s.len() as int, 10, 16);
    assert(s[15] == p1[15]);
    assert(s.subrange(0, 7) =~= http1()) by {
        assert forall|i: int| 0 <= i < 7 implies s.subrange(0, 7)[i] == http1()[i] by {
            assert(s[i] == p1[i]);
        }
    }
    assert(s[8] == p1[8] && s[12] == p1[12]);
    assert(s[9] == p1[9] && s[10] == p1[10] && s[11] == p1[11]);
    assert forall|i: int| 17 <= i < 44 implies #[trigger] s[i] != 10 by {
        assert(s[i] == p2[i - 17]);
    }
    assert(s[44] == p2[27]);
    lemma_byte_from_at(s, 17, s.len() as int, 10, 44);
    assert(s[43] == p2[26]);
    assert(line_at(s, 17, cap) == (LineAt::Line { begin: 17, end: 43, next: 45 }));
    assert forall|i: int| 17 <= i < 34 implies #[trigger] s[i] != 58 by {
        assert(s[i] == p2[i - 17]);
    }
    assert(s[34] == p2[17]);
    lemma_byte_from_at(s, 17, 43, 58, 34);
    assert(s[35] == p2[18] && s[36] == p2[19]);
    assert(trim_start(s, 36, 43) == 36);
    assert(trim_start(s, 35, 43) == 36);
    assert(s[42] == p2[25]);
    assert(trim_end(s, 36, 43) == 43);
    assert forall|i: int| 0 <= i < 17 implies lower(#[trigger] s[17 + i]) == transfer_encoding_word()[i]
        by {
        assert(s[17 + i] == p2[i]);
    }
    assert(eq_lower(s, 17, 34, transfer_encoding_word()));
    assert(!eq_lower(s, 17, 34, content_length_word()));
    assert forall|i: int| 0 <= i < 7 implies lower(#[trigger] s[36 + i]) == chunked_word()[i] by {
        assert(s[36 + i] == p2[19 + i]);
    }
    assert(eq_lower(s, 36, 36 + chunked_word().len() as int, chunked_word()));
    assert(contains_lower(s, 36, 43, chunked_word()));
    assert(s[45] == p2[28] && s[46] == p2[29]);
    lemma_byte_from_at(s, 45, s.len() as int, 10, 46);
    assert(line_at(s, 45, cap) == (LineAt::Line { begin: 45, end: 45, next: 47 }));
    let h = Head { content_length: None, chunked: true };
    assert(headers(s, 45, cap, h) == (HeadEnd::Done { head: h, next: 47 }));
}

/// The client reads back a chunked answer: a response with a status other
/// than 204 and 304 whose body is the chunked coding of `cs` (each chunk at
/// least a byte, its size in hexadecimal), whatever follows it on the
/// connection, reads as that status and the chunks one after another, and
/// takes exactly its own bytes, when it carries no more than
/// `MAX_BODY_SIZE` bytes and each of its lines fits the buffer.
pub proof fn law_reads_chunked_answer(
    code: int,
    cs: Seq<Seq<u8>>,
    rest: Seq<u8>,
    cap: int,
    eof: bool,
    no_length: NoLength,
)
    requires
        200 <= code <= 999,
        code != 204,
        code != 304,
        forall|i: int| 0 <= i < cs.len() ==> (#[trigger] cs[i]).len() >= 1,
        joined(cs).len() <= MAX_BODY_SIZE,
        cap >= 64,
    ensures
        response(chunked_response(code, cs) + rest, cap, eof, no_length) == (Outcome::Done {
            status: code,
            len: joined(cs).len() as int,
            body: joined(cs),
            consumed: chunked_response(code, cs).len() as int,
        }),
{
    let s = chunked_response(code, cs) + rest;
    let t = chunked_coding(cs);
    assert(ok_status_line(code).len() == 17);
    assert(chunked_label().len() == 30);
    assert(s.subrange(0, 47) =~= ok_status_line(code) + chunked_label());
    lemma_chunked_head(s, code, cap);
    assert(s.subrange(47, 47 + t.len() as int) =~= t);
    lemma_chunks_read(s, 47, cap, 0, seq![], cs);
    assert(Seq::<u8>::empty() + joined(cs) =~= joined(cs));
}

} // verus!
