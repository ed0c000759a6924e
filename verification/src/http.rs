//! Requests as they go on the wire, encoded once and written as they are,
//! and the batches of them that pipelining writes.

use vstd::prelude::*;
use vstd::string::*;
use vstd::utf8::encode_utf8;

use crate::text::{decimal, push_decimal, str_eq};

verus! {

/// The Content-Length a request carries, if any: one with a body, and
/// every POST or PUT, carries one.
pub open spec fn content_length_of(method: Seq<char>, body: Option<Seq<u8>>) -> Option<nat> {
    match body {
        Some(b) => Some(b.len()),
        None => if method == "POST"@ || method == "PUT"@ {
            Some(0)
        } else {
            None
        },
    }
}

/// A request's start line and header, up to and with the blank line that
/// ends it; `close` adds `Connection: close` before that blank line.
pub open spec fn request_head(
    method: Seq<char>,
    host: Seq<char>,
    path: Seq<char>,
    content_length: Option<nat>,
    close: bool,
) -> Seq<char> {
    method + " "@ + path + " HTTP/1.1\r\nHost: "@ + host + "\r\n"@ + match content_length {
        Some(n) => "Content-Type: application/octet-stream\r\nContent-Length: "@ + decimal(n)
            + "\r\n"@,
        None => Seq::<char>::empty(),
    } + if close {
        "Connection: close\r\n"@
    } else {
        Seq::<char>::empty()
    } + "\r\n"@
}

pub open spec fn opt_view(body: Option<&[u8]>) -> Option<Seq<u8>> {
    match body {
        Some(b) => Some(b@),
        None => None,
    }
}

/// The bytes of a request: its head in UTF-8, then its body.
pub open spec fn request_bytes(
    method: Seq<char>,
    host: Seq<char>,
    path: Seq<char>,
    body: Option<Seq<u8>>,
    close: bool,
) -> Seq<u8> {
    encode_utf8(request_head(method, host, path, content_length_of(method, body), close))
        + match body {
        Some(b) => b,
        None => Seq::<u8>::empty(),
    }
}

fn encode(method: &str, host: &str, path: &str, body: Option<&[u8]>, close: bool) -> (r: Vec<u8>)
    ensures
        r@ == request_bytes(method@, host@, path@, opt_view(body), close),
{
    let mut head = String::new();
    head.append(method);
    head.append(" ");
    head.append(path);
    head.append(" HTTP/1.1\r\nHost: ");
    head.append(host);
    head.append("\r\n");
    let ghost base = head@;
    let framed = match body {
        Some(b) => Some(b.len()),
        None => if str_eq(method, "POST") || str_eq(method, "PUT") {
            Some(0)
        } else {
            None
        },
    };
    match framed {
        Some(n) => {
            head.append("Content-Type: application/octet-stream\r\nContent-Length: ");
            push_decimal(&mut head, n as u64);
            head.append("\r\n");
        },
        None => {},
    }
    let ghost framed_part = match framed {
        Some(n) => "Content-Type: application/octet-stream\r\nContent-Length: "@ + decimal(
            n as nat,
        ) + "\r\n"@,
        None => Seq::<char>::empty(),
    };
    assert(head@ =~= base + framed_part);
    let ghost mid = head@;
    if close {
        head.append("Connection: close\r\n");
    }
    head.append("\r\n");
    proof {
        let cl = content_length_of(method@, opt_view(body));
        assert(cl == match framed {
            Some(n) => Some(n as nat),
            None => None::<nat>,
        });
        assert(head@ =~= request_head(method@, host@, path@, cl, close));
    }
    let mut out = head.as_str().as_bytes_vec();
    match body {
        Some(b) => {
            out.extend_from_slice(b);
        },
        None => {},
    }
    proof {
        assert(out@ =~= request_bytes(method@, host@, path@, opt_view(body), close));
    }
    out
}

/// A request carries its body whole, right after its head, and announces
/// its length: for any request, closing or not, with a body `b`, the bytes
/// are a head, ending in a blank line and holding a `Content-Length`
/// header with `b`'s length, followed by exactly `b`. The head is returned.
pub proof fn law_body_follows_head(
    method: Seq<char>,
    host: Seq<char>,
    path: Seq<char>,
    b: Seq<u8>,
    close: bool,
) -> (head: Seq<char>)
    ensures
        request_bytes(method, host, path, Some(b), close) == encode_utf8(head) + b,
        head.len() >= 4,
        head.subrange(head.len() - 4, head.len() as int) == "\r\n\r\n"@,
        exists|k: int|
            0 <= k && k + ("Content-Length: "@ + decimal(b.len()) + "\r\n"@).len() <= head.len()
                && #[trigger] head.subrange(k, k + ("Content-Length: "@ + decimal(b.len()) + "\r\n"@).len())
                == "Content-Length: "@ + decimal(b.len()) + "\r\n"@,
{
    reveal_strlit("\r\n\r\n");
    reveal_strlit("\r\n");
    reveal_strlit(" ");
    reveal_strlit(" HTTP/1.1\r\nHost: ");
    reveal_strlit("Content-Type: application/octet-stream\r\nContent-Length: ");
    reveal_strlit("Content-Length: ");
    reveal_strlit("Connection: close\r\n");
    let head = request_head(method, host, path, Some(b.len()), close);
    let pre = method + " "@ + path + " HTTP/1.1\r\nHost: "@ + host + "\r\n"@;
    let ct = "Content-Type: application/octet-stream\r\nContent-Length: "@;
    let line = "Content-Length: "@ + decimal(b.len()) + "\r\n"@;
    let cl = ct + decimal(b.len()) + "\r\n"@;
    let conn = if close {
        "Connection: close\r\n"@
    } else {
        Seq::<char>::empty()
    };
    assert(head =~= pre + cl + conn + "\r\n"@);
    let k: int = pre.len() as int + 40;
    let ll: int = line.len() as int;
    assert(ct.len() == 56);
    assert(head.subrange(k, k + ll) =~= line) by {
        assert forall|i: int| 0 <= i < line.len() implies head.subrange(k, k + ll)[i]
            == line[i] by {
            assert(head[k + i] == cl[40 + i]);
            if i < 16 {
                assert(cl[40 + i] == ct[40 + i]);
                assert(ct[40 + i] == "Content-Length: "@[i]);
            }
        }
    }
    assert(head.subrange(head.len() - 4, head.len() as int) =~= "\r\n\r\n"@) by {
        assert(head[head.len() - 1] == '\n' && head[head.len() - 2] == '\r');
        if close {
            assert(head[head.len() - 3] == '\n' && head[head.len() - 4] == '\r');
        } else {
            assert(head[head.len() - 3] == '\n' && head[head.len() - 4] == '\r');
        }
    }
    head
}

/// The request `method path` to `host`, with `body` if there is one.
pub fn encode_request(method: &str, host: &str, path: &str, body: Option<&[u8]>) -> (r: Vec<u8>)
    ensures
        r@ == request_bytes(method@, host@, path@, opt_view(body), false),
{
    encode(method, host, path, body, false)
}

/// The same request, asking the server to close the connection after
/// answering it: `Connection: close` before the blank line that ends the
/// head.
pub fn encode_closing_request(method: &str, host: &str, path: &str, body: Option<&[u8]>) -> (r: Vec<
    u8,
>)
    ensures
        r@ == request_bytes(method@, host@, path@, opt_view(body), true),
{
    encode(method, host, path, body, true)
}

} // verus!

verus! {

/// `n` copies of `s`, one after another.
pub open spec fn repeat(s: Seq<u8>, n: nat) -> Seq<u8>
    decreases n,
{
    if n == 0 {
        Seq::<u8>::empty()
    } else {
        repeat(s, (n - 1) as nat) + s
    }
}

pub proof fn lemma_repeat_len(s: Seq<u8>, n: nat)
    ensures
        repeat(s, n).len() == n * s.len(),
    decreases n,
{
    if n > 0 {
        lemma_repeat_len(s, (n - 1) as nat);
        let m = (n - 1) as nat;
        assert(repeat(s, n) == repeat(s, m) + s);
        assert(n * s.len() == m * s.len() + s.len()) by (nonlinear_arith)
            requires
                n == m + 1,
        ;
    } else {
        assert(n * s.len() == 0) by (nonlinear_arith)
            requires
                n == 0,
        ;
    }
}

fn repeated(buf: &[u8], n: usize) -> (r: Vec<u8>)
    ensures
        r@ == repeat(buf@, n as nat),
{
    let mut out: Vec<u8> = Vec::new();
    let mut k: usize = 0;
    while k < n
        invariant
            k <= n,
            out@ == repeat(buf@, k as nat),
        decreases n - k,
    {
        out.extend_from_slice(buf);
        k = k + 1;
    }
    out
}

/// `d` divides `n`.
pub open spec fn divides(d: int, n: int) -> bool {
    n % d == 0
}

/// As many copies of `buf` as fit in `max_len` bytes, and at least one,
/// fewer if that many would not divide `rate`: the copies, their count,
/// and how many writes a second send `rate` copies a second.
pub fn batch_buffers(buf: &[u8], rate: usize, max_len: usize) -> (r: (Vec<u8>, usize, usize))
    requires
        buf@.len() > 0,
    ensures
        ({
            let (bytes, batch, per_second) = r;
            let bound = if (max_len as int) / (buf@.len() as int) > 1 {
                (max_len as int) / (buf@.len() as int)
            } else {
                1
            };
            &&& 1 <= batch <= bound
            &&& batch == 1 || divides(batch as int, rate as int)
            &&& forall|b: int| batch < b <= bound ==> !#[trigger] divides(b, rate as int)
            &&& bytes@ == repeat(buf@, batch as nat)
            &&& per_second == rate / batch
        }),
{
    let mut batch = max_len / buf.len();
    if batch < 1 {
        batch = 1;
    }
    let ghost bound = batch;
    while batch > 1 && rate % batch != 0
        invariant
            1 <= batch <= bound,
            forall|b: int| batch < b <= bound ==> !#[trigger] divides(b, rate as int),
        decreases batch,
    {
        batch = batch - 1;
    }
    (repeated(buf, batch), batch, rate / batch)
}

/// `pipeline` copies of `buf`, their count, and how many writes a second
/// send `rate` copies a second.
pub fn pipeline_buffers(buf: &[u8], rate: usize, pipeline: usize) -> (r: (Vec<u8>, usize, usize))
    requires
        pipeline > 0,
    ensures
        r.0@ == repeat(buf@, pipeline as nat),
        r.1 == pipeline,
        r.2 == rate / pipeline,
{
    (repeated(buf, pipeline), pipeline, rate / pipeline)
}

/// Why a `-rpl` value cannot be used.
#[derive(Clone, Copy, Debug, PartialEq, Eq, Structural)]
pub enum PipelineError {
    /// Below zero.
    Negative(i64),
    /// Positive, and not a divisor of the send rate, so that no whole
    /// number of writes a second sends it.
    NotDivisor { pipeline: i64, rate: usize },
}

/// Checks a pipeline depth against the send rate: 0, which fits as many
/// requests as the batch size holds, or a divisor of the rate.
pub fn validate_pipeline(pipeline: i64, rate: usize) -> (r: Result<(), PipelineError>)
    ensures
        r == (if pipeline < 0 {
            Err(PipelineError::Negative(pipeline))
        } else if pipeline > 0 && (rate as int) % (pipeline as int) != 0 {
            Err(PipelineError::NotDivisor { pipeline, rate })
        } else {
            Ok(())
        }),
{
    if pipeline < 0 {
        return Err(PipelineError::Negative(pipeline));
    }
    if pipeline > 0 && (rate as u64) % (pipeline as u64) != 0 {
        return Err(PipelineError::NotDivisor { pipeline, rate });
    }
    Ok(())
}

} // verus!
