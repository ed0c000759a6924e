use benchcli::http::{
    batch_buffers, encode_closing_request, encode_request, pipeline_buffers, validate_pipeline,
    PipelineError,
};
use benchcli::response::{parse_status, HttpError, NoLength, Parse, RBuf, Response};

/// Reads one response off `src` into `rb`, a chunk of at most `chunk` bytes
/// at a time, the way a connection's reads hand them over.
fn read_response(
    rb: &mut RBuf,
    src: &mut &[u8],
    chunk: usize,
    no_length: NoLength,
    keep_body: bool,
) -> Result<Response, HttpError> {
    loop {
        let eof = src.is_empty();
        match rb.next_response(eof, no_length, keep_body) {
            Parse::Done(r) => return Ok(r),
            Parse::Fail(e) => return Err(e),
            Parse::More => {
                let n = chunk.min(src.len());
                rb.append(&src[..n]);
                *src = &src[n..];
            }
        }
    }
}

#[test]
fn reads_responses() {
    let stream = b"HTTP/1.1 200 OK\r\nContent-Type: x\r\ncontent-length: 5\r\n\r\nhello\
HTTP/1.1 200 OK\r\nTransfer-Encoding: chunked\r\n\r\n3;ext=1\r\nabc\r\n2\r\nde\r\n0\r\nX-Trailer: 1\r\n\r\n\
HTTP/1.1 204 No Content\r\n\r\n\
HTTP/1.0 404 Not Found\r\nContent-Length: 3\r\n\r\nno!\
HTTP/1.1 200 OK\r\nContent-Length: 4\r\n\r\nskip";
    let mut r: &[u8] = stream;
    let mut rb = RBuf::new(512);
    for (status, want) in [(200u16, "hello"), (200, "abcde"), (204, ""), (404, "no!")] {
        let got = read_response(&mut rb, &mut r, 512, NoLength::Error, true).unwrap();
        assert_eq!(
            (got.status, got.len, got.body.as_slice()),
            (status, want.len(), want.as_bytes())
        );
    }
    let got = read_response(&mut rb, &mut r, 512, NoLength::Error, false).unwrap();
    assert_eq!((got.status, got.len), (200, 4));
    assert!(read_response(&mut rb, &mut r, 512, NoLength::Error, false).is_err());
}

#[test]
fn rejects() {
    for raw in [
        &b"HTTP/2 200 OK\r\n\r\n"[..],
        b"HTTP/1.1 2x0 OK\r\n\r\n",
        b"HTTP/1.1 200 OK\r\nno colon here\r\n\r\n",
        b"HTTP/1.1 200 OK\r\nContent-Length: -1\r\n\r\n",
        b"HTTP/1.1 200 OK\r\n\r\nread until close",
        b"HTTP/1.1 200 OK\r\nTransfer-Encoding: chunked\r\n\r\nzz\r\n",
    ] {
        let mut r = raw;
        assert!(read_response(&mut RBuf::new(512), &mut r, 512, NoLength::Error, false).is_err());
    }
    let mut r: &[u8] = b"HTTP/1.1 200 OK\r\n\r\nread until close";
    let got = read_response(&mut RBuf::new(512), &mut r, 512, NoLength::UntilEof, true).unwrap();
    assert_eq!(
        ((got.status, got.len), got.body.as_slice()),
        ((200, 16), &b"read until close"[..])
    );
}

#[test]
fn big_body_skips_the_buffer() {
    let mut raw = b"HTTP/1.1 200 OK\r\nContent-Length: 5000\r\n\r\n".to_vec();
    raw.extend(std::iter::repeat_n(b'x', 5000));
    let mut r = raw.as_slice();
    let got = read_response(&mut RBuf::new(512), &mut r, 512, NoLength::Error, true).unwrap();
    assert_eq!((got.status, got.len), (200, 5000));
    assert!(got.body.len() == 5000 && got.body.iter().all(|&b| b == b'x'));
}

#[test]
fn batches() {
    let buf = vec![0u8; 1100];
    let (b, n, tick) = batch_buffers(&buf, 200, 16 * 1024);
    assert_eq!((b.len(), n, tick), (11000, 10, 20));
    let (_, n, tick) = batch_buffers(&vec![0u8; 32 * 1024], 7, 16 * 1024);
    assert_eq!((n, tick), (1, 7));
    assert!(validate_pipeline(25, 200).is_ok());
    assert!(validate_pipeline(3, 200).is_err());
    assert!(validate_pipeline(-1, 200).is_err());
    let get = encode_request("GET", "[::1]", "/echo", None);
    assert_eq!(get, b"GET /echo HTTP/1.1\r\nHost: [::1]\r\n\r\n");
}

#[test]
fn pipeline_errors_name_the_problem() {
    assert_eq!(validate_pipeline(-1, 200), Err(PipelineError::Negative(-1)));
    assert_eq!(
        validate_pipeline(3, 200),
        Err(PipelineError::NotDivisor { pipeline: 3, rate: 200 })
    );
    assert_eq!(validate_pipeline(0, 7), Ok(()));
}

#[test]
fn posts_carry_their_length() {
    let post = encode_request("POST", "127.0.0.1:13001", "/echo", Some(b"abc"));
    assert_eq!(
        post,
        b"POST /echo HTTP/1.1\r\nHost: 127.0.0.1:13001\r\nContent-Type: application/octet-stream\r\nContent-Length: 3\r\n\r\nabc"
    );
    let empty = encode_request("POST", "h", "/init", None);
    assert_eq!(
        empty,
        b"POST /init HTTP/1.1\r\nHost: h\r\nContent-Type: application/octet-stream\r\nContent-Length: 0\r\n\r\n"
    );
    let closing = encode_closing_request("GET", "h", "/ps", None);
    assert_eq!(closing, b"GET /ps HTTP/1.1\r\nHost: h\r\nConnection: close\r\n\r\n");
}

#[test]
fn pipelines_repeat_the_request() {
    let (b, n, tick) = pipeline_buffers(b"ab", 200, 25);
    assert_eq!((b.len(), n, tick), (50, 25, 8));
    assert_eq!(&b[..4], b"abab");
}

#[test]
fn each_error_has_its_input() {
    let cases: [(&[u8], HttpError); 7] = [
        (b"HTTP/1.1 200 OK\r\nContent-Length: 3\r\n\r\nab", HttpError::Eof),
        (b"HTTP/1.1 200 OK\r\nbroken\r\n\r\n", HttpError::MalformedHeaderLine),
        (b"HTTP/1.1 abc OK\r\n\r\n", HttpError::MalformedStatusLine),
        (b"HTTP/1.1 200 OK\r\nContent-Length: x\r\n\r\n", HttpError::BadContentLength),
        (b"HTTP/1.1 200 OK\r\nContent-Length: 67108865\r\n\r\n", HttpError::BodyTooLarge),
        (b"HTTP/1.1 200 OK\r\n\r\n", HttpError::NoLength),
        (
            b"HTTP/1.1 200 OK\r\nTransfer-Encoding: chunked\r\n\r\n2\r\nabX\r\n",
            HttpError::MalformedChunk,
        ),
    ];
    for (raw, want) in cases {
        let mut r = raw;
        assert_eq!(
            read_response(&mut RBuf::new(512), &mut r, 512, NoLength::Error, false).err(),
            Some(want)
        );
    }
}

#[test]
fn a_line_longer_than_the_buffer_is_malformed() {
    let mut raw = b"HTTP/1.1 200 OK\r\nX-Long: ".to_vec();
    raw.extend(std::iter::repeat_n(b'a', 600));
    raw.extend_from_slice(b"\r\nContent-Length: 0\r\n\r\n");
    let mut r = raw.as_slice();
    assert_eq!(
        read_response(&mut RBuf::new(512), &mut r, 64, NoLength::Error, false).err(),
        Some(HttpError::MalformedHeaderLine)
    );
}

#[test]
fn a_response_split_anywhere_reads_the_same() {
    let raw = b"HTTP/1.1 200 OK\r\nContent-Length: 5\r\n\r\nhelloHTTP/1.1 404 Gone\r\nContent-Length: 0\r\n\r\n";
    for chunk in 1..raw.len() {
        let mut r: &[u8] = raw;
        let mut rb = RBuf::new(512);
        let a = read_response(&mut rb, &mut r, chunk, NoLength::Error, true).unwrap();
        let b = read_response(&mut rb, &mut r, chunk, NoLength::Error, true).unwrap();
        assert_eq!((a.status, a.body.as_slice()), (200, &b"hello"[..]));
        assert_eq!((b.status, b.len), (404, 0));
    }
}

#[test]
fn the_buffer_keeps_at_least_512_bytes() {
    assert_eq!(RBuf::new(16).capacity(), 512);
    assert_eq!(RBuf::new(4096).capacity(), 4096);
    let mut rb = RBuf::new(0);
    rb.append(b"HTTP/1.1 200");
    assert_eq!(rb.pending_len(), 12);
}

#[test]
fn status_codes() {
    let line = b"HTTP/1.1 503 Service Unavailable";
    assert_eq!(parse_status(line, 0, line.len()), Some(503));
    assert_eq!(parse_status(b"HTTP/1.0 200", 0, 12), Some(200));
    assert_eq!(parse_status(b"HTTP/1.1 20", 0, 11), None);
    assert_eq!(parse_status(b"HTTP/1.1 2000", 0, 13), None);
}

#[test]
fn reads_what_was_written() {
    for (code, body) in [(200u16, &b"hello"[..]), (404, b""), (500, b"x\r\n\r\ny")] {
        let mut raw = format!("HTTP/1.1 {code} OK\r\nContent-Length: {}\r\n\r\n", body.len()).into_bytes();
        raw.extend_from_slice(body);
        let written = raw.len();
        raw.extend_from_slice(b"HTTP/1.1 200 OK\r\n");
        let mut rb = RBuf::new(512);
        rb.append(&raw);
        match rb.next_response(false, NoLength::Error, true) {
            Parse::Done(r) => {
                assert_eq!((r.status, r.len, r.body.as_slice(), r.consumed), (code, body.len(), body, written));
            }
            _ => panic!("{code}"),
        }
        assert_eq!(rb.pending_len(), 17);
    }
}
