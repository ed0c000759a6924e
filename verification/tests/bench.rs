use benchcli::bench::{
    after_dial, batching, counts_as_received, deal, dial_plan, dial_target, echo_plan,
    echo_requests, echo_verdict, random_payload, rate_plan, read_buffer_size, same_bytes,
    Flight, limiter_turn, tick_period, DialStep, Dialer, EchoConfig, EchoError,
    PipelineConfig, Tally, XorShift,
};
use benchcli::http::encode_request;

fn echo_cfg(concurrency: usize, payload: usize) -> EchoConfig {
    EchoConfig {
        concurrency,
        total: 100,
        payload,
        limit: 0,
        check: false,
        ip: "127.0.0.1".to_string(),
    }
}

fn rate_cfg(concurrency: usize, send_rate: usize, payload: usize) -> PipelineConfig {
    PipelineConfig {
        concurrency,
        duration: 10_000_000_000,
        send_rate,
        batch_size: 16 * 1024,
        pipeline: 0,
        payload,
        send_limit: 0,
        check: false,
        ip: "::1".to_string(),
    }
}

#[test]
fn a_dial_proves_itself_with_a_get() {
    let d = Dialer::new("::1", 5_000_000_000, 4096);
    assert_eq!(d.request(), b"GET /echo HTTP/1.1\r\nHost: [::1]\r\n\r\n");
    assert_eq!((d.timeout(), d.rbuf_size()), (5_000_000_000, 4096));
    assert_eq!(read_buffer_size(1024), 4096);
    assert_eq!(read_buffer_size(8192), 9216);
}

#[test]
fn dial_defaults() {
    let p = dial_plan(0, 0, 4, 0, 0);
    assert_eq!((p.num, p.concurrency, p.retries, p.retry_interval), (1000, 1000, 3, 100_000_000));
    let q = dial_plan(50, 2000, 4, 5, 7);
    assert_eq!((q.num, q.concurrency, q.retries, q.retry_interval), (50, 50, 5, 7));
    let r = dial_plan(10_000, 0, 2, 1, 1);
    assert_eq!(r.concurrency, 2000);
}

#[test]
fn dials_go_round_the_addresses() {
    assert_eq!(dial_target(0, 50), 1);
    assert_eq!(dial_target(49, 50), 0);
    assert_eq!(dial_target(usize::MAX, 7), (usize::MAX % 7 + 1) % 7);
    assert!(matches!(after_dial(0, 3, true), DialStep::Connected));
    assert!(matches!(after_dial(0, 3, false), DialStep::Retry));
    assert!(matches!(after_dial(2, 3, false), DialStep::GiveUp));
    assert!(matches!(after_dial(0, 0, false), DialStep::GiveUp));
}

#[test]
fn connections_are_dealt_in_turn() {
    let groups = deal((0..7).collect::<Vec<u32>>(), 3);
    assert_eq!(groups, vec![vec![0, 3, 6], vec![1, 4], vec![2, 5]]);
    let one = deal(vec!['a', 'b'], 4);
    assert_eq!(one, vec![vec!['a'], vec!['b'], vec![], vec![]]);
}

#[test]
fn xorshift_steps() {
    let mut r = XorShift::from_seed(0, 0);
    assert_eq!(r.next(), 1_082_269_761);
    assert_eq!(r.next(), 1_152_992_998_833_853_505);
    let mut f = XorShift::from_seed(0, 0);
    let mut buf = [0u8; 12];
    f.fill(&mut buf);
    assert_eq!(buf, [65, 32, 130, 64, 0, 0, 0, 0, 65, 20, 1, 12]);
    let mut g = XorShift::from_seed(5, 3);
    let mut h = XorShift::from_seed(5, 3);
    assert_eq!(g.next(), h.next());
    let mut p = XorShift::from_seed(0, 0);
    assert_eq!(p.pick(1000), (1_082_269_761u64 % 1000) as usize);
}

#[test]
fn payloads_are_random_and_sized() {
    let a = random_payload(1000, 1);
    assert_eq!(a.len(), 1000);
    assert!(a.iter().any(|&b| b != 0));
    assert!(random_payload(0, 9).is_empty());
    let reqs = echo_requests("::1", 16, 3);
    assert_eq!(reqs.len(), 3);
    for r in &reqs {
        assert_eq!(r.body.len(), 16);
        assert_eq!(r.request, encode_request("POST", "[::1]", "/echo", Some(&r.body)));
    }
}

#[test]
fn echo_plans() {
    let p = echo_plan(10, &echo_cfg(0, 0), 4).unwrap();
    assert_eq!((p.concurrency, p.payload, p.warmup), (10, 1024, 50));
    let q = echo_plan(1_000_000, &echo_cfg(100, 64), 4).unwrap();
    assert_eq!((q.concurrency, q.payload, q.warmup), (100, 64, 2_000_000));
    assert!(echo_plan(0, &echo_cfg(5, 1), 4).is_none());
}

#[test]
fn echo_verdicts() {
    assert!(echo_verdict(200, true, b"ab", b"ab", 2, 2).is_ok());
    assert!(matches!(echo_verdict(500, true, b"ab", b"ab", 2, 2), Err(EchoError::Status(500))));
    assert!(matches!(echo_verdict(200, true, b"ax", b"ab", 2, 2), Err(EchoError::BodyMismatch)));
    assert!(echo_verdict(200, false, b"ax", b"ab", 2, 2).is_ok());
    assert!(matches!(
        echo_verdict(200, false, b"", b"ab", 1, 2),
        Err(EchoError::Length { got: 1, want: 2 })
    ));
    assert!(same_bytes(b"xyz", b"xyz") && !same_bytes(b"xyz", b"xy"));
}

#[test]
fn rate_plans_and_batches() {
    let p = rate_plan(8, &rate_cfg(0, 0, 0)).unwrap();
    assert_eq!((p.concurrency, p.send_rate, p.payload), (8, 1, 1024));
    assert!(rate_plan(0, &rate_cfg(3, 200, 1)).is_none());
    // The default 1KB payload at 200 requests a second: 10 to a 16KB write.
    let body = vec![7u8; 1024];
    let req = encode_request("POST", "127.0.0.1", "/echo", Some(&body));
    let b = batching(&req, 200, 0, 16 * 1024).unwrap();
    assert_eq!((b.batch, b.tick_rate, b.buffer.len()), (10, 20, 10 * req.len()));
    // -rr=200 -rpl=50: 50 requests a write, 4 writes a second.
    let c = batching(&req, 200, 50, 16 * 1024).unwrap();
    assert_eq!((c.batch, c.tick_rate), (50, 4));
    assert!(batching(&req, 20, 50, 16 * 1024).is_none());
    assert_eq!(tick_period(4), 250_000_000);
    assert_eq!(tick_period(3), 333_333_333);
}

#[test]
fn four_batches_in_flight_skip_a_tick() {
    let mut f = Flight::new();
    for _ in 0..3 {
        assert!(!f.skips_tick(10));
        f.wrote(10);
    }
    assert_eq!((f.sent(), f.answered()), (30, 0));
    assert!(!f.skips_tick(10));
    f.wrote(10);
    assert!(f.skips_tick(10));
    f.answer();
    assert_eq!((f.sent(), f.answered()), (40, 1));
    assert!(!f.skips_tick(10));
    assert!(counts_as_received(200, true, b"a", b"a"));
    assert!(!counts_as_received(200, true, b"b", b"a"));
    assert!(counts_as_received(200, false, b"b", b"a"));
    assert!(!counts_as_received(404, false, b"a", b"a"));
}

#[test]
fn the_tally() {
    let mut t = Tally::new();
    t.sent(10, 100);
    t.sent(10, 100);
    t.answered(true, 100);
    t.answered(false, 100);
    assert!(t.waiting());
    let r = t.result(3, 10);
    assert_eq!(
        (r.concurrency, r.batch, r.send_times, r.send_bytes, r.recv_times, r.recv_bytes),
        (3, 10, 20, 2000, 1, 100)
    );
}

#[test]
fn the_limiter_spaces_requests() {
    let a = limiter_turn(0, 1_000, 1, 4);
    assert_eq!((a.at, a.next), (1_000, 250_001_000));
    let b = limiter_turn(a.next, 2_000, 2, 4);
    assert_eq!((b.at, b.next), (250_001_000, 750_001_000));
}
