//! What the three benchmarks decide, apart from the sockets and the clock
//! they run on: the request every dial proves a connection with, how many
//! connections, tasks, retries and warmup round trips a run takes, which
//! connection each task gets, the random payloads and which of them a
//! request carries, what makes a round trip fail, and how the pipelined
//! benchmark paces its batches and counts what came back.

use vstd::prelude::*;

use crate::config::{echo_path, url_host, url_host_text};
use crate::http::{
    batch_buffers, divides, encode_request, lemma_repeat_len, pipeline_buffers, repeat, request_bytes,
};

verus! {

/// What every dial needs: the request that proves the server is serving
/// the connection, how long to wait for its answer, and how large a read
/// buffer the connection gets.
pub struct Dialer {
    request: Vec<u8>,
    timeout: u64,
    rbuf_size: usize,
}

impl Dialer {
    pub closed spec fn request_spec(&self) -> Seq<u8> {
        self.request@
    }

    pub closed spec fn timeout_spec(&self) -> u64 {
        self.timeout
    }

    pub closed spec fn rbuf_size_spec(&self) -> usize {
        self.rbuf_size
    }

    /// A dialer for the servers at `ip`: a `GET /echo` is what a new
    /// connection is proved with; `timeout` is in nanoseconds.
    pub fn new(ip: &str, timeout: u64, rbuf_size: usize) -> (d: Dialer)
        ensures
            d.request_spec() == request_bytes("GET"@, url_host_text(ip@), "/echo"@, None, false),
            d.timeout_spec() == timeout,
            d.rbuf_size_spec() == rbuf_size,
    {
        let host = url_host(ip);
        let request = encode_request("GET", host.as_str(), echo_path(), None);
        Dialer { request, timeout, rbuf_size }
    }

    /// The request a new connection is proved with.
    pub fn request(&self) -> (r: &[u8])
        ensures
            r@ == self.request_spec(),
    {
        self.request.as_slice()
    }

    /// How long a dial may take, in nanoseconds.
    pub fn timeout(&self) -> (r: u64)
        ensures
            r == self.timeout_spec(),
    {
        self.timeout
    }

    /// The read buffer a new connection gets.
    pub fn rbuf_size(&self) -> (r: usize)
        ensures
            r == self.rbuf_size_spec(),
    {
        self.rbuf_size
    }
}

/// The read buffer a connection gets: room for a whole echo response,
/// head and body, in one read, and never less than 4096 bytes.
pub fn read_buffer_size(payload: usize) -> (r: usize)
    requires
        payload + 1024 <= usize::MAX,
    ensures
        r == if payload + 1024 > 4096 {
            payload + 1024
        } else {
            4096
        },
{
    let n = payload + 1024;
    if n > 4096 {
        n
    } else {
        4096
    }
}

/// The dial tasks a machine runs when none are asked for: a thousand for
/// every processor.
pub open spec fn default_concurrency(cpus: int) -> int {
    cpus * 1000
}

/// How the connections are dialed.
pub struct DialPlan {
    /// How many connections.
    pub num: usize,
    /// How many tasks dial them.
    pub concurrency: usize,
    /// How many dials one connection gets before it counts as failed.
    pub retries: usize,
    /// The pause before each dial after the first, in nanoseconds.
    pub retry_interval: u64,
}

/// The flags' dial settings, with a zero meaning the default: a thousand
/// connections, a thousand tasks a processor (never more tasks than
/// connections), three dials, and 100 ms between them.
pub fn dial_plan(num: usize, concurrency: usize, cpus: usize, retries: usize, retry_interval: u64) -> (r: DialPlan)
    requires
        concurrency == 0 ==> cpus <= usize::MAX / 1000,
    ensures
        r.num == if num == 0 { 1000 } else { num },
        r.concurrency == ({
            let c = if concurrency == 0 { default_concurrency(cpus as int) } else { concurrency as int };
            if c < r.num { c } else { r.num as int }
        }),
        r.retries == if retries == 0 { 3 } else { retries },
        r.retry_interval == if retry_interval == 0 { 100_000_000 } else { retry_interval },
{
    let num = if num == 0 { 1000 } else { num };
    let c = if concurrency == 0 { cpus * 1000 } else { concurrency };
    let concurrency = if c < num { c } else { num };
    let retries = if retries == 0 { 3 } else { retries };
    let retry_interval = if retry_interval == 0 { 100_000_000 } else { retry_interval };
    DialPlan { num, concurrency, retries, retry_interval }
}

/// Which of the `n` benchmark addresses the `count`-th dial goes to: the
/// one after the count, round the list.
pub fn dial_target(count: usize, n: usize) -> (r: usize)
    requires
        n > 0,
    ensures
        r == (count + 1) % (n as int),
        r < n,
{
    let r = count % n;
    assert((count + 1) % (n as int) == if count % n + 1 == n {
        0
    } else {
        count % n + 1
    }) by (nonlinear_arith)
        requires
            n > 0,
            count >= 0,
    ;
    if r + 1 == n {
        0
    } else {
        r + 1
    }
}

/// What happens after a connection's `attempt`-th dial (counting from 0).
pub enum DialStep {
    /// The dial worked: the connection is kept.
    Connected,
    /// Wait the retry interval and dial again.
    Retry,
    /// That was the last dial: the connection counts as failed.
    GiveUp,
}

/// A dial that worked keeps its connection; one that failed is tried
/// again until `retries` dials have been made.
pub fn after_dial(attempt: usize, retries: usize, ok: bool) -> (r: DialStep)
    ensures
        ok ==> r is Connected,
        !ok && attempt + 1 < retries ==> r is Retry,
        !ok && attempt + 1 >= retries ==> r is GiveUp,
{
    if ok {
        DialStep::Connected
    } else if attempt < retries && retries - attempt > 1 {
        DialStep::Retry
    } else {
        DialStep::GiveUp
    }
}

/// The `k`-th of `n` items dealt out to `groups` groups in turn: item `i`
/// goes to group `i % groups`, in order.
pub open spec fn dealt<T>(items: Seq<T>, groups: int, g: int) -> Seq<T> {
    Seq::new(
        (if g < (items.len() as int) % groups {
            (items.len() as int) / groups + 1
        } else {
            (items.len() as int) / groups
        }) as nat,
        |j: int| items[j * groups + g],
    )
}

/// Deals the items out to `groups` groups in turn, as the benchmarks hand
/// their connections to their tasks: item `i` goes to group `i % groups`,
/// and each group keeps the order the items came in.
pub fn deal<T>(items: Vec<T>, groups: usize) -> (r: Vec<Vec<T>>)
    requires
        groups > 0,
    ensures
        r@.len() == groups,
        forall|g: int| 0 <= g < groups ==> (#[trigger] r@[g])@ == dealt(items@, groups as int, g),
{
    let ghost all = items@;
    let total = items.len();
    let mut out: Vec<Vec<T>> = Vec::new();
    let mut g: usize = 0;
    while g < groups
        invariant
            g <= groups,
            out@.len() == g,
            forall|h: int| 0 <= h < g ==> (#[trigger] out@[h])@.len() == 0,
        decreases groups - g,
    {
        out.push(Vec::new());
        g = g + 1;
    }
    let mut i: usize = 0;
    for item in it: items
        invariant
            all == it.seq(),
            all.len() == total,
            i == it.index(),
            out@.len() == groups,
            groups > 0,
            forall|h: int|
                0 <= h < groups ==> (#[trigger] out@[h])@ == dealt(
                    all.subrange(0, i as int),
                    groups as int,
                    h,
                ),
    {
        let g = i % groups;
        let ghost before = out@;
        let mut group = Vec::new();
        std::mem::swap(&mut group, &mut out[g]);
        group.push(item);
        std::mem::swap(&mut group, &mut out[g]);
        proof {
            let p = all.subrange(0, i as int);
            let q = all.subrange(0, i + 1);
            assert forall|h: int| 0 <= h < groups implies (#[trigger] out@[h])@ == dealt(
                q,
                groups as int,
                h,
            ) by {
                lemma_dealt_step(all, i as int, groups as int, h);
                if h != g {
                    assert(out@[h] == before[h]);
                }
            }
        }
        i = i + 1;
    }
    proof {
        assert(all.subrange(0, all.len() as int) =~= all);
    }
    out
}

/// Dealing one more item adds it to the end of its group and leaves the
/// other groups as they were.
proof fn lemma_dealt_step<T>(all: Seq<T>, i: int, groups: int, h: int)
    requires
        0 <= i < all.len(),
        groups > 0,
        0 <= h < groups,
    ensures
        dealt(all.subrange(0, i + 1), groups, h) == if h == i % groups {
            dealt(all.subrange(0, i), groups, h).push(all[i])
        } else {
            dealt(all.subrange(0, i), groups, h)
        },
{
    let p = all.subrange(0, i);
    let q = all.subrange(0, i + 1);
    let a = dealt(p, groups, h);
    let b = dealt(q, groups, h);
    assert(i == (i / groups) * groups + i % groups) by (nonlinear_arith)
        requires
            groups > 0,
    ;
    assert((i + 1) / groups == if i % groups + 1 == groups {
        i / groups + 1
    } else {
        i / groups
    }) by (nonlinear_arith)
        requires
            groups > 0,
            i >= 0,
    ;
    assert((i + 1) % groups == if i % groups + 1 == groups {
        0
    } else {
        i % groups + 1
    }) by (nonlinear_arith)
        requires
            groups > 0,
            i >= 0,
    ;
    assert forall|j: int| #![trigger a[j]] 0 <= j < a.len() implies j * groups + h < i by {
        assert(j * groups + h < i) by (nonlinear_arith)
            requires
                groups > 0,
                0 <= h < groups,
                0 <= j,
                j < (if h < i % groups { i / groups + 1 } else { i / groups }),
                i == (i / groups) * groups + i % groups,
                0 <= i % groups < groups,
        ;
    }
    if h == i % groups {
        assert(b.len() == a.len() + 1);
        assert(a.len() == i / groups);
        assert(a.len() * groups + h == i) by (nonlinear_arith)
            requires
                a.len() == i / groups,
                h == i % groups,
                i == (i / groups) * groups + i % groups,
        ;
        assert(b =~= a.push(all[i]));
    } else {
        assert(b.len() == a.len());
        assert(b =~= a);
    }
}

/// One xorshift64 step, 13, 7 and 17.
pub open spec fn xorshift(x: u64) -> u64 {
    let a = x ^ (x << 13u64);
    let b = a ^ (a >> 7u64);
    b ^ (b << 17u64)
}

/// The state after `k` steps from `s`.
pub open spec fn stream(s: u64, k: nat) -> u64
    decreases k,
{
    if k == 0 {
        s
    } else {
        xorshift(stream(s, (k - 1) as nat))
    }
}

/// Byte `j` of `v`, least significant first.
pub open spec fn le_byte(v: u64, j: int) -> u8 {
    (v >> ((8 * j) as u64)) as u8
}

/// The first `n` bytes a generator in state `s` fills a buffer with: the
/// bytes of each next state, least significant first, eight to a state.
pub open spec fn filled(s: u64, n: nat) -> Seq<u8> {
    Seq::new(n, |k: int| le_byte(stream(s, (k / 8 + 1) as nat), k % 8))
}

/// The state a generator is seeded with at `t` nanoseconds past the epoch,
/// for `salt`: never zero, so that it never sticks there.
pub open spec fn seed_state(t: u64, salt: u64) -> u64 {
    (t ^ salt.wrapping_mul(0x9E37_79B9_7F4A_7C15u64)) | 1u64
}

/// `SystemTime::elapsed` on `UNIX_EPOCH`: the time since the Unix epoch,
/// or None for a clock set before it. Nothing is promised of the reading:
/// it is the time.
#[verifier::external_body]
fn since_epoch() -> (r: Option<std::time::Duration>) {
    match std::time::UNIX_EPOCH.elapsed() {
        Ok(d) => Some(d),
        Err(_) => None,
    }
}

/// `Duration::as_nanos`: the whole nanoseconds of `d`. What they are is
/// left unsaid: the durations it is given are clock readings.
#[verifier::external_body]
fn whole_nanos(d: &std::time::Duration) -> (r: u128) {
    d.as_nanos()
}

/// The system clock as nanoseconds since the Unix epoch, the low 64 bits of
/// them (0 for a clock before the epoch).
fn clock_nanos() -> (r: u64) {
    match since_epoch() {
        Some(d) => #[verifier::truncate] (whole_nanos(&d) as u64),
        None => 0,
    }
}

/// A small, fast generator for the random payloads and for which of them
/// the next request carries.
pub struct XorShift {
    state: u64,
}

impl XorShift {
    pub closed spec fn state(&self) -> u64 {
        self.state
    }

    /// A generator seeded from the clock reading `t` and `salt`.
    pub fn from_seed(t: u64, salt: u64) -> (r: XorShift)
        ensures
            r.state() == seed_state(t, salt),
    {
        XorShift { state: (t ^ salt.wrapping_mul(0x9E37_79B9_7F4A_7C15u64)) | 1u64 }
    }

    /// A generator seeded from the clock and `salt`.
    pub fn seeded(salt: u64) -> (r: XorShift)
        ensures
            exists|t: u64| r.state() == seed_state(t, salt),
    {
        let t = clock_nanos();
        XorShift::from_seed(t, salt)
    }

    /// The next number: the next state.
    pub fn next(&mut self) -> (r: u64)
        ensures
            final(self).state() == xorshift(old(self).state()),
            r == final(self).state(),
    {
        let x = self.state;
        let a = x ^ (x << 13u64);
        let b = a ^ (a >> 7u64);
        self.state = b ^ (b << 17u64);
        self.state
    }

    /// Which of `n` things comes next.
    pub fn pick(&mut self, n: usize) -> (r: usize)
        requires
            n > 0,
        ensures
            final(self).state() == xorshift(old(self).state()),
            r == final(self).state() % (n as u64),
            r < n,
    {
        let v = self.next();
        (v % (n as u64)) as usize
    }

    /// Fills `buf` with the bytes of the next states, eight to a state,
    /// least significant first; a last, short chunk takes the low bytes of
    /// one more state.
    pub fn fill(&mut self, buf: &mut [u8])
        ensures
            final(buf)@.len() == old(buf)@.len(),
            final(buf)@ == filled(old(self).state(), old(buf)@.len()),
            final(self).state() == stream(old(self).state(), ((old(buf)@.len() + 7) / 8) as nat),
    {
        let ghost s0 = self.state;
        let ghost n = buf@.len();
        let mut v: u64 = 0;
        let mut i: usize = 0;
        while i < buf.len()
            invariant
                n == buf@.len(),
                i <= n,
                i % 8 == 0 ==> self.state == stream(s0, (i / 8) as nat),
                i % 8 != 0 ==> self.state == stream(s0, (i / 8 + 1) as nat) && v == self.state,
                forall|k: int|
                    0 <= k < i ==> buf@[k] == #[trigger] le_byte(stream(s0, (k / 8 + 1) as nat), k % 8),
            decreases n - i,
        {
            if i % 8 == 0 {
                v = self.next();
                assert(stream(s0, (i / 8 + 1) as nat) == xorshift(stream(s0, (i / 8) as nat)));
            }
            let j = (i % 8) as u64;
            buf[i] = (v >> (8 * j)) as u8;
            i = i + 1;
        }
        proof {
            assert(buf@ =~= filled(s0, n));
            if n % 8 == 0 {
                assert((n + 7) / 8 == n / 8);
            } else {
                assert((n + 7) / 8 == n / 8 + 1);
            }
        }
    }
}

/// `payload` random bytes, from a generator seeded with `salt` and the
/// clock.
pub fn random_payload(payload: usize, salt: u64) -> (r: Vec<u8>)
    ensures
        exists|t: u64| r@ == filled(#[trigger] seed_state(t, salt), payload as nat),
{
    let mut buf: Vec<u8> = Vec::new();
    let mut i: usize = 0;
    while i < payload
        invariant
            i <= payload,
            buf@.len() == i,
        decreases payload - i,
    {
        buf.push(0);
        i = i + 1;
    }
    let mut rng = XorShift::seeded(salt);
    let ghost s = rng.state();
    rng.fill(buf.as_mut_slice());
    proof {
        let t = choose|t: u64| s == seed_state(t, salt);
        assert(buf@ == filled(seed_state(t, salt), payload as nat));
    }
    buf
}

/// The echo benchmark's settings.
pub struct EchoConfig {
    pub concurrency: usize,
    pub total: usize,
    pub payload: usize,
    pub limit: usize,
    pub check: bool,
    pub ip: String,
}

/// How an echo run goes.
pub struct EchoPlan {
    /// How many tasks make the round trips.
    pub concurrency: usize,
    /// How many bytes each request carries.
    pub payload: usize,
    /// How many unmeasured round trips come first.
    pub warmup: usize,
}

/// The echo run for `conns` connections: as many tasks as asked for (a
/// thousand a processor when none are), never more than there are
/// connections; a 1024-byte payload when none is asked for; and five
/// warmup round trips a connection, two million at most. No plan when there
/// would be no task to run.
pub fn echo_plan(conns: usize, cfg: &EchoConfig, cpus: usize) -> (r: Option<EchoPlan>)
    requires
        conns <= usize::MAX / 5,
        cfg.concurrency == 0 ==> cpus <= usize::MAX / 1000,
    ensures
        ({
            let c = if cfg.concurrency == 0 {
                default_concurrency(cpus as int)
            } else {
                cfg.concurrency as int
            };
            let concurrency = if c < conns { c } else { conns as int };
            match r {
                None => concurrency == 0,
                Some(p) => {
                    &&& concurrency > 0
                    &&& p.concurrency == concurrency
                    &&& p.payload == if cfg.payload == 0 { 1024 } else { cfg.payload }
                    &&& p.warmup == if conns * 5 < 2_000_000 { conns * 5 } else { 2_000_000 }
                },
            }
        }),
{
    let c = if cfg.concurrency == 0 { cpus * 1000 } else { cfg.concurrency };
    let concurrency = if c < conns { c } else { conns };
    if concurrency == 0 {
        return None;
    }
    let payload = if cfg.payload == 0 { 1024 } else { cfg.payload };
    let w = conns * 5;
    let warmup = if w < 2_000_000 { w } else { 2_000_000 };
    Some(EchoPlan { concurrency, payload, warmup })
}

/// A payload an echo run sends, and the request that carries it.
pub struct EchoRequest {
    pub body: Vec<u8>,
    pub request: Vec<u8>,
}

/// The payloads an echo run sends, one request for each: `n` random bodies,
/// the `i`-th seeded with `i` and the clock, each POSTed to `/echo` at `ip`.
pub fn echo_requests(ip: &str, payload: usize, n: usize) -> (r: Vec<EchoRequest>)
    ensures
        r@.len() == n,
        forall|i: int|
            0 <= i < n ==> {
                let e = #[trigger] r@[i];
                &&& e.body@.len() == payload
                &&& exists|t: u64| e.body@ == filled(#[trigger] seed_state(t, i as u64), payload as nat)
                &&& e.request@ == request_bytes(
                    "POST"@,
                    url_host_text(ip@),
                    "/echo"@,
                    Some(e.body@),
                    false,
                )
            },
{
    let host = url_host(ip);
    let mut out: Vec<EchoRequest> = Vec::new();
    let mut i: usize = 0;
    while i < n
        invariant
            i <= n,
            host@ == url_host_text(ip@),
            out@.len() == i,
            forall|k: int|
                0 <= k < i ==> {
                    let e = #[trigger] out@[k];
                    &&& e.body@.len() == payload
                    &&& exists|t: u64| e.body@ == filled(#[trigger] seed_state(t, k as u64), payload as nat)
                    &&& e.request@ == request_bytes(
                        "POST"@,
                        url_host_text(ip@),
                        "/echo"@,
                        Some(e.body@),
                        false,
                    )
                },
        decreases n - i,
    {
        let body = random_payload(payload, i as u64);
        let request = encode_request("POST", host.as_str(), echo_path(), Some(body.as_slice()));
        out.push(EchoRequest { body, request });
        i = i + 1;
    }
    out
}

/// Why a round trip failed, when the server answered.
pub enum EchoError {
    /// A status other than 200.
    Status(u16),
    /// Under `-check`, a body other than the one sent.
    BodyMismatch,
    /// A body of another length than the payload.
    Length { got: usize, want: usize },
}

/// What a round trip came to: a 200 first; then, under `check`, the body
/// that was sent; then a body as long as the payload.
pub fn echo_verdict(status: u16, check: bool, got: &[u8], sent: &[u8], n: usize, payload: usize) -> (r:
    Result<(), EchoError>)
    ensures
        status != 200 ==> r == Err::<(), EchoError>(EchoError::Status(status)),
        status == 200 && check && got@ != sent@ ==> r == Err::<(), EchoError>(
            EchoError::BodyMismatch,
        ),
        status == 200 && !(check && got@ != sent@) && n != payload ==> r == Err::<(), EchoError>(
            EchoError::Length { got: n, want: payload },
        ),
        status == 200 && !(check && got@ != sent@) && n == payload ==> r is Ok,
{
    if status != 200 {
        return Err(EchoError::Status(status));
    }
    if check && !same_bytes(got, sent) {
        return Err(EchoError::BodyMismatch);
    }
    if n != payload {
        return Err(EchoError::Length { got: n, want: payload });
    }
    Ok(())
}

/// Whether two byte strings are the same.
pub fn same_bytes(a: &[u8], b: &[u8]) -> (r: bool)
    ensures
        r == (a@ == b@),
{
    if a.len() != b.len() {
        return false;
    }
    let mut i: usize = 0;
    while i < a.len()
        invariant
            a@.len() == b@.len(),
            i <= a@.len(),
            forall|k: int| 0 <= k < i ==> a@[k] == b@[k],
        decreases a@.len() - i,
    {
        if a[i] != b[i] {
            return false;
        }
        i = i + 1;
    }
    assert(a@ =~= b@);
    true
}

/// The pipelined benchmark's settings; `duration` is in nanoseconds.
pub struct PipelineConfig {
    pub concurrency: usize,
    pub duration: u64,
    pub send_rate: usize,
    pub batch_size: usize,
    pub pipeline: usize,
    pub payload: usize,
    pub send_limit: usize,
    pub check: bool,
    pub ip: String,
}

/// How a pipelined run goes.
pub struct RatePlan {
    /// How many tasks write the batches.
    pub concurrency: usize,
    /// Requests a second, on each connection.
    pub send_rate: usize,
    /// Bytes in each request's body.
    pub payload: usize,
}

/// The pipelined run for `conns` connections: as many writing tasks as
/// asked for (50000 when none are), never more than there are connections;
/// at least one request a second; a 1024-byte payload when none is asked
/// for. No plan when there would be no task to run.
pub fn rate_plan(conns: usize, cfg: &PipelineConfig) -> (r: Option<RatePlan>)
    ensures
        ({
            let c = if cfg.concurrency == 0 { 50000 } else { cfg.concurrency as int };
            let concurrency = if c < conns { c } else { conns as int };
            match r {
                None => concurrency == 0,
                Some(p) => {
                    &&& concurrency > 0
                    &&& p.concurrency == concurrency
                    &&& p.send_rate == if cfg.send_rate == 0 { 1 } else { cfg.send_rate }
                    &&& p.payload == if cfg.payload == 0 { 1024 } else { cfg.payload }
                },
            }
        }),
{
    let c = if cfg.concurrency == 0 { 50000 } else { cfg.concurrency };
    let concurrency = if c < conns { c } else { conns };
    if concurrency == 0 {
        return None;
    }
    let send_rate = if cfg.send_rate == 0 { 1 } else { cfg.send_rate };
    let payload = if cfg.payload == 0 { 1024 } else { cfg.payload };
    Some(RatePlan { concurrency, send_rate, payload })
}

/// How many seconds a pipelined run lasts: `-rd`, or 10 when that is 0.
pub fn pipeline_seconds(rate_duration: u64) -> (r: u64)
    ensures
        r == if rate_duration == 0 { 10 } else { rate_duration },
{
    if rate_duration == 0 {
        10
    } else {
        rate_duration
    }
}

/// What one write carries and how often it goes.
pub struct Batching {
    /// The requests of one write, back to back.
    pub buffer: Vec<u8>,
    /// How many requests that is.
    pub batch: usize,
    /// Writes a second.
    pub tick_rate: usize,
}

/// Whether `batch` is the number of requests of `len` bytes that a write
/// of at most `max_len` bytes carries at `rate` requests a second: as many
/// as fit, and at least one, fewer if that many would not divide the rate.
pub open spec fn fitted_batch(batch: int, len: int, rate: int, max_len: int) -> bool {
    let bound = if max_len / len > 1 {
        max_len / len
    } else {
        1
    };
    &&& 1 <= batch <= bound
    &&& batch == 1 || divides(batch, rate)
    &&& forall|b: int| batch < b <= bound ==> !#[trigger] divides(b, rate)
}

/// The batches for `request` at `send_rate` a second: `pipeline` requests
/// to a write when that is set, else as many as fit in `batch_size` bytes.
/// None when that leaves no tick to write them on.
pub fn batching(request: &[u8], send_rate: usize, pipeline: usize, batch_size: usize) -> (r: Option<
    Batching,
>)
    requires
        request@.len() > 0,
    ensures
        match r {
            Some(b) => {
                &&& b.batch > 0
                &&& b.tick_rate > 0
                &&& b.tick_rate == send_rate / b.batch
                &&& b.buffer@ == repeat(request@, b.batch as nat)
                &&& pipeline > 0 ==> b.batch == pipeline
                &&& pipeline == 0 ==> fitted_batch(
                    b.batch as int,
                    request@.len() as int,
                    send_rate as int,
                    batch_size as int,
                )
            },
            None => {
                &&& pipeline > 0 ==> send_rate / pipeline == 0
                &&& pipeline == 0 ==> exists|k: int|
                    #[trigger] fitted_batch(k, request@.len() as int, send_rate as int, batch_size as int)
                        && (send_rate as int) / k == 0
            },
        },
{
    let (buffer, batch, tick_rate) = if pipeline > 0 {
        pipeline_buffers(request, send_rate, pipeline)
    } else {
        batch_buffers(request, send_rate, batch_size)
    };
    proof {
        lemma_repeat_len(request@, batch as nat);
        assert(batch * request@.len() >= 1) by (nonlinear_arith)
            requires
                batch >= 1,
                request@.len() >= 1,
        ;
    }
    if tick_rate == 0 || buffer.len() == 0 {
        proof {
            if pipeline == 0 {
                assert(fitted_batch(batch as int, request@.len() as int, send_rate as int, batch_size as int));
            }
        }
        return None;
    }
    Some(Batching { buffer, batch, tick_rate })
}

/// The time between two writes of a connection's batches, in nanoseconds:
/// a second over the tick rate, taken as a 32-bit count.
pub fn tick_period(tick_rate: usize) -> (r: u64)
    requires
        tick_rate as u32 != 0,
    ensures
        r == 1_000_000_000int / (tick_rate as u32 as int),
{
    let n = tick_rate as u32;
    1_000_000_000u64 / (n as u64)
}

/// The most batches a connection may have unanswered before it is skipped
/// for a tick.
pub const MAX_BATCHES_IN_FLIGHT: i64 = 4;

/// One connection's requests in a pipelined run: how many were written and
/// how many responses were read back.
pub struct Flight {
    sent: u64,
    answered: u64,
}

impl View for Flight {
    type V = (int, int);

    closed spec fn view(&self) -> (int, int) {
        (self.sent as int, self.answered as int)
    }
}

/// What happens to a connection in a pipelined run: a tick, on which a
/// batch is written unless the connection skips it (and `true` when the
/// write went through), or a response read back.
pub enum FlightEvent {
    Tick(bool),
    Answer,
}

/// Whether a connection with `sent` requests written and `answered`
/// responses read back skips a tick: four batches or more unanswered.
pub open spec fn skips(f: (int, int), batch: int) -> bool {
    f.0 - f.1 >= MAX_BATCHES_IN_FLIGHT * batch
}

/// The counts after one event.
pub open spec fn flight_step(f: (int, int), e: FlightEvent, batch: int) -> (int, int) {
    match e {
        FlightEvent::Tick(wrote) => if skips(f, batch) || !wrote {
            f
        } else {
            (f.0 + batch, f.1)
        },
        FlightEvent::Answer => (f.0, f.1 + 1),
    }
}

/// The counts after `events`, from none.
pub open spec fn flight_after(events: Seq<FlightEvent>, batch: int) -> (int, int)
    decreases events.len(),
{
    if events.len() == 0 {
        (0, 0)
    } else {
        flight_step(flight_after(events.drop_last(), batch), events.last(), batch)
    }
}

/// How many ticks there are among `events`.
pub open spec fn ticks(events: Seq<FlightEvent>) -> int
    decreases events.len(),
{
    if events.len() == 0 {
        0
    } else {
        ticks(events.drop_last()) + if events.last() is Tick {
            1int
        } else {
            0int
        }
    }
}

/// Every response answers a request written before it.
pub open spec fn answers_follow_writes(events: Seq<FlightEvent>, batch: int) -> bool {
    forall|i: int|
        0 <= i < events.len() && #[trigger] events[i] is Answer ==> {
            let f = flight_after(events.take(i), batch);
            f.1 < f.0
        }
}

impl Flight {
    /// Nothing written, nothing answered.
    pub fn new() -> (r: Flight)
        ensures
            r@ == (0int, 0int),
    {
        Flight { sent: 0, answered: 0 }
    }

    /// The requests written.
    pub fn sent(&self) -> (r: u64)
        ensures
            r == self@.0,
    {
        self.sent
    }

    /// The responses read back.
    pub fn answered(&self) -> (r: u64)
        ensures
            r == self@.1,
    {
        self.answered
    }

    /// Whether the connection skips this tick: four batches of `batch`
    /// requests or more unanswered.
    pub fn skips_tick(&self, batch: usize) -> (r: bool)
        ensures
            r == skips(self@, batch as int),
    {
        (self.sent as u128) >= (self.answered as u128) + 4 * (batch as u128)
    }

    /// A batch of `batch` requests was written on a tick the connection
    /// did not skip.
    pub fn wrote(&mut self, batch: usize)
        requires
            !skips(old(self)@, batch as int),
            old(self)@.0 + batch <= u64::MAX,
        ensures
            final(self)@ == (old(self)@.0 + batch, old(self)@.1),
    {
        self.sent = self.sent + batch as u64;
    }

    /// A response was read back.
    pub fn answer(&mut self)
        requires
            old(self)@.1 < u64::MAX,
        ensures
            final(self)@ == (old(self)@.0, old(self)@.1 + 1),
    {
        self.answered = self.answered + 1;
    }
}

/// Whether a response counts as received: a 200 with, under `check`, the
/// body that was sent.
pub fn counts_as_received(status: u16, check: bool, got: &[u8], sent: &[u8]) -> (r: bool)
    ensures
        r == (status == 200 && (!check || got@ == sent@)),
{
    status == 200 && (!check || same_bytes(got, sent))
}

/// What a pipelined run measured.
pub struct PipelineResult {
    pub concurrency: usize,
    pub batch: usize,
    pub send_times: i64,
    pub send_bytes: i64,
    pub recv_times: i64,
    pub recv_bytes: i64,
}

/// The counts a pipelined run keeps as it goes: what was written, what
/// came back as sent, and every response, whatever it said.
pub struct Tally {
    pub send_times: i64,
    pub send_bytes: i64,
    pub recv_times: i64,
    pub recv_bytes: i64,
    pub answered: i64,
}

impl Tally {
    /// Nothing counted yet.
    pub fn new() -> (r: Tally)
        ensures
            r.send_times == 0 && r.send_bytes == 0 && r.recv_times == 0,
            r.recv_bytes == 0 && r.answered == 0,
    {
        Tally { send_times: 0, send_bytes: 0, recv_times: 0, recv_bytes: 0, answered: 0 }
    }

    /// A batch of `batch` requests of `payload` bytes each was written.
    pub fn sent(&mut self, batch: usize, payload: usize)
        requires
            batch * payload <= usize::MAX,
        ensures
            final(self).send_times == old(self).send_times.wrapping_add(#[verifier::truncate] (batch as i64)),
            final(self).send_bytes == old(self).send_bytes.wrapping_add(
                #[verifier::truncate] ((batch * payload) as i64),
            ),
            final(self).recv_times == old(self).recv_times,
            final(self).recv_bytes == old(self).recv_bytes,
            final(self).answered == old(self).answered,
    {
        let bytes = #[verifier::truncate] ((batch * payload) as i64);
        let times = #[verifier::truncate] (batch as i64);
        self.send_times = self.send_times.wrapping_add(times);
        self.send_bytes = self.send_bytes.wrapping_add(bytes);
    }

    /// A response came back; `received` says whether it counts, and `n` is
    /// its body's length.
    pub fn answered(&mut self, received: bool, n: usize)
        ensures
            final(self).answered == old(self).answered.wrapping_add(1),
            final(self).recv_times == if received {
                old(self).recv_times.wrapping_add(1)
            } else {
                old(self).recv_times
            },
            final(self).recv_bytes == if received {
                old(self).recv_bytes.wrapping_add(#[verifier::truncate] (n as i64))
            } else {
                old(self).recv_bytes
            },
            final(self).send_times == old(self).send_times,
            final(self).send_bytes == old(self).send_bytes,
    {
        self.answered = self.answered.wrapping_add(1);
        if received {
            self.recv_times = self.recv_times.wrapping_add(1);
            self.recv_bytes = self.recv_bytes.wrapping_add(#[verifier::truncate] (n as i64));
        }
    }

    /// Whether the run still waits for responses: fewer answered than sent.
    pub fn waiting(&self) -> (r: bool)
        ensures
            r == (self.answered < self.send_times),
    {
        self.answered < self.send_times
    }

    /// What the run measured.
    pub fn result(&self, concurrency: usize, batch: usize) -> (r: PipelineResult)
        ensures
            r.concurrency == concurrency,
            r.batch == batch,
            r.send_times == self.send_times,
            r.send_bytes == self.send_bytes,
            r.recv_times == self.recv_times,
            r.recv_bytes == self.recv_bytes,
    {
        PipelineResult {
            concurrency,
            batch,
            send_times: self.send_times,
            send_bytes: self.send_bytes,
            recv_times: self.recv_times,
            recv_bytes: self.recv_bytes,
        }
    }
}

/// The nanoseconds that `n` requests take at `per_second` a second, spaced
/// evenly.
pub open spec fn spacing(n: int, per_second: int) -> int {
    n * 1_000_000_000 / per_second
}

/// A limiter's turn: when `n` more requests may go, on the clock `now`
/// with the limiter's next free time `next` (both in nanoseconds), and the
/// next free time after them.
pub struct Turn {
    pub at: u64,
    pub next: u64,
}

/// Takes a limiter's turn for `n` requests.
pub fn limiter_turn(next: u64, now: u64, n: usize, per_second: usize) -> (r: Turn)
    requires
        per_second > 0,
        (if next < now { now } else { next }) + spacing(n as int, per_second as int) <= u64::MAX,
    ensures
        r.at == if next < now { now } else { next },
        r.next == r.at + spacing(n as int, per_second as int),
{
    let at = if next < now { now } else { next };
    proof {
        assert(n * 1_000_000_000 <= 0xffff_ffff_ffff_ffff * 1_000_000_000) by (nonlinear_arith)
            requires
                n <= 0xffff_ffff_ffff_ffff,
        ;
    }
    let d = (n as u128) * 1_000_000_000u128 / (per_second as u128);
    Turn { at, next: at + d as u64 }
}

/// A pipelined run sends every connection exactly its send rate: the
/// requests of a batch times the ticks a second make the rate, when the
/// pipeline depth is one `validate_pipeline` accepts (0, or a divisor of
/// the rate).
pub proof fn law_batches_make_the_rate(
    len: int,
    send_rate: int,
    pipeline: int,
    batch_size: int,
    batch: int,
    tick_rate: int,
)
    requires
        len > 0,
        send_rate >= 0,
        pipeline >= 0,
        batch > 0,
        tick_rate == send_rate / batch,
        pipeline > 0 ==> batch == pipeline && divides(pipeline, send_rate),
        pipeline == 0 ==> fitted_batch(batch, len, send_rate, batch_size),
    ensures
        batch * tick_rate == send_rate,
{
    if pipeline > 0 {
        assert(divides(batch, send_rate));
    } else {
        assert(fitted_batch(batch, len, send_rate, batch_size));
    }
    assert(batch == 1 || send_rate % batch == 0);
    assert(batch * (send_rate / batch) + send_rate % batch == send_rate) by (nonlinear_arith)
        requires
            batch > 0,
    ;
    if batch == 1 {
        assert(send_rate % 1 == 0);
    }
}

/// A generator that is not in state zero never gets there: seeded odd, it
/// never sticks.
pub proof fn law_xorshift_never_zero(x: u64)
    requires
        x != 0,
    ensures
        xorshift(x) != 0,
{
    assert(x != 0 ==> ((x ^ (x << 13u64)) ^ ((x ^ (x << 13u64)) >> 7u64)) ^ (((x ^ (x << 13u64))
        ^ ((x ^ (x << 13u64)) >> 7u64)) << 17u64) != 0) by (bit_vector);
}

/// A seeded generator's state is never zero.
pub proof fn law_seed_never_zero(t: u64, salt: u64)
    ensures
        seed_state(t, salt) != 0,
{
    let m = salt.wrapping_mul(0x9E37_79B9_7F4A_7C15u64);
    assert((t ^ m) | 1u64 != 0) by (bit_vector);
}

/// A number has one quotient and one remainder by `k`.
proof fn lemma_quotient_unique(k: int, a: int, b: int, g: int, r: int)
    requires
        k > 0,
        0 <= g < k,
        0 <= r < k,
        a * k + g == b * k + r,
    ensures
        a == b,
        g == r,
{
    let d = a - b;
    assert(d * k == r - g) by (nonlinear_arith)
        requires
            a * k + g == b * k + r,
            d == a - b,
    ;
    if d >= 1 {
        assert(d * k >= k) by (nonlinear_arith)
            requires
                d >= 1,
                k > 0,
        ;
    } else if d <= -1 {
        assert(d * k <= -k) by (nonlinear_arith)
            requires
                d <= -1,
                k > 0,
        ;
    }
}

/// Dealing hands every item to exactly one group, so that no connection is
/// ever wanted by two tasks: item `i` is the `i / groups`-th of group
/// `i % groups`, and no other place - the `j`-th of group `g` - holds it.
pub proof fn law_deal_each_once<T>(items: Seq<T>, groups: int, i: int, g: int, j: int)
    requires
        groups > 0,
        0 <= i < items.len(),
    ensures
        i / groups < dealt(items, groups, i % groups).len(),
        dealt(items, groups, i % groups)[i / groups] == items[i],
        0 <= g < groups && 0 <= j < dealt(items, groups, g).len() && j * groups + g == i ==> g == i
            % groups && j == i / groups,
{
    let n = items.len() as int;
    let q = i / groups;
    let r = i % groups;
    assert(i == q * groups + r && 0 <= r < groups) by (nonlinear_arith)
        requires
            groups > 0,
            q == i / groups,
            r == i % groups,
    ;
    assert(n == (n / groups) * groups + n % groups && 0 <= n % groups < groups) by (nonlinear_arith)
        requires
            groups > 0,
    ;
    assert(q < (if r < n % groups { n / groups + 1 } else { n / groups })) by (nonlinear_arith)
        requires
            groups > 0,
            0 <= i < n,
            i == q * groups + r,
            0 <= r < groups,
            n == (n / groups) * groups + n % groups,
            0 <= n % groups < groups,
            q >= 0,
    ;
    if 0 <= g < groups && 0 <= j && j * groups + g == i {
        lemma_quotient_unique(groups, j, q, g, r);
    }
}

/// A pipelined run never lets a connection run ahead of its server: over
/// any run, whatever the order of its ticks and responses (each response
/// answering a request written before it), a batch is written only with
/// fewer than four batches unanswered, so fewer than five are unanswered at
/// any time; requests are written whole batches at a time, at most one
/// batch a tick.
pub proof fn law_batches_in_flight(events: Seq<FlightEvent>, batch: int)
    requires
        batch >= 1,
        answers_follow_writes(events, batch),
    ensures
        ({
            let f = flight_after(events, batch);
            &&& 0 <= f.1 <= f.0
            &&& f.0 - f.1 < (MAX_BATCHES_IN_FLIGHT + 1) * batch
            &&& f.0 % batch == 0
            &&& f.0 <= batch * ticks(events)
        }),
    decreases events.len(),
{
    if events.len() > 0 {
        let before = events.drop_last();
        assert forall|i: int|
            0 <= i < before.len() && #[trigger] before[i] is Answer implies {
                let f = flight_after(before.take(i), batch);
                f.1 < f.0
            } by {
            assert(events[i] is Answer);
            assert(before.take(i) =~= events.take(i));
        }
        law_batches_in_flight(before, batch);
        let f = flight_after(before, batch);
        let t = ticks(before);
        match events.last() {
            FlightEvent::Tick(wrote) => {
                if !(skips(f, batch) || !wrote) {
                    assert((f.0 + batch) % batch == 0) by (nonlinear_arith)
                        requires
                            f.0 % batch == 0,
                            batch >= 1,
                    ;
                    assert(f.0 + batch <= batch * (t + 1)) by (nonlinear_arith)
                        requires
                            f.0 <= batch * t,
                    ;
                } else {
                    assert(batch * t <= batch * (t + 1)) by (nonlinear_arith)
                        requires
                            batch >= 1,
                    ;
                }
            },
            FlightEvent::Answer => {
                let last = events.len() - 1;
                assert(events[last] is Answer);
                assert(events.take(last) =~= before);
            },
        }
    }
}

} // verus!
