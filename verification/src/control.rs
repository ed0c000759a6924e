//! The control requests a run makes of a server, `/init` and `/ps`: when
//! one is tried again, what `/init` is sent, and how its answer is read.

use vstd::prelude::*;
use vstd::string::*;

use crate::procfs::{parse_i32, trim_white, trimmed};
use crate::numbers::read_i64;
use crate::text::{chars_of, decimal, push_decimal};

verus! {

/// How many times a control request is tried.
pub const CONTROL_ATTEMPTS: u32 = 4;

/// What follows a control request's `attempt`-th try (counting from 1) of
/// `attempts`.
pub enum ControlStep {
    /// A 200: the answer is the body.
    Accept,
    /// The server answered with another status: no more tries.
    Reject,
    /// The request did not get through: wait this many seconds and try
    /// again.
    Retry { backoff_secs: u64 },
    /// The request did not get through, and that was the last try.
    GiveUp,
}

/// A transport failure is tried again, after two seconds more each time; a
/// reply the server produced, a 404 included, is not.
pub fn control_step(attempt: u32, attempts: u32, status: Option<u16>) -> (r: ControlStep)
    ensures
        status == Some(200u16) ==> r is Accept,
        status matches Some(s) && s != 200 ==> r is Reject,
        status is None && attempt < attempts ==> r == (ControlStep::Retry {
            backoff_secs: (2 * attempt) as u64,
        }),
        status is None && attempt >= attempts ==> r is GiveUp,
{
    match status {
        Some(s) => if s == 200 {
            ControlStep::Accept
        } else {
            ControlStep::Reject
        },
        None => if attempt < attempts {
            ControlStep::Retry { backoff_secs: 2 * (attempt as u64) }
        } else {
            ControlStep::GiveUp
        },
    }
}

/// The body of `/init`: the sampling interval, in nanoseconds, as
/// `{"PsInterval":<n>}`.
pub fn init_body(interval_nanos: u64) -> (r: String)
    ensures
        r@ == "{\"PsInterval\":"@ + decimal(interval_nanos as nat) + "}"@,
{
    let mut s = String::new();
    s.append("{\"PsInterval\":");
    push_decimal(&mut s, interval_nanos);
    s.append("}");
    s
}

/// The pid `/init` answers with: its body, trimmed, read as an `i32`.
pub fn init_pid(answer: &str) -> (r: Option<i32>)
    ensures
        match r {
            Some(p) => parse_i32(trimmed(answer@)) == Some(p as int),
            None => parse_i32(trimmed(answer@)) is None,
        },
{
    let cs = chars_of(answer);
    let t = trim_white(&cs);
    match read_i64(&t) {
        Some(v) => if -2147483648 <= v && v <= 2147483647 {
            Some(v as i32)
        } else {
            None
        },
        None => None,
    }
}

/// What `/init` came back with.
pub enum InitReply {
    /// The pid the server answered with.
    Pid(i32),
    /// An answer that is not a pid.
    NotPid,
    /// No answer: the request failed.
    Failed,
}

/// What happened last while a run sets up its CPU and memory samples.
pub enum SetupEvent {
    /// Nothing was tried yet.
    Began,
    /// The server was looked for on this machine and sampled from here:
    /// the pid sampled, or None when that did not work.
    SampledHere(Option<i32>),
    /// `/init` asked the server to sample itself.
    InitAnswered(InitReply),
    /// Whether the pid `/init` answered with is the server on this machine.
    Checked { pid: i32, is_server: bool },
    /// Whether sampling `pid` from here, with the server's `/ps` as the
    /// fallback, started.
    SampledWithFallback { pid: i32, started: bool },
}

/// What a run does next to set up its samples.
#[derive(Debug, PartialEq, Eq, Structural)]
pub enum SetupAction {
    /// Look for the server's process on this machine and sample it here.
    SampleHere,
    /// Ask the server, over `/init`, to sample itself.
    AskInit,
    /// Check that the pid is the server's process on this machine.
    CheckPid(i32),
    /// Sample the pid here, with the server's `/ps` as the fallback.
    SampleWithFallback(i32),
    /// Done: the samples come from here, of this pid.
    UseLocal(i32),
    /// Done: the samples come from the server's `/ps`; the server's pid.
    UseRemote(i32),
    /// Done: the samples come from the server's `/ps`, which did not answer
    /// `/init` with a pid.
    GiveUp,
}

/// The next step of setting up the samples, when `want_local` says the
/// server is to be sampled from this machine where it can be: try that
/// first; else ask `/init`, and where the pid it answers with is the
/// server's here, sample it here with `/ps` as the fallback.
pub fn setup_step(want_local: bool, event: SetupEvent) -> (r: SetupAction)
    ensures
        r == match event {
            SetupEvent::Began => if want_local {
                SetupAction::SampleHere
            } else {
                SetupAction::AskInit
            },
            SetupEvent::SampledHere(Some(pid)) => SetupAction::UseLocal(pid),
            SetupEvent::SampledHere(None) => SetupAction::AskInit,
            SetupEvent::InitAnswered(InitReply::Pid(pid)) => if want_local {
                SetupAction::CheckPid(pid)
            } else {
                SetupAction::UseRemote(pid)
            },
            SetupEvent::InitAnswered(_) => SetupAction::GiveUp,
            SetupEvent::Checked { pid, is_server } => if is_server {
                SetupAction::SampleWithFallback(pid)
            } else {
                SetupAction::UseRemote(pid)
            },
            SetupEvent::SampledWithFallback { pid, started } => if started {
                SetupAction::UseLocal(pid)
            } else {
                SetupAction::UseRemote(pid)
            },
        },
{
    match event {
        SetupEvent::Began => if want_local {
            SetupAction::SampleHere
        } else {
            SetupAction::AskInit
        },
        SetupEvent::SampledHere(Some(pid)) => SetupAction::UseLocal(pid),
        SetupEvent::SampledHere(None) => SetupAction::AskInit,
        SetupEvent::InitAnswered(InitReply::Pid(pid)) => if want_local {
            SetupAction::CheckPid(pid)
        } else {
            SetupAction::UseRemote(pid)
        },
        SetupEvent::InitAnswered(_) => SetupAction::GiveUp,
        SetupEvent::Checked { pid, is_server } => if is_server {
            SetupAction::SampleWithFallback(pid)
        } else {
            SetupAction::UseRemote(pid)
        },
        SetupEvent::SampledWithFallback { pid, started } => if started {
            SetupAction::UseLocal(pid)
        } else {
            SetupAction::UseRemote(pid)
        },
    }
}

/// How many failed samples in a row stop the sampling of a process.
pub const SAMPLE_ERRORS_TO_STOP: u32 = 5;

/// After a sampling round, with `errors` failures in a row before it and
/// `sampled` saying whether this one read the process: the failures in a
/// row now (none after a success), and whether the sampling stops, which it
/// does at `SAMPLE_ERRORS_TO_STOP` failures in a row.
pub fn sample_step(errors: u32, sampled: bool) -> (r: (u32, bool))
    ensures
        r.0 == if sampled {
            0
        } else if errors < u32::MAX {
            errors + 1
        } else {
            errors as int
        },
        r.1 == (!sampled && r.0 >= SAMPLE_ERRORS_TO_STOP),
{
    if sampled {
        (0, false)
    } else {
        let e = errors.saturating_add(1);
        (e, e >= SAMPLE_ERRORS_TO_STOP)
    }
}

/// What the entries of the `mem` list of a `/ps` body hold under `rss`:
/// None where the body is not JSON; no entries where it has no `mem` list;
/// for each entry, its `rss` where that is a whole number that fits a
/// `u64`, else None.
pub uninterp spec fn ps_mem_of(body: Seq<u8>) -> Option<Seq<Option<u64>>>;

/// `serde_json::from_slice` of the body into a `serde_json::Value`, then
/// `["mem"]`, `as_array`, and for each entry `["rss"]` and `as_u64`. The
/// result is a function of the body's bytes alone, and is named.
#[verifier::external_body]
fn read_ps_mem(body: &[u8]) -> (r: Option<Vec<Option<u64>>>)
    ensures
        match r {
            Some(v) => ps_mem_of(body@) == Some(v@),
            None => ps_mem_of(body@) is None,
        },
{
    match serde_json::from_slice::<serde_json::Value>(body) {
        Ok(v) => Some(match v["mem"].as_array() {
            Some(a) => a.iter().map(|m| m["rss"].as_u64()).collect(),
            None => Vec::new(),
        }),
        Err(_) => None,
    }
}

/// The numbers among `s`, in order.
pub open spec fn present(s: Seq<Option<u64>>) -> Seq<u64>
    decreases s.len(),
{
    if s.len() == 0 {
        Seq::empty()
    } else {
        let p = present(s.drop_last());
        match s.last() {
            Some(x) => p.push(x),
            None => p,
        }
    }
}

/// The resident memory samples a `/ps` body holds, in bytes: the `rss` of
/// each entry of its `mem` list that has one, in order; None where the body
/// is not JSON.
pub fn ps_rss(body: &[u8]) -> (r: Option<Vec<u64>>)
    ensures
        match ps_mem_of(body@) {
            None => r is None,
            Some(items) => r matches Some(v) && v@ == present(items),
        },
{
    let items = match read_ps_mem(body) {
        Some(v) => v,
        None => {
            return None;
        },
    };
    let mut out: Vec<u64> = Vec::new();
    let mut i: usize = 0;
    while i < items.len()
        invariant
            i <= items@.len(),
            out@ == present(items@.take(i as int)),
        decreases items@.len() - i,
    {
        proof {
            assert(items@.take(i + 1).drop_last() =~= items@.take(i as int));
        }
        match items[i] {
            Some(x) => out.push(x),
            None => {},
        }
        i = i + 1;
    }
    proof {
        assert(items@.take(items@.len() as int) =~= items@);
    }
    Some(out)
}

} // verus!
