//! The command-line flags, by their names and with their defaults, in the
//! flag syntax the whole benchmark suite shares: `-name=value` or `-name value`, one dash or two,
//! and a bool flag on its own for true. Reading stops at the first argument
//! that is not a flag.

use vstd::prelude::*;
use vstd::string::*;

use crate::duration::{duration_nanos, duration_of};
use crate::numbers::{all_dec, lemma_dec_value_nonneg, parse_i64, parse_unsigned, read_i64, read_unsigned};
use crate::text::{chars_are, chars_of, find_char, first_of, is_text, string_of};

verus! {

/// The flags' values.
pub struct Flags {
    /// -m: the memory limit, accepted and ignored: there is no GC to limit.
    pub mem_limit: i64,
    /// -f: the framework under test.
    pub framework: String,
    /// -ip: the servers' address.
    pub ip: String,
    /// -c: how many connections to dial.
    pub num_connections: usize,
    /// -dc: how many dials run at once.
    pub dial_concurrency: usize,
    /// -dt: the dial timeout, which also bounds the first request on a
    /// connection, in nanoseconds.
    pub dial_timeout: u64,
    /// -dr: how many times a dial is tried.
    pub dial_retries: usize,
    /// -dri: the pause between dial tries, in nanoseconds.
    pub dial_retry_interval: u64,
    /// -b: the request body size, which the server echoes back.
    pub payload: usize,
    /// -check: whether each response body is compared with the request's.
    pub check_valid: bool,
    /// -pi: the resource sampling interval, in milliseconds.
    pub ps_interval_ms: u64,
    /// -ps: where the server's CPU and MEM samples come from: auto, local or
    /// remote.
    pub ps_mode: String,
    /// -tpn: whether the TPN percentiles are computed.
    pub enable_tpn: bool,
    /// -ec: how many connections BenchEcho keeps busy at once.
    pub echo_concurrency: usize,
    /// -en: how many round trips BenchEcho makes.
    pub echo_times: usize,
    /// -el: BenchEcho's limit of round trips a second, 0 for none.
    pub echo_tps_limit: usize,
    /// -ep: whether BenchEcho fetches pprof profiles.
    pub echo_pprof: bool,
    /// -epd: how many seconds BenchEcho's CPU profile covers.
    pub echo_pprof_duration: u64,
    /// -rate: whether BenchPipeline runs.
    pub rate_enabled: bool,
    /// -rc: how many tasks write BenchPipeline's requests.
    pub rate_concurrency: usize,
    /// -rd: how many seconds BenchPipeline runs.
    pub rate_duration: u64,
    /// -rr: how many requests a second each connection is sent.
    pub rate_send_rate: usize,
    /// -rbs: how many bytes of requests one write holds when -rpl is 0.
    pub rate_batch_size: usize,
    /// -rpl: how many requests one write holds; 0 takes as many as fit in
    /// -rbs bytes.
    pub rate_pipeline: i64,
    /// -rl: the limit of requests sent a second, 0 for none.
    pub rate_send_limit: usize,
    /// -rp: whether BenchPipeline fetches pprof profiles.
    pub rate_pprof: bool,
    /// -rpd: how many seconds BenchPipeline's CPU profile covers.
    pub rate_pprof_duration: u64,
    /// -r: whether the tables are asked for, which another tool makes.
    pub gen_report: bool,
    /// -preffix: what report file names start with.
    pub preffix: String,
    /// -suffix: what report file names end with.
    pub suffix: String,
    /// -sort: the report row order, "result" or "framework".
    pub report_sort: String,
}

/// The flags' values, text as characters.
pub struct FlagsView {
    pub mem_limit: i64,
    pub framework: Seq<char>,
    pub ip: Seq<char>,
    pub num_connections: usize,
    pub dial_concurrency: usize,
    pub dial_timeout: u64,
    pub dial_retries: usize,
    pub dial_retry_interval: u64,
    pub payload: usize,
    pub check_valid: bool,
    pub ps_interval_ms: u64,
    pub ps_mode: Seq<char>,
    pub enable_tpn: bool,
    pub echo_concurrency: usize,
    pub echo_times: usize,
    pub echo_tps_limit: usize,
    pub echo_pprof: bool,
    pub echo_pprof_duration: u64,
    pub rate_enabled: bool,
    pub rate_concurrency: usize,
    pub rate_duration: u64,
    pub rate_send_rate: usize,
    pub rate_batch_size: usize,
    pub rate_pipeline: i64,
    pub rate_send_limit: usize,
    pub rate_pprof: bool,
    pub rate_pprof_duration: u64,
    pub gen_report: bool,
    pub preffix: Seq<char>,
    pub suffix: Seq<char>,
    pub report_sort: Seq<char>,
}

impl View for Flags {
    type V = FlagsView;

    open spec fn view(&self) -> FlagsView {
        FlagsView {
            mem_limit: self.mem_limit,
            framework: self.framework@,
            ip: self.ip@,
            num_connections: self.num_connections,
            dial_concurrency: self.dial_concurrency,
            dial_timeout: self.dial_timeout,
            dial_retries: self.dial_retries,
            dial_retry_interval: self.dial_retry_interval,
            payload: self.payload,
            check_valid: self.check_valid,
            ps_interval_ms: self.ps_interval_ms,
            ps_mode: self.ps_mode@,
            enable_tpn: self.enable_tpn,
            echo_concurrency: self.echo_concurrency,
            echo_times: self.echo_times,
            echo_tps_limit: self.echo_tps_limit,
            echo_pprof: self.echo_pprof,
            echo_pprof_duration: self.echo_pprof_duration,
            rate_enabled: self.rate_enabled,
            rate_concurrency: self.rate_concurrency,
            rate_duration: self.rate_duration,
            rate_send_rate: self.rate_send_rate,
            rate_batch_size: self.rate_batch_size,
            rate_pipeline: self.rate_pipeline,
            rate_send_limit: self.rate_send_limit,
            rate_pprof: self.rate_pprof,
            rate_pprof_duration: self.rate_pprof_duration,
            gen_report: self.gen_report,
            preffix: self.preffix@,
            suffix: self.suffix@,
            report_sort: self.report_sort@,
        }
    }
}

/// The defaults.
pub open spec fn default_flags() -> FlagsView {
    FlagsView {
        mem_limit: 4294967296,
        framework: "nethttp"@,
        ip: "127.0.0.1"@,
        num_connections: 10000,
        dial_concurrency: 2000,
        dial_timeout: 5_000_000_000,
        dial_retries: 5,
        dial_retry_interval: 100_000_000,
        payload: 1024,
        check_valid: false,
        ps_interval_ms: 1000,
        ps_mode: "auto"@,
        enable_tpn: true,
        echo_concurrency: 10000,
        echo_times: 2000000,
        echo_tps_limit: 0,
        echo_pprof: false,
        echo_pprof_duration: 5,
        rate_enabled: false,
        rate_concurrency: 10000,
        rate_duration: 10,
        rate_send_rate: 200,
        rate_batch_size: 16384,
        rate_pipeline: 0,
        rate_send_limit: 0,
        rate_pprof: false,
        rate_pprof_duration: 5,
        gen_report: false,
        preffix: Seq::<char>::empty(),
        suffix: Seq::<char>::empty(),
        report_sort: "result"@,
    }
}

impl Default for Flags {
    fn default() -> (r: Flags)
        ensures
            r@ == default_flags(),
    {
        Flags {
            mem_limit: 4294967296,
            framework: String::from_str("nethttp"),
            ip: String::from_str("127.0.0.1"),
            num_connections: 10000,
            dial_concurrency: 2000,
            dial_timeout: 5_000_000_000,
            dial_retries: 5,
            dial_retry_interval: 100_000_000,
            payload: 1024,
            check_valid: false,
            ps_interval_ms: 1000,
            ps_mode: String::from_str("auto"),
            enable_tpn: true,
            echo_concurrency: 10000,
            echo_times: 2000000,
            echo_tps_limit: 0,
            echo_pprof: false,
            echo_pprof_duration: 5,
            rate_enabled: false,
            rate_concurrency: 10000,
            rate_duration: 10,
            rate_send_rate: 200,
            rate_batch_size: 16384,
            rate_pipeline: 0,
            rate_send_limit: 0,
            rate_pprof: false,
            rate_pprof_duration: 5,
            gen_report: false,
            preffix: String::new(),
            suffix: String::new(),
            report_sort: String::from_str("result"),
        }
    }
}

/// A bool's spellings: `1`, `t`, `T`, `true`, `TRUE`, `True`, and the same for false.
pub open spec fn parse_bool(v: Seq<char>) -> Option<bool> {
    if v == "1"@ || v == "t"@ || v == "T"@ || v == "true"@ || v == "TRUE"@ || v == "True"@ {
        Some(true)
    } else if v == "0"@ || v == "f"@ || v == "F"@ || v == "false"@ || v == "FALSE"@ || v
        == "False"@ {
        Some(false)
    } else {
        None
    }
}

/// `v` as a bool, in any of its spellings.
pub fn read_bool(v: &[char]) -> (r: Option<bool>)
    ensures
        r == parse_bool(v@),
{
    if is_text(v, "1") || is_text(v, "t") || is_text(v, "T") || is_text(v, "true") || is_text(
        v,
        "TRUE",
    ) || is_text(v, "True") {
        Some(true)
    } else if is_text(v, "0") || is_text(v, "f") || is_text(v, "F") || is_text(v, "false")
        || is_text(v, "FALSE") || is_text(v, "False") {
        Some(false)
    } else {
        None
    }
}

/// Whether a flag is a bool, which may stand alone, or takes a value.
#[derive(Clone, Copy, Debug, PartialEq, Eq, Structural)]
pub enum Kind {
    Bool,
    Value,
}

/// The kind of the flag `name`, if there is such a flag.
pub open spec fn kind_of(name: Seq<char>) -> Option<Kind> {
    if name == "nodelay"@ || name == "check"@ || name == "tpn"@ || name == "ep"@ || name == "rate"@ || name == "rp"@ || name == "r"@ {
        Some(Kind::Bool)
    } else if name == "m"@ || name == "f"@ || name == "ip"@ || name == "c"@ || name == "dc"@ || name == "dt"@ || name == "dr"@ || name == "dri"@ || name == "b"@ || name == "pi"@ || name == "ps"@ || name == "ec"@ || name == "en"@ || name == "el"@ || name == "epd"@ || name == "rc"@ || name == "rd"@ || name == "rr"@ || name == "rbs"@ || name == "rpl"@ || name == "rl"@ || name == "rpd"@ || name == "preffix"@ || name == "suffix"@ || name == "sort"@ {
        Some(Kind::Value)
    } else {
        None
    }
}

/// The kind of the flag `name`.
pub fn flag_kind(name: &[char]) -> (r: Option<Kind>)
    ensures
        r == kind_of(name@),
{
    if is_text(name, "nodelay") || is_text(name, "check") || is_text(name, "tpn") || is_text(name, "ep") || is_text(name, "rate") || is_text(name, "rp") || is_text(name, "r") {
        Some(Kind::Bool)
    } else if is_text(name, "m") || is_text(name, "f") || is_text(name, "ip") || is_text(name, "c") || is_text(name, "dc") || is_text(name, "dt") || is_text(name, "dr") || is_text(name, "dri") || is_text(name, "b") || is_text(name, "pi") || is_text(name, "ps") || is_text(name, "ec") || is_text(name, "en") || is_text(name, "el") || is_text(name, "epd") || is_text(name, "rc") || is_text(name, "rd") || is_text(name, "rr") || is_text(name, "rbs") || is_text(name, "rpl") || is_text(name, "rl") || is_text(name, "rpd") || is_text(name, "preffix") || is_text(name, "suffix") || is_text(name, "sort") {
        Some(Kind::Value)
    } else {
        None
    }
}

/// The flags after `-name=v`, or `None` when `v` is not a value that flag
/// takes.
pub open spec fn set_flag(f: FlagsView, name: Seq<char>, v: Seq<char>) -> Option<FlagsView> {
    if name == "nodelay"@ {
        match parse_bool(v) {
            Some(_) => Some(f),
            None => None,
        }
    } else if name == "m"@ {
        match parse_i64(v) {
            Some(x) => Some(FlagsView { mem_limit: x as i64, ..f }),
            None => None,
        }
    } else if name == "f"@ {
        Some(FlagsView { framework: v, ..f })
    } else if name == "ip"@ {
        Some(FlagsView { ip: v, ..f })
    } else if name == "c"@ {
        match parse_unsigned(v, usize::MAX as int) {
            Some(x) => Some(FlagsView { num_connections: x as usize, ..f }),
            None => None,
        }
    } else if name == "dc"@ {
        match parse_unsigned(v, usize::MAX as int) {
            Some(x) => Some(FlagsView { dial_concurrency: x as usize, ..f }),
            None => None,
        }
    } else if name == "dt"@ {
        match duration_nanos(v) {
            Some(x) => if x <= u64::MAX {
                Some(FlagsView { dial_timeout: x as u64, ..f })
            } else {
                None
            },
            None => None,
        }
    } else if name == "dr"@ {
        match parse_unsigned(v, usize::MAX as int) {
            Some(x) => Some(FlagsView { dial_retries: x as usize, ..f }),
            None => None,
        }
    } else if name == "dri"@ {
        match duration_nanos(v) {
            Some(x) => if x <= u64::MAX {
                Some(FlagsView { dial_retry_interval: x as u64, ..f })
            } else {
                None
            },
            None => None,
        }
    } else if name == "b"@ {
        match parse_unsigned(v, usize::MAX as int) {
            Some(x) => Some(FlagsView { payload: x as usize, ..f }),
            None => None,
        }
    } else if name == "check"@ {
        match parse_bool(v) {
            Some(x) => Some(FlagsView { check_valid: x, ..f }),
            None => None,
        }
    } else if name == "pi"@ {
        match parse_unsigned(v, u64::MAX as int) {
            Some(x) => Some(FlagsView { ps_interval_ms: x as u64, ..f }),
            None => None,
        }
    } else if name == "ps"@ {
        Some(FlagsView { ps_mode: v, ..f })
    } else if name == "tpn"@ {
        match parse_bool(v) {
            Some(x) => Some(FlagsView { enable_tpn: x, ..f }),
            None => None,
        }
    } else if name == "ec"@ {
        match parse_unsigned(v, usize::MAX as int) {
            Some(x) => Some(FlagsView { echo_concurrency: x as usize, ..f }),
            None => None,
        }
    } else if name == "en"@ {
        match parse_unsigned(v, usize::MAX as int) {
            Some(x) => Some(FlagsView { echo_times: x as usize, ..f }),
            None => None,
        }
    } else if name == "el"@ {
        match parse_unsigned(v, usize::MAX as int) {
            Some(x) => Some(FlagsView { echo_tps_limit: x as usize, ..f }),
            None => None,
        }
    } else if name == "ep"@ {
        match parse_bool(v) {
            Some(x) => Some(FlagsView { echo_pprof: x, ..f }),
            None => None,
        }
    } else if name == "epd"@ {
        match parse_unsigned(v, u64::MAX as int) {
            Some(x) => Some(FlagsView { echo_pprof_duration: x as u64, ..f }),
            None => None,
        }
    } else if name == "rate"@ {
        match parse_bool(v) {
            Some(x) => Some(FlagsView { rate_enabled: x, ..f }),
            None => None,
        }
    } else if name == "rc"@ {
        match parse_unsigned(v, usize::MAX as int) {
            Some(x) => Some(FlagsView { rate_concurrency: x as usize, ..f }),
            None => None,
        }
    } else if name == "rd"@ {
        match parse_unsigned(v, u64::MAX as int) {
            Some(x) => Some(FlagsView { rate_duration: x as u64, ..f }),
            None => None,
        }
    } else if name == "rr"@ {
        match parse_unsigned(v, usize::MAX as int) {
            Some(x) => Some(FlagsView { rate_send_rate: x as usize, ..f }),
            None => None,
        }
    } else if name == "rbs"@ {
        match parse_unsigned(v, usize::MAX as int) {
            Some(x) => Some(FlagsView { rate_batch_size: x as usize, ..f }),
            None => None,
        }
    } else if name == "rpl"@ {
        match parse_i64(v) {
            Some(x) => Some(FlagsView { rate_pipeline: x as i64, ..f }),
            None => None,
        }
    } else if name == "rl"@ {
        match parse_unsigned(v, usize::MAX as int) {
            Some(x) => Some(FlagsView { rate_send_limit: x as usize, ..f }),
            None => None,
        }
    } else if name == "rp"@ {
        match parse_bool(v) {
            Some(x) => Some(FlagsView { rate_pprof: x, ..f }),
            None => None,
        }
    } else if name == "rpd"@ {
        match parse_unsigned(v, u64::MAX as int) {
            Some(x) => Some(FlagsView { rate_pprof_duration: x as u64, ..f }),
            None => None,
        }
    } else if name == "r"@ {
        match parse_bool(v) {
            Some(x) => Some(FlagsView { gen_report: x, ..f }),
            None => None,
        }
    } else if name == "preffix"@ {
        Some(FlagsView { preffix: v, ..f })
    } else if name == "suffix"@ {
        Some(FlagsView { suffix: v, ..f })
    } else if name == "sort"@ {
        Some(FlagsView { report_sort: v, ..f })
    } else {
        None
    }
}

/// Sets the flag `name` to `v`: false, and nothing set, when `v` is not a
/// value that flag takes. `-nodelay` is checked and sets nothing.
pub fn set_flag_value(f: &mut Flags, name: &[char], v: &[char]) -> (r: bool)
    ensures
        r == set_flag(old(f)@, name@, v@) is Some,
        r ==> final(f)@ == set_flag(old(f)@, name@, v@)->0,
        !r ==> final(f)@ == old(f)@,
        name@ == "nodelay"@ ==> final(f)@ == old(f)@,
{
    if is_text(name, "nodelay") {
        read_bool(v).is_some()
    } else if is_text(name, "m") {
        match read_i64(v) {
            Some(x) => {
                f.mem_limit = x;
                true
            },
            None => false,
        }
    } else if is_text(name, "f") {
        f.framework = string_of(v);
        true
    } else if is_text(name, "ip") {
        f.ip = string_of(v);
        true
    } else if is_text(name, "c") {
        match read_unsigned(v, usize::MAX as u64) {
            Some(x) => {
                f.num_connections = x as usize;
                true
            },
            None => false,
        }
    } else if is_text(name, "dc") {
        match read_unsigned(v, usize::MAX as u64) {
            Some(x) => {
                f.dial_concurrency = x as usize;
                true
            },
            None => false,
        }
    } else if is_text(name, "dt") {
        match duration_of(v) {
            Ok(x) => {
                f.dial_timeout = x;
                true
            },
            Err(()) => false,
        }
    } else if is_text(name, "dr") {
        match read_unsigned(v, usize::MAX as u64) {
            Some(x) => {
                f.dial_retries = x as usize;
                true
            },
            None => false,
        }
    } else if is_text(name, "dri") {
        match duration_of(v) {
            Ok(x) => {
                f.dial_retry_interval = x;
                true
            },
            Err(()) => false,
        }
    } else if is_text(name, "b") {
        match read_unsigned(v, usize::MAX as u64) {
            Some(x) => {
                f.payload = x as usize;
                true
            },
            None => false,
        }
    } else if is_text(name, "check") {
        match read_bool(v) {
            Some(x) => {
                f.check_valid = x;
                true
            },
            None => false,
        }
    } else if is_text(name, "pi") {
        match read_unsigned(v, u64::MAX) {
            Some(x) => {
                f.ps_interval_ms = x;
                true
            },
            None => false,
        }
    } else if is_text(name, "ps") {
        f.ps_mode = string_of(v);
        true
    } else if is_text(name, "tpn") {
        match read_bool(v) {
            Some(x) => {
                f.enable_tpn = x;
                true
            },
            None => false,
        }
    } else if is_text(name, "ec") {
        match read_unsigned(v, usize::MAX as u64) {
            Some(x) => {
                f.echo_concurrency = x as usize;
                true
            },
            None => false,
        }
    } else if is_text(name, "en") {
        match read_unsigned(v, usize::MAX as u64) {
            Some(x) => {
                f.echo_times = x as usize;
                true
            },
            None => false,
        }
    } else if is_text(name, "el") {
        match read_unsigned(v, usize::MAX as u64) {
            Some(x) => {
                f.echo_tps_limit = x as usize;
                true
            },
            None => false,
        }
    } else if is_text(name, "ep") {
        match read_bool(v) {
            Some(x) => {
                f.echo_pprof = x;
                true
            },
            None => false,
        }
    } else if is_text(name, "epd") {
        match read_unsigned(v, u64::MAX) {
            Some(x) => {
                f.echo_pprof_duration = x;
                true
            },
            None => false,
        }
    } else if is_text(name, "rate") {
        match read_bool(v) {
            Some(x) => {
                f.rate_enabled = x;
                true
            },
            None => false,
        }
    } else if is_text(name, "rc") {
        match read_unsigned(v, usize::MAX as u64) {
            Some(x) => {
                f.rate_concurrency = x as usize;
                true
            },
            None => false,
        }
    } else if is_text(name, "rd") {
        match read_unsigned(v, u64::MAX) {
            Some(x) => {
                f.rate_duration = x;
                true
            },
            None => false,
        }
    } else if is_text(name, "rr") {
        match read_unsigned(v, usize::MAX as u64) {
            Some(x) => {
                f.rate_send_rate = x as usize;
                true
            },
            None => false,
        }
    } else if is_text(name, "rbs") {
        match read_unsigned(v, usize::MAX as u64) {
            Some(x) => {
                f.rate_batch_size = x as usize;
                true
            },
            None => false,
        }
    } else if is_text(name, "rpl") {
        match read_i64(v) {
            Some(x) => {
                f.rate_pipeline = x;
                true
            },
            None => false,
        }
    } else if is_text(name, "rl") {
        match read_unsigned(v, usize::MAX as u64) {
            Some(x) => {
                f.rate_send_limit = x as usize;
                true
            },
            None => false,
        }
    } else if is_text(name, "rp") {
        match read_bool(v) {
            Some(x) => {
                f.rate_pprof = x;
                true
            },
            None => false,
        }
    } else if is_text(name, "rpd") {
        match read_unsigned(v, u64::MAX) {
            Some(x) => {
                f.rate_pprof_duration = x;
                true
            },
            None => false,
        }
    } else if is_text(name, "r") {
        match read_bool(v) {
            Some(x) => {
                f.gen_report = x;
                true
            },
            None => false,
        }
    } else if is_text(name, "preffix") {
        f.preffix = string_of(v);
        true
    } else if is_text(name, "suffix") {
        f.suffix = string_of(v);
        true
    } else if is_text(name, "sort") {
        f.report_sort = string_of(v);
        true
    } else {
        false
    }
}

} // verus!

verus! {

/// Why the arguments were not taken.
#[derive(Debug)]
pub enum FlagError {
    /// `-h` or `-help`: the usage was asked for.
    Help,
    /// A flag that is not defined.
    Undefined(String),
    /// A value flag at the end, with no value after it.
    NeedsArgument(String),
    /// A value the flag does not take.
    InvalidValue { name: String, value: String },
    /// An argument with a dash or `=` right after its dashes.
    BadSyntax(String),
}

/// `FlagError`, text as characters.
pub enum FlagErrorView {
    Help,
    Undefined(Seq<char>),
    NeedsArgument(Seq<char>),
    InvalidValue { name: Seq<char>, value: Seq<char> },
    BadSyntax(Seq<char>),
}

impl View for FlagError {
    type V = FlagErrorView;

    open spec fn view(&self) -> FlagErrorView {
        match self {
            FlagError::Help => FlagErrorView::Help,
            FlagError::Undefined(n) => FlagErrorView::Undefined(n@),
            FlagError::NeedsArgument(n) => FlagErrorView::NeedsArgument(n@),
            FlagError::InvalidValue { name, value } => FlagErrorView::InvalidValue {
                name: name@,
                value: value@,
            },
            FlagError::BadSyntax(a) => FlagErrorView::BadSyntax(a@),
        }
    }
}

/// What an argument is in the suite's flag syntax: not a flag (it and all
/// after it are left alone; `-` on its own is one), the `--` that ends the
/// flags, a flag whose name starts with `-` or `=` (bad syntax), or a flag
/// with the text after its one or two dashes.
pub enum ArgShape {
    NotFlag,
    End,
    Bad,
    Flag(Seq<char>),
}

/// The shape of the argument `a`.
pub open spec fn arg_shape(a: Seq<char>) -> ArgShape {
    if a.len() < 2 || a[0] != '-' {
        ArgShape::NotFlag
    } else if a[1] == '-' && a.len() == 2 {
        ArgShape::End
    } else {
        let text = if a[1] == '-' {
            a.skip(2)
        } else {
            a.skip(1)
        };
        if text[0] == '-' || text[0] == '=' {
            ArgShape::Bad
        } else {
            ArgShape::Flag(text)
        }
    }
}

/// Where an argument's flag text starts, if it is a flag.
pub enum ArgStart {
    NotFlag,
    End,
    Bad,
    At(usize),
}

/// The shape of the argument `a`, with where its flag text starts.
pub fn arg_start(a: &Vec<char>) -> (r: ArgStart)
    ensures
        match r {
            ArgStart::NotFlag => arg_shape(a@) is NotFlag,
            ArgStart::End => arg_shape(a@) is End,
            ArgStart::Bad => arg_shape(a@) is Bad,
            ArgStart::At(k) => 1 <= k <= 2 && k < a@.len() && arg_shape(a@) == ArgShape::Flag(
                a@.skip(k as int),
            ),
        },
{
    if a.len() < 2 || a[0] != '-' {
        return ArgStart::NotFlag;
    }
    if a[1] == '-' && a.len() == 2 {
        return ArgStart::End;
    }
    let k: usize = if a[1] == '-' {
        2
    } else {
        1
    };
    assert(a@.skip(k as int)[0] == a@[k as int]);
    if a[k] == '-' || a[k] == '=' {
        ArgStart::Bad
    } else {
        ArgStart::At(k)
    }
}

/// The flags after the arguments from `i` on, read on top of `f`.
pub open spec fn parse_from(args: Seq<Seq<char>>, i: int, f: FlagsView) -> Result<
    FlagsView,
    FlagErrorView,
>
    decreases args.len() - i,
{
    if i < 0 || i >= args.len() {
        Ok(f)
    } else {
        match arg_shape(args[i]) {
            ArgShape::NotFlag => Ok(f),
            ArgShape::End => Ok(f),
            ArgShape::Bad => Err(FlagErrorView::BadSyntax(args[i])),
            ArgShape::Flag(text) => {
                let eq = first_of(text, '=');
                let name = text.subrange(0, eq);
                let inline = if eq < text.len() {
                    Some(text.subrange(eq + 1, text.len() as int))
                } else {
                    None
                };
                if name == "h"@ || name == "help"@ {
                    Err(FlagErrorView::Help)
                } else {
                    match kind_of(name) {
                        None => Err(FlagErrorView::Undefined(name)),
                        Some(kind) => {
                            let (value, next) = match inline {
                                Some(v) => (Some(v), i + 1),
                                None => match kind {
                                    Kind::Bool => (Some("true"@), i + 1),
                                    Kind::Value => if i + 1 < args.len() {
                                        (Some(args[i + 1]), i + 2)
                                    } else {
                                        (None, i + 1)
                                    },
                                },
                            };
                            match value {
                                None => Err(FlagErrorView::NeedsArgument(name)),
                                Some(v) => match set_flag(f, name, v) {
                                    None => Err(FlagErrorView::InvalidValue { name, value: v }),
                                    Some(f2) => parse_from(args, next, f2),
                                },
                            }
                        },
                    }
                }
            },
        }
    }
}

/// The arguments as characters.
pub open spec fn arg_chars(args: Seq<String>) -> Seq<Seq<char>> {
    args.map_values(|a: String| a@)
}

/// Reads the arguments (without the program's name) on top of the
/// defaults.
pub fn parse(args: &Vec<String>) -> (r: Result<Flags, FlagError>)
    ensures
        match r {
            Ok(f) => parse_from(arg_chars(args@), 0, default_flags()) == Ok::<
                FlagsView,
                FlagErrorView,
            >(f@),
            Err(e) => parse_from(arg_chars(args@), 0, default_flags()) == Err::<
                FlagsView,
                FlagErrorView,
            >(e@),
        },
{
    let ghost all = arg_chars(args@);
    let mut f = Flags::default();
    let mut i: usize = 0;
    while i < args.len()
        invariant
            all == arg_chars(args@),
            i <= args@.len(),
            parse_from(all, i as int, f@) == parse_from(all, 0, default_flags()),
        decreases args@.len() - i,
    {
        let a = chars_of(args[i].as_str());
        assert(a@ == all[i as int]);
        let start: usize = match arg_start(&a) {
            ArgStart::NotFlag => {
                return Ok(f);
            },
            ArgStart::End => {
                return Ok(f);
            },
            ArgStart::Bad => {
                return Err(FlagError::BadSyntax(string_of(&a)));
            },
            ArgStart::At(k) => k,
        };
        let ghost text = a@.skip(start as int);
        let eq = find_char(&a, start, a.len(), '=');
        assert(a@.subrange(start as int, a@.len() as int) =~= text);
        let name = slice_chars(&a, start, eq);
        assert(name@ =~= text.subrange(0, eq - start));
        if is_text(&name, "h") || is_text(&name, "help") {
            return Err(FlagError::Help);
        }
        let kind = match flag_kind(&name) {
            Some(k) => k,
            None => {
                return Err(FlagError::Undefined(string_of(&name)));
            },
        };
        let value: Vec<char>;
        let next: usize;
        if eq < a.len() {
            value = slice_chars(&a, eq + 1, a.len());
            assert(value@ =~= text.subrange(eq - start + 1, text.len() as int));
            next = i + 1;
        } else {
            match kind {
                Kind::Bool => {
                    value = chars_of("true");
                    next = i + 1;
                },
                Kind::Value => {
                    if i + 1 < args.len() {
                        value = chars_of(args[i + 1].as_str());
                        assert(value@ == all[i + 1]);
                        next = i + 2;
                    } else {
                        return Err(FlagError::NeedsArgument(string_of(&name)));
                    }
                },
            }
        }
        if !set_flag_value(&mut f, &name, &value) {
            return Err(FlagError::InvalidValue { name: string_of(&name), value: string_of(&value) });
        }
        i = next;
    }
    Ok(f)
}

/// `cs[b..e]`.
pub fn slice_chars(cs: &[char], b: usize, e: usize) -> (r: Vec<char>)
    requires
        b <= e <= cs@.len(),
    ensures
        r@ == cs@.subrange(b as int, e as int),
{
    let mut out: Vec<char> = Vec::new();
    let mut i: usize = b;
    while i < e
        invariant
            b <= i <= e <= cs@.len(),
            out@ == cs@.subrange(b as int, i as int),
        decreases e - i,
    {
        out.push(cs[i]);
        i = i + 1;
        assert(out@ =~= cs@.subrange(b as int, i as int));
    }
    out
}


/// A number read from a flag's value is in its type's range.
proof fn lemma_parsed_in_range(v: Seq<char>)
    ensures
        parse_i64(v) matches Some(x) ==> i64::MIN <= x <= i64::MAX,
        parse_unsigned(v, usize::MAX as int) matches Some(x) ==> 0 <= x <= usize::MAX,
        parse_unsigned(v, u64::MAX as int) matches Some(x) ==> 0 <= x <= u64::MAX,
{
    let d = if v.len() > 0 && v[0] == '+' {
        v.skip(1)
    } else {
        v
    };
    if d.len() > 0 && all_dec(d) {
        lemma_dec_value_nonneg(d);
    }
    if v.len() > 0 && v[0] == '-' {
        let e = v.skip(1);
        if e.len() > 0 && all_dec(e) {
            lemma_dec_value_nonneg(e);
        }
    }
}


/// `-m` sets `mem_limit`.
proof fn lemma_flag_mem_limit(f: FlagsView, v: Seq<char>)
    ensures
        set_flag(f, "m"@, v) is Some <==> parse_i64(v) is Some,
        set_flag(f, "m"@, v) matches Some(g) ==> g == (FlagsView { mem_limit: g.mem_limit, ..f }) && parse_i64(v) == Some(g.mem_limit as int),
{
    lemma_parsed_in_range(v);
    reveal_strlit("nodelay");
    reveal_strlit("m");
    assert("m"@.len() != "nodelay"@.len());
    assert(set_flag(f, "m"@, v) is Some <==> parse_i64(v) is Some);
    assert(set_flag(f, "m"@, v) matches Some(g) ==> g == (FlagsView { mem_limit: g.mem_limit, ..f }) && parse_i64(v) == Some(g.mem_limit as int));
}

/// `-f` sets `framework`.
proof fn lemma_flag_framework(f: FlagsView, v: Seq<char>)
    ensures
        set_flag(f, "f"@, v) is Some <==> true,
        set_flag(f, "f"@, v) matches Some(g) ==> g == (FlagsView { framework: g.framework, ..f }) && g.framework == v,
{
    reveal_strlit("nodelay");
    reveal_strlit("m");
    reveal_strlit("f");
    assert("f"@.len() != "nodelay"@.len());
    assert("f"@[0] != "m"@[0]);
    assert(set_flag(f, "f"@, v) is Some <==> true);
    assert(set_flag(f, "f"@, v) matches Some(g) ==> g == (FlagsView { framework: g.framework, ..f }) && g.framework == v);
}

/// `-ip` sets `ip`.
proof fn lemma_flag_ip(f: FlagsView, v: Seq<char>)
    ensures
        set_flag(f, "ip"@, v) is Some <==> true,
        set_flag(f, "ip"@, v) matches Some(g) ==> g == (FlagsView { ip: g.ip, ..f }) && g.ip == v,
{
    lemma_parsed_in_range(v);
    reveal_strlit("nodelay");
    reveal_strlit("m");
    reveal_strlit("f");
    reveal_strlit("ip");
    assert("ip"@.len() != "nodelay"@.len());
    assert("ip"@.len() != "m"@.len());
    assert("ip"@.len() != "f"@.len());
    assert(set_flag(f, "ip"@, v) is Some <==> true);
    assert(set_flag(f, "ip"@, v) matches Some(g) ==> g == (FlagsView { ip: g.ip, ..f }) && g.ip == v);
}

/// `-c` sets `num_connections`.
proof fn lemma_flag_num_connections(f: FlagsView, v: Seq<char>)
    ensures
        set_flag(f, "c"@, v) is Some <==> parse_unsigned(v, usize::MAX as int) is Some,
        set_flag(f, "c"@, v) matches Some(g) ==> g == (FlagsView { num_connections: g.num_connections, ..f }) && parse_unsigned(v, usize::MAX as int) == Some(g.num_connections as int),
{
    lemma_parsed_in_range(v);
    reveal_strlit("nodelay");
    reveal_strlit("m");
    reveal_strlit("f");
    reveal_strlit("ip");
    reveal_strlit("c");
    assert("c"@.len() != "nodelay"@.len());
    assert("c"@[0] != "m"@[0]);
    assert("c"@[0] != "f"@[0]);
    assert("c"@.len() != "ip"@.len());
    assert(set_flag(f, "c"@, v) is Some <==> parse_unsigned(v, usize::MAX as int) is Some);
    assert(set_flag(f, "c"@, v) matches Some(g) ==> g == (FlagsView { num_connections: g.num_connections, ..f }) && parse_unsigned(v, usize::MAX as int) == Some(g.num_connections as int));
}

/// `-dc` sets `dial_concurrency`.
proof fn lemma_flag_dial_concurrency(f: FlagsView, v: Seq<char>)
    ensures
        set_flag(f, "dc"@, v) is Some <==> parse_unsigned(v, usize::MAX as int) is Some,
        set_flag(f, "dc"@, v) matches Some(g) ==> g == (FlagsView { dial_concurrency: g.dial_concurrency, ..f }) && parse_unsigned(v, usize::MAX as int) == Some(g.dial_concurrency as int),
{
    lemma_parsed_in_range(v);
    reveal_strlit("nodelay");
    reveal_strlit("m");
    reveal_strlit("f");
    reveal_strlit("ip");
    reveal_strlit("c");
    reveal_strlit("dc");
    assert("dc"@.len() != "nodelay"@.len());
    assert("dc"@.len() != "m"@.len());
    assert("dc"@.len() != "f"@.len());
    assert("dc"@[0] != "ip"@[0]);
    assert("dc"@.len() != "c"@.len());
    assert(set_flag(f, "dc"@, v) is Some <==> parse_unsigned(v, usize::MAX as int) is Some);
    assert(set_flag(f, "dc"@, v) matches Some(g) ==> g == (FlagsView { dial_concurrency: g.dial_concurrency, ..f }) && parse_unsigned(v, usize::MAX as int) == Some(g.dial_concurrency as int));
}

/// `-dt` sets `dial_timeout`.
proof fn lemma_flag_dial_timeout(f: FlagsView, v: Seq<char>)
    ensures
        set_flag(f, "dt"@, v) is Some <==> (duration_nanos(v) matches Some(x) && x <= u64::MAX),
        set_flag(f, "dt"@, v) matches Some(g) ==> g == (FlagsView { dial_timeout: g.dial_timeout, ..f }) && duration_nanos(v) == Some(g.dial_timeout as int),
{
    lemma_parsed_in_range(v);
    reveal_strlit("nodelay");
    reveal_strlit("m");
    reveal_strlit("f");
    reveal_strlit("ip");
    reveal_strlit("c");
    reveal_strlit("dc");
    reveal_strlit("dt");
    assert("dt"@.len() != "nodelay"@.len());
    assert("dt"@.len() != "m"@.len());
    assert("dt"@.len() != "f"@.len());
    assert("dt"@[0] != "ip"@[0]);
    assert("dt"@.len() != "c"@.len());
    assert("dt"@[1] != "dc"@[1]);
    crate::duration::lemma_terms_nonneg(v, 0);
    assert(set_flag(f, "dt"@, v) is Some <==> (duration_nanos(v) matches Some(x) && x <= u64::MAX));
    assert(set_flag(f, "dt"@, v) matches Some(g) ==> g == (FlagsView { dial_timeout: g.dial_timeout, ..f }) && duration_nanos(v) == Some(g.dial_timeout as int));
}

/// `-dr` sets `dial_retries`.
proof fn lemma_flag_dial_retries(f: FlagsView, v: Seq<char>)
    ensures
        set_flag(f, "dr"@, v) is Some <==> parse_unsigned(v, usize::MAX as int) is Some,
        set_flag(f, "dr"@, v) matches Some(g) ==> g == (FlagsView { dial_retries: g.dial_retries, ..f }) && parse_unsigned(v, usize::MAX as int) == Some(g.dial_retries as int),
{
    lemma_parsed_in_range(v);
    reveal_strlit("nodelay");
    reveal_strlit("m");
    reveal_strlit("f");
    reveal_strlit("ip");
    reveal_strlit("c");
    reveal_strlit("dc");
    reveal_strlit("dt");
    reveal_strlit("dr");
    assert("dr"@.len() != "nodelay"@.len());
    assert("dr"@.len() != "m"@.len());
    assert("dr"@.len() != "f"@.len());
    assert("dr"@[0] != "ip"@[0]);
    assert("dr"@.len() != "c"@.len());
    assert("dr"@[1] != "dc"@[1]);
    assert("dr"@[1] != "dt"@[1]);
    assert(set_flag(f, "dr"@, v) is Some <==> parse_unsigned(v, usize::MAX as int) is Some);
    assert(set_flag(f, "dr"@, v) matches Some(g) ==> g == (FlagsView { dial_retries: g.dial_retries, ..f }) && parse_unsigned(v, usize::MAX as int) == Some(g.dial_retries as int));
}

/// `-dri` sets `dial_retry_interval`.
proof fn lemma_flag_dial_retry_interval(f: FlagsView, v: Seq<char>)
    ensures
        set_flag(f, "dri"@, v) is Some <==> (duration_nanos(v) matches Some(x) && x <= u64::MAX),
        set_flag(f, "dri"@, v) matches Some(g) ==> g == (FlagsView { dial_retry_interval: g.dial_retry_interval, ..f }) && duration_nanos(v) == Some(g.dial_retry_interval as int),
{
    lemma_parsed_in_range(v);
    reveal_strlit("nodelay");
    reveal_strlit("m");
    reveal_strlit("f");
    reveal_strlit("ip");
    reveal_strlit("c");
    reveal_strlit("dc");
    reveal_strlit("dt");
    reveal_strlit("dr");
    reveal_strlit("dri");
    assert("dri"@.len() != "nodelay"@.len());
    assert("dri"@.len() != "m"@.len());
    assert("dri"@.len() != "f"@.len());
    assert("dri"@.len() != "ip"@.len());
    assert("dri"@.len() != "c"@.len());
    assert("dri"@.len() != "dc"@.len());
    assert("dri"@.len() != "dt"@.len());
    assert("dri"@.len() != "dr"@.len());
    crate::duration::lemma_terms_nonneg(v, 0);
    assert(set_flag(f, "dri"@, v) is Some <==> (duration_nanos(v) matches Some(x) && x <= u64::MAX));
    assert(set_flag(f, "dri"@, v) matches Some(g) ==> g == (FlagsView { dial_retry_interval: g.dial_retry_interval, ..f }) && duration_nanos(v) == Some(g.dial_retry_interval as int));
}

/// `-b` sets `payload`.
proof fn lemma_flag_payload(f: FlagsView, v: Seq<char>)
    ensures
        set_flag(f, "b"@, v) is Some <==> parse_unsigned(v, usize::MAX as int) is Some,
        set_flag(f, "b"@, v) matches Some(g) ==> g == (FlagsView { payload: g.payload, ..f }) && parse_unsigned(v, usize::MAX as int) == Some(g.payload as int),
{
    lemma_parsed_in_range(v);
    reveal_strlit("nodelay");
    reveal_strlit("m");
    reveal_strlit("f");
    reveal_strlit("ip");
    reveal_strlit("c");
    reveal_strlit("dc");
    reveal_strlit("dt");
    reveal_strlit("dr");
    reveal_strlit("dri");
    reveal_strlit("b");
    assert("b"@.len() != "nodelay"@.len());
    assert("b"@[0] != "m"@[0]);
    assert("b"@[0] != "f"@[0]);
    assert("b"@.len() != "ip"@.len());
    assert("b"@[0] != "c"@[0]);
    assert("b"@.len() != "dc"@.len());
    assert("b"@.len() != "dt"@.len());
    assert("b"@.len() != "dr"@.len());
    assert("b"@.len() != "dri"@.len());
    assert(set_flag(f, "b"@, v) is Some <==> parse_unsigned(v, usize::MAX as int) is Some);
    assert(set_flag(f, "b"@, v) matches Some(g) ==> g == (FlagsView { payload: g.payload, ..f }) && parse_unsigned(v, usize::MAX as int) == Some(g.payload as int));
}

/// `-check` sets `check_valid`.
proof fn lemma_flag_check_valid(f: FlagsView, v: Seq<char>)
    ensures
        set_flag(f, "check"@, v) is Some <==> parse_bool(v) is Some,
        set_flag(f, "check"@, v) matches Some(g) ==> g == (FlagsView { check_valid: g.check_valid, ..f }) && parse_bool(v) == Some(g.check_valid),
{
    lemma_parsed_in_range(v);
    reveal_strlit("nodelay");
    reveal_strlit("m");
    reveal_strlit("f");
    reveal_strlit("ip");
    reveal_strlit("c");
    reveal_strlit("dc");
    reveal_strlit("dt");
    reveal_strlit("dr");
    reveal_strlit("dri");
    reveal_strlit("b");
    reveal_strlit("check");
    assert("check"@.len() != "nodelay"@.len());
    assert("check"@.len() != "m"@.len());
    assert("check"@.len() != "f"@.len());
    assert("check"@.len() != "ip"@.len());
    assert("check"@.len() != "c"@.len());
    assert("check"@.len() != "dc"@.len());
    assert("check"@.len() != "dt"@.len());
    assert("check"@.len() != "dr"@.len());
    assert("check"@.len() != "dri"@.len());
    assert("check"@.len() != "b"@.len());
    assert(set_flag(f, "check"@, v) is Some <==> parse_bool(v) is Some);
    assert(set_flag(f, "check"@, v) matches Some(g) ==> g == (FlagsView { check_valid: g.check_valid, ..f }) && parse_bool(v) == Some(g.check_valid));
}

/// `-pi` sets `ps_interval_ms`.
proof fn lemma_flag_ps_interval_ms(f: FlagsView, v: Seq<char>)
    ensures
        set_flag(f, "pi"@, v) is Some <==> parse_unsigned(v, u64::MAX as int) is Some,
        set_flag(f, "pi"@, v) matches Some(g) ==> g == (FlagsView { ps_interval_ms: g.ps_interval_ms, ..f }) && parse_unsigned(v, u64::MAX as int) == Some(g.ps_interval_ms as int),
{
    lemma_parsed_in_range(v);
    reveal_strlit("nodelay");
    reveal_strlit("m");
    reveal_strlit("f");
    reveal_strlit("ip");
    reveal_strlit("c");
    reveal_strlit("dc");
    reveal_strlit("dt");
    reveal_strlit("dr");
    reveal_strlit("dri");
    reveal_strlit("b");
    reveal_strlit("check");
    reveal_strlit("pi");
    assert("pi"@.len() != "nodelay"@.len());
    assert("pi"@.len() != "m"@.len());
    assert("pi"@.len() != "f"@.len());
    assert("pi"@[0] != "ip"@[0]);
    assert("pi"@.len() != "c"@.len());
    assert("pi"@[0] != "dc"@[0]);
    assert("pi"@[0] != "dt"@[0]);
    assert("pi"@[0] != "dr"@[0]);
    assert("pi"@.len() != "dri"@.len());
    assert("pi"@.len() != "b"@.len());
    assert("pi"@.len() != "check"@.len());
    assert(set_flag(f, "pi"@, v) is Some <==> parse_unsigned(v, u64::MAX as int) is Some);
    assert(set_flag(f, "pi"@, v) matches Some(g) ==> g == (FlagsView { ps_interval_ms: g.ps_interval_ms, ..f }) && parse_unsigned(v, u64::MAX as int) == Some(g.ps_interval_ms as int));
}

/// `-ps` sets `ps_mode`.
proof fn lemma_flag_ps_mode(f: FlagsView, v: Seq<char>)
    ensures
        set_flag(f, "ps"@, v) is Some <==> true,
        set_flag(f, "ps"@, v) matches Some(g) ==> g == (FlagsView { ps_mode: g.ps_mode, ..f }) && g.ps_mode == v,
{
    lemma_parsed_in_range(v);
    reveal_strlit("nodelay");
    reveal_strlit("m");
    reveal_strlit("f");
    reveal_strlit("ip");
    reveal_strlit("c");
    reveal_strlit("dc");
    reveal_strlit("dt");
    reveal_strlit("dr");
    reveal_strlit("dri");
    reveal_strlit("b");
    reveal_strlit("check");
    reveal_strlit("pi");
    reveal_strlit("ps");
    assert("ps"@.len() != "nodelay"@.len());
    assert("ps"@.len() != "m"@.len());
    assert("ps"@.len() != "f"@.len());
    assert("ps"@[0] != "ip"@[0]);
    assert("ps"@.len() != "c"@.len());
    assert("ps"@[0] != "dc"@[0]);
    assert("ps"@[0] != "dt"@[0]);
    assert("ps"@[0] != "dr"@[0]);
    assert("ps"@.len() != "dri"@.len());
    assert("ps"@.len() != "b"@.len());
    assert("ps"@.len() != "check"@.len());
    assert("ps"@[1] != "pi"@[1]);
    assert(set_flag(f, "ps"@, v) is Some <==> true);
    assert(set_flag(f, "ps"@, v) matches Some(g) ==> g == (FlagsView { ps_mode: g.ps_mode, ..f }) && g.ps_mode == v);
}

/// `-tpn` sets `enable_tpn`.
proof fn lemma_flag_enable_tpn(f: FlagsView, v: Seq<char>)
    ensures
        set_flag(f, "tpn"@, v) is Some <==> parse_bool(v) is Some,
        set_flag(f, "tpn"@, v) matches Some(g) ==> g == (FlagsView { enable_tpn: g.enable_tpn, ..f }) && parse_bool(v) == Some(g.enable_tpn),
{
    lemma_parsed_in_range(v);
    reveal_strlit("nodelay");
    reveal_strlit("m");
    reveal_strlit("f");
    reveal_strlit("ip");
    reveal_strlit("c");
    reveal_strlit("dc");
    reveal_strlit("dt");
    reveal_strlit("dr");
    reveal_strlit("dri");
    reveal_strlit("b");
    reveal_strlit("check");
    reveal_strlit("pi");
    reveal_strlit("ps");
    reveal_strlit("tpn");
    assert("tpn"@.len() != "nodelay"@.len());
    assert("tpn"@.len() != "m"@.len());
    assert("tpn"@.len() != "f"@.len());
    assert("tpn"@.len() != "ip"@.len());
    assert("tpn"@.len() != "c"@.len());
    assert("tpn"@.len() != "dc"@.len());
    assert("tpn"@.len() != "dt"@.len());
    assert("tpn"@.len() != "dr"@.len());
    assert("tpn"@[0] != "dri"@[0]);
    assert("tpn"@.len() != "b"@.len());
    assert("tpn"@.len() != "check"@.len());
    assert("tpn"@.len() != "pi"@.len());
    assert("tpn"@.len() != "ps"@.len());
    assert(set_flag(f, "tpn"@, v) is Some <==> parse_bool(v) is Some);
    assert(set_flag(f, "tpn"@, v) matches Some(g) ==> g == (FlagsView { enable_tpn: g.enable_tpn, ..f }) && parse_bool(v) == Some(g.enable_tpn));
}

/// `-ec` sets `echo_concurrency`.
proof fn lemma_flag_echo_concurrency(f: FlagsView, v: Seq<char>)
    ensures
        set_flag(f, "ec"@, v) is Some <==> parse_unsigned(v, usize::MAX as int) is Some,
        set_flag(f, "ec"@, v) matches Some(g) ==> g == (FlagsView { echo_concurrency: g.echo_concurrency, ..f }) && parse_unsigned(v, usize::MAX as int) == Some(g.echo_concurrency as int),
{
    lemma_parsed_in_range(v);
    reveal_strlit("nodelay");
    reveal_strlit("m");
    reveal_strlit("f");
    reveal_strlit("ip");
    reveal_strlit("c");
    reveal_strlit("dc");
    reveal_strlit("dt");
    reveal_strlit("dr");
    reveal_strlit("dri");
    reveal_strlit("b");
    reveal_strlit("check");
    reveal_strlit("pi");
    reveal_strlit("ps");
    reveal_strlit("tpn");
    reveal_strlit("ec");
    assert("ec"@.len() != "nodelay"@.len());
    assert("ec"@.len() != "m"@.len());
    assert("ec"@.len() != "f"@.len());
    assert("ec"@[0] != "ip"@[0]);
    assert("ec"@.len() != "c"@.len());
    assert("ec"@[0] != "dc"@[0]);
    assert("ec"@[0] != "dt"@[0]);
    assert("ec"@[0] != "dr"@[0]);
    assert("ec"@.len() != "dri"@.len());
    assert("ec"@.len() != "b"@.len());
    assert("ec"@.len() != "check"@.len());
    assert("ec"@[0] != "pi"@[0]);
    assert("ec"@[0] != "ps"@[0]);
    assert("ec"@.len() != "tpn"@.len());
    assert(set_flag(f, "ec"@, v) is Some <==> parse_unsigned(v, usize::MAX as int) is Some);
    assert(set_flag(f, "ec"@, v) matches Some(g) ==> g == (FlagsView { echo_concurrency: g.echo_concurrency, ..f }) && parse_unsigned(v, usize::MAX as int) == Some(g.echo_concurrency as int));
}

/// `-en` sets `echo_times`.
proof fn lemma_flag_echo_times(f: FlagsView, v: Seq<char>)
    ensures
        set_flag(f, "en"@, v) is Some <==> parse_unsigned(v, usize::MAX as int) is Some,
        set_flag(f, "en"@, v) matches Some(g) ==> g == (FlagsView { echo_times: g.echo_times, ..f }) && parse_unsigned(v, usize::MAX as int) == Some(g.echo_times as int),
{
    lemma_parsed_in_range(v);
    reveal_strlit("nodelay");
    reveal_strlit("m");
    reveal_strlit("f");
    reveal_strlit("ip");
    reveal_strlit("c");
    reveal_strlit("dc");
    reveal_strlit("dt");
    reveal_strlit("dr");
    reveal_strlit("dri");
    reveal_strlit("b");
    reveal_strlit("check");
    reveal_strlit("pi");
    reveal_strlit("ps");
    reveal_strlit("tpn");
    reveal_strlit("ec");
    reveal_strlit("en");
    assert("en"@.len() != "nodelay"@.len());
    assert("en"@.len() != "m"@.len());
    assert("en"@.len() != "f"@.len());
    assert("en"@[0] != "ip"@[0]);
    assert("en"@.len() != "c"@.len());
    assert("en"@[0] != "dc"@[0]);
    assert("en"@[0] != "dt"@[0]);
    assert("en"@[0] != "dr"@[0]);
    assert("en"@.len() != "dri"@.len());
    assert("en"@.len() != "b"@.len());
    assert("en"@.len() != "check"@.len());
    assert("en"@[0] != "pi"@[0]);
    assert("en"@[0] != "ps"@[0]);
    assert("en"@.len() != "tpn"@.len());
    assert("en"@[1] != "ec"@[1]);
    assert(set_flag(f, "en"@, v) is Some <==> parse_unsigned(v, usize::MAX as int) is Some);
    assert(set_flag(f, "en"@, v) matches Some(g) ==> g == (FlagsView { echo_times: g.echo_times, ..f }) && parse_unsigned(v, usize::MAX as int) == Some(g.echo_times as int));
}

/// `-el` sets `echo_tps_limit`.
proof fn lemma_flag_echo_tps_limit(f: FlagsView, v: Seq<char>)
    ensures
        set_flag(f, "el"@, v) is Some <==> parse_unsigned(v, usize::MAX as int) is Some,
        set_flag(f, "el"@, v) matches Some(g) ==> g == (FlagsView { echo_tps_limit: g.echo_tps_limit, ..f }) && parse_unsigned(v, usize::MAX as int) == Some(g.echo_tps_limit as int),
{
    lemma_parsed_in_range(v);
    reveal_strlit("nodelay");
    reveal_strlit("m");
    reveal_strlit("f");
    reveal_strlit("ip");
    reveal_strlit("c");
    reveal_strlit("dc");
    reveal_strlit("dt");
    reveal_strlit("dr");
    reveal_strlit("dri");
    reveal_strlit("b");
    reveal_strlit("check");
    reveal_strlit("pi");
    reveal_strlit("ps");
    reveal_strlit("tpn");
    reveal_strlit("ec");
    reveal_strlit("en");
    reveal_strlit("el");
    assert("el"@.len() != "nodelay"@.len());
    assert("el"@.len() != "m"@.len());
    assert("el"@.len() != "f"@.len());
    assert("el"@[0] != "ip"@[0]);
    assert("el"@.len() != "c"@.len());
    assert("el"@[0] != "dc"@[0]);
    assert("el"@[0] != "dt"@[0]);
    assert("el"@[0] != "dr"@[0]);
    assert("el"@.len() != "dri"@.len());
    assert("el"@.len() != "b"@.len());
    assert("el"@.len() != "check"@.len());
    assert("el"@[0] != "pi"@[0]);
    assert("el"@[0] != "ps"@[0]);
    assert("el"@.len() != "tpn"@.len());
    assert("el"@[1] != "ec"@[1]);
    assert("el"@[1] != "en"@[1]);
    assert(set_flag(f, "el"@, v) is Some <==> parse_unsigned(v, usize::MAX as int) is Some);
    assert(set_flag(f, "el"@, v) matches Some(g) ==> g == (FlagsView { echo_tps_limit: g.echo_tps_limit, ..f }) && parse_unsigned(v, usize::MAX as int) == Some(g.echo_tps_limit as int));
}

/// `-ep` sets `echo_pprof`.
proof fn lemma_flag_echo_pprof(f: FlagsView, v: Seq<char>)
    ensures
        set_flag(f, "ep"@, v) is Some <==> parse_bool(v) is Some,
        set_flag(f, "ep"@, v) matches Some(g) ==> g == (FlagsView { echo_pprof: g.echo_pprof, ..f }) && parse_bool(v) == Some(g.echo_pprof),
{
    lemma_parsed_in_range(v);
    reveal_strlit("nodelay");
    reveal_strlit("m");
    reveal_strlit("f");
    reveal_strlit("ip");
    reveal_strlit("c");
    reveal_strlit("dc");
    reveal_strlit("dt");
    reveal_strlit("dr");
    reveal_strlit("dri");
    reveal_strlit("b");
    reveal_strlit("check");
    reveal_strlit("pi");
    reveal_strlit("ps");
    reveal_strlit("tpn");
    reveal_strlit("ec");
    reveal_strlit("en");
    reveal_strlit("el");
    reveal_strlit("ep");
    assert("ep"@.len() != "nodelay"@.len());
    assert("ep"@.len() != "m"@.len());
    assert("ep"@.len() != "f"@.len());
    assert("ep"@[0] != "ip"@[0]);
    assert("ep"@.len() != "c"@.len());
    assert("ep"@[0] != "dc"@[0]);
    assert("ep"@[0] != "dt"@[0]);
    assert("ep"@[0] != "dr"@[0]);
    assert("ep"@.len() != "dri"@.len());
    assert("ep"@.len() != "b"@.len());
    assert("ep"@.len() != "check"@.len());
    assert("ep"@[0] != "pi"@[0]);
    assert("ep"@[0] != "ps"@[0]);
    assert("ep"@.len() != "tpn"@.len());
    assert("ep"@[1] != "ec"@[1]);
    assert("ep"@[1] != "en"@[1]);
    assert("ep"@[1] != "el"@[1]);
    assert(set_flag(f, "ep"@, v) is Some <==> parse_bool(v) is Some);
    assert(set_flag(f, "ep"@, v) matches Some(g) ==> g == (FlagsView { echo_pprof: g.echo_pprof, ..f }) && parse_bool(v) == Some(g.echo_pprof));
}

/// `-epd` sets `echo_pprof_duration`.
proof fn lemma_flag_echo_pprof_duration(f: FlagsView, v: Seq<char>)
    ensures
        set_flag(f, "epd"@, v) is Some <==> parse_unsigned(v, u64::MAX as int) is Some,
        set_flag(f, "epd"@, v) matches Some(g) ==> g == (FlagsView { echo_pprof_duration: g.echo_pprof_duration, ..f }) && parse_unsigned(v, u64::MAX as int) == Some(g.echo_pprof_duration as int),
{
    lemma_parsed_in_range(v);
    reveal_strlit("nodelay");
    reveal_strlit("m");
    reveal_strlit("f");
    reveal_strlit("ip");
    reveal_strlit("c");
    reveal_strlit("dc");
    reveal_strlit("dt");
    reveal_strlit("dr");
    reveal_strlit("dri");
    reveal_strlit("b");
    reveal_strlit("check");
    reveal_strlit("pi");
    reveal_strlit("ps");
    reveal_strlit("tpn");
    reveal_strlit("ec");
    reveal_strlit("en");
    reveal_strlit("el");
    reveal_strlit("ep");
    reveal_strlit("epd");
    assert("epd"@.len() != "nodelay"@.len());
    assert("epd"@.len() != "m"@.len());
    assert("epd"@.len() != "f"@.len());
    assert("epd"@.len() != "ip"@.len());
    assert("epd"@.len() != "c"@.len());
    assert("epd"@.len() != "dc"@.len());
    assert("epd"@.len() != "dt"@.len());
    assert("epd"@.len() != "dr"@.len());
    assert("epd"@[0] != "dri"@[0]);
    assert("epd"@.len() != "b"@.len());
    assert("epd"@.len() != "check"@.len());
    assert("epd"@.len() != "pi"@.len());
    assert("epd"@.len() != "ps"@.len());
    assert("epd"@[0] != "tpn"@[0]);
    assert("epd"@.len() != "ec"@.len());
    assert("epd"@.len() != "en"@.len());
    assert("epd"@.len() != "el"@.len());
    assert("epd"@.len() != "ep"@.len());
    assert(set_flag(f, "epd"@, v) is Some <==> parse_unsigned(v, u64::MAX as int) is Some);
    assert(set_flag(f, "epd"@, v) matches Some(g) ==> g == (FlagsView { echo_pprof_duration: g.echo_pprof_duration, ..f }) && parse_unsigned(v, u64::MAX as int) == Some(g.echo_pprof_duration as int));
}

/// `-rate` sets `rate_enabled`.
proof fn lemma_flag_rate_enabled(f: FlagsView, v: Seq<char>)
    ensures
        set_flag(f, "rate"@, v) is Some <==> parse_bool(v) is Some,
        set_flag(f, "rate"@, v) matches Some(g) ==> g == (FlagsView { rate_enabled: g.rate_enabled, ..f }) && parse_bool(v) == Some(g.rate_enabled),
{
    lemma_parsed_in_range(v);
    reveal_strlit("nodelay");
    reveal_strlit("m");
    reveal_strlit("f");
    reveal_strlit("ip");
    reveal_strlit("c");
    reveal_strlit("dc");
    reveal_strlit("dt");
    reveal_strlit("dr");
    reveal_strlit("dri");
    reveal_strlit("b");
    reveal_strlit("check");
    reveal_strlit("pi");
    reveal_strlit("ps");
    reveal_strlit("tpn");
    reveal_strlit("ec");
    reveal_strlit("en");
    reveal_strlit("el");
    reveal_strlit("ep");
    reveal_strlit("epd");
    reveal_strlit("rate");
    assert("rate"@.len() != "nodelay"@.len());
    assert("rate"@.len() != "m"@.len());
    assert("rate"@.len() != "f"@.len());
    assert("rate"@.len() != "ip"@.len());
    assert("rate"@.len() != "c"@.len());
    assert("rate"@.len() != "dc"@.len());
    assert("rate"@.len() != "dt"@.len());
    assert("rate"@.len() != "dr"@.len());
    assert("rate"@.len() != "dri"@.len());
    assert("rate"@.len() != "b"@.len());
    assert("rate"@.len() != "check"@.len());
    assert("rate"@.len() != "pi"@.len());
    assert("rate"@.len() != "ps"@.len());
    assert("rate"@.len() != "tpn"@.len());
    assert("rate"@.len() != "ec"@.len());
    assert("rate"@.len() != "en"@.len());
    assert("rate"@.len() != "el"@.len());
    assert("rate"@.len() != "ep"@.len());
    assert("rate"@.len() != "epd"@.len());
    assert(set_flag(f, "rate"@, v) is Some <==> parse_bool(v) is Some);
    assert(set_flag(f, "rate"@, v) matches Some(g) ==> g == (FlagsView { rate_enabled: g.rate_enabled, ..f }) && parse_bool(v) == Some(g.rate_enabled));
}

/// `-rc` sets `rate_concurrency`.
proof fn lemma_flag_rate_concurrency(f: FlagsView, v: Seq<char>)
    ensures
        set_flag(f, "rc"@, v) is Some <==> parse_unsigned(v, usize::MAX as int) is Some,
        set_flag(f, "rc"@, v) matches Some(g) ==> g == (FlagsView { rate_concurrency: g.rate_concurrency, ..f }) && parse_unsigned(v, usize::MAX as int) == Some(g.rate_concurrency as int),
{
    lemma_parsed_in_range(v);
    reveal_strlit("nodelay");
    reveal_strlit("m");
    reveal_strlit("f");
    reveal_strlit("ip");
    reveal_strlit("c");
    reveal_strlit("dc");
    reveal_strlit("dt");
    reveal_strlit("dr");
    reveal_strlit("dri");
    reveal_strlit("b");
    reveal_strlit("check");
    reveal_strlit("pi");
    reveal_strlit("ps");
    reveal_strlit("tpn");
    reveal_strlit("ec");
    reveal_strlit("en");
    reveal_strlit("el");
    reveal_strlit("ep");
    reveal_strlit("epd");
    reveal_strlit("rate");
    reveal_strlit("rc");
    assert("rc"@.len() != "nodelay"@.len());
    assert("rc"@.len() != "m"@.len());
    assert("rc"@.len() != "f"@.len());
    assert("rc"@[0] != "ip"@[0]);
    assert("rc"@.len() != "c"@.len());
    assert("rc"@[0] != "dc"@[0]);
    assert("rc"@[0] != "dt"@[0]);
    assert("rc"@[0] != "dr"@[0]);
    assert("rc"@.len() != "dri"@.len());
    assert("rc"@.len() != "b"@.len());
    assert("rc"@.len() != "check"@.len());
    assert("rc"@[0] != "pi"@[0]);
    assert("rc"@[0] != "ps"@[0]);
    assert("rc"@.len() != "tpn"@.len());
    assert("rc"@[0] != "ec"@[0]);
    assert("rc"@[0] != "en"@[0]);
    assert("rc"@[0] != "el"@[0]);
    assert("rc"@[0] != "ep"@[0]);
    assert("rc"@.len() != "epd"@.len());
    assert("rc"@.len() != "rate"@.len());
    assert(set_flag(f, "rc"@, v) is Some <==> parse_unsigned(v, usize::MAX as int) is Some);
    assert(set_flag(f, "rc"@, v) matches Some(g) ==> g == (FlagsView { rate_concurrency: g.rate_concurrency, ..f }) && parse_unsigned(v, usize::MAX as int) == Some(g.rate_concurrency as int));
}

/// `-rd` sets `rate_duration`.
proof fn lemma_flag_rate_duration(f: FlagsView, v: Seq<char>)
    ensures
        set_flag(f, "rd"@, v) is Some <==> parse_unsigned(v, u64::MAX as int) is Some,
        set_flag(f, "rd"@, v) matches Some(g) ==> g == (FlagsView { rate_duration: g.rate_duration, ..f }) && parse_unsigned(v, u64::MAX as int) == Some(g.rate_duration as int),
{
    lemma_parsed_in_range(v);
    reveal_strlit("nodelay");
    reveal_strlit("m");
    reveal_strlit("f");
    reveal_strlit("ip");
    reveal_strlit("c");
    reveal_strlit("dc");
    reveal_strlit("dt");
    reveal_strlit("dr");
    reveal_strlit("dri");
    reveal_strlit("b");
    reveal_strlit("check");
    reveal_strlit("pi");
    reveal_strlit("ps");
    reveal_strlit("tpn");
    reveal_strlit("ec");
    reveal_strlit("en");
    reveal_strlit("el");
    reveal_strlit("ep");
    reveal_strlit("epd");
    reveal_strlit("rate");
    reveal_strlit("rc");
    reveal_strlit("rd");
    assert("rd"@.len() != "nodelay"@.len());
    assert("rd"@.len() != "m"@.len());
    assert("rd"@.len() != "f"@.len());
    assert("rd"@[0] != "ip"@[0]);
    assert("rd"@.len() != "c"@.len());
    assert("rd"@[0] != "dc"@[0]);
    assert("rd"@[0] != "dt"@[0]);
    assert("rd"@[0] != "dr"@[0]);
    assert("rd"@.len() != "dri"@.len());
    assert("rd"@.len() != "b"@.len());
    assert("rd"@.len() != "check"@.len());
    assert("rd"@[0] != "pi"@[0]);
    assert("rd"@[0] != "ps"@[0]);
    assert("rd"@.len() != "tpn"@.len());
    assert("rd"@[0] != "ec"@[0]);
    assert("rd"@[0] != "en"@[0]);
    assert("rd"@[0] != "el"@[0]);
    assert("rd"@[0] != "ep"@[0]);
    assert("rd"@.len() != "epd"@.len());
    assert("rd"@.len() != "rate"@.len());
    assert("rd"@[1] != "rc"@[1]);
    assert(set_flag(f, "rd"@, v) is Some <==> parse_unsigned(v, u64::MAX as int) is Some);
    assert(set_flag(f, "rd"@, v) matches Some(g) ==> g == (FlagsView { rate_duration: g.rate_duration, ..f }) && parse_unsigned(v, u64::MAX as int) == Some(g.rate_duration as int));
}

/// `-rr` sets `rate_send_rate`.
proof fn lemma_flag_rate_send_rate(f: FlagsView, v: Seq<char>)
    ensures
        set_flag(f, "rr"@, v) is Some <==> parse_unsigned(v, usize::MAX as int) is Some,
        set_flag(f, "rr"@, v) matches Some(g) ==> g == (FlagsView { rate_send_rate: g.rate_send_rate, ..f }) && parse_unsigned(v, usize::MAX as int) == Some(g.rate_send_rate as int),
{
    lemma_parsed_in_range(v);
    reveal_strlit("nodelay");
    reveal_strlit("m");
    reveal_strlit("f");
    reveal_strlit("ip");
    reveal_strlit("c");
    reveal_strlit("dc");
    reveal_strlit("dt");
    reveal_strlit("dr");
    reveal_strlit("dri");
    reveal_strlit("b");
    reveal_strlit("check");
    reveal_strlit("pi");
    reveal_strlit("ps");
    reveal_strlit("tpn");
    reveal_strlit("ec");
    reveal_strlit("en");
    reveal_strlit("el");
    reveal_strlit("ep");
    reveal_strlit("epd");
    reveal_strlit("rate");
    reveal_strlit("rc");
    reveal_strlit("rd");
    reveal_strlit("rr");
    assert("rr"@.len() != "nodelay"@.len());
    assert("rr"@.len() != "m"@.len());
    assert("rr"@.len() != "f"@.len());
    assert("rr"@[0] != "ip"@[0]);
    assert("rr"@.len() != "c"@.len());
    assert("rr"@[0] != "dc"@[0]);
    assert("rr"@[0] != "dt"@[0]);
    assert("rr"@[0] != "dr"@[0]);
    assert("rr"@.len() != "dri"@.len());
    assert("rr"@.len() != "b"@.len());
    assert("rr"@.len() != "check"@.len());
    assert("rr"@[0] != "pi"@[0]);
    assert("rr"@[0] != "ps"@[0]);
    assert("rr"@.len() != "tpn"@.len());
    assert("rr"@[0] != "ec"@[0]);
    assert("rr"@[0] != "en"@[0]);
    assert("rr"@[0] != "el"@[0]);
    assert("rr"@[0] != "ep"@[0]);
    assert("rr"@.len() != "epd"@.len());
    assert("rr"@.len() != "rate"@.len());
    assert("rr"@[1] != "rc"@[1]);
    assert("rr"@[1] != "rd"@[1]);
    assert(set_flag(f, "rr"@, v) is Some <==> parse_unsigned(v, usize::MAX as int) is Some);
    assert(set_flag(f, "rr"@, v) matches Some(g) ==> g == (FlagsView { rate_send_rate: g.rate_send_rate, ..f }) && parse_unsigned(v, usize::MAX as int) == Some(g.rate_send_rate as int));
}

/// `-rbs` sets `rate_batch_size`.
proof fn lemma_flag_rate_batch_size(f: FlagsView, v: Seq<char>)
    ensures
        set_flag(f, "rbs"@, v) is Some <==> parse_unsigned(v, usize::MAX as int) is Some,
        set_flag(f, "rbs"@, v) matches Some(g) ==> g == (FlagsView { rate_batch_size: g.rate_batch_size, ..f }) && parse_unsigned(v, usize::MAX as int) == Some(g.rate_batch_size as int),
{
    lemma_parsed_in_range(v);
    reveal_strlit("nodelay");
    reveal_strlit("m");
    reveal_strlit("f");
    reveal_strlit("ip");
    reveal_strlit("c");
    reveal_strlit("dc");
    reveal_strlit("dt");
    reveal_strlit("dr");
    reveal_strlit("dri");
    reveal_strlit("b");
    reveal_strlit("check");
    reveal_strlit("pi");
    reveal_strlit("ps");
    reveal_strlit("tpn");
    reveal_strlit("ec");
    reveal_strlit("en");
    reveal_strlit("el");
    reveal_strlit("ep");
    reveal_strlit("epd");
    reveal_strlit("rate");
    reveal_strlit("rc");
    reveal_strlit("rd");
    reveal_strlit("rr");
    reveal_strlit("rbs");
    assert("rbs"@.len() != "nodelay"@.len());
    assert("rbs"@.len() != "m"@.len());
    assert("rbs"@.len() != "f"@.len());
    assert("rbs"@.len() != "ip"@.len());
    assert("rbs"@.len() != "c"@.len());
    assert("rbs"@.len() != "dc"@.len());
    assert("rbs"@.len() != "dt"@.len());
    assert("rbs"@.len() != "dr"@.len());
    assert("rbs"@[0] != "dri"@[0]);
    assert("rbs"@.len() != "b"@.len());
    assert("rbs"@.len() != "check"@.len());
    assert("rbs"@.len() != "pi"@.len());
    assert("rbs"@.len() != "ps"@.len());
    assert("rbs"@[0] != "tpn"@[0]);
    assert("rbs"@.len() != "ec"@.len());
    assert("rbs"@.len() != "en"@.len());
    assert("rbs"@.len() != "el"@.len());
    assert("rbs"@.len() != "ep"@.len());
    assert("rbs"@[0] != "epd"@[0]);
    assert("rbs"@.len() != "rate"@.len());
    assert("rbs"@.len() != "rc"@.len());
    assert("rbs"@.len() != "rd"@.len());
    assert("rbs"@.len() != "rr"@.len());
    assert(set_flag(f, "rbs"@, v) is Some <==> parse_unsigned(v, usize::MAX as int) is Some);
    assert(set_flag(f, "rbs"@, v) matches Some(g) ==> g == (FlagsView { rate_batch_size: g.rate_batch_size, ..f }) && parse_unsigned(v, usize::MAX as int) == Some(g.rate_batch_size as int));
}

/// `-rpl` sets `rate_pipeline`.
proof fn lemma_flag_rate_pipeline(f: FlagsView, v: Seq<char>)
    ensures
        set_flag(f, "rpl"@, v) is Some <==> parse_i64(v) is Some,
        set_flag(f, "rpl"@, v) matches Some(g) ==> g == (FlagsView { rate_pipeline: g.rate_pipeline, ..f }) && parse_i64(v) == Some(g.rate_pipeline as int),
{
    lemma_parsed_in_range(v);
    reveal_strlit("nodelay");
    reveal_strlit("m");
    reveal_strlit("f");
    reveal_strlit("ip");
    reveal_strlit("c");
    reveal_strlit("dc");
    reveal_strlit("dt");
    reveal_strlit("dr");
    reveal_strlit("dri");
    reveal_strlit("b");
    reveal_strlit("check");
    reveal_strlit("pi");
    reveal_strlit("ps");
    reveal_strlit("tpn");
    reveal_strlit("ec");
    reveal_strlit("en");
    reveal_strlit("el");
    reveal_strlit("ep");
    reveal_strlit("epd");
    reveal_strlit("rate");
    reveal_strlit("rc");
    reveal_strlit("rd");
    reveal_strlit("rr");
    reveal_strlit("rbs");
    reveal_strlit("rpl");
    assert("rpl"@.len() != "nodelay"@.len());
    assert("rpl"@.len() != "m"@.len());
    assert("rpl"@.len() != "f"@.len());
    assert("rpl"@.len() != "ip"@.len());
    assert("rpl"@.len() != "c"@.len());
    assert("rpl"@.len() != "dc"@.len());
    assert("rpl"@.len() != "dt"@.len());
    assert("rpl"@.len() != "dr"@.len());
    assert("rpl"@[0] != "dri"@[0]);
    assert("rpl"@.len() != "b"@.len());
    assert("rpl"@.len() != "check"@.len());
    assert("rpl"@.len() != "pi"@.len());
    assert("rpl"@.len() != "ps"@.len());
    assert("rpl"@[0] != "tpn"@[0]);
    assert("rpl"@.len() != "ec"@.len());
    assert("rpl"@.len() != "en"@.len());
    assert("rpl"@.len() != "el"@.len());
    assert("rpl"@.len() != "ep"@.len());
    assert("rpl"@[0] != "epd"@[0]);
    assert("rpl"@.len() != "rate"@.len());
    assert("rpl"@.len() != "rc"@.len());
    assert("rpl"@.len() != "rd"@.len());
    assert("rpl"@.len() != "rr"@.len());
    assert("rpl"@[1] != "rbs"@[1]);
    assert(set_flag(f, "rpl"@, v) is Some <==> parse_i64(v) is Some);
    assert(set_flag(f, "rpl"@, v) matches Some(g) ==> g == (FlagsView { rate_pipeline: g.rate_pipeline, ..f }) && parse_i64(v) == Some(g.rate_pipeline as int));
}

/// `-rl` sets `rate_send_limit`.
proof fn lemma_flag_rate_send_limit(f: FlagsView, v: Seq<char>)
    ensures
        set_flag(f, "rl"@, v) is Some <==> parse_unsigned(v, usize::MAX as int) is Some,
        set_flag(f, "rl"@, v) matches Some(g) ==> g == (FlagsView { rate_send_limit: g.rate_send_limit, ..f }) && parse_unsigned(v, usize::MAX as int) == Some(g.rate_send_limit as int),
{
    lemma_parsed_in_range(v);
    reveal_strlit("nodelay");
    reveal_strlit("m");
    reveal_strlit("f");
    reveal_strlit("ip");
    reveal_strlit("c");
    reveal_strlit("dc");
    reveal_strlit("dt");
    reveal_strlit("dr");
    reveal_strlit("dri");
    reveal_strlit("b");
    reveal_strlit("check");
    reveal_strlit("pi");
    reveal_strlit("ps");
    reveal_strlit("tpn");
    reveal_strlit("ec");
    reveal_strlit("en");
    reveal_strlit("el");
    reveal_strlit("ep");
    reveal_strlit("epd");
    reveal_strlit("rate");
    reveal_strlit("rc");
    reveal_strlit("rd");
    reveal_strlit("rr");
    reveal_strlit("rbs");
    reveal_strlit("rpl");
    reveal_strlit("rl");
    assert("rl"@.len() != "nodelay"@.len());
    assert("rl"@.len() != "m"@.len());
    assert("rl"@.len() != "f"@.len());
    assert("rl"@[0] != "ip"@[0]);
    assert("rl"@.len() != "c"@.len());
    assert("rl"@[0] != "dc"@[0]);
    assert("rl"@[0] != "dt"@[0]);
    assert("rl"@[0] != "dr"@[0]);
    assert("rl"@.len() != "dri"@.len());
    assert("rl"@.len() != "b"@.len());
    assert("rl"@.len() != "check"@.len());
    assert("rl"@[0] != "pi"@[0]);
    assert("rl"@[0] != "ps"@[0]);
    assert("rl"@.len() != "tpn"@.len());
    assert("rl"@[0] != "ec"@[0]);
    assert("rl"@[0] != "en"@[0]);
    assert("rl"@[0] != "el"@[0]);
    assert("rl"@[0] != "ep"@[0]);
    assert("rl"@.len() != "epd"@.len());
    assert("rl"@.len() != "rate"@.len());
    assert("rl"@[1] != "rc"@[1]);
    assert("rl"@[1] != "rd"@[1]);
    assert("rl"@[1] != "rr"@[1]);
    assert("rl"@.len() != "rbs"@.len());
    assert("rl"@.len() != "rpl"@.len());
    assert(set_flag(f, "rl"@, v) is Some <==> parse_unsigned(v, usize::MAX as int) is Some);
    assert(set_flag(f, "rl"@, v) matches Some(g) ==> g == (FlagsView { rate_send_limit: g.rate_send_limit, ..f }) && parse_unsigned(v, usize::MAX as int) == Some(g.rate_send_limit as int));
}

/// `-rp` sets `rate_pprof`.
proof fn lemma_flag_rate_pprof(f: FlagsView, v: Seq<char>)
    ensures
        set_flag(f, "rp"@, v) is Some <==> parse_bool(v) is Some,
        set_flag(f, "rp"@, v) matches Some(g) ==> g == (FlagsView { rate_pprof: g.rate_pprof, ..f }) && parse_bool(v) == Some(g.rate_pprof),
{
    lemma_parsed_in_range(v);
    reveal_strlit("nodelay");
    reveal_strlit("m");
    reveal_strlit("f");
    reveal_strlit("ip");
    reveal_strlit("c");
    reveal_strlit("dc");
    reveal_strlit("dt");
    reveal_strlit("dr");
    reveal_strlit("dri");
    reveal_strlit("b");
    reveal_strlit("check");
    reveal_strlit("pi");
    reveal_strlit("ps");
    reveal_strlit("tpn");
    reveal_strlit("ec");
    reveal_strlit("en");
    reveal_strlit("el");
    reveal_strlit("ep");
    reveal_strlit("epd");
    reveal_strlit("rate");
    reveal_strlit("rc");
    reveal_strlit("rd");
    reveal_strlit("rr");
    reveal_strlit("rbs");
    reveal_strlit("rpl");
    reveal_strlit("rl");
    reveal_strlit("rp");
    assert("rp"@.len() != "nodelay"@.len());
    assert("rp"@.len() != "m"@.len());
    assert("rp"@.len() != "f"@.len());
    assert("rp"@[0] != "ip"@[0]);
    assert("rp"@.len() != "c"@.len());
    assert("rp"@[0] != "dc"@[0]);
    assert("rp"@[0] != "dt"@[0]);
    assert("rp"@[0] != "dr"@[0]);
    assert("rp"@.len() != "dri"@.len());
    assert("rp"@.len() != "b"@.len());
    assert("rp"@.len() != "check"@.len());
    assert("rp"@[0] != "pi"@[0]);
    assert("rp"@[0] != "ps"@[0]);
    assert("rp"@.len() != "tpn"@.len());
    assert("rp"@[0] != "ec"@[0]);
    assert("rp"@[0] != "en"@[0]);
    assert("rp"@[0] != "el"@[0]);
    assert("rp"@[0] != "ep"@[0]);
    assert("rp"@.len() != "epd"@.len());
    assert("rp"@.len() != "rate"@.len());
    assert("rp"@[1] != "rc"@[1]);
    assert("rp"@[1] != "rd"@[1]);
    assert("rp"@[1] != "rr"@[1]);
    assert("rp"@.len() != "rbs"@.len());
    assert("rp"@.len() != "rpl"@.len());
    assert("rp"@[1] != "rl"@[1]);
    assert(set_flag(f, "rp"@, v) is Some <==> parse_bool(v) is Some);
    assert(set_flag(f, "rp"@, v) matches Some(g) ==> g == (FlagsView { rate_pprof: g.rate_pprof, ..f }) && parse_bool(v) == Some(g.rate_pprof));
}

/// `-rpd` sets `rate_pprof_duration`.
proof fn lemma_flag_rate_pprof_duration(f: FlagsView, v: Seq<char>)
    ensures
        set_flag(f, "rpd"@, v) is Some <==> parse_unsigned(v, u64::MAX as int) is Some,
        set_flag(f, "rpd"@, v) matches Some(g) ==> g == (FlagsView { rate_pprof_duration: g.rate_pprof_duration, ..f }) && parse_unsigned(v, u64::MAX as int) == Some(g.rate_pprof_duration as int),
{
    lemma_parsed_in_range(v);
    reveal_strlit("nodelay");
    reveal_strlit("m");
    reveal_strlit("f");
    reveal_strlit("ip");
    reveal_strlit("c");
    reveal_strlit("dc");
    reveal_strlit("dt");
    reveal_strlit("dr");
    reveal_strlit("dri");
    reveal_strlit("b");
    reveal_strlit("check");
    reveal_strlit("pi");
    reveal_strlit("ps");
    reveal_strlit("tpn");
    reveal_strlit("ec");
    reveal_strlit("en");
    reveal_strlit("el");
    reveal_strlit("ep");
    reveal_strlit("epd");
    reveal_strlit("rate");
    reveal_strlit("rc");
    reveal_strlit("rd");
    reveal_strlit("rr");
    reveal_strlit("rbs");
    reveal_strlit("rpl");
    reveal_strlit("rl");
    reveal_strlit("rp");
    reveal_strlit("rpd");
    assert("rpd"@.len() != "nodelay"@.len());
    assert("rpd"@.len() != "m"@.len());
    assert("rpd"@.len() != "f"@.len());
    assert("rpd"@.len() != "ip"@.len());
    assert("rpd"@.len() != "c"@.len());
    assert("rpd"@.len() != "dc"@.len());
    assert("rpd"@.len() != "dt"@.len());
    assert("rpd"@.len() != "dr"@.len());
    assert("rpd"@[0] != "dri"@[0]);
    assert("rpd"@.len() != "b"@.len());
    assert("rpd"@.len() != "check"@.len());
    assert("rpd"@.len() != "pi"@.len());
    assert("rpd"@.len() != "ps"@.len());
    assert("rpd"@[0] != "tpn"@[0]);
    assert("rpd"@.len() != "ec"@.len());
    assert("rpd"@.len() != "en"@.len());
    assert("rpd"@.len() != "el"@.len());
    assert("rpd"@.len() != "ep"@.len());
    assert("rpd"@[0] != "epd"@[0]);
    assert("rpd"@.len() != "rate"@.len());
    assert("rpd"@.len() != "rc"@.len());
    assert("rpd"@.len() != "rd"@.len());
    assert("rpd"@.len() != "rr"@.len());
    assert("rpd"@[1] != "rbs"@[1]);
    assert("rpd"@[2] != "rpl"@[2]);
    assert("rpd"@.len() != "rl"@.len());
    assert("rpd"@.len() != "rp"@.len());
    assert(set_flag(f, "rpd"@, v) is Some <==> parse_unsigned(v, u64::MAX as int) is Some);
    assert(set_flag(f, "rpd"@, v) matches Some(g) ==> g == (FlagsView { rate_pprof_duration: g.rate_pprof_duration, ..f }) && parse_unsigned(v, u64::MAX as int) == Some(g.rate_pprof_duration as int));
}

/// `-r` sets `gen_report`.
proof fn lemma_flag_gen_report(f: FlagsView, v: Seq<char>)
    ensures
        set_flag(f, "r"@, v) is Some <==> parse_bool(v) is Some,
        set_flag(f, "r"@, v) matches Some(g) ==> g == (FlagsView { gen_report: g.gen_report, ..f }) && parse_bool(v) == Some(g.gen_report),
{
    lemma_parsed_in_range(v);
    reveal_strlit("nodelay");
    reveal_strlit("m");
    reveal_strlit("f");
    reveal_strlit("ip");
    reveal_strlit("c");
    reveal_strlit("dc");
    reveal_strlit("dt");
    reveal_strlit("dr");
    reveal_strlit("dri");
    reveal_strlit("b");
    reveal_strlit("check");
    reveal_strlit("pi");
    reveal_strlit("ps");
    reveal_strlit("tpn");
    reveal_strlit("ec");
    reveal_strlit("en");
    reveal_strlit("el");
    reveal_strlit("ep");
    reveal_strlit("epd");
    reveal_strlit("rate");
    reveal_strlit("rc");
    reveal_strlit("rd");
    reveal_strlit("rr");
    reveal_strlit("rbs");
    reveal_strlit("rpl");
    reveal_strlit("rl");
    reveal_strlit("rp");
    reveal_strlit("rpd");
    reveal_strlit("r");
    assert("r"@.len() != "nodelay"@.len());
    assert("r"@[0] != "m"@[0]);
    assert("r"@[0] != "f"@[0]);
    assert("r"@.len() != "ip"@.len());
    assert("r"@[0] != "c"@[0]);
    assert("r"@.len() != "dc"@.len());
    assert("r"@.len() != "dt"@.len());
    assert("r"@.len() != "dr"@.len());
    assert("r"@.len() != "dri"@.len());
    assert("r"@[0] != "b"@[0]);
    assert("r"@.len() != "check"@.len());
    assert("r"@.len() != "pi"@.len());
    assert("r"@.len() != "ps"@.len());
    assert("r"@.len() != "tpn"@.len());
    assert("r"@.len() != "ec"@.len());
    assert("r"@.len() != "en"@.len());
    assert("r"@.len() != "el"@.len());
    assert("r"@.len() != "ep"@.len());
    assert("r"@.len() != "epd"@.len());
    assert("r"@.len() != "rate"@.len());
    assert("r"@.len() != "rc"@.len());
    assert("r"@.len() != "rd"@.len());
    assert("r"@.len() != "rr"@.len());
    assert("r"@.len() != "rbs"@.len());
    assert("r"@.len() != "rpl"@.len());
    assert("r"@.len() != "rl"@.len());
    assert("r"@.len() != "rp"@.len());
    assert("r"@.len() != "rpd"@.len());
    assert(set_flag(f, "r"@, v) is Some <==> parse_bool(v) is Some);
    assert(set_flag(f, "r"@, v) matches Some(g) ==> g == (FlagsView { gen_report: g.gen_report, ..f }) && parse_bool(v) == Some(g.gen_report));
}

/// `-preffix` sets `preffix`.
proof fn lemma_flag_preffix(f: FlagsView, v: Seq<char>)
    ensures
        set_flag(f, "preffix"@, v) is Some <==> true,
        set_flag(f, "preffix"@, v) matches Some(g) ==> g == (FlagsView { preffix: g.preffix, ..f }) && g.preffix == v,
{
    lemma_parsed_in_range(v);
    reveal_strlit("nodelay");
    reveal_strlit("m");
    reveal_strlit("f");
    reveal_strlit("ip");
    reveal_strlit("c");
    reveal_strlit("dc");
    reveal_strlit("dt");
    reveal_strlit("dr");
    reveal_strlit("dri");
    reveal_strlit("b");
    reveal_strlit("check");
    reveal_strlit("pi");
    reveal_strlit("ps");
    reveal_strlit("tpn");
    reveal_strlit("ec");
    reveal_strlit("en");
    reveal_strlit("el");
    reveal_strlit("ep");
    reveal_strlit("epd");
    reveal_strlit("rate");
    reveal_strlit("rc");
    reveal_strlit("rd");
    reveal_strlit("rr");
    reveal_strlit("rbs");
    reveal_strlit("rpl");
    reveal_strlit("rl");
    reveal_strlit("rp");
    reveal_strlit("rpd");
    reveal_strlit("r");
    reveal_strlit("preffix");
    assert("preffix"@[0] != "nodelay"@[0]);
    assert("preffix"@.len() != "m"@.len());
    assert("preffix"@.len() != "f"@.len());
    assert("preffix"@.len() != "ip"@.len());
    assert("preffix"@.len() != "c"@.len());
    assert("preffix"@.len() != "dc"@.len());
    assert("preffix"@.len() != "dt"@.len());
    assert("preffix"@.len() != "dr"@.len());
    assert("preffix"@.len() != "dri"@.len());
    assert("preffix"@.len() != "b"@.len());
    assert("preffix"@.len() != "check"@.len());
    assert("preffix"@.len() != "pi"@.len());
    assert("preffix"@.len() != "ps"@.len());
    assert("preffix"@.len() != "tpn"@.len());
    assert("preffix"@.len() != "ec"@.len());
    assert("preffix"@.len() != "en"@.len());
    assert("preffix"@.len() != "el"@.len());
    assert("preffix"@.len() != "ep"@.len());
    assert("preffix"@.len() != "epd"@.len());
    assert("preffix"@.len() != "rate"@.len());
    assert("preffix"@.len() != "rc"@.len());
    assert("preffix"@.len() != "rd"@.len());
    assert("preffix"@.len() != "rr"@.len());
    assert("preffix"@.len() != "rbs"@.len());
    assert("preffix"@.len() != "rpl"@.len());
    assert("preffix"@.len() != "rl"@.len());
    assert("preffix"@.len() != "rp"@.len());
    assert("preffix"@.len() != "rpd"@.len());
    assert("preffix"@.len() != "r"@.len());
    assert(set_flag(f, "preffix"@, v) is Some <==> true);
    assert(set_flag(f, "preffix"@, v) matches Some(g) ==> g == (FlagsView { preffix: g.preffix, ..f }) && g.preffix == v);
}

/// `-suffix` sets `suffix`.
proof fn lemma_flag_suffix(f: FlagsView, v: Seq<char>)
    ensures
        set_flag(f, "suffix"@, v) is Some <==> true,
        set_flag(f, "suffix"@, v) matches Some(g) ==> g == (FlagsView { suffix: g.suffix, ..f }) && g.suffix == v,
{
    lemma_parsed_in_range(v);
    reveal_strlit("nodelay");
    reveal_strlit("m");
    reveal_strlit("f");
    reveal_strlit("ip");
    reveal_strlit("c");
    reveal_strlit("dc");
    reveal_strlit("dt");
    reveal_strlit("dr");
    reveal_strlit("dri");
    reveal_strlit("b");
    reveal_strlit("check");
    reveal_strlit("pi");
    reveal_strlit("ps");
    reveal_strlit("tpn");
    reveal_strlit("ec");
    reveal_strlit("en");
    reveal_strlit("el");
    reveal_strlit("ep");
    reveal_strlit("epd");
    reveal_strlit("rate");
    reveal_strlit("rc");
    reveal_strlit("rd");
    reveal_strlit("rr");
    reveal_strlit("rbs");
    reveal_strlit("rpl");
    reveal_strlit("rl");
    reveal_strlit("rp");
    reveal_strlit("rpd");
    reveal_strlit("r");
    reveal_strlit("preffix");
    reveal_strlit("suffix");
    assert("suffix"@.len() != "nodelay"@.len());
    assert("suffix"@.len() != "m"@.len());
    assert("suffix"@.len() != "f"@.len());
    assert("suffix"@.len() != "ip"@.len());
    assert("suffix"@.len() != "c"@.len());
    assert("suffix"@.len() != "dc"@.len());
    assert("suffix"@.len() != "dt"@.len());
    assert("suffix"@.len() != "dr"@.len());
    assert("suffix"@.len() != "dri"@.len());
    assert("suffix"@.len() != "b"@.len());
    assert("suffix"@.len() != "check"@.len());
    assert("suffix"@.len() != "pi"@.len());
    assert("suffix"@.len() != "ps"@.len());
    assert("suffix"@.len() != "tpn"@.len());
    assert("suffix"@.len() != "ec"@.len());
    assert("suffix"@.len() != "en"@.len());
    assert("suffix"@.len() != "el"@.len());
    assert("suffix"@.len() != "ep"@.len());
    assert("suffix"@.len() != "epd"@.len());
    assert("suffix"@.len() != "rate"@.len());
    assert("suffix"@.len() != "rc"@.len());
    assert("suffix"@.len() != "rd"@.len());
    assert("suffix"@.len() != "rr"@.len());
    assert("suffix"@.len() != "rbs"@.len());
    assert("suffix"@.len() != "rpl"@.len());
    assert("suffix"@.len() != "rl"@.len());
    assert("suffix"@.len() != "rp"@.len());
    assert("suffix"@.len() != "rpd"@.len());
    assert("suffix"@.len() != "r"@.len());
    assert("suffix"@.len() != "preffix"@.len());
    assert(set_flag(f, "suffix"@, v) is Some <==> true);
    assert(set_flag(f, "suffix"@, v) matches Some(g) ==> g == (FlagsView { suffix: g.suffix, ..f }) && g.suffix == v);
}

/// `-sort` sets `report_sort`.
proof fn lemma_flag_report_sort(f: FlagsView, v: Seq<char>)
    ensures
        set_flag(f, "sort"@, v) is Some <==> true,
        set_flag(f, "sort"@, v) matches Some(g) ==> g == (FlagsView { report_sort: g.report_sort, ..f }) && g.report_sort == v,
{
    lemma_parsed_in_range(v);
    reveal_strlit("nodelay");
    reveal_strlit("m");
    reveal_strlit("f");
    reveal_strlit("ip");
    reveal_strlit("c");
    reveal_strlit("dc");
    reveal_strlit("dt");
    reveal_strlit("dr");
    reveal_strlit("dri");
    reveal_strlit("b");
    reveal_strlit("check");
    reveal_strlit("pi");
    reveal_strlit("ps");
    reveal_strlit("tpn");
    reveal_strlit("ec");
    reveal_strlit("en");
    reveal_strlit("el");
    reveal_strlit("ep");
    reveal_strlit("epd");
    reveal_strlit("rate");
    reveal_strlit("rc");
    reveal_strlit("rd");
    reveal_strlit("rr");
    reveal_strlit("rbs");
    reveal_strlit("rpl");
    reveal_strlit("rl");
    reveal_strlit("rp");
    reveal_strlit("rpd");
    reveal_strlit("r");
    reveal_strlit("preffix");
    reveal_strlit("suffix");
    reveal_strlit("sort");
    assert("sort"@.len() != "nodelay"@.len());
    assert("sort"@.len() != "m"@.len());
    assert("sort"@.len() != "f"@.len());
    assert("sort"@.len() != "ip"@.len());
    assert("sort"@.len() != "c"@.len());
    assert("sort"@.len() != "dc"@.len());
    assert("sort"@.len() != "dt"@.len());
    assert("sort"@.len() != "dr"@.len());
    assert("sort"@.len() != "dri"@.len());
    assert("sort"@.len() != "b"@.len());
    assert("sort"@.len() != "check"@.len());
    assert("sort"@.len() != "pi"@.len());
    assert("sort"@.len() != "ps"@.len());
    assert("sort"@.len() != "tpn"@.len());
    assert("sort"@.len() != "ec"@.len());
    assert("sort"@.len() != "en"@.len());
    assert("sort"@.len() != "el"@.len());
    assert("sort"@.len() != "ep"@.len());
    assert("sort"@.len() != "epd"@.len());
    assert("sort"@[0] != "rate"@[0]);
    assert("sort"@.len() != "rc"@.len());
    assert("sort"@.len() != "rd"@.len());
    assert("sort"@.len() != "rr"@.len());
    assert("sort"@.len() != "rbs"@.len());
    assert("sort"@.len() != "rpl"@.len());
    assert("sort"@.len() != "rl"@.len());
    assert("sort"@.len() != "rp"@.len());
    assert("sort"@.len() != "rpd"@.len());
    assert("sort"@.len() != "r"@.len());
    assert("sort"@.len() != "preffix"@.len());
    assert("sort"@.len() != "suffix"@.len());
    assert(set_flag(f, "sort"@, v) is Some <==> true);
    assert(set_flag(f, "sort"@, v) matches Some(g) ==> g == (FlagsView { report_sort: g.report_sort, ..f }) && g.report_sort == v);
}

/// Each flag sets the field it documents, and only that one: `-name=v`
/// succeeds exactly when `v` is a value of the flag's type, and then the
/// flags differ from before only in that flag's field, which holds `v`
/// (read as a number, a bool or a duration where the flag takes one).
/// `-nodelay` is checked and sets nothing.
pub proof fn law_each_flag_sets_its_field(f: FlagsView, v: Seq<char>)
    ensures
        set_flag(f, "nodelay"@, v) is Some <==> parse_bool(v) is Some,
        set_flag(f, "nodelay"@, v) matches Some(g) ==> g == f,
        set_flag(f, "m"@, v) is Some <==> parse_i64(v) is Some,
        set_flag(f, "m"@, v) matches Some(g) ==> g == (FlagsView { mem_limit: g.mem_limit, ..f }) && parse_i64(v) == Some(g.mem_limit as int),
        set_flag(f, "f"@, v) is Some <==> true,
        set_flag(f, "f"@, v) matches Some(g) ==> g == (FlagsView { framework: g.framework, ..f }) && g.framework == v,
        set_flag(f, "ip"@, v) is Some <==> true,
        set_flag(f, "ip"@, v) matches Some(g) ==> g == (FlagsView { ip: g.ip, ..f }) && g.ip == v,
        set_flag(f, "c"@, v) is Some <==> parse_unsigned(v, usize::MAX as int) is Some,
        set_flag(f, "c"@, v) matches Some(g) ==> g == (FlagsView { num_connections: g.num_connections, ..f }) && parse_unsigned(v, usize::MAX as int) == Some(g.num_connections as int),
        set_flag(f, "dc"@, v) is Some <==> parse_unsigned(v, usize::MAX as int) is Some,
        set_flag(f, "dc"@, v) matches Some(g) ==> g == (FlagsView { dial_concurrency: g.dial_concurrency, ..f }) && parse_unsigned(v, usize::MAX as int) == Some(g.dial_concurrency as int),
        set_flag(f, "dt"@, v) is Some <==> (duration_nanos(v) matches Some(x) && x <= u64::MAX),
        set_flag(f, "dt"@, v) matches Some(g) ==> g == (FlagsView { dial_timeout: g.dial_timeout, ..f }) && duration_nanos(v) == Some(g.dial_timeout as int),
        set_flag(f, "dr"@, v) is Some <==> parse_unsigned(v, usize::MAX as int) is Some,
        set_flag(f, "dr"@, v) matches Some(g) ==> g == (FlagsView { dial_retries: g.dial_retries, ..f }) && parse_unsigned(v, usize::MAX as int) == Some(g.dial_retries as int),
        set_flag(f, "dri"@, v) is Some <==> (duration_nanos(v) matches Some(x) && x <= u64::MAX),
        set_flag(f, "dri"@, v) matches Some(g) ==> g == (FlagsView { dial_retry_interval: g.dial_retry_interval, ..f }) && duration_nanos(v) == Some(g.dial_retry_interval as int),
        set_flag(f, "b"@, v) is Some <==> parse_unsigned(v, usize::MAX as int) is Some,
        set_flag(f, "b"@, v) matches Some(g) ==> g == (FlagsView { payload: g.payload, ..f }) && parse_unsigned(v, usize::MAX as int) == Some(g.payload as int),
        set_flag(f, "check"@, v) is Some <==> parse_bool(v) is Some,
        set_flag(f, "check"@, v) matches Some(g) ==> g == (FlagsView { check_valid: g.check_valid, ..f }) && parse_bool(v) == Some(g.check_valid),
        set_flag(f, "pi"@, v) is Some <==> parse_unsigned(v, u64::MAX as int) is Some,
        set_flag(f, "pi"@, v) matches Some(g) ==> g == (FlagsView { ps_interval_ms: g.ps_interval_ms, ..f }) && parse_unsigned(v, u64::MAX as int) == Some(g.ps_interval_ms as int),
        set_flag(f, "ps"@, v) is Some <==> true,
        set_flag(f, "ps"@, v) matches Some(g) ==> g == (FlagsView { ps_mode: g.ps_mode, ..f }) && g.ps_mode == v,
        set_flag(f, "tpn"@, v) is Some <==> parse_bool(v) is Some,
        set_flag(f, "tpn"@, v) matches Some(g) ==> g == (FlagsView { enable_tpn: g.enable_tpn, ..f }) && parse_bool(v) == Some(g.enable_tpn),
        set_flag(f, "ec"@, v) is Some <==> parse_unsigned(v, usize::MAX as int) is Some,
        set_flag(f, "ec"@, v) matches Some(g) ==> g == (FlagsView { echo_concurrency: g.echo_concurrency, ..f }) && parse_unsigned(v, usize::MAX as int) == Some(g.echo_concurrency as int),
        set_flag(f, "en"@, v) is Some <==> parse_unsigned(v, usize::MAX as int) is Some,
        set_flag(f, "en"@, v) matches Some(g) ==> g == (FlagsView { echo_times: g.echo_times, ..f }) && parse_unsigned(v, usize::MAX as int) == Some(g.echo_times as int),
        set_flag(f, "el"@, v) is Some <==> parse_unsigned(v, usize::MAX as int) is Some,
        set_flag(f, "el"@, v) matches Some(g) ==> g == (FlagsView { echo_tps_limit: g.echo_tps_limit, ..f }) && parse_unsigned(v, usize::MAX as int) == Some(g.echo_tps_limit as int),
        set_flag(f, "ep"@, v) is Some <==> parse_bool(v) is Some,
        set_flag(f, "ep"@, v) matches Some(g) ==> g == (FlagsView { echo_pprof: g.echo_pprof, ..f }) && parse_bool(v) == Some(g.echo_pprof),
        set_flag(f, "epd"@, v) is Some <==> parse_unsigned(v, u64::MAX as int) is Some,
        set_flag(f, "epd"@, v) matches Some(g) ==> g == (FlagsView { echo_pprof_duration: g.echo_pprof_duration, ..f }) && parse_unsigned(v, u64::MAX as int) == Some(g.echo_pprof_duration as int),
        set_flag(f, "rate"@, v) is Some <==> parse_bool(v) is Some,
        set_flag(f, "rate"@, v) matches Some(g) ==> g == (FlagsView { rate_enabled: g.rate_enabled, ..f }) && parse_bool(v) == Some(g.rate_enabled),
        set_flag(f, "rc"@, v) is Some <==> parse_unsigned(v, usize::MAX as int) is Some,
        set_flag(f, "rc"@, v) matches Some(g) ==> g == (FlagsView { rate_concurrency: g.rate_concurrency, ..f }) && parse_unsigned(v, usize::MAX as int) == Some(g.rate_concurrency as int),
        set_flag(f, "rd"@, v) is Some <==> parse_unsigned(v, u64::MAX as int) is Some,
        set_flag(f, "rd"@, v) matches Some(g) ==> g == (FlagsView { rate_duration: g.rate_duration, ..f }) && parse_unsigned(v, u64::MAX as int) == Some(g.rate_duration as int),
        set_flag(f, "rr"@, v) is Some <==> parse_unsigned(v, usize::MAX as int) is Some,
        set_flag(f, "rr"@, v) matches Some(g) ==> g == (FlagsView { rate_send_rate: g.rate_send_rate, ..f }) && parse_unsigned(v, usize::MAX as int) == Some(g.rate_send_rate as int),
        set_flag(f, "rbs"@, v) is Some <==> parse_unsigned(v, usize::MAX as int) is Some,
        set_flag(f, "rbs"@, v) matches Some(g) ==> g == (FlagsView { rate_batch_size: g.rate_batch_size, ..f }) && parse_unsigned(v, usize::MAX as int) == Some(g.rate_batch_size as int),
        set_flag(f, "rpl"@, v) is Some <==> parse_i64(v) is Some,
        set_flag(f, "rpl"@, v) matches Some(g) ==> g == (FlagsView { rate_pipeline: g.rate_pipeline, ..f }) && parse_i64(v) == Some(g.rate_pipeline as int),
        set_flag(f, "rl"@, v) is Some <==> parse_unsigned(v, usize::MAX as int) is Some,
        set_flag(f, "rl"@, v) matches Some(g) ==> g == (FlagsView { rate_send_limit: g.rate_send_limit, ..f }) && parse_unsigned(v, usize::MAX as int) == Some(g.rate_send_limit as int),
        set_flag(f, "rp"@, v) is Some <==> parse_bool(v) is Some,
        set_flag(f, "rp"@, v) matches Some(g) ==> g == (FlagsView { rate_pprof: g.rate_pprof, ..f }) && parse_bool(v) == Some(g.rate_pprof),
        set_flag(f, "rpd"@, v) is Some <==> parse_unsigned(v, u64::MAX as int) is Some,
        set_flag(f, "rpd"@, v) matches Some(g) ==> g == (FlagsView { rate_pprof_duration: g.rate_pprof_duration, ..f }) && parse_unsigned(v, u64::MAX as int) == Some(g.rate_pprof_duration as int),
        set_flag(f, "r"@, v) is Some <==> parse_bool(v) is Some,
        set_flag(f, "r"@, v) matches Some(g) ==> g == (FlagsView { gen_report: g.gen_report, ..f }) && parse_bool(v) == Some(g.gen_report),
        set_flag(f, "preffix"@, v) is Some <==> true,
        set_flag(f, "preffix"@, v) matches Some(g) ==> g == (FlagsView { preffix: g.preffix, ..f }) && g.preffix == v,
        set_flag(f, "suffix"@, v) is Some <==> true,
        set_flag(f, "suffix"@, v) matches Some(g) ==> g == (FlagsView { suffix: g.suffix, ..f }) && g.suffix == v,
        set_flag(f, "sort"@, v) is Some <==> true,
        set_flag(f, "sort"@, v) matches Some(g) ==> g == (FlagsView { report_sort: g.report_sort, ..f }) && g.report_sort == v,
{
    reveal_strlit("nodelay");
    lemma_flag_mem_limit(f, v);
    lemma_flag_framework(f, v);
    lemma_flag_ip(f, v);
    lemma_flag_num_connections(f, v);
    lemma_flag_dial_concurrency(f, v);
    lemma_flag_dial_timeout(f, v);
    lemma_flag_dial_retries(f, v);
    lemma_flag_dial_retry_interval(f, v);
    lemma_flag_payload(f, v);
    lemma_flag_check_valid(f, v);
    lemma_flag_ps_interval_ms(f, v);
    lemma_flag_ps_mode(f, v);
    lemma_flag_enable_tpn(f, v);
    lemma_flag_echo_concurrency(f, v);
    lemma_flag_echo_times(f, v);
    lemma_flag_echo_tps_limit(f, v);
    lemma_flag_echo_pprof(f, v);
    lemma_flag_echo_pprof_duration(f, v);
    lemma_flag_rate_enabled(f, v);
    lemma_flag_rate_concurrency(f, v);
    lemma_flag_rate_duration(f, v);
    lemma_flag_rate_send_rate(f, v);
    lemma_flag_rate_batch_size(f, v);
    lemma_flag_rate_pipeline(f, v);
    lemma_flag_rate_send_limit(f, v);
    lemma_flag_rate_pprof(f, v);
    lemma_flag_rate_pprof_duration(f, v);
    lemma_flag_gen_report(f, v);
    lemma_flag_preffix(f, v);
    lemma_flag_suffix(f, v);
    lemma_flag_report_sort(f, v);
}

} // verus!
