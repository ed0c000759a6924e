//! What a run of the client decides around its benchmarks: whether the
//! flags make a run at all, the columns a benchmark's costs give its
//! report, and the rows each benchmark prints as it finishes.

use vstd::prelude::*;

use crate::config::{framework, known, lang};
use crate::flags::Flags;
use crate::http::{validate_pipeline, PipelineError};
use crate::report::{bench_client, ConnectionsReport};
use crate::bench::PipelineResult;
use crate::stats::{
    div_trunc, mem_string, mem_text, percentile, sum_i64, time_string, time_text, tps_of, Calc,
    MemColumns,
};
use crate::text::{decimal, push_char, push_decimal, str_eq};

verus! {

/// Why the flags make no run.
pub enum RunError {
    /// `-sort` is neither `result` nor `framework`.
    UnknownSort(String),
    /// `-ps` is none of `auto`, `local` and `remote`.
    UnknownPsMode(String),
    /// `-r` asks for the tables, which another tool makes.
    ReportsElsewhere,
    /// `-rate` with a `-rpl` the send rate cannot take.
    Pipeline(PipelineError),
    /// `-f` names no framework.
    UnknownFramework(String),
}

pub open spec fn sort_known(s: Seq<char>) -> bool {
    s == "result"@ || s == "framework"@
}

pub open spec fn ps_mode_known(s: Seq<char>) -> bool {
    s == "auto"@ || s == "local"@ || s == "remote"@
}

/// What `validate_pipeline` finds wrong with a pipeline depth at a rate.
pub open spec fn pipeline_problem(p: i64, rate: usize) -> Option<PipelineError> {
    if p < 0 {
        Some(PipelineError::Negative(p))
    } else if p > 0 && (rate as int) % (p as int) != 0 {
        Some(PipelineError::NotDivisor { pipeline: p, rate })
    } else {
        None
    }
}

/// The send rate a run uses: at least one request a second.
pub open spec fn effective_rate(rate: usize) -> usize {
    if rate == 0 {
        1
    } else {
        rate
    }
}

/// Whether the flags make a run: a known sort order and sampling mode, no
/// `-r`, a pipeline depth the rate takes (under `-rate`), and a known
/// framework.
pub open spec fn flags_ok(f: Flags) -> bool {
    &&& sort_known(f.report_sort@)
    &&& ps_mode_known(f.ps_mode@)
    &&& !f.gen_report
    &&& !(f.rate_enabled && pipeline_problem(f.rate_pipeline, effective_rate(f.rate_send_rate)) is Some)
    &&& framework(f.framework@) is Some
}

/// Checks the flags in the order the client does: the sort order, the
/// sampling mode, `-r`, the pipeline depth (under `-rate`), the framework.
pub fn check_flags(f: &Flags) -> (r: Result<(), RunError>)
    ensures
        r is Ok <==> flags_ok(*f),
        !sort_known(f.report_sort@) ==> (r matches Err(RunError::UnknownSort(s)) && s@
            == f.report_sort@),
        sort_known(f.report_sort@) && !ps_mode_known(f.ps_mode@) ==> (r matches Err(
            RunError::UnknownPsMode(m),
        ) && m@ == f.ps_mode@),
        sort_known(f.report_sort@) && ps_mode_known(f.ps_mode@) && f.gen_report ==> (r matches Err(
            RunError::ReportsElsewhere,
        )),
        sort_known(f.report_sort@) && ps_mode_known(f.ps_mode@) && !f.gen_report && f.rate_enabled
            && pipeline_problem(f.rate_pipeline, effective_rate(f.rate_send_rate)) is Some ==> (r matches Err(
            RunError::Pipeline(e),
        ) && Some(e) == pipeline_problem(f.rate_pipeline, effective_rate(f.rate_send_rate))),
        sort_known(f.report_sort@) && ps_mode_known(f.ps_mode@) && !f.gen_report && !(
        f.rate_enabled && pipeline_problem(f.rate_pipeline, effective_rate(f.rate_send_rate))
            is Some) && framework(f.framework@) is None ==> (r matches Err(
            RunError::UnknownFramework(n),
        ) && n@ == f.framework@),
        sort_known(f.report_sort@) && ps_mode_known(f.ps_mode@) && !f.gen_report && !(
        f.rate_enabled && pipeline_problem(f.rate_pipeline, effective_rate(f.rate_send_rate))
            is Some) && framework(f.framework@) is Some ==> r is Ok,
{
    if !(str_eq(f.report_sort.as_str(), "result") || str_eq(f.report_sort.as_str(), "framework")) {
        return Err(RunError::UnknownSort(f.report_sort.clone()));
    }
    if !(str_eq(f.ps_mode.as_str(), "auto") || str_eq(f.ps_mode.as_str(), "local") || str_eq(
        f.ps_mode.as_str(),
        "remote",
    )) {
        return Err(RunError::UnknownPsMode(f.ps_mode.clone()));
    }
    if f.gen_report {
        return Err(RunError::ReportsElsewhere);
    }
    if f.rate_enabled {
        let rate = if f.rate_send_rate == 0 {
            1
        } else {
            f.rate_send_rate
        };
        match validate_pipeline(f.rate_pipeline, rate) {
            Err(e) => {
                return Err(RunError::Pipeline(e));
            },
            Ok(()) => {},
        }
    }
    if !known(f.framework.as_str()) {
        return Err(RunError::UnknownFramework(f.framework.clone()));
    }
    Ok(())
}

/// The columns a benchmark's costs give its report: the percentiles only
/// under `-tpn`, 0 otherwise.
pub struct Latency {
    pub tps: i64,
    pub min: i64,
    pub avg: i64,
    pub max: i64,
    pub tp50: i64,
    pub tp75: i64,
    pub tp90: i64,
    pub tp95: i64,
    pub tp99: i64,
    pub used: i64,
    pub success: i64,
    pub failed: i64,
}

/// A percentile column: the percentile under `-tpn`, 0 otherwise.
pub open spec fn shown_percentile(c: Calc, p: int, enable_tpn: bool) -> int {
    if enable_tpn {
        percentile(c.costs(), p)
    } else {
        0
    }
}

/// The columns `c` gives.
pub fn latency(c: &Calc, enable_tpn: bool) -> (r: Latency)
    ensures
        r.tps == tps_of(c.successes(), c.used_nanos()),
        r.min == (if c.costs().len() == 0 {
            0
        } else {
            c.costs()[0]
        }),
        r.avg == (if c.costs().len() == 0 {
            0
        } else {
            div_trunc(sum_i64(c.costs()), c.costs().len() as int)
        }),
        r.max == (if c.costs().len() == 0 {
            0
        } else {
            c.costs().last()
        }),
        r.tp50 == shown_percentile(*c, 50, enable_tpn),
        r.tp75 == shown_percentile(*c, 75, enable_tpn),
        r.tp90 == shown_percentile(*c, 90, enable_tpn),
        r.tp95 == shown_percentile(*c, 95, enable_tpn),
        r.tp99 == shown_percentile(*c, 99, enable_tpn),
        r.used == c.used_nanos() as i64,
        r.success == c.successes(),
        r.failed == c.failures(),
{
    let tpn = |p: u32| -> (t: i64)
        ensures
            t == shown_percentile(*c, p as int, enable_tpn),
        {
            if enable_tpn {
                c.tpn(p)
            } else {
                0
            }
        };
    Latency {
        tps: c.tps(),
        min: c.min(),
        avg: c.avg(),
        max: c.max(),
        tp50: tpn(50),
        tp75: tpn(75),
        tp90: tpn(90),
        tp95: tpn(95),
        tp99: tpn(99),
        used: #[verifier::truncate] (c.used() as i64),
        success: c.success(),
        failed: c.failed(),
    }
}

/// The Connections report of a run on `framework_name`.
pub fn connections_report(
    framework_name: &str,
    c: &Calc,
    enable_tpn: bool,
    total: usize,
    concurrency: usize,
) -> (r: ConnectionsReport)
    ensures
        r.framework@ == framework_name@,
        r.lang@ == (match framework(framework_name@) {
            Some(f) => f.lang,
            None => "-"@,
        }),
        r.bench_client@ == "benchcli-rust"@,
        ({
            let l = latency_of(*c, enable_tpn);
            &&& r.tps == l.tps && r.min == l.min && r.avg == l.avg && r.max == l.max
            &&& r.tp50 == l.tp50 && r.tp75 == l.tp75 && r.tp90 == l.tp90
            &&& r.tp95 == l.tp95 && r.tp99 == l.tp99
            &&& r.used == l.used && r.success == l.success && r.failed == l.failed
        }),
        r.total == total,
        r.concurrency == concurrency,
{
    let l = latency(c, enable_tpn);
    let mut name = String::new();
    name.append(framework_name);
    let mut language = String::new();
    language.append(lang(framework_name));
    let mut client = String::new();
    client.append(bench_client());
    ConnectionsReport {
        framework: name,
        lang: language,
        bench_client: client,
        tps: l.tps,
        min: l.min,
        avg: l.avg,
        max: l.max,
        tp50: l.tp50,
        tp75: l.tp75,
        tp90: l.tp90,
        tp95: l.tp95,
        tp99: l.tp99,
        used: l.used,
        total,
        success: l.success,
        failed: l.failed,
        concurrency,
    }
}

/// The columns `latency` gives for `c`.
pub open spec fn latency_of(c: Calc, enable_tpn: bool) -> Latency {
    Latency {
        tps: tps_of(c.successes(), c.used_nanos()) as i64,
        min: (if c.costs().len() == 0 {
            0
        } else {
            c.costs()[0]
        }),
        avg: (if c.costs().len() == 0 {
            0
        } else {
            div_trunc(sum_i64(c.costs()), c.costs().len() as int)
        }) as i64,
        max: (if c.costs().len() == 0 {
            0
        } else {
            c.costs().last()
        }),
        tp50: shown_percentile(c, 50, enable_tpn) as i64,
        tp75: shown_percentile(c, 75, enable_tpn) as i64,
        tp90: shown_percentile(c, 90, enable_tpn) as i64,
        tp95: shown_percentile(c, 95, enable_tpn) as i64,
        tp99: shown_percentile(c, 99, enable_tpn) as i64,
        used: c.used_nanos() as i64,
        success: c.successes() as i64,
        failed: c.failures() as i64,
    }
}

/// `v` in decimal, with a `-` when it is negative: `i64::to_string`.
pub fn signed_string(v: i64) -> (r: String)
    ensures
        r@ == crate::stats::signed_decimal(v as int),
{
    let mut s = String::new();
    if v < 0 {
        push_char(&mut s, '-');
        push_decimal(&mut s, (-(v as i128)) as u64);
    } else {
        push_decimal(&mut s, v as u64);
    }
    proof {
        assert(s@ =~= crate::stats::signed_decimal(v as int));
    }
    s
}

/// `v` in decimal: `usize::to_string`.
pub fn count_string(v: usize) -> (r: String)
    ensures
        r@ == decimal(v as nat),
{
    let mut s = String::new();
    push_decimal(&mut s, v as u64);
    proof {
        assert(s@ =~= decimal(v as nat));
    }
    s
}

/// A console row as text: its header, its value, and whether it is a
/// percentile row.
pub open spec fn row_view(r: (&str, String, bool)) -> (Seq<char>, Seq<char>, bool) {
    let (h, v, t) = r;
    (h@, v@, t)
}

/// The rows the Connections benchmark prints.
pub fn connections_rows(r: &ConnectionsReport, client: &str) -> (rows: Vec<(&'static str, String, bool)>)
    ensures
        rows@.map_values(|x: (&'static str, String, bool)| row_view(x)) == seq![
            ("Framework"@, r.framework@, false),
            ("Lang"@, r.lang@, false),
            ("Client"@, client@, false),
            ("TPS"@, crate::stats::signed_decimal(r.tps as int), false),
            ("Min"@, time_text(r.min as int), true),
            ("Avg"@, time_text(r.avg as int), true),
            ("Max"@, time_text(r.max as int), true),
            ("TP95"@, time_text(r.tp95 as int), true),
            ("TP99"@, time_text(r.tp99 as int), true),
            ("Used"@, time_text(r.used as int), false),
            ("Total"@, decimal(r.total as nat), false),
            ("Success"@, crate::stats::signed_decimal(r.success as int), false),
            ("Failed"@, crate::stats::signed_decimal(r.failed as int), false),
            ("Concurrency"@, decimal(r.concurrency as nat), false),
        ],
{
    let mut client_text = String::new();
    client_text.append(client);
    let rows = vec![
        ("Framework", r.framework.clone(), false),
        ("Lang", r.lang.clone(), false),
        ("Client", client_text, false),
        ("TPS", signed_string(r.tps), false),
        ("Min", time_string(r.min), true),
        ("Avg", time_string(r.avg), true),
        ("Max", time_string(r.max), true),
        ("TP95", time_string(r.tp95), true),
        ("TP99", time_string(r.tp99), true),
        ("Used", time_string(r.used), false),
        ("Total", count_string(r.total), false),
        ("Success", signed_string(r.success), false),
        ("Failed", signed_string(r.failed), false),
        ("Concurrency", count_string(r.concurrency), false),
    ];
    proof {
        assert(rows@.map_values(|x: (&'static str, String, bool)| row_view(x)) =~= seq![
            ("Framework"@, r.framework@, false),
            ("Lang"@, r.lang@, false),
            ("Client"@, client@, false),
            ("TPS"@, crate::stats::signed_decimal(r.tps as int), false),
            ("Min"@, time_text(r.min as int), true),
            ("Avg"@, time_text(r.avg as int), true),
            ("Max"@, time_text(r.max as int), true),
            ("TP95"@, time_text(r.tp95 as int), true),
            ("TP99"@, time_text(r.tp99 as int), true),
            ("Used"@, time_text(r.used as int), false),
            ("Total"@, decimal(r.total as nat), false),
            ("Success"@, crate::stats::signed_decimal(r.success as int), false),
            ("Failed"@, crate::stats::signed_decimal(r.failed as int), false),
            ("Concurrency"@, decimal(r.concurrency as nat), false),
        ]);
    }
    rows
}

/// The echo benchmark's columns, but for those that are fractions (its
/// EER and CPU), which the caller formats.
pub struct EchoFigures {
    pub framework: String,
    pub lang: String,
    pub latency: Latency,
    pub total: usize,
    pub connections: usize,
    pub concurrency: usize,
    pub payload: usize,
    pub mem: MemColumns,
}

/// The rows the echo benchmark prints; `eer`, `cpu_avg` and `cpu_max` come
/// formatted.
pub fn echo_rows(f: &EchoFigures, client: &str, eer: String, cpu_avg: String, cpu_max: String) -> (rows:
    Vec<(&'static str, String, bool)>)
    ensures
        rows@.map_values(|x: (&'static str, String, bool)| row_view(x)) == seq![
            ("Framework"@, f.framework@, false),
            ("Lang"@, f.lang@, false),
            ("Client"@, client@, false),
            ("TPS"@, crate::stats::signed_decimal(f.latency.tps as int), false),
            ("EER"@, eer@, false),
            ("Min"@, time_text(f.latency.min as int), true),
            ("Avg"@, time_text(f.latency.avg as int), true),
            ("Max"@, time_text(f.latency.max as int), true),
            ("TP95"@, time_text(f.latency.tp95 as int), true),
            ("TP99"@, time_text(f.latency.tp99 as int), true),
            ("Used"@, time_text(f.latency.used as int), false),
            ("Total"@, decimal(f.total as nat), false),
            ("Success"@, crate::stats::signed_decimal(f.latency.success as int), false),
            ("Failed"@, crate::stats::signed_decimal(f.latency.failed as int), false),
            ("Conns"@, decimal(f.connections as nat), false),
            ("Concurrency"@, decimal(f.concurrency as nat), false),
            ("Payload"@, decimal(f.payload as nat), false),
            ("CPU Avg"@, cpu_avg@, false),
            ("CPU Max"@, cpu_max@, false),
            ("MEM Avg"@, mem_text(f.mem.avg as int), false),
            ("MEM Max"@, mem_text(f.mem.max as int), false),
        ],
{
    let mut client_text = String::new();
    client_text.append(client);
    let rows = vec![
        ("Framework", f.framework.clone(), false),
        ("Lang", f.lang.clone(), false),
        ("Client", client_text, false),
        ("TPS", signed_string(f.latency.tps), false),
        ("EER", eer, false),
        ("Min", time_string(f.latency.min), true),
        ("Avg", time_string(f.latency.avg), true),
        ("Max", time_string(f.latency.max), true),
        ("TP95", time_string(f.latency.tp95), true),
        ("TP99", time_string(f.latency.tp99), true),
        ("Used", time_string(f.latency.used), false),
        ("Total", count_string(f.total), false),
        ("Success", signed_string(f.latency.success), false),
        ("Failed", signed_string(f.latency.failed), false),
        ("Conns", count_string(f.connections), false),
        ("Concurrency", count_string(f.concurrency), false),
        ("Payload", count_string(f.payload), false),
        ("CPU Avg", cpu_avg, false),
        ("CPU Max", cpu_max, false),
        ("MEM Avg", mem_string(f.mem.avg), false),
        ("MEM Max", mem_string(f.mem.max), false),
    ];
    assert(rows@.map_values(|x: (&'static str, String, bool)| row_view(x)) =~= seq![
        ("Framework"@, f.framework@, false),
        ("Lang"@, f.lang@, false),
        ("Client"@, client@, false),
        ("TPS"@, crate::stats::signed_decimal(f.latency.tps as int), false),
        ("EER"@, eer@, false),
        ("Min"@, time_text(f.latency.min as int), true),
        ("Avg"@, time_text(f.latency.avg as int), true),
        ("Max"@, time_text(f.latency.max as int), true),
        ("TP95"@, time_text(f.latency.tp95 as int), true),
        ("TP99"@, time_text(f.latency.tp99 as int), true),
        ("Used"@, time_text(f.latency.used as int), false),
        ("Total"@, decimal(f.total as nat), false),
        ("Success"@, crate::stats::signed_decimal(f.latency.success as int), false),
        ("Failed"@, crate::stats::signed_decimal(f.latency.failed as int), false),
        ("Conns"@, decimal(f.connections as nat), false),
        ("Concurrency"@, decimal(f.concurrency as nat), false),
        ("Payload"@, decimal(f.payload as nat), false),
        ("CPU Avg"@, cpu_avg@, false),
        ("CPU Max"@, cpu_max@, false),
        ("MEM Avg"@, mem_text(f.mem.avg as int), false),
        ("MEM Max"@, mem_text(f.mem.max as int), false),
    ]);
    rows
}

/// The pipelined benchmark's columns, but for those that are fractions
/// (its EER and CPU), which the caller formats; `tps` is the whole
/// responses a second.
pub struct PipelineFigures {
    pub framework: String,
    pub lang: String,
    pub duration: i64,
    pub tps: i64,
    pub result: PipelineResult,
    pub connections: usize,
    pub send_rate: usize,
    pub payload: usize,
    pub mem: MemColumns,
}

/// The rows the pipelined benchmark prints; `eer`, `cpu_avg` and `cpu_max`
/// come formatted, and the byte counts show as sizes.
pub fn pipeline_rows(f: &PipelineFigures, client: &str, eer: String, cpu_avg: String, cpu_max: String) -> (rows:
    Vec<(&'static str, String, bool)>)
    ensures
        rows@.map_values(|x: (&'static str, String, bool)| row_view(x)) == seq![
            ("Framework"@, f.framework@, false),
            ("Lang"@, f.lang@, false),
            ("Client"@, client@, false),
            ("Duration"@, time_text(f.duration as int), false),
            ("TPS"@, crate::stats::signed_decimal(f.tps as int), false),
            ("EER"@, eer@, false),
            ("Req Sent"@, crate::stats::signed_decimal(f.result.send_times as int), false),
            ("Bytes Sent"@, mem_text(f.result.send_bytes as u64 as int), false),
            ("Resp Recv"@, crate::stats::signed_decimal(f.result.recv_times as int), false),
            ("Bytes Recv"@, mem_text(f.result.recv_bytes as u64 as int), false),
            ("Conns"@, decimal(f.connections as nat), false),
            ("Concurrency"@, decimal(f.result.concurrency as nat), false),
            ("SendRate"@, decimal(f.send_rate as nat), false),
            ("Pipeline"@, decimal(f.result.batch as nat), false),
            ("Payload"@, decimal(f.payload as nat), false),
            ("CPU Avg"@, cpu_avg@, false),
            ("CPU Max"@, cpu_max@, false),
            ("MEM Avg"@, mem_text(f.mem.avg as int), false),
            ("MEM Max"@, mem_text(f.mem.max as int), false),
        ],
{
    let mut client_text = String::new();
    client_text.append(client);
    let sent_bytes = #[verifier::truncate] (f.result.send_bytes as u64);
    let recv_bytes = #[verifier::truncate] (f.result.recv_bytes as u64);
    let rows = vec![
        ("Framework", f.framework.clone(), false),
        ("Lang", f.lang.clone(), false),
        ("Client", client_text, false),
        ("Duration", time_string(f.duration), false),
        ("TPS", signed_string(f.tps), false),
        ("EER", eer, false),
        ("Req Sent", signed_string(f.result.send_times), false),
        ("Bytes Sent", mem_string(sent_bytes), false),
        ("Resp Recv", signed_string(f.result.recv_times), false),
        ("Bytes Recv", mem_string(recv_bytes), false),
        ("Conns", count_string(f.connections), false),
        ("Concurrency", count_string(f.result.concurrency), false),
        ("SendRate", count_string(f.send_rate), false),
        ("Pipeline", count_string(f.result.batch), false),
        ("Payload", count_string(f.payload), false),
        ("CPU Avg", cpu_avg, false),
        ("CPU Max", cpu_max, false),
        ("MEM Avg", mem_string(f.mem.avg), false),
        ("MEM Max", mem_string(f.mem.max), false),
    ];
    assert(rows@.map_values(|x: (&'static str, String, bool)| row_view(x)) =~= seq![
        ("Framework"@, f.framework@, false),
        ("Lang"@, f.lang@, false),
        ("Client"@, client@, false),
        ("Duration"@, time_text(f.duration as int), false),
        ("TPS"@, crate::stats::signed_decimal(f.tps as int), false),
        ("EER"@, eer@, false),
        ("Req Sent"@, crate::stats::signed_decimal(f.result.send_times as int), false),
        ("Bytes Sent"@, mem_text(f.result.send_bytes as u64 as int), false),
        ("Resp Recv"@, crate::stats::signed_decimal(f.result.recv_times as int), false),
        ("Bytes Recv"@, mem_text(f.result.recv_bytes as u64 as int), false),
        ("Conns"@, decimal(f.connections as nat), false),
        ("Concurrency"@, decimal(f.result.concurrency as nat), false),
        ("SendRate"@, decimal(f.send_rate as nat), false),
        ("Pipeline"@, decimal(f.result.batch as nat), false),
        ("Payload"@, decimal(f.payload as nat), false),
        ("CPU Avg"@, cpu_avg@, false),
        ("CPU Max"@, cpu_max@, false),
        ("MEM Avg"@, mem_text(f.mem.avg as int), false),
        ("MEM Max"@, mem_text(f.mem.max as int), false),
    ]);
    rows
}

/// Every documented sort order and sampling mode makes a run: with `-sort`
/// `result` or `framework`, `-ps` `auto`, `local` or `remote`, no `-r`, a
/// known framework, and a pipeline depth the rate takes or no `-rate`,
/// the flags are taken.
pub proof fn law_documented_modes_run(f: Flags)
    requires
        f.report_sort@ == "result"@ || f.report_sort@ == "framework"@,
        f.ps_mode@ == "auto"@ || f.ps_mode@ == "local"@ || f.ps_mode@ == "remote"@,
        !f.gen_report,
        !f.rate_enabled || (f.rate_pipeline == 0),
        framework(f.framework@) is Some,
    ensures
        flags_ok(f),
{
}

/// The flags by default make a run, whichever documented sampling mode and
/// sort order they are given.
pub proof fn law_defaults_run(f: Flags)
    requires
        f@ == (crate::flags::FlagsView { ps_mode: f.ps_mode@, report_sort: f.report_sort@, ..crate::flags::default_flags() }),
        f.report_sort@ == "result"@ || f.report_sort@ == "framework"@,
        f.ps_mode@ == "auto"@ || f.ps_mode@ == "local"@ || f.ps_mode@ == "remote"@,
    ensures
        flags_ok(f),
{
    crate::config::lemma_nethttp_known();
}

} // verus!
