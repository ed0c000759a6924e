use benchcli::bench::PipelineResult;
use benchcli::control::{
    control_step, init_body, init_pid, ps_rss, sample_step, setup_step, ControlStep, InitReply, SetupAction,
    SetupEvent,
};
use benchcli::flags::{parse, Flags};
use benchcli::http::PipelineError;
use benchcli::report::console;
use benchcli::run::{
    check_flags, connections_report, connections_rows, count_string, echo_rows, latency,
    pipeline_rows, signed_string, EchoFigures, PipelineFigures, RunError,
};
use benchcli::stats::{Calc, MemColumns};

fn flags(list: &[&str]) -> Flags {
    parse(&list.iter().map(|s| s.to_string()).collect()).unwrap()
}

#[test]
fn flags_that_make_no_run() {
    assert!(check_flags(&Flags::default()).is_ok());
    assert!(matches!(check_flags(&flags(&["-sort=speed"])), Err(RunError::UnknownSort(s)) if s == "speed"));
    assert!(matches!(check_flags(&flags(&["-ps=cloud"])), Err(RunError::UnknownPsMode(m)) if m == "cloud"));
    assert!(matches!(check_flags(&flags(&["-r"])), Err(RunError::ReportsElsewhere)));
    assert!(matches!(
        check_flags(&flags(&["-rate", "-rpl=3"])),
        Err(RunError::Pipeline(PipelineError::NotDivisor { pipeline: 3, rate: 200 }))
    ));
    assert!(check_flags(&flags(&["-rpl=3"])).is_ok());
    assert!(matches!(
        check_flags(&flags(&["-rate", "-rr=0", "-rpl=2"])),
        Err(RunError::Pipeline(PipelineError::NotDivisor { pipeline: 2, rate: 1 }))
    ));
    assert!(matches!(check_flags(&flags(&["-f=nope"])), Err(RunError::UnknownFramework(n)) if n == "nope"));
    assert!(matches!(check_flags(&flags(&["-sort=x", "-f=nope"])), Err(RunError::UnknownSort(_))));
}

#[test]
fn report_columns() {
    let c = Calc::new(2_000_000_000, vec![5, 1, 3, 2, 4], 1);
    let l = latency(&c, true);
    assert_eq!((l.tps, l.min, l.avg, l.max, l.tp50, l.tp99), (2, 1, 3, 5, 3, 5));
    assert_eq!((l.used, l.success, l.failed), (2_000_000_000, 5, 1));
    let quiet = latency(&c, false);
    assert_eq!((quiet.tp50, quiet.tp99, quiet.max), (0, 0, 5));
    let r = connections_report("gin", &c, true, 10, 4);
    assert_eq!((r.framework.as_str(), r.lang.as_str(), r.bench_client.as_str()), ("gin", "go", "benchcli-rust"));
    assert_eq!((r.tps, r.tp75, r.total, r.concurrency), (2, 4, 10, 4));
}

#[test]
fn console_rows() {
    let c = Calc::new(1_500_000_000, vec![2_000_000, 1_000], 0);
    let r = connections_report("axum", &c, true, 2, 1);
    let rows = connections_rows(&r, "rust-tokio");
    assert_eq!(rows.len(), 14);
    assert_eq!(rows[3], ("TPS", "1".to_string(), false));
    assert_eq!(rows[4], ("Min", "1.00us".to_string(), true));
    assert_eq!(rows[6], ("Max", "2.00ms".to_string(), true));
    assert_eq!(rows[9], ("Used", "1.50s".to_string(), false));
    let text = console("Connections", &rows, false);
    assert!(text.starts_with("BenchType  : Connections\nFramework  : axum\nLang       : rust\n"));
    assert!(!text.contains("TP99"));

    let f = EchoFigures {
        framework: "gin".into(),
        lang: "go".into(),
        latency: latency(&c, false),
        total: 2,
        connections: 3,
        concurrency: 1,
        payload: 1024,
        mem: MemColumns { min: 1, avg: 2048, max: 3 << 20 },
    };
    let e = echo_rows(&f, "rust-tokio", "12.50".into(), "8.00%".into(), "9.00%".into());
    assert_eq!(e.len(), 21);
    assert_eq!(e[4], ("EER", "12.50".to_string(), false));
    assert_eq!(e[19], ("MEM Avg", "2.00K".to_string(), false));
    assert_eq!(e[20], ("MEM Max", "3.00M".to_string(), false));

    let p = PipelineFigures {
        framework: "gin".into(),
        lang: "go".into(),
        duration: 10_000_000_000,
        tps: 199,
        result: PipelineResult {
            concurrency: 2,
            batch: 10,
            send_times: 2000,
            send_bytes: 2048,
            recv_times: 1990,
            recv_bytes: 1024,
        },
        connections: 2,
        send_rate: 200,
        payload: 1024,
        mem: MemColumns { min: 0, avg: 0, max: 0 },
    };
    let q = pipeline_rows(&p, "rust-tokio", "1.00".into(), "0.00%".into(), "0.00%".into());
    assert_eq!(q.len(), 19);
    assert_eq!(q[3], ("Duration", "10.00s".to_string(), false));
    assert_eq!(q[7], ("Bytes Sent", "2.00K".to_string(), false));
    assert_eq!(q[13], ("Pipeline", "10".to_string(), false));
}

#[test]
fn numbers_as_text() {
    assert_eq!(signed_string(-42), "-42");
    assert_eq!(signed_string(i64::MIN), i64::MIN.to_string());
    assert_eq!(count_string(0), "0");
    assert_eq!(count_string(usize::MAX), usize::MAX.to_string());
}

#[test]
fn control_retries() {
    assert!(matches!(control_step(1, 4, Some(200)), ControlStep::Accept));
    assert!(matches!(control_step(1, 4, Some(404)), ControlStep::Reject));
    assert!(matches!(control_step(1, 4, None), ControlStep::Retry { backoff_secs: 2 }));
    assert!(matches!(control_step(3, 4, None), ControlStep::Retry { backoff_secs: 6 }));
    assert!(matches!(control_step(4, 4, None), ControlStep::GiveUp));
    assert_eq!(init_body(1_000_000_000), "{\"PsInterval\":1000000000}");
    assert_eq!(init_pid(" 4242\n"), Some(4242));
    assert_eq!(init_pid("not a pid"), None);
}

#[test]
fn sample_setup_order() {
    assert_eq!(setup_step(true, SetupEvent::Began), SetupAction::SampleHere);
    assert_eq!(setup_step(false, SetupEvent::Began), SetupAction::AskInit);
    assert_eq!(setup_step(true, SetupEvent::SampledHere(Some(42))), SetupAction::UseLocal(42));
    assert_eq!(setup_step(true, SetupEvent::SampledHere(None)), SetupAction::AskInit);
    assert_eq!(setup_step(true, SetupEvent::InitAnswered(InitReply::Pid(7))), SetupAction::CheckPid(7));
    assert_eq!(setup_step(false, SetupEvent::InitAnswered(InitReply::Pid(7))), SetupAction::UseRemote(7));
    assert_eq!(setup_step(true, SetupEvent::InitAnswered(InitReply::Failed)), SetupAction::GiveUp);
    assert_eq!(setup_step(false, SetupEvent::InitAnswered(InitReply::NotPid)), SetupAction::GiveUp);
    assert_eq!(
        setup_step(true, SetupEvent::Checked { pid: 7, is_server: true }),
        SetupAction::SampleWithFallback(7)
    );
    assert_eq!(setup_step(true, SetupEvent::Checked { pid: 7, is_server: false }), SetupAction::UseRemote(7));
    assert_eq!(
        setup_step(true, SetupEvent::SampledWithFallback { pid: 7, started: false }),
        SetupAction::UseRemote(7)
    );
    assert_eq!(
        setup_step(true, SetupEvent::SampledWithFallback { pid: 7, started: true }),
        SetupAction::UseLocal(7)
    );
}

#[test]
fn sampling_stops_after_five_failures_in_a_row() {
    assert_eq!(sample_step(0, true), (0, false));
    assert_eq!(sample_step(3, true), (0, false));
    assert_eq!(sample_step(0, false), (1, false));
    assert_eq!(sample_step(3, false), (4, false));
    assert_eq!(sample_step(4, false), (5, true));
    assert_eq!(sample_step(u32::MAX, false), (u32::MAX, true));
}

#[test]
fn ps_bodies_give_their_memory_samples() {
    let body = br#"{"cpu":[1.5,2.0],"mem":[{"rss":100},{"vms":3},{"rss":"x"},{"rss":300}]}"#;
    assert_eq!(ps_rss(body), Some(vec![100, 300]));
    assert_eq!(ps_rss(br#"{"cpu":[]}"#), Some(vec![]));
    assert_eq!(ps_rss(br#"{"mem":[]}"#), Some(vec![]));
    assert_eq!(ps_rss(b"<html>"), None);
}
