use benchcli::duration::parse_duration;
use benchcli::flags::{parse, FlagError, Flags};

fn args(list: &[&str]) -> Vec<String> {
    list.iter().map(|s| s.to_string()).collect()
}

#[test]
fn go_flag_syntax() {
    let a = args(&["-f=axum", "-c", "100", "--check", "-ep=true", "-dt=1m30s", "-rpl=25"]);
    let f = match parse(&a) {
        Ok(f) => f,
        Err(e) => panic!("{e:?}"),
    };
    assert_eq!(f.framework, "axum");
    assert_eq!(f.num_connections, 100);
    assert!(f.check_valid);
    assert!(f.echo_pprof);
    assert!(!Flags::default().echo_pprof);
    assert_eq!(f.dial_timeout, std::time::Duration::from_secs(90).as_nanos() as u64);
    assert_eq!(f.rate_pipeline, 25);
}

#[test]
fn durations() {
    let ns = |d: std::time::Duration| d.as_nanos() as u64;
    assert_eq!(parse_duration("100ms"), Ok(ns(std::time::Duration::from_millis(100))));
    assert_eq!(parse_duration("1.5s"), Ok(ns(std::time::Duration::from_millis(1500))));
    assert_eq!(parse_duration("0"), Ok(0));
    assert!(parse_duration("5").is_err());
    assert!(parse_duration("5x").is_err());
}

#[test]
fn duration_units_and_terms() {
    assert_eq!(parse_duration("1h2m3s"), Ok(3_723_000_000_000));
    assert_eq!(parse_duration("250us"), Ok(250_000));
    assert_eq!(parse_duration("250µs"), Ok(250_000));
    assert_eq!(parse_duration("7ns"), Ok(7));
    assert_eq!(parse_duration(".5s"), Ok(500_000_000));
    assert_eq!(parse_duration("1.s"), Ok(1_000_000_000));
    assert!(parse_duration("+2ms").is_err());
    assert!(parse_duration("").is_err());
    assert!(parse_duration("-1s").is_err());
    assert!(parse_duration(".s").is_err());
    assert!(parse_duration("6000000h").is_err());
}

#[test]
fn no_arguments_leave_the_defaults() {
    let f = parse(&Vec::new()).unwrap();
    let d = Flags::default();
    assert_eq!(f.framework, "nethttp");
    assert_eq!(f.ip, "127.0.0.1");
    assert_eq!(f.num_connections, d.num_connections);
    assert_eq!(f.num_connections, 10000);
    assert_eq!(f.dial_timeout, 5_000_000_000);
    assert_eq!(f.rate_send_rate, 200);
    assert_eq!(f.rate_batch_size, 16384);
    assert_eq!(f.report_sort, "result");
    assert_eq!(f.ps_mode, "auto");
    assert!(f.enable_tpn);
}

#[test]
fn the_first_non_flag_ends_the_flags() {
    let f = parse(&args(&["-c=7", "extra", "-c=9"])).unwrap();
    assert_eq!(f.num_connections, 7);
}

#[test]
fn flag_errors() {
    assert!(matches!(parse(&args(&["-h"])), Err(FlagError::Help)));
    assert!(matches!(parse(&args(&["--help"])), Err(FlagError::Help)));
    match parse(&args(&["-nope=1"])) {
        Err(FlagError::Undefined(n)) => assert_eq!(n, "nope"),
        other => panic!("{:?}", other.err()),
    }
    match parse(&args(&["-c"])) {
        Err(FlagError::NeedsArgument(n)) => assert_eq!(n, "c"),
        other => panic!("{:?}", other.err()),
    }
    match parse(&args(&["-c", "ten"])) {
        Err(FlagError::InvalidValue { name, value }) => {
            assert_eq!((name.as_str(), value.as_str()), ("c", "ten"))
        }
        other => panic!("{:?}", other.err()),
    }
    match parse(&args(&["-check=maybe"])) {
        Err(FlagError::InvalidValue { name, value }) => {
            assert_eq!((name.as_str(), value.as_str()), ("check", "maybe"))
        }
        other => panic!("{:?}", other.err()),
    }
}

#[test]
fn bools_take_go_spellings() {
    let f = parse(&args(&["-tpn=F", "-check=1", "-rate=True"])).unwrap();
    assert!(!f.enable_tpn);
    assert!(f.check_valid);
    assert!(f.rate_enabled);
}

#[test]
fn numbers_take_a_sign() {
    let f = parse(&args(&["-m=-5", "-rpl", "-3", "-b=+64"])).unwrap();
    assert_eq!(f.mem_limit, -5);
    assert_eq!(f.rate_pipeline, -3);
    assert_eq!(f.payload, 64);
}

#[test]
fn double_dash_and_lone_dash_end_the_flags() {
    let f = parse(&args(&["-c", "5", "--", "-c", "7"])).unwrap();
    assert_eq!(f.num_connections, 5);
    let g = parse(&args(&["-c=6", "-", "-c=8"])).unwrap();
    assert_eq!(g.num_connections, 6);
    let h = parse(&args(&["--c=9", "--"])).unwrap();
    assert_eq!(h.num_connections, 9);
}

#[test]
fn bad_flag_syntax() {
    match parse(&args(&["---c=1"])) {
        Err(FlagError::BadSyntax(a)) => assert_eq!(a, "---c=1"),
        other => panic!("{:?}", other.err()),
    }
    match parse(&args(&["-=1"])) {
        Err(FlagError::BadSyntax(a)) => assert_eq!(a, "-=1"),
        other => panic!("{:?}", other.err()),
    }
}

#[test]
fn two_part_durations_add_up() {
    for (a, b) in [("1m", "30s"), ("1.5h", "2ms"), ("300ms", "0.5us"), ("2h", "45m")] {
        let whole = parse_duration(&format!("{a}{b}")).unwrap();
        assert_eq!(whole, parse_duration(a).unwrap() + parse_duration(b).unwrap(), "{a}{b}");
    }
    assert_eq!(parse_duration("1m30s"), Ok(90_000_000_000));
    assert!(parse_duration("5s0").is_err());
}
