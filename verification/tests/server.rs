use benchcli::server::{init_interval, parse_flags, sample_interval, ServerFlagError, ServerFlags};

fn args(list: &[&str]) -> Vec<String> {
    list.iter().map(|s| s.to_string()).collect()
}

#[test]
fn server_defaults() {
    let f = parse_flags(&Vec::new()).unwrap();
    assert_eq!(
        f,
        ServerFlags { nodelay: true, reuseport: true, payload: 1024, mem_limit: 2 << 30 }
    );
}

#[test]
fn server_flags_in_go_syntax() {
    let f = parse_flags(&args(&["-nodelay=false", "--reuseport", "-b", "4096", "-m=-1"])).unwrap();
    assert_eq!(
        f,
        ServerFlags { nodelay: false, reuseport: true, payload: 4096, mem_limit: -1 }
    );
    let g = parse_flags(&args(&["-reuseport=0", "-b=+8"])).unwrap();
    assert!(!g.reuseport && g.payload == 8);
}

#[test]
fn server_flag_errors() {
    assert!(matches!(parse_flags(&args(&["-h"])), Err(ServerFlagError::Help)));
    match parse_flags(&args(&["stray"])) {
        Err(ServerFlagError::Unexpected(a)) => assert_eq!(a, "stray"),
        other => panic!("{:?}", other),
    }
    match parse_flags(&args(&["-x=1"])) {
        Err(ServerFlagError::Undefined(n)) => assert_eq!(n, "x"),
        other => panic!("{:?}", other),
    }
    match parse_flags(&args(&["-b"])) {
        Err(ServerFlagError::NeedsArgument(n)) => assert_eq!(n, "b"),
        other => panic!("{:?}", other),
    }
    match parse_flags(&args(&["-nodelay=yes"])) {
        Err(ServerFlagError::InvalidBool { name, value }) => {
            assert_eq!((name.as_str(), value.as_str()), ("nodelay", "yes"))
        }
        other => panic!("{:?}", other),
    }
    match parse_flags(&args(&["-m", "lots"])) {
        Err(ServerFlagError::InvalidValue { name, value }) => {
            assert_eq!((name.as_str(), value.as_str()), ("m", "lots"))
        }
        other => panic!("{:?}", other),
    }
}

#[test]
fn sampling_intervals() {
    assert_eq!(sample_interval(Some(250_000_000)), 250_000_000);
    assert_eq!(sample_interval(Some(0)), 1_000_000_000);
    assert_eq!(sample_interval(None), 1_000_000_000);
}

#[test]
fn listen_backlogs() {
    assert_eq!(benchcli::server::somaxconn_of("4096\n"), 4096);
    assert_eq!(benchcli::server::somaxconn_of(" 65535 "), 65535);
    assert_eq!(benchcli::server::somaxconn_of(""), 4096);
    assert_eq!(benchcli::server::somaxconn_of("lots"), 4096);
}

#[test]
fn server_flags_end_at_double_dash() {
    let f = parse_flags(&args(&["-b=64", "--", "stray", "-x"])).unwrap();
    assert_eq!(f.payload, 64);
    match parse_flags(&args(&["-"])) {
        Err(ServerFlagError::Unexpected(a)) => assert_eq!(a, "-"),
        other => panic!("{:?}", other),
    }
    match parse_flags(&args(&["--=x"])) {
        Err(ServerFlagError::BadSyntax(a)) => assert_eq!(a, "--=x"),
        other => panic!("{:?}", other),
    }
}

#[test]
fn init_bodies_set_the_interval() {
    assert_eq!(init_interval(br#"{"PsInterval":250000000}"#), 250_000_000);
    assert_eq!(init_interval(br#"{"PsInterval": 7, "x": 1}"#), 7);
    assert_eq!(init_interval(br#"{"PsInterval":0}"#), 1_000_000_000);
    assert_eq!(init_interval(br#"{"PsInterval":-5}"#), 1_000_000_000);
    assert_eq!(init_interval(br#"{"PsInterval":1.5}"#), 1_000_000_000);
    assert_eq!(init_interval(br#"{"Other":9}"#), 1_000_000_000);
    assert_eq!(init_interval(b"not json"), 1_000_000_000);
    assert_eq!(init_interval(b""), 1_000_000_000);
}
