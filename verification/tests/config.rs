use benchcli::config::{
    base_name, benchmark_addrs, control_port, echo_path, find_server_process, has_pprof, known,
    lang, names, server_process_name, url_host, verify_server_process, wants_local, FindError,
    VerifyError,
};

#[test]
fn addrs() {
    let addrs = benchmark_addrs("nethttp", "::1");
    assert_eq!(addrs.len(), 50);
    assert_eq!(addrs[0], "[::1]:13001");
    assert_eq!(control_port("axum"), 14051);
    assert_eq!(lang("axum"), "rust");
    assert_eq!(lang("nope"), "-");
}

#[test]
fn the_framework_table() {
    assert_eq!(names(), vec!["axum", "fasthttp", "fib", "gin", "nethttp"]);
    assert!(known("gin") && !known("Gin") && !known(""));
    assert_eq!(lang("fib"), "go");
    assert_eq!(control_port("fasthttp"), 10051);
    let a = benchmark_addrs("axum", "10.0.0.2");
    assert_eq!((a[0].as_str(), a[49].as_str()), ("10.0.0.2:14001", "10.0.0.2:14050"));
    assert!(has_pprof("nethttp") && !has_pprof("axum") && !has_pprof("nope"));
    assert_eq!(echo_path(), "/echo");
}

#[test]
fn hosts_in_urls() {
    assert_eq!(url_host("::1"), "[::1]");
    assert_eq!(url_host("[::1]"), "[::1]");
    assert_eq!(url_host("127.0.0.1"), "127.0.0.1");
    assert_eq!(url_host(&url_host("fe80::1")), url_host("fe80::1"));
}

#[test]
fn server_processes() {
    assert_eq!(server_process_name("gin"), "gin.server");
    assert_eq!(base_name("/usr/local/bin/gin.server"), "gin.server");
    assert_eq!(base_name("gin.server"), "gin.server");
    assert_eq!(base_name("dir/"), "");
    let ps = vec![
        (1, "init".to_string()),
        (42, "gin.server".to_string()),
        (43, "fib.server".to_string()),
        (44, "fib.server".to_string()),
    ];
    assert_eq!(find_server_process("gin", &ps).ok(), Some(42));
    assert!(matches!(find_server_process("axum", &ps), Err(FindError::NoProcess)));
    match find_server_process("fib", &ps) {
        Err(FindError::Several(p)) => assert_eq!(p, vec![43, 44]),
        _ => panic!("two fib servers"),
    }
    assert!(verify_server_process(42, "gin", &ps).is_ok());
    match verify_server_process(43, "gin", &ps) {
        Err(VerifyError::Other(n)) => assert_eq!(n, "fib.server"),
        _ => panic!("pid 43 is fib"),
    }
    assert!(matches!(verify_server_process(7, "gin", &ps), Err(VerifyError::NoSuchProcess)));
}

#[test]
fn sampling_place() {
    assert!(wants_local("local", false));
    assert!(wants_local("auto", true));
    assert!(!wants_local("auto", false));
    assert!(!wants_local("remote", true));
}
