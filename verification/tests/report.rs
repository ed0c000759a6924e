use benchcli::report::{bench_client, client_name, console, dur, filename, mem};

#[test]
fn report_names() {
    assert_eq!(filename("gin-BenchEcho", "x_", ".json"), "./output/report/x_gin-BenchEcho.json");
    assert_eq!(client_name(), "rust-tokio");
    assert_eq!(bench_client(), "benchcli-rust");
    assert_eq!(dur(1_500_000_000), "1.50s");
    assert_eq!(mem(2048), "2.00K");
}

#[test]
fn console_blocks() {
    let rows = [
        ("Framework", "gin".to_string(), false),
        ("TPS", "12".to_string(), false),
        ("TP99", "3.00ms".to_string(), true),
        ("Concurrency", "4".to_string(), false),
    ];
    assert_eq!(
        console("Connections", &rows, false),
        "BenchType  : Connections\nFramework  : gin\nTPS        : 12\nConcurrency: 4"
    );
    assert_eq!(
        console("Connections", &rows, true),
        "BenchType  : Connections\nFramework  : gin\nTPS        : 12\nTP99       : 3.00ms\nConcurrency: 4"
    );
    assert_eq!(console("X", &[], true), "BenchType: X\n");
}
