use benchcli::procfs::{
    argv0, cpu_time, cpu_time_defined, parse_pid, ps_line, rss_bytes, rss_bytes_defined,
    split_words, stat_ticks, vmrss_kb,
};

const STAT: &str = "1234 (my (odd) server) S 1 1234 1234 0 -1 4194560 2011 0 0 0 150 75 0 0 20 0 9 0 12345 123456789 4321 18446744073709551615";

#[test]
fn ticks_from_stat() {
    assert!(cpu_time_defined(STAT));
    assert_eq!(stat_ticks(STAT), Some(225));
    assert_eq!(cpu_time(STAT, 100), Some(2_250_000_000));
    assert_eq!(cpu_time(STAT, 0), None);
    assert_eq!(stat_ticks("1234 no name here"), None);
    assert_eq!(stat_ticks("1 (x) S 1 2"), None);
    assert!(!cpu_time_defined("1 (x)"));
}

#[test]
fn resident_memory_from_status() {
    let status = "Name:\tgin.server\nVmPeak:\t  9000 kB\nVmRSS:\t    2048 kB\r\nThreads:\t4\n";
    assert!(rss_bytes_defined(status));
    assert_eq!(vmrss_kb(status), Some(2048));
    assert_eq!(rss_bytes(status), Some(2048 * 1024));
    assert_eq!(rss_bytes("Name:\tx\n"), None);
    assert_eq!(vmrss_kb("VmRSS: lots kB\n"), None);
    assert_eq!(vmrss_kb("VmRSS:VmRSS: 12 kBkB"), Some(12));
    assert!(!rss_bytes_defined("VmRSS: 18446744073709551615 kB"));
}

#[test]
fn words_split_on_unicode_white_space() {
    let cs: Vec<char> = " a\u{a0}bc\t d \u{3000}".chars().collect();
    let w: Vec<String> = split_words(&cs).iter().map(|w| w.iter().collect()).collect();
    assert_eq!(w, vec!["a", "bc", "d"]);
}

#[test]
fn process_listings() {
    assert_eq!(parse_pid("4242"), Some(4242));
    assert_eq!(parse_pid("self"), None);
    assert_eq!(parse_pid("4294967296"), None);
    assert_eq!(argv0(b"/usr/bin/gin.server\0-b\01024\0"), b"/usr/bin/gin.server".to_vec());
    assert_eq!(argv0(b"plain"), b"plain".to_vec());
    assert_eq!(ps_line("  42 /opt/x/gin.server"), Some((42, "gin.server".to_string())));
    assert_eq!(ps_line("7 my   prog"), Some((7, "my prog".to_string())));
    assert_eq!(ps_line("7"), None);
    assert_eq!(ps_line("PID COMMAND"), None);
}
