use benchcli::stats::{mem_columns, mem_string, time_string, Calc};

#[test]
fn calc_matches_perf() {
    let c = Calc::new(2_000_000_000, vec![5, 1, 3, 2, 4], 1);
    assert_eq!((c.success, c.failed, c.tps()), (5, 1, 2));
    assert_eq!((c.min(), c.avg(), c.max()), (1, 3, 5));
    assert_eq!((c.tpn(50), c.tpn(99), c.tpn(100)), (3, 5, 5));
    let empty = Calc::new(1_000_000_000, vec![], 3);
    assert_eq!((empty.tps(), empty.min(), empty.tpn(99)), (0, 0, 0));
}

#[test]
fn strings() {
    assert_eq!(time_string(1_500_000_000), "1.50s");
    assert_eq!(time_string(2_500_000), "2.50ms");
    assert_eq!(time_string(35_000), "35.00us");
    assert_eq!(time_string(20), "20ns");
    assert_eq!(mem_string(11_501_568), "10.97M");
    assert_eq!(mem_string(0), "0.00K");
}

#[test]
fn mem_columns_leave_out_the_smallest() {
    let m = mem_columns(&[30, 10, 20]);
    assert_eq!((m.min, m.avg, m.max), (20, 25, 30));
    let one = mem_columns(&[7]);
    assert_eq!((one.min, one.avg, one.max), (7, 7, 7));
    let none = mem_columns(&[]);
    assert_eq!((none.min, none.avg, none.max), (0, 0, 0));
}

#[test]
fn percentiles_rise_from_min_to_max() {
    let c = Calc::new(1, vec![9, 3, 7, 1, 5, 8, 2, 6, 4, 10], 0);
    let mut last = c.min();
    for p in [0u32, 10, 25, 50, 75, 90, 95, 99, 100] {
        let t = c.tpn(p);
        assert!(last <= t && t <= c.max(), "{p}: {t}");
        last = t;
    }
    assert_eq!((c.min(), c.tpn(50), c.tpn(90), c.max()), (1, 6, 10, 10));
}

#[test]
fn the_average_is_between_min_and_max() {
    let c = Calc::new(1, vec![-7, -2, -4], 0);
    assert_eq!((c.min(), c.avg(), c.max()), (-7, -4, -2));
    let d = Calc::new(1, vec![1, 2], 0);
    assert_eq!(d.avg(), 1);
}

#[test]
fn tps_rounds_toward_zero() {
    let c = Calc::new(3_000_000_000, vec![1; 10], 0);
    assert_eq!(c.tps(), 3);
    let zero = Calc::new(0, vec![1, 2], 0);
    assert_eq!(zero.tps(), 0);
}

#[test]
fn time_and_memory_text() {
    assert_eq!(time_string(999), "999ns");
    assert_eq!(time_string(1_000), "1.00us");
    assert_eq!(time_string(-5), "-5ns");
    assert_eq!(time_string(999_999_999), "1000.00ms");
    assert_eq!(mem_string(1 << 30), "1.00G");
    assert_eq!(mem_string(1536), "1.50K");
    assert_eq!(mem_string(3 << 20), "3.00M");
}

fn float_time(ns: i64) -> String {
    if ns / 1_000_000_000 >= 1 {
        format!("{:.2}s", ns as f64 / 1e9)
    } else if ns / 1_000_000 >= 1 {
        format!("{:.2}ms", ns as f64 / 1e6)
    } else if ns / 1_000 >= 1 {
        format!("{:.2}us", ns as f64 / 1e3)
    } else {
        format!("{ns}ns")
    }
}

fn float_mem(bytes: u64) -> String {
    let gb = bytes as f64 / (1u64 << 30) as f64;
    if gb >= 1.0 {
        return format!("{gb:.2}G");
    }
    let mb = bytes as f64 / (1u64 << 20) as f64;
    if mb >= 1.0 {
        return format!("{mb:.2}M");
    }
    format!("{:.2}K", bytes as f64 / 1024.0)
}

#[test]
fn formatting_agrees_with_floats() {
    let mut ns: Vec<i64> = vec![
        1_125_000_000,
        1_015_000_000,
        1_005_000_000,
        2_675_000,
        1_235,
        999_995_000,
        9_999_995,
        i64::MAX,
        i64::MAX - 511,
        9_007_199_254_740_993,
        1_234_567_891,
        -1,
        0,
    ];
    let mut x: u64 = 0x9e37_79b9_7f4a_7c15;
    for _ in 0..20_000 {
        x ^= x << 13;
        x ^= x >> 7;
        x ^= x << 17;
        let digits = 3 + (x % 16) as u32;
        ns.push((x >> 8) as i64 % 10i64.pow(digits));
        ns.push(((x % 1000) as i64) * 5_000 + 1_000_000 * ((x >> 40) as i64 % 1000));
    }
    for v in ns {
        assert_eq!(time_string(v), float_time(v), "{v}");
    }
    let mut bytes: Vec<u64> = vec![
        0,
        1,
        1023,
        5_000,
        11_501_568,
        (1 << 30) + (1 << 22) * 5,
        u64::MAX,
        (1 << 53) + 1,
        (1 << 54) + 3,
        7_777_777_777,
    ];
    for _ in 0..20_000 {
        x ^= x << 13;
        x ^= x >> 7;
        x ^= x << 17;
        bytes.push(x >> (x % 64));
        bytes.push((x % 4096) * 1024 / 8 * 5);
    }
    for b in bytes {
        assert_eq!(mem_string(b), float_mem(b), "{b}");
    }
}

#[test]
fn percentile_index_follows_double_arithmetic() {
    // 29 / 100 * 100 is 28.999999999999996 as doubles: index 28, not 29.
    let c = Calc::new(1, (0..100).collect(), 0);
    assert_eq!(c.tpn(29), 28);
    assert_eq!(c.tpn(57), 56);
    for len in [1i64, 2, 3, 7, 10, 33, 100, 101, 997, 1000, 4099] {
        let c = Calc::new(1, (0..len).collect(), 0);
        for p in (0u32..=150).chain([999, 12345, 4_000_000_000, u32::MAX]) {
            let want = (f64::from(p) / 100.0 * len as f64) as usize;
            let want = want.min(len as usize - 1) as i64;
            assert_eq!(c.tpn(p), want, "{p} of {len}");
        }
    }
}

#[test]
fn tps_follows_double_arithmetic() {
    // 1 / 1e-9 is 999999999.9999999 as doubles.
    assert_eq!(Calc::new(1, vec![7], 0).tps(), 999_999_999);
    let mut x: u64 = 0x2545_F491_4F6C_DD1D;
    let mut next = || {
        x ^= x << 13;
        x ^= x >> 7;
        x ^= x << 17;
        x
    };
    for round in 0..20_000 {
        let used = match round % 4 {
            0 => next() % 1_000,
            1 => next() % 1_000_000_000,
            2 => next() % 100_000_000_000,
            _ => next(),
        } + 1;
        let success = match round % 3 {
            0 => (next() % 100) as i64,
            1 => (next() % 10_000_000) as i64,
            _ => (next() >> 1) as i64,
        };
        let mut c = Calc::new(used, vec![], 0);
        c.success = success;
        let secs = std::time::Duration::from_nanos(used).as_secs_f64();
        let want = (success as f64 / secs) as i64;
        assert_eq!(c.tps(), want, "{success} in {used} ns");
        c.success = -success;
        let want = (-success as f64 / secs) as i64;
        assert_eq!(c.tps(), want, "-{success} in {used} ns");
    }
    let mut c = Calc::new(3, vec![], 0);
    c.success = i64::MIN;
    assert_eq!(c.tps(), i64::MIN);
    c.success = i64::MAX;
    assert_eq!(c.tps(), i64::MAX);
}
