use isitme::speed::mbps_from_bytes_seconds;

fn mbps(bytes: u64, elapsed_us: u64) -> f64 {
    let r = mbps_from_bytes_seconds(bytes, elapsed_us);
    r.num as f64 / r.den as f64
}

#[test]
fn mbps_basic_25mb_in_one_second() {
    // 25 MB in 1s = 200 Mbps.
    let m = mbps(25_000_000, 1_000_000);
    assert!((m - 200.0).abs() < 0.01, "got {}", m);
}

#[test]
fn mbps_zero_seconds_yields_zero() {
    assert_eq!(mbps(25_000_000, 0), 0.0);
}

#[test]
fn mbps_negative_seconds_yields_zero() {
    // Elapsed time is unsigned here: a negative reading becomes no time at
    // all, which yields zero, as a negative time did.
    let elapsed_us = (-1.0f64 * 1_000_000.0).max(0.0) as u64;
    assert_eq!(mbps(25_000_000, elapsed_us), 0.0);
}

#[test]
fn mbps_scales_linearly() {
    let fast = mbps(25_000_000, 1_000_000);
    let slow = mbps(25_000_000, 2_000_000);
    assert!((fast / slow - 2.0).abs() < 0.01);
}

#[test]
fn mbps_ten_mb_in_half_second() {
    // 10 MB in 0.5s = 160 Mbps.
    let m = mbps(10_000_000, 500_000);
    assert!((m - 160.0).abs() < 0.01, "got {}", m);
}

#[test]
fn mbps_is_exact_bits_per_microsecond() {
    let r = mbps_from_bytes_seconds(3, 7);
    assert_eq!((r.num, r.den), (24, 7));
}
