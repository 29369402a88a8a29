use isitme::bignum::{BigNum, BigRatio, Decimal};
use isitme::ratio::Ratio;
use isitme::verdict::{
    build_verdict, classify_avg, classify_download, classify_jitter, classify_loss,
    classify_upload, exit_code, worst_status, PingStats, SpeedStats, Status, VerdictLabel,
};

/// A decimal written the way `f64` displays the value.
fn dec(x: f64) -> Decimal {
    Decimal::parse(&format!("{}", x)).unwrap()
}

fn stats(target: &str, samples: &[f64], sent: u32, recv: u32) -> PingStats {
    PingStats {
        target: target.to_string(),
        samples_ms: samples.iter().map(|&ms| dec(ms)).collect(),
        packets_sent: sent,
        packets_received: recv,
    }
}

fn big(x: u128) -> BigNum {
    BigNum::from_u128(x)
}

fn big_value(b: &BigNum) -> f64 {
    b.digits.iter().rev().fold(0.0, |acc, &d| acc * 10.0 + d as f64)
}

/// The decimal `x` as an exact fraction.
fn exact(x: f64) -> BigRatio {
    let d = dec(x);
    BigRatio { num: d.mantissa.clone(), den: big(1).shift(d.scale) }
}

/// The square of the decimal `x`, exactly.
fn sq(x: f64) -> BigRatio {
    let d = dec(x);
    BigRatio { num: d.mantissa.mul(&d.mantissa), den: big(1).shift(2 * d.scale) }
}

fn value(q: BigRatio) -> f64 {
    big_value(&q.num) / big_value(&q.den)
}

fn decimal_value(d: Decimal) -> f64 {
    big_value(&d.mantissa) / 10f64.powi(d.scale as i32)
}

/// A value with up to three decimals as an exact ratio.
fn r(x: f64) -> Ratio {
    Ratio::new((x * 1000.0).round() as u128, 1000)
}

fn ratio_value(r: Ratio) -> f64 {
    r.num as f64 / r.den as f64
}

fn mbps(x: f64) -> Option<Ratio> {
    Some(r(x))
}

#[test]
fn classify_avg_thresholds() {
    assert_eq!(classify_avg(&exact(10.0)), Status::Okay);
    assert_eq!(classify_avg(&exact(149.9)), Status::Okay);
    assert_eq!(classify_avg(&exact(150.0)), Status::Warn);
    assert_eq!(classify_avg(&exact(300.0)), Status::Warn);
    assert_eq!(classify_avg(&exact(300.1)), Status::Bad);
}

#[test]
fn classify_jitter_thresholds() {
    assert_eq!(classify_jitter(&sq(5.0)), Status::Okay);
    assert_eq!(classify_jitter(&sq(29.9)), Status::Okay);
    assert_eq!(classify_jitter(&sq(30.0)), Status::Warn);
    assert_eq!(classify_jitter(&sq(50.0)), Status::Warn);
    assert_eq!(classify_jitter(&sq(50.1)), Status::Bad);
}

#[test]
fn classify_loss_thresholds() {
    assert_eq!(classify_loss(r(0.0)), Status::Okay);
    assert_eq!(classify_loss(r(0.9)), Status::Okay);
    assert_eq!(classify_loss(r(1.0)), Status::Warn);
    assert_eq!(classify_loss(r(4.9)), Status::Warn);
    assert_eq!(classify_loss(r(5.0)), Status::Bad);
}

#[test]
fn classify_download_thresholds() {
    assert_eq!(classify_download(r(5.0)), Status::Okay);
    assert_eq!(classify_download(r(3.1)), Status::Okay);
    assert_eq!(classify_download(r(3.0)), Status::Warn);
    assert_eq!(classify_download(r(1.0)), Status::Warn);
    assert_eq!(classify_download(r(0.9)), Status::Bad);
}

#[test]
fn classify_upload_thresholds() {
    assert_eq!(classify_upload(r(2.0)), Status::Okay);
    assert_eq!(classify_upload(r(1.6)), Status::Okay);
    assert_eq!(classify_upload(r(1.5)), Status::Warn);
    assert_eq!(classify_upload(r(0.5)), Status::Warn);
    assert_eq!(classify_upload(r(0.4)), Status::Bad);
}

#[test]
fn thresholds_hold_for_huge_ratios() {
    let huge = Ratio::new(u128::MAX, u128::MAX / 2);
    assert_eq!(classify_avg(&BigRatio { num: big(u128::MAX), den: big(u128::MAX / 2) }), Status::Okay);
    assert_eq!(classify_upload(huge), Status::Okay);
    assert_eq!(classify_upload(Ratio::new(u128::MAX / 2 + 1, u128::MAX)), Status::Warn);
    assert_eq!(classify_upload(Ratio::new(u128::MAX / 2, u128::MAX)), Status::Bad);
    assert_eq!(classify_download(Ratio::new(1, u128::MAX)), Status::Bad);
    assert_eq!(classify_jitter(&BigRatio { num: big(u128::MAX).mul(&big(u128::MAX)), den: big(1) }), Status::Bad);
}

#[test]
fn loss_pct_handles_zero_sent() {
    let s = stats("x", &[], 0, 0);
    assert_eq!(ratio_value(s.loss_pct()), 0.0);
}

#[test]
fn loss_pct_computes_percent() {
    let s = stats("x", &[], 10, 8);
    assert_eq!(ratio_value(s.loss_pct()), 20.0);
}

#[test]
fn loss_pct_never_negative() {
    let s = stats("x", &[], 2, 5);
    assert_eq!(ratio_value(s.loss_pct()), 0.0);
}

#[test]
fn avg_and_jitter_basic() {
    let s = stats("x", &[10.0, 20.0, 30.0], 3, 3);
    assert_eq!(s.avg_ms().map(value), Some(20.0));
    assert_eq!(s.min_ms().map(decimal_value), Some(10.0));
    assert_eq!(s.max_ms().map(decimal_value), Some(30.0));
    let j = value(s.jitter_ms_squared().unwrap()).sqrt();
    assert!(j > 9.0 && j < 11.0);
    assert_eq!(s.jitter_ms_squared().map(value), Some(100.0));
}

#[test]
fn variance_is_exact() {
    // Samples 10 and 11 ms: the variance is exactly 1/2 ms².
    let s = stats("x", &[10.0, 11.0], 2, 2);
    let v = s.jitter_ms_squared().unwrap();
    assert_eq!(big_value(&v.num) * 2.0, big_value(&v.den));
    // Digits far past the third decimal count: 1.0005 and 1.0015 differ by 0.001 ms.
    let fine = PingStats {
        target: "x".to_string(),
        samples_ms: vec![Decimal::parse("1.0005").unwrap(), Decimal::parse("1.0015").unwrap()],
        packets_sent: 2,
        packets_received: 2,
    };
    assert_eq!(fine.avg_ms().map(value), Some(1.001));
    let v = fine.jitter_ms_squared().unwrap();
    assert_eq!((big_value(&v.num), big_value(&v.den)), (100.0, 2e8));
}

#[test]
fn min_and_max_compare_values_not_digits() {
    let s = PingStats {
        target: "x".to_string(),
        samples_ms: vec![
            Decimal::parse("9.99").unwrap(),
            Decimal::parse("10").unwrap(),
            Decimal::parse("9.990").unwrap(),
            Decimal::parse("100.5").unwrap(),
        ],
        packets_sent: 4,
        packets_received: 4,
    };
    let min = s.min_ms().unwrap();
    assert_eq!((big_value(&min.mantissa), min.scale), (999.0, 2));
    let max = s.max_ms().unwrap();
    assert_eq!((big_value(&max.mantissa), max.scale), (1005.0, 1));
}

#[test]
fn jitter_none_for_under_two_samples() {
    let s = stats("x", &[10.0], 1, 1);
    assert_eq!(s.jitter_ms_squared(), None);
    assert_eq!(s.jitter_status(), Status::Warn);
    let s0 = stats("x", &[], 0, 0);
    assert_eq!(s0.jitter_ms_squared(), None);
}

#[test]
fn avg_none_when_no_samples() {
    let s = stats("x", &[], 0, 0);
    assert_eq!(s.avg_ms(), None);
    assert_eq!(s.avg_status(), Status::Bad);
}

#[test]
fn worst_of_combinations() {
    assert_eq!(Status::worst_of(&[Status::Okay, Status::Okay]), Status::Okay);
    assert_eq!(Status::worst_of(&[Status::Okay, Status::Warn]), Status::Warn);
    assert_eq!(Status::worst_of(&[Status::Warn, Status::Bad]), Status::Bad);
    assert_eq!(Status::worst_of(&[Status::Okay, Status::Bad]), Status::Bad);
    assert_eq!(Status::worst_of(&[]), Status::Okay);
}

#[test]
fn worst_of_ignores_order() {
    let a = [Status::Bad, Status::Okay, Status::Warn];
    let b = [Status::Warn, Status::Bad, Status::Okay, Status::Okay];
    assert_eq!(Status::worst_of(&a), Status::worst_of(&b));
}

#[test]
fn verdict_you_when_baseline_bad() {
    let pings = vec![
        stats("8.8.8.8", &[400.0, 410.0], 2, 2),
        stats("zoom.us", &[10.0, 11.0], 2, 2),
    ];
    let speed = SpeedStats {
        download_mbps: mbps(50.0),
        upload_mbps: mbps(10.0),
    };
    let v = build_verdict("8.8.8.8", &pings, Some(&speed));
    assert_eq!(v.label, VerdictLabel::You);
    assert_eq!(exit_code(v.label, worst_status(&pings, Some(&speed))), 2);
}

#[test]
fn verdict_you_when_speed_bad() {
    let pings = vec![
        stats("8.8.8.8", &[10.0, 11.0], 2, 2),
        stats("zoom.us", &[12.0, 13.0], 2, 2),
    ];
    let speed = SpeedStats {
        download_mbps: mbps(0.2),
        upload_mbps: mbps(0.1),
    };
    let v = build_verdict("8.8.8.8", &pings, Some(&speed));
    assert_eq!(v.label, VerdictLabel::You);
}

#[test]
fn verdict_vendor_when_one_vendor_bad() {
    let pings = vec![
        stats("8.8.8.8", &[10.0, 11.0], 2, 2),
        stats("zoom.us", &[10.0, 11.0], 2, 2),
        stats("teams.microsoft.com", &[400.0, 420.0], 2, 2),
    ];
    let speed = SpeedStats {
        download_mbps: mbps(50.0),
        upload_mbps: mbps(10.0),
    };
    let v = build_verdict("8.8.8.8", &pings, Some(&speed));
    assert_eq!(v.label, VerdictLabel::Vendor);
    assert!(v.reason.contains("teams.microsoft.com"));
    assert_eq!(exit_code(v.label, worst_status(&pings, Some(&speed))), 1);
}

#[test]
fn verdict_clear_when_all_ok() {
    let pings = vec![
        stats("8.8.8.8", &[10.0, 11.0], 2, 2),
        stats("zoom.us", &[12.0, 13.0], 2, 2),
    ];
    let speed = SpeedStats {
        download_mbps: mbps(50.0),
        upload_mbps: mbps(10.0),
    };
    let v = build_verdict("8.8.8.8", &pings, Some(&speed));
    assert_eq!(v.label, VerdictLabel::Clear);
    assert_eq!(exit_code(v.label, worst_status(&pings, Some(&speed))), 0);
}

#[test]
fn verdict_clear_with_warnings() {
    let pings = vec![
        stats("8.8.8.8", &[10.0, 11.0], 2, 2),
        stats("zoom.us", &[200.0, 210.0], 2, 2),
    ];
    let speed = SpeedStats {
        download_mbps: mbps(50.0),
        upload_mbps: mbps(10.0),
    };
    let v = build_verdict("8.8.8.8", &pings, Some(&speed));
    assert_eq!(v.label, VerdictLabel::Clear);
    assert!(v.reason.contains("barely"));
    // Warnings present: exit code 1.
    assert_eq!(exit_code(v.label, worst_status(&pings, Some(&speed))), 1);
}

#[test]
fn verdict_clear_when_speed_skipped() {
    let pings = vec![
        stats("8.8.8.8", &[10.0, 11.0], 2, 2),
        stats("zoom.us", &[12.0, 13.0], 2, 2),
    ];
    let v = build_verdict("8.8.8.8", &pings, None);
    assert_eq!(v.label, VerdictLabel::Clear);
}

#[test]
fn verdict_reasons_are_exact() {
    let ok = stats("8.8.8.8", &[10.0, 11.0], 2, 2);
    let bad = stats("meet.google.com", &[], 3, 0);
    let v = build_verdict("8.8.8.8", &[stats("8.8.8.8", &[10.0, 11.0], 2, 2), bad], None);
    assert_eq!(
        v.reason,
        "meet.google.com is having a bad day. Not your fault. Send a passive-aggressive support ticket."
    );
    let v = build_verdict("8.8.8.8", &[stats("8.8.8.8", &[], 3, 0)], None);
    assert_eq!(
        v.reason,
        "Your network is the problem. Try restarting your router, or your reputation."
    );
    let v = build_verdict("8.8.8.8", &[ok], None);
    assert_eq!(v.reason, "Your network is minty fresh. Go take the call.");
}

#[test]
fn missing_baseline_is_not_your_fault() {
    let pings = vec![stats("zoom.us", &[10.0, 11.0], 2, 2)];
    let v = build_verdict("8.8.8.8", &pings, None);
    assert_eq!(v.label, VerdictLabel::Clear);
}

#[test]
fn only_the_first_baseline_entry_counts() {
    let pings = vec![
        stats("8.8.8.8", &[10.0, 11.0], 2, 2),
        stats("8.8.8.8", &[], 2, 0),
    ];
    let v = build_verdict("8.8.8.8", &pings, None);
    assert_eq!(v.label, VerdictLabel::Clear);
}

#[test]
fn failed_speed_direction_is_bad() {
    let speed = SpeedStats { download_mbps: None, upload_mbps: mbps(10.0) };
    assert_eq!(speed.download_status(), Status::Bad);
    assert_eq!(speed.overall(), Status::Bad);
    let v = build_verdict("8.8.8.8", &[], Some(&speed));
    assert_eq!(v.label, VerdictLabel::You);
}

#[test]
fn worst_status_covers_speed_and_targets() {
    let pings = vec![stats("8.8.8.8", &[10.0, 11.0], 2, 2)];
    assert_eq!(worst_status(&pings, None), Status::Okay);
    let speed = SpeedStats { download_mbps: mbps(2.0), upload_mbps: mbps(10.0) };
    assert_eq!(worst_status(&pings, Some(&speed)), Status::Warn);
    let single = vec![stats("zoom.us", &[10.0], 1, 1)];
    assert_eq!(worst_status(&single, None), Status::Warn);
}

#[test]
fn exit_codes_follow_the_documented_table() {
    assert_eq!(exit_code(VerdictLabel::Clear, Status::Okay), 0);
    assert_eq!(exit_code(VerdictLabel::Clear, Status::Warn), 1);
    assert_eq!(exit_code(VerdictLabel::Clear, Status::Bad), 1);
    assert_eq!(exit_code(VerdictLabel::Vendor, Status::Bad), 1);
    assert_eq!(exit_code(VerdictLabel::You, Status::Bad), 2);
}
