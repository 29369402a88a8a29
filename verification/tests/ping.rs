use isitme::bignum::{BigNum, BigRatio, Decimal};
use isitme::ping::{extract_rtts, extract_time_from_line, parse_ping_output};
use isitme::ratio::Ratio;

const MACOS_OUTPUT: &str = "PING 8.8.8.8 (8.8.8.8): 56 data bytes\n\
64 bytes from 8.8.8.8: icmp_seq=0 ttl=119 time=12.345 ms\n\
64 bytes from 8.8.8.8: icmp_seq=1 ttl=119 time=13.456 ms\n\
64 bytes from 8.8.8.8: icmp_seq=2 ttl=119 time=11.234 ms\n\
64 bytes from 8.8.8.8: icmp_seq=3 ttl=119 time=14.567 ms\n\n\
--- 8.8.8.8 ping statistics ---\n\
4 packets transmitted, 4 packets received, 0.0% packet loss\n\
round-trip min/avg/max/stddev = 11.234/12.900/14.567/1.234 ms\n";

const LINUX_OUTPUT: &str = "PING 8.8.8.8 (8.8.8.8) 56(84) bytes of data.\n\
64 bytes from 8.8.8.8: icmp_seq=1 ttl=119 time=12.3 ms\n\
64 bytes from 8.8.8.8: icmp_seq=2 ttl=119 time=13.4 ms\n\
64 bytes from 8.8.8.8: icmp_seq=3 ttl=119 time=11.2 ms\n\n\
--- 8.8.8.8 ping statistics ---\n\
3 packets transmitted, 3 received, 0% packet loss, time 2003ms\n\
rtt min/avg/max/mdev = 11.200/12.300/13.400/0.900 ms\n";

fn big_value(b: &BigNum) -> f64 {
    b.digits.iter().rev().fold(0.0, |acc, &d| acc * 10.0 + d as f64)
}

/// A round trip in milliseconds, from the exact decimal the library keeps.
fn ms(d: &Decimal) -> f64 {
    big_value(&d.mantissa) / 10f64.powi(d.scale as i32)
}

fn in_ms(samples: &[Decimal]) -> Vec<f64> {
    samples.iter().map(ms).collect()
}

/// The exact parts of a decimal: its digits as one integer, and its scale.
fn parts(d: &Decimal) -> (f64, usize) {
    (big_value(&d.mantissa), d.scale)
}

fn value(r: Ratio) -> f64 {
    r.num as f64 / r.den as f64
}

fn approx(a: Option<BigRatio>, b: f64) -> bool {
    match a {
        Some(v) => (big_value(&v.num) / big_value(&v.den) - b).abs() < 1e-3,
        None => false,
    }
}

#[test]
fn parses_macos_rtts_in_order() {
    let rtts = extract_rtts(MACOS_OUTPUT);
    assert_eq!(in_ms(&rtts), vec![12.345, 13.456, 11.234, 14.567]);
}

#[test]
fn parses_linux_rtts_in_order() {
    let rtts = extract_rtts(LINUX_OUTPUT);
    assert_eq!(in_ms(&rtts), vec![12.3, 13.4, 11.2]);
}

#[test]
fn macos_stats_have_no_loss() {
    let s = parse_ping_output("8.8.8.8", 4, MACOS_OUTPUT, "");
    assert_eq!(s.target, "8.8.8.8");
    assert_eq!(s.packets_sent, 4);
    assert_eq!(s.packets_received, 4);
    assert_eq!(value(s.loss_pct()), 0.0);
    assert!(approx(s.avg_ms(), 12.9));
}

#[test]
fn linux_stats_have_no_loss() {
    let s = parse_ping_output("8.8.8.8", 3, LINUX_OUTPUT, "");
    assert_eq!(s.packets_sent, 3);
    assert_eq!(s.packets_received, 3);
    assert_eq!(value(s.loss_pct()), 0.0);
    assert!(approx(s.avg_ms(), 12.3));
}

#[test]
fn packet_loss_when_some_replies_missing() {
    let partial = "PING x (1.2.3.4): 56 data bytes\n\
64 bytes from 1.2.3.4: icmp_seq=0 ttl=64 time=10.000 ms\n\
64 bytes from 1.2.3.4: icmp_seq=2 ttl=64 time=11.000 ms\n";
    let s = parse_ping_output("x", 4, partial, "");
    assert_eq!(s.packets_sent, 4);
    assert_eq!(s.packets_received, 2);
    assert_eq!(value(s.loss_pct()), 50.0);
}

#[test]
fn empty_output_yields_no_samples() {
    let s = parse_ping_output("x", 4, "", "");
    assert!(s.samples_ms.is_empty());
    assert_eq!(s.packets_sent, 4);
    assert_eq!(s.packets_received, 0);
    assert_eq!(value(s.loss_pct()), 100.0);
}

#[test]
fn ignores_summary_line_time_field() {
    // The summary line "time 2003ms" must NOT be parsed as an RTT,
    // because it lacks the "time=" token form.
    let summary_only = "--- 8.8.8.8 ping statistics ---\n\
3 packets transmitted, 3 received, 0% packet loss, time 2003ms\n";
    let rtts = extract_rtts(summary_only);
    assert!(rtts.is_empty(), "got {:?}", rtts);
}

#[test]
fn handles_decimal_with_one_digit() {
    let line = "64 bytes from 1.2.3.4: icmp_seq=0 ttl=64 time=5.1 ms";
    assert_eq!(extract_time_from_line(line).map(|d| ms(&d)), Some(5.1));
}

#[test]
fn handles_integer_time() {
    let line = "64 bytes from 1.2.3.4: icmp_seq=0 ttl=64 time=7 ms";
    assert_eq!(extract_time_from_line(line).map(|d| ms(&d)), Some(7.0));
}

fn line_parts(line: &str) -> Option<(f64, usize)> {
    extract_time_from_line(line).map(|d| parts(&d))
}

#[test]
fn number_forms_follow_float_syntax() {
    assert_eq!(line_parts("time=12. ms"), Some((12.0, 0)));
    assert_eq!(line_parts("time=.5 ms"), Some((5.0, 1)));
    assert_eq!(line_parts("time=. ms"), None);
    assert_eq!(line_parts("time= ms"), None);
    assert_eq!(line_parts("time=1.2.3 ms"), None);
    assert_eq!(line_parts("no key here"), None);
}

#[test]
fn every_digit_is_kept() {
    assert_eq!(line_parts("time=0.0456 ms"), Some((456.0, 4)));
    assert_eq!(line_parts("time=1.0005 ms"), Some((10005.0, 4)));
    assert_eq!(line_parts("time=99999999999 ms"), Some((99999999999.0, 0)));
    let long = "time=123456789012345678901234567890123456789012.5 ms";
    let d = extract_time_from_line(long).unwrap();
    assert_eq!(d.scale, 1);
    assert_eq!(d.mantissa.digits.len(), 43);
    assert_eq!(d.mantissa.digits[0], 5);
    assert_eq!(d.mantissa.digits[42], 1);
}

#[test]
fn first_key_of_a_line_wins() {
    assert_eq!(line_parts("time=3 time=4"), Some((3.0, 0)));
    assert_eq!(line_parts("xtime=2.5ms"), Some((25.0, 1)));
}

#[test]
fn lines_are_parsed_independently() {
    let a = "time=1 ms\nnothing";
    let b = "time=2 ms\r\ntime=3 ms";
    let joined = format!("{}\n{}", a, b);
    let mut expected = extract_rtts(a);
    expected.extend(extract_rtts(b));
    assert_eq!(extract_rtts(&joined), expected);
    assert_eq!(in_ms(&extract_rtts(&joined)), vec![1.0, 2.0, 3.0]);
}

#[test]
fn received_counts_the_replies() {
    let s = parse_ping_output("h", 0, "time=1\ntime=2\n", "ignored");
    assert_eq!(s.packets_received, 2);
    assert_eq!(value(s.loss_pct()), 0.0);
}

#[test]
fn parse_reads_decimals_like_float_text() {
    assert_eq!(Decimal::parse("12.345").map(|d| parts(&d)), Some((12345.0, 3)));
    assert_eq!(Decimal::parse("7").map(|d| parts(&d)), Some((7.0, 0)));
    assert_eq!(Decimal::parse("-1"), None);
    assert_eq!(Decimal::parse("1e3"), None);
    assert_eq!(Decimal::parse(""), None);
}

#[test]
fn text_reads_back_as_the_same_decimal() {
    for (input, text) in [("0.0456", "0.0456"), ("12.", "12"), (".5", "0.5"), ("007", "7"), ("12.340", "12.340"), ("0", "0")] {
        let d = Decimal::parse(input).unwrap();
        assert_eq!(d.to_text(), text);
        assert_eq!(Decimal::parse(&d.to_text()).map(|e| parts(&e)), Some(parts(&d)));
    }
}
