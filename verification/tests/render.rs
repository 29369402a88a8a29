use isitme::render::{
    diagnostic_table, render_table, verdict_banner, verdict_banner_plain, PingFigures,
    SpeedFigures,
};
use isitme::verdict::{Status, Verdict, VerdictLabel};

/// A target's figures as the front end formats them.
fn figures(target: &str, latency: &str, jitter: &str, loss: &str) -> PingFigures {
    PingFigures {
        target: target.to_string(),
        latency: Some(latency.to_string()),
        jitter: Some(jitter.to_string()),
        loss: loss.to_string(),
    }
}

fn strip_ansi(s: &str) -> String {
    let mut out = String::new();
    let mut in_esc = false;
    for c in s.chars() {
        if c == '\x1b' {
            in_esc = true;
        } else if in_esc && c == 'm' {
            in_esc = false;
        } else if !in_esc {
            out.push(c);
        }
    }
    out
}

#[test]
fn render_table_empty_rows_has_header_only() {
    let t = render_table(&["a", "b"], &[]);
    assert!(t.contains('╭'));
    assert!(t.contains('╯'));
    assert!(t.contains("│ a │ b │"));
}

#[test]
fn render_table_aligns_to_widest_cell() {
    let t = render_table(&["h", "name"], &[vec!["x".to_string(), "longvalue".to_string()]]);
    // Second column width = max("name", "longvalue") = "longvalue" (9).
    assert!(t.contains("│ longvalue │"));
    // Header padded to same width.
    assert!(t.contains("│ name      │"));
}

#[test]
fn render_table_handles_unicode_width() {
    // Multibyte char counts as 1 char, consistent with our counting.
    let t = render_table(&["h"], &[vec!["é".to_string()]]);
    assert!(t.contains("│ é │"));
}

#[test]
fn render_table_exact_layout() {
    let t = render_table(&["a", "bb"], &[vec!["ccc".to_string(), "d".to_string(), "extra".to_string()]]);
    assert_eq!(
        t,
        "╭─────┬────╮\n│ a   │ bb │\n├─────┼────┤\n│ ccc │ d  │\n╰─────┴────╯"
    );
    for line in t.lines() {
        assert_eq!(line.chars().count(), 12);
    }
}

#[test]
fn diagnostic_table_shows_label_and_loss() {
    let pings = vec![figures("8.8.8.8", "15.0", "7.1", "0")];
    let t = diagnostic_table(&pings, None);
    // Label resolves to the human form, not the raw host.
    assert!(t.contains("Google DNS (baseline)"));
    assert!(t.contains("0%"));
}

#[test]
fn diagnostic_table_has_five_headers() {
    let pings = vec![figures("8.8.8.8", "15.0", "7.1", "0")];
    let t = diagnostic_table(&pings, None);
    for h in ["target", "latency", "jitter", "loss", "speed"] {
        assert!(t.contains(h), "missing header {}", h);
    }
}

#[test]
fn diagnostic_table_appends_speed_row_when_given() {
    let pings = vec![figures("zoom.us", "15.0", "7.1", "0")];
    let s = SpeedFigures {
        download: Some("50.0".to_string()),
        upload: Some("10.0".to_string()),
    };
    let t = diagnostic_table(&pings, Some(&s));
    assert!(t.contains("Internet (CF)"));
    assert!(t.contains("50.0"));
    assert!(t.contains("10.0"));
    assert!(t.contains("↓"));
    assert!(t.contains("↑"));
}

#[test]
fn diagnostic_table_speed_dash_when_no_speed() {
    let pings = vec![figures("8.8.8.8", "15.0", "7.1", "0")];
    let t = diagnostic_table(&pings, None);
    // No speed row appended.
    assert!(!t.contains("Internet (CF)"));
}

#[test]
fn diagnostic_table_row_values() {
    let pings = vec![
        figures("zoom.us", "15.0", "7.1", "12"),
        PingFigures { target: "x.example".to_string(), latency: None, jitter: None, loss: "100".to_string() },
    ];
    let speed = SpeedFigures { download: None, upload: Some("0.4".to_string()) };
    let t = diagnostic_table(&pings, Some(&speed));
    assert_eq!(
        t,
        "╭───────────────┬─────────┬────────┬──────┬─────────────╮\n\
         │ target        │ latency │ jitter │ loss │ speed       │\n\
         ├───────────────┼─────────┼────────┼──────┼─────────────┤\n\
         │ Zoom          │ 15.0    │ 7.1    │ 12%  │ -           │\n\
         │ unknown       │ -       │ -      │ 100% │ -           │\n\
         │ Internet (CF) │ -       │ -      │ -    │ - ↓ / 0.4 ↑ │\n\
         ╰───────────────┴─────────┴────────┴──────┴─────────────╯"
    );
}

#[test]
fn verdict_banner_shows_headline_words_and_reason() {
    let v = Verdict {
        label: VerdictLabel::Clear,
        reason: "test reason here".to_string(),
    };
    let banner = verdict_banner(&v, Status::Okay);
    let stripped = strip_ansi(&banner);
    // Banner has block-art (not literal letters) plus the reason.
    assert!(stripped.contains("█"));
    assert!(stripped.contains("test reason here"));
}

#[test]
fn verdict_banner_you_when_label_you() {
    let v = Verdict {
        label: VerdictLabel::You,
        reason: "your network".to_string(),
    };
    let banner = verdict_banner(&v, Status::Bad);
    let stripped = strip_ansi(&banner);
    assert!(stripped.contains("█"));
    assert!(stripped.contains("your network"));
}

#[test]
fn verdict_banner_vendor_when_label_vendor() {
    let v = Verdict {
        label: VerdictLabel::Vendor,
        reason: "zoom down".to_string(),
    };
    let banner = verdict_banner(&v, Status::Bad);
    let stripped = strip_ansi(&banner);
    assert!(stripped.contains("█"));
    assert!(stripped.contains("zoom down"));
}

#[test]
fn verdict_banner_colors() {
    let v = Verdict { label: VerdictLabel::You, reason: "r".to_string() };
    let b = verdict_banner(&v, Status::Bad);
    assert!(b.starts_with("\x1b[1m\x1b[31m██╗ ██████╗ ██╗  ██╗\x1b[39m\x1b[0m\n"));
    assert!(b.ends_with("\n\n  r\n"));
    let v = Verdict { label: VerdictLabel::Clear, reason: "r".to_string() };
    assert!(verdict_banner(&v, Status::Okay).starts_with("\x1b[1m\x1b[32m"));
    assert!(verdict_banner(&v, Status::Warn).starts_with("\x1b[1m\x1b[33m"));
    let v = Verdict { label: VerdictLabel::Vendor, reason: "r".to_string() };
    assert!(verdict_banner(&v, Status::Okay).starts_with("\x1b[1m\x1b[33m████████╗"));
    // Five rows of art, a blank line, the reason.
    assert_eq!(verdict_banner(&v, Status::Okay).lines().count(), 7);
}

#[test]
fn plain_banner_has_no_escapes() {
    for label in [VerdictLabel::You, VerdictLabel::Vendor, VerdictLabel::Clear] {
        let v = Verdict { label, reason: "some reason".to_string() };
        let plain = verdict_banner_plain(&v);
        assert!(!plain.contains('\x1b'));
        assert_eq!(plain.lines().count(), 7);
        for worst in [Status::Okay, Status::Warn, Status::Bad] {
            assert_eq!(strip_ansi(&verdict_banner(&v, worst)), plain);
        }
    }
}

#[test]
fn worst_status_only_changes_colors() {
    let v = Verdict { label: VerdictLabel::Clear, reason: "r".to_string() };
    let ok = verdict_banner(&v, Status::Okay);
    let warn = verdict_banner(&v, Status::Warn);
    assert_ne!(ok, warn);
    assert_eq!(strip_ansi(&ok), strip_ansi(&warn));
    let v = Verdict { label: VerdictLabel::You, reason: "r".to_string() };
    assert_eq!(verdict_banner(&v, Status::Okay), verdict_banner(&v, Status::Bad));
}
