use isitme::version::{
    current_version, is_newer, update_from_cache, update_from_fetch, Cache, UpdateStep,
    CACHE_TTL_SECS,
};

fn now() -> u64 {
    std::time::SystemTime::now()
        .duration_since(std::time::UNIX_EPOCH)
        .unwrap()
        .as_secs()
}

#[test]
fn is_newer_basic() {
    assert!(is_newer("0.4.0", "0.5.0"));
    assert!(is_newer("0.4.0", "0.4.1"));
}

#[test]
fn is_newer_false_when_same_or_older() {
    assert!(!is_newer("0.4.0", "0.4.0"));
    assert!(!is_newer("0.4.0", "0.3.0"));
    assert!(!is_newer("0.4.0", "0.4.0"));
}

#[test]
fn is_newer_handles_double_digits() {
    // String compare would say "0.10.0" < "0.4.0"; semver must not.
    assert!(is_newer("0.4.0", "0.10.0"));
    assert!(is_newer("0.9.9", "0.10.0"));
    assert!(!is_newer("0.10.0", "0.9.9"));
}

#[test]
fn is_newer_handles_major_bumps() {
    assert!(is_newer("0.4.0", "1.0.0"));
    assert!(is_newer("1.9.0", "2.0.0"));
}

#[test]
fn is_newer_false_on_invalid_input() {
    assert!(!is_newer("not-a-version", "0.5.0"));
    assert!(!is_newer("0.4.0", "garbage"));
    assert!(!is_newer("", ""));
}

#[test]
fn is_newer_orders_prereleases_below_releases() {
    assert!(is_newer("1.0.0-alpha", "1.0.0"));
    assert!(!is_newer("1.0.0", "1.0.0-alpha"));
    assert!(is_newer("1.0.0-alpha", "1.0.0-alpha.1"));
}

#[test]
fn cache_fresh_within_24h() {
    let c = Cache {
        checked_at: now() - 100,
        latest: "0.5.0".to_string(),
    };
    assert!(c.is_fresh());
}

#[test]
fn cache_stale_after_24h() {
    let c = Cache {
        checked_at: now() - CACHE_TTL_SECS - 1,
        latest: "0.5.0".to_string(),
    };
    assert!(!c.is_fresh());
}

#[test]
fn cache_fresh_at_boundary() {
    let c = Cache {
        checked_at: now() - CACHE_TTL_SECS + 1,
        latest: "0.5.0".to_string(),
    };
    assert!(c.is_fresh());
}

#[test]
fn cache_freshness_at_given_times() {
    let c = Cache { checked_at: 1_000, latest: "0.5.0".to_string() };
    assert!(c.is_fresh_at(1_000 + CACHE_TTL_SECS - 1));
    assert!(!c.is_fresh_at(1_000 + CACHE_TTL_SECS));
    // A check stamped in the future counts as just made.
    assert!(c.is_fresh_at(10));
}

#[test]
fn fresh_cache_with_newer_release_is_reported() {
    let c = Cache { checked_at: 1_000, latest: "9.0.0".to_string() };
    match update_from_cache("0.4.0", Some(&c), 1_010) {
        UpdateStep::Report(v) => assert_eq!(v, "9.0.0"),
        UpdateStep::Fetch => panic!("expected a report"),
    }
}

#[test]
fn stale_or_older_cache_leads_to_a_fetch() {
    let newer = Cache { checked_at: 0, latest: "9.0.0".to_string() };
    assert!(matches!(update_from_cache("0.4.0", Some(&newer), CACHE_TTL_SECS), UpdateStep::Fetch));
    let older = Cache { checked_at: 1_000, latest: "0.1.0".to_string() };
    assert!(matches!(update_from_cache("0.4.0", Some(&older), 1_000), UpdateStep::Fetch));
    assert!(matches!(update_from_cache("0.4.0", None, 1_000), UpdateStep::Fetch));
}

#[test]
fn fetched_answer_is_stored_and_reported_only_when_newer() {
    let out = update_from_fetch("0.4.0", Some("0.5.0".to_string()));
    assert_eq!(out.store.as_deref(), Some("0.5.0"));
    assert_eq!(out.newer.as_deref(), Some("0.5.0"));
    let out = update_from_fetch("0.4.0", Some("0.4.0".to_string()));
    assert_eq!(out.store.as_deref(), Some("0.4.0"));
    assert_eq!(out.newer, None);
    let out = update_from_fetch("0.4.0", None);
    assert_eq!(out.store, None);
    assert_eq!(out.newer, None);
}

#[test]
fn current_version_is_a_valid_version() {
    assert!(!is_newer(current_version(), current_version()));
    assert!(is_newer(current_version(), "999.0.0"));
}
