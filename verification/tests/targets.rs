use isitme::targets::{hosts, label_for, targets, BASELINE_HOST};

#[test]
fn baseline_host_is_present_in_targets() {
    assert!(targets().iter().any(|t| t.host == BASELINE_HOST));
}

#[test]
fn hosts_non_empty_and_unique() {
    let h = hosts();
    assert!(!h.is_empty());
    let mut sorted = h.clone();
    sorted.sort();
    sorted.dedup();
    assert_eq!(sorted.len(), h.len());
}

#[test]
fn label_for_known_and_unknown() {
    assert_eq!(label_for("zoom.us"), "Zoom");
    assert_eq!(label_for("8.8.8.8"), "Google DNS (baseline)");
    assert_eq!(label_for("nope.example"), "unknown");
}

#[test]
fn every_host_has_its_own_label() {
    for t in targets() {
        assert_eq!(label_for(t.host), t.label);
    }
    assert_eq!(hosts()[0], BASELINE_HOST);
    assert_eq!(hosts().len(), 5);
}
