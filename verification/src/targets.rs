use vstd::prelude::*;

use crate::text::str_eq;

verus! {

/// A ping target: the host pinged and the label shown for it.
#[derive(Debug, Clone, Copy)]
pub struct Target {
    pub host: &'static str,
    pub label: &'static str,
}

/// Host treated as the baseline. Must match one of the `host` fields.
pub const BASELINE_HOST: &'static str = "8.8.8.8";

/// Number of ping targets.
pub open spec fn target_count() -> int {
    5
}

/// Host of the `i`-th target, in the order they are pinged.
pub open spec fn host_at(i: int) -> Seq<char> {
    if i == 0 {
        "8.8.8.8"@
    } else if i == 1 {
        "1.1.1.1"@
    } else if i == 2 {
        "zoom.us"@
    } else if i == 3 {
        "teams.microsoft.com"@
    } else {
        "meet.google.com"@
    }
}

/// Label of the `i`-th target.
pub open spec fn label_at(i: int) -> Seq<char> {
    if i == 0 {
        "Google DNS (baseline)"@
    } else if i == 1 {
        "Cloudflare DNS"@
    } else if i == 2 {
        "Zoom"@
    } else if i == 3 {
        "MS Teams"@
    } else {
        "Google Meet"@
    }
}

/// The label of the first target whose host is `host`, or "unknown".
pub open spec fn label_spec(host: Seq<char>) -> Seq<char> {
    if host == host_at(0) {
        label_at(0)
    } else if host == host_at(1) {
        label_at(1)
    } else if host == host_at(2) {
        label_at(2)
    } else if host == host_at(3) {
        label_at(3)
    } else if host == host_at(4) {
        label_at(4)
    } else {
        "unknown"@
    }
}

/// The hardcoded ping targets, in order.
pub fn targets() -> (r: Vec<Target>)
    ensures
        r@.len() == target_count(),
        forall|i: int| 0 <= i < target_count() ==> (#[trigger] r@[i]).host@ == host_at(i),
        forall|i: int| 0 <= i < target_count() ==> (#[trigger] r@[i]).label@ == label_at(i),
{
    vec![
        Target { host: "8.8.8.8", label: "Google DNS (baseline)" },
        Target { host: "1.1.1.1", label: "Cloudflare DNS" },
        Target { host: "zoom.us", label: "Zoom" },
        Target { host: "teams.microsoft.com", label: "MS Teams" },
        Target { host: "meet.google.com", label: "Google Meet" },
    ]
}

/// The hosts of the targets, in order.
pub fn hosts() -> (r: Vec<&'static str>)
    ensures
        r@.len() == target_count(),
        forall|i: int| 0 <= i < target_count() ==> (#[trigger] r@[i])@ == host_at(i),
{
    let ts = targets();
    let mut out: Vec<&'static str> = Vec::new();
    let mut i: usize = 0;
    while i < ts.len()
        invariant
            i <= ts@.len() == target_count(),
            forall|k: int| 0 <= k < target_count() ==> (#[trigger] ts@[k]).host@ == host_at(k),
            out@.len() == i,
            forall|k: int| 0 <= k < i ==> (#[trigger] out@[k])@ == host_at(k),
        decreases ts@.len() - i,
    {
        out.push(ts[i].host);
        i = i + 1;
    }
    out
}

/// Human label for a host, falling back to "unknown".
pub fn label_for(host: &str) -> (r: &'static str)
    ensures
        r@ == label_spec(host@),
{
    let ts = targets();
    let mut i: usize = 0;
    while i < ts.len()
        invariant
            i <= ts@.len() == target_count(),
            forall|k: int| 0 <= k < target_count() ==> (#[trigger] ts@[k]).host@ == host_at(k),
            forall|k: int| 0 <= k < target_count() ==> (#[trigger] ts@[k]).label@ == label_at(k),
            forall|k: int| 0 <= k < i ==> host@ != host_at(k),
        decreases ts@.len() - i,
    {
        if str_eq(ts[i].host, host) {
            return ts[i].label;
        }
        i = i + 1;
    }
    "unknown"
}

/// The hosts are pairwise distinct, and the baseline is the first of them.
pub proof fn lemma_hosts_distinct_with_baseline()
    ensures
        forall|i: int, j: int|
            0 <= i < target_count() && 0 <= j < target_count() && i != j ==> host_at(i) != host_at(
                j,
            ),
        BASELINE_HOST@ == host_at(0),
{
    reveal_strlit("8.8.8.8");
    reveal_strlit("1.1.1.1");
    reveal_strlit("zoom.us");
    reveal_strlit("teams.microsoft.com");
    reveal_strlit("meet.google.com");
    assert(host_at(0)[0] != host_at(1)[0]);
    assert(host_at(0)[0] != host_at(2)[0]);
    assert(host_at(0)[0] != host_at(3)[0]);
    assert(host_at(0)[0] != host_at(4)[0]);
    assert(host_at(1)[0] != host_at(2)[0]);
    assert(host_at(1)[0] != host_at(3)[0]);
    assert(host_at(1)[0] != host_at(4)[0]);
    assert(host_at(2)[0] != host_at(3)[0]);
    assert(host_at(2)[0] != host_at(4)[0]);
    assert(host_at(3)[0] != host_at(4)[0]);
}

/// Each target's host is labelled with its own label.
pub proof fn lemma_label_of_each_host(i: int)
    requires
        0 <= i < target_count(),
    ensures
        label_spec(host_at(i)) == label_at(i),
{
    lemma_hosts_distinct_with_baseline();
}

} // verus!
