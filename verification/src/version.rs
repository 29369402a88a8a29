use vstd::prelude::*;

verus! {

/// The version of this library, as its package declares it.
pub fn current_version() -> (r: &'static str)
    ensures
        r@ == "0.4.0"@,
{
    "0.4.0"
}

#[verifier::external_type_specification]
#[verifier::external_body]
pub struct ExVersion(semver::Version);

/// A version string that `semver` accepts, held together with the text it
/// was read from; its view is that text.
pub struct SemVersion {
    text: String,
    parsed: semver::Version,
}

impl View for SemVersion {
    type V = Seq<char>;

    closed spec fn view(&self) -> Seq<char> {
        self.text@
    }
}

/// Whether `semver::Version::parse` accepts the text.
pub uninterp spec fn semver_accepts(text: Seq<char>) -> bool;

/// Whether the version parsed from `newer` is greater than the one parsed
/// from `older`, in `semver::Version`'s order (major, minor, patch, then
/// pre-release and build metadata by SemVer precedence).
pub uninterp spec fn semver_greater(newer: Seq<char>, older: Seq<char>) -> bool;

/// Calls `semver::Version::parse`. Claims: the result is `Some` exactly
/// when the crate accepts the text, and then it keeps that text.
#[verifier::external_body]
fn parse_version(text: &str) -> (r: Option<SemVersion>)
    ensures
        r.is_some() == semver_accepts(text@),
        r matches Some(v) ==> v@ == text@,
{
    match semver::Version::parse(text) {
        Ok(parsed) => Some(SemVersion { text: text.to_string(), parsed }),
        Err(_) => None,
    }
}

/// Calls `>` on `semver::Version`, whose order is the derived, total one.
/// Claims: the result is `semver_greater` of the two texts; equal texts are
/// never greater; and `a > b` rules out `b > a`.
#[verifier::external_body]
fn version_greater(a: &SemVersion, b: &SemVersion) -> (r: bool)
    ensures
        r == semver_greater(a@, b@),
        a@ == b@ ==> !r,
        r ==> !semver_greater(b@, a@),
{
    a.parsed > b.parsed
}

/// `latest` is a valid version strictly newer than the valid `current`.
pub open spec fn newer_spec(current: Seq<char>, latest: Seq<char>) -> bool {
    semver_accepts(current) && semver_accepts(latest) && semver_greater(latest, current)
}

/// True if `latest` is a strictly newer semver than `current`.
/// Returns false on any parse failure (defensive: never misreport).
pub fn is_newer(current: &str, latest: &str) -> (r: bool)
    ensures
        r == newer_spec(current@, latest@),
        current@ == latest@ ==> !r,
        r ==> !newer_spec(latest@, current@),
{
    match (parse_version(current), parse_version(latest)) {
        (Some(c), Some(l)) => {
            let r = version_greater(&l, &c);
            proof {
                if r {
                    assert(!semver_greater(c@, l@));
                }
            }
            r
        },
        _ => false,
    }
}

/// Whole seconds since the Unix epoch by the system clock, from
/// `std::time::UNIX_EPOCH.elapsed()` (0 when the clock reads before the
/// epoch). Nothing is claimed of the value: it is the time.
#[verifier::external_body]
fn unix_now_secs() -> (r: u64) {
    match std::time::UNIX_EPOCH.elapsed() {
        Ok(d) => d.as_secs(),
        Err(_) => 0,
    }
}

/// How long a cached answer counts as fresh, in seconds.
pub const CACHE_TTL_SECS: u64 = 24 * 60 * 60;

/// The answer of the last successful network check.
pub struct Cache {
    /// Unix timestamp of the last successful network check.
    pub checked_at: u64,
    pub latest: String,
}

impl Cache {
    /// Less than the TTL has passed since the check (a check stamped in the
    /// future counts as just made).
    pub open spec fn fresh_at(&self, now: u64) -> bool {
        (if now >= self.checked_at {
            now - self.checked_at
        } else {
            0
        }) < CACHE_TTL_SECS
    }

    /// Whether the cache is fresh at the given time.
    pub fn is_fresh_at(&self, now: u64) -> (r: bool)
        ensures
            r == self.fresh_at(now),
    {
        now.saturating_sub(self.checked_at) < CACHE_TTL_SECS
    }

    /// Whether the cache is fresh now, by the system clock.
    pub fn is_fresh(&self) -> (r: bool)
        ensures
            exists|now: u64| r == self.fresh_at(now),
    {
        let now = unix_now_secs();
        self.is_fresh_at(now)
    }
}

/// What the update check does once the cache is read.
pub enum UpdateStep {
    /// A fresh cache already names a newer release: report it.
    Report(String),
    /// Ask the registry for the latest release.
    Fetch,
}

/// The cache short-circuits only when it is fresh and already shows a newer
/// version; otherwise the registry is asked, as a release may have been
/// published after the cache was written.
pub fn update_from_cache(current: &str, cache: Option<&Cache>, now: u64) -> (r: UpdateStep)
    ensures
        match r {
            UpdateStep::Report(v) => cache matches Some(c) && c.fresh_at(now) && v@ == c.latest@
                && newer_spec(current@, c.latest@),
            UpdateStep::Fetch => !(cache matches Some(c) && c.fresh_at(now) && newer_spec(
                current@,
                c.latest@,
            )),
        },
{
    match cache {
        Some(c) => {
            if c.is_fresh_at(now) && is_newer(current, c.latest.as_str()) {
                UpdateStep::Report(c.latest.clone())
            } else {
                UpdateStep::Fetch
            }
        },
        None => UpdateStep::Fetch,
    }
}

/// What to do with the registry's answer.
pub struct UpdateOutcome {
    /// The version to record in the cache, if the check succeeded.
    pub store: Option<String>,
    /// The newer release to report, if any.
    pub newer: Option<String>,
}

/// After a successful check the answer is cached; it is reported only when
/// it is newer than the running version. A failed check reports nothing.
pub fn update_from_fetch(current: &str, fetched: Option<String>) -> (r: UpdateOutcome)
    ensures
        fetched is None ==> r.store is None && r.newer is None,
        fetched matches Some(l) ==> {
            &&& r.store matches Some(s) && s@ == l@
            &&& r.newer is Some == newer_spec(current@, l@)
            &&& r.newer matches Some(v) ==> v@ == l@
        },
{
    match fetched {
        Some(latest) => {
            let newer = if is_newer(current, latest.as_str()) {
                Some(latest.clone())
            } else {
                None
            };
            UpdateOutcome { store: Some(latest), newer }
        },
        None => UpdateOutcome { store: None, newer: None },
    }
}

} // verus!
