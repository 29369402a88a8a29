use vstd::prelude::*;

use crate::ratio::Ratio;

verus! {

/// Megabits per second for `bytes` moved in `elapsed_us` microseconds:
/// `8 * bytes / elapsed_us` (bits per microsecond are megabits per second);
/// 0 when no time elapsed.
pub open spec fn mbps_spec(bytes: u64, elapsed_us: u64) -> Ratio {
    if elapsed_us == 0 {
        Ratio { num: 0, den: 1 }
    } else {
        Ratio { num: (8 * bytes) as u128, den: elapsed_us as u128 }
    }
}

/// Convert a byte count and the elapsed time, given in microseconds, into Mbps.
pub fn mbps_from_bytes_seconds(bytes: u64, elapsed_us: u64) -> (r: Ratio)
    ensures
        r == mbps_spec(bytes, elapsed_us),
        r.wf(),
{
    if elapsed_us == 0 {
        return Ratio { num: 0, den: 1 };
    }
    Ratio { num: 8 * (bytes as u128), den: elapsed_us as u128 }
}

/// The rate is linear in time: moving the same bytes in `k` times the time
/// gives `1/k` of the rate.
pub proof fn lemma_mbps_scales_with_time(bytes: u64, elapsed_us: u64, k: u64)
    requires
        elapsed_us > 0,
        k > 0,
        elapsed_us * k <= u64::MAX,
    ensures
        mbps_spec(bytes, elapsed_us).num * mbps_spec(bytes, (elapsed_us * k) as u64).den == k
            * mbps_spec(bytes, (elapsed_us * k) as u64).num * mbps_spec(bytes, elapsed_us).den,
{
    let b = 8 * bytes;
    let t = elapsed_us as int;
    assert(t * k > 0) by (nonlinear_arith)
        requires
            t > 0,
            k > 0,
    ;
    assert(b * (t * k) == k * b * t) by (nonlinear_arith);
}

} // verus!
