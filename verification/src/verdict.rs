use vstd::prelude::*;

use crate::text::str_eq;
use vstd::string::*;
use crate::bignum::{
    decimal_view, decimals_view, lemma_pow10_add, lemma_pow10_pos, pow10, ratio_view, BigNum,
    BigRatio, Decimal,
};
use crate::ratio::{
    num_at_most_multiple, num_below_multiple, twice_num_above_thrice_den, twice_num_at_least_den,
    Ratio,
};

verus! {

/// Three-level status for any single metric.
#[derive(Debug, Clone, Copy, PartialEq, Eq, Structural)]
pub enum Status {
    Okay,
    Warn,
    Bad,
}

impl Status {
    /// How severe a status is: `Okay` < `Warn` < `Bad`.
    pub open spec fn rank(self) -> nat {
        match self {
            Status::Okay => 0,
            Status::Warn => 1,
            Status::Bad => 2,
        }
    }

    /// The more severe of two statuses.
    pub open spec fn worse(a: Status, b: Status) -> Status {
        if a.rank() >= b.rank() {
            a
        } else {
            b
        }
    }

    /// Worst status of a sequence, folding from the left; `Okay` when empty.
    pub open spec fn worst_spec(items: Seq<Status>) -> Status
        decreases items.len(),
    {
        if items.len() == 0 {
            Status::Okay
        } else {
            Status::worse(Status::worst_spec(items.drop_last()), items.last())
        }
    }

    /// Worst of a slice. Bad > Warn > Okay. Empty => Okay.
    pub fn worst_of(items: &[Status]) -> (r: Status)
        ensures
            r == Status::worst_spec(items@),
    {
        let mut acc = Status::Okay;
        let mut i: usize = 0;
        while i < items.len()
            invariant
                i <= items@.len(),
                acc == Status::worst_spec(items@.take(i as int)),
            decreases items@.len() - i,
        {
            let s = items[i];
            acc = match (acc, s) {
                (Status::Bad, _) | (_, Status::Bad) => Status::Bad,
                (Status::Warn, _) | (_, Status::Warn) => Status::Warn,
                _ => Status::Okay,
            };
            assert(items@.take(i + 1).drop_last() =~= items@.take(i as int));
            i = i + 1;
        }
        assert(items@.take(items@.len() as int) =~= items@);
        acc
    }
}

// --- threshold rules ---

/// Average round trip `num / den`, in milliseconds: OK below 150, WARN up
/// to 300, BAD above.
pub open spec fn avg_class(num: nat, den: nat) -> Status {
    if num < 150 * den {
        Status::Okay
    } else if num <= 300 * den {
        Status::Warn
    } else {
        Status::Bad
    }
}

/// Jitter, given by its square `num / den` in ms²: OK below 30 ms, WARN up
/// to 50 ms, BAD above.
pub open spec fn jitter_class(num: nat, den: nat) -> Status {
    if num < 900 * den {
        Status::Okay
    } else if num <= 2500 * den {
        Status::Warn
    } else {
        Status::Bad
    }
}

/// Packet loss, in percent: OK below 1, WARN below 5, BAD from 5 on.
pub open spec fn loss_class(loss_pct: Ratio) -> Status {
    if loss_pct.below(1, 1) {
        Status::Okay
    } else if loss_pct.below(5, 1) {
        Status::Warn
    } else {
        Status::Bad
    }
}

/// Download rate, in Mbps: OK above 3, WARN from 1 to 3, BAD below 1.
pub open spec fn download_class(mbps: Ratio) -> Status {
    if !mbps.at_most(3, 1) {
        Status::Okay
    } else if !mbps.below(1, 1) {
        Status::Warn
    } else {
        Status::Bad
    }
}

/// Upload rate, in Mbps: OK above 1.5, WARN from 0.5 to 1.5, BAD below 0.5.
pub open spec fn upload_class(mbps: Ratio) -> Status {
    if !mbps.at_most(3, 2) {
        Status::Okay
    } else if !mbps.below(1, 2) {
        Status::Warn
    } else {
        Status::Bad
    }
}

pub fn classify_avg(avg_ms: &BigRatio) -> (r: Status)
    ensures
        r == avg_class(avg_ms.num@, avg_ms.den@),
{
    if avg_ms.num.lt(&avg_ms.den.mul_add(150, 0)) {
        Status::Okay
    } else if !avg_ms.den.mul_add(300, 0).lt(&avg_ms.num) {
        Status::Warn
    } else {
        Status::Bad
    }
}

/// Classifies a jitter given by its square (ms²), so that no square root
/// is needed: the jitter is below 30 ms exactly when its square is below 900.
pub fn classify_jitter(jitter_ms_squared: &BigRatio) -> (r: Status)
    ensures
        r == jitter_class(jitter_ms_squared.num@, jitter_ms_squared.den@),
{
    let q = jitter_ms_squared;
    if q.num.lt(&q.den.mul_add(900, 0)) {
        Status::Okay
    } else if !q.den.mul_add(2500, 0).lt(&q.num) {
        Status::Warn
    } else {
        Status::Bad
    }
}

pub fn classify_loss(loss_pct: Ratio) -> (r: Status)
    ensures
        r == loss_class(loss_pct),
{
    if num_below_multiple(&loss_pct, 1) {
        Status::Okay
    } else if num_below_multiple(&loss_pct, 5) {
        Status::Warn
    } else {
        Status::Bad
    }
}

pub fn classify_download(mbps: Ratio) -> (r: Status)
    ensures
        r == download_class(mbps),
{
    if !num_at_most_multiple(&mbps, 3) {
        Status::Okay
    } else if !num_below_multiple(&mbps, 1) {
        Status::Warn
    } else {
        Status::Bad
    }
}

pub fn classify_upload(mbps: Ratio) -> (r: Status)
    ensures
        r == upload_class(mbps),
{
    if twice_num_above_thrice_den(&mbps) {
        Status::Okay
    } else if twice_num_at_least_den(&mbps) {
        Status::Warn
    } else {
        Status::Bad
    }
}

// --- per-target ping statistics ---

/// Largest scale among the samples (0 without samples).
pub open spec fn max_scale(s: Seq<(nat, nat)>) -> nat
    decreases s.len(),
{
    if s.len() == 0 {
        0
    } else if s.last().1 > max_scale(s.drop_last()) {
        s.last().1
    } else {
        max_scale(s.drop_last())
    }
}

/// A sample `m / 10^e` ms as a count of `10^-k` ms (for `k >= e`).
pub open spec fn scaled(x: (nat, nat), k: nat) -> nat {
    x.0 * pow10((k - x.1) as nat)
}

/// Sum of the samples, each as a count of `10^-k` ms.
pub open spec fn sum_scaled(s: Seq<(nat, nat)>, k: nat) -> nat
    decreases s.len(),
{
    if s.len() == 0 {
        0
    } else {
        sum_scaled(s.drop_last(), k) + scaled(s.last(), k)
    }
}

/// Sum of the squared samples, each as a count of `10^-k` ms.
pub open spec fn sum_sq_scaled(s: Seq<(nat, nat)>, k: nat) -> nat
    decreases s.len(),
{
    if s.len() == 0 {
        0
    } else {
        sum_sq_scaled(s.drop_last(), k) + scaled(s.last(), k) * scaled(s.last(), k)
    }
}

/// `n Σx² - (Σx)²` over the samples as counts of `10^-k` ms, `k` their
/// largest scale: `n (n - 1) 10^(2k)` times the sample variance in ms².
pub open spec fn scaled_variance(s: Seq<(nat, nat)>) -> int {
    let k = max_scale(s);
    s.len() * sum_sq_scaled(s, k) - sum_scaled(s, k) * sum_scaled(s, k)
}

/// The decimal `a` is smaller than the decimal `b`.
pub open spec fn dec_less(a: (nat, nat), b: (nat, nat)) -> bool {
    a.0 * pow10(b.1) < b.0 * pow10(a.1)
}

/// Smallest sample (of a non-empty sequence); of equal ones, the first.
pub open spec fn min_sample(s: Seq<(nat, nat)>) -> (nat, nat)
    decreases s.len(),
{
    if s.len() <= 1 {
        s[0]
    } else if dec_less(s.last(), min_sample(s.drop_last())) {
        s.last()
    } else {
        min_sample(s.drop_last())
    }
}

/// Largest sample (of a non-empty sequence); of equal ones, the first.
pub open spec fn max_sample(s: Seq<(nat, nat)>) -> (nat, nat)
    decreases s.len(),
{
    if s.len() <= 1 {
        s[0]
    } else if dec_less(max_sample(s.drop_last()), s.last()) {
        s.last()
    } else {
        max_sample(s.drop_last())
    }
}

/// No sample's scale exceeds the largest.
pub proof fn lemma_max_scale_bound(s: Seq<(nat, nat)>, i: int)
    requires
        0 <= i < s.len(),
    ensures
        s[i].1 <= max_scale(s),
    decreases s.len(),
{
    let m = max_scale(s.drop_last());
    assert(max_scale(s) >= m && max_scale(s) >= s.last().1);
    if i < s.len() - 1 {
        lemma_max_scale_bound(s.drop_last(), i);
        assert(s.drop_last()[i] == s[i]);
    } else {
        assert(s[i] == s.last());
    }
}

/// Counting a sample in finer units keeps its value: `scaled(x, k) / 10^k`
/// is `x.0 / 10^x.1`.
pub proof fn lemma_scaled_keeps_value(x: (nat, nat), k: nat)
    requires
        x.1 <= k,
    ensures
        scaled(x, k) * pow10(x.1) == x.0 * pow10(k),
{
    let d = (k - x.1) as nat;
    lemma_pow10_add(d, x.1);
    assert(d + x.1 == k);
    assert(x.0 * pow10(d) * pow10(x.1) == x.0 * (pow10(d) * pow10(x.1))) by (nonlinear_arith);
}

/// `Σ(v - x)² = Σv² - 2xΣv + n x²`, hence non-negative.
proof fn lemma_squared_deviation(s: Seq<(nat, nat)>, k: nat, x: int)
    ensures
        sum_sq_scaled(s, k) - 2 * x * sum_scaled(s, k) + s.len() * x * x >= 0,
    decreases s.len(),
{
    if s.len() > 0 {
        lemma_squared_deviation(s.drop_last(), k, x);
        let q = sum_sq_scaled(s.drop_last(), k) as int;
        let t = sum_scaled(s.drop_last(), k) as int;
        let m = s.len() - 1;
        let y = scaled(s.last(), k) as int;
        assert(sum_sq_scaled(s, k) == q + y * y);
        assert(sum_scaled(s, k) == t + y);
        assert(q + y * y - 2 * x * (t + y) + (m + 1) * x * x >= 0) by (nonlinear_arith)
            requires
                q - 2 * x * t + m * x * x >= 0,
        ;
        assert(s.len() == m + 1);
    } else {
        assert(sum_sq_scaled(s, k) - 2 * x * 0 + 0 * x * x >= 0) by (nonlinear_arith)
            requires
                sum_sq_scaled(s, k) == 0,
        ;
    }
}

/// `n Σv² >= (Σv)²` on any common scale.
proof fn lemma_scaled_sums_nonneg(s: Seq<(nat, nat)>, k: nat)
    ensures
        s.len() * sum_sq_scaled(s, k) - sum_scaled(s, k) * sum_scaled(s, k) >= 0,
    decreases s.len(),
{
    if s.len() > 0 {
        let p = s.drop_last();
        lemma_scaled_sums_nonneg(p, k);
        let x = scaled(s.last(), k) as int;
        lemma_squared_deviation(p, k, x);
        let q = sum_sq_scaled(p, k) as int;
        let t = sum_scaled(p, k) as int;
        let m = p.len() as int;
        assert((m + 1) * (q + x * x) - (t + x) * (t + x) >= 0) by (nonlinear_arith)
            requires
                m * q - t * t >= 0,
                q - 2 * x * t + m * x * x >= 0,
        ;
    }
}

/// The sample variance is never negative.
pub proof fn lemma_scaled_variance_nonneg(s: Seq<(nat, nat)>)
    ensures
        scaled_variance(s) >= 0,
{
    lemma_scaled_sums_nonneg(s, max_scale(s));
}

/// Ping-derived stats for a single target. Round-trip samples are kept
/// exactly as the replies wrote them, in milliseconds.
#[derive(Debug, Clone, PartialEq)]
pub struct PingStats {
    pub target: String,
    pub samples_ms: Vec<Decimal>,
    pub packets_sent: u32,
    pub packets_received: u32,
}

/// The largest scale of the samples, with the sum of the samples and the sum
/// of their squares, all on that scale.
fn scaled_sums(s: &Vec<Decimal>) -> (r: (usize, BigNum, BigNum))
    ensures
        r.0 == max_scale(decimals_view(s@)),
        r.1@ == sum_scaled(decimals_view(s@), r.0 as nat),
        r.2@ == sum_sq_scaled(decimals_view(s@), r.0 as nat),
{
    let ghost v = decimals_view(s@);
    let mut k: usize = 0;
    let mut i: usize = 0;
    while i < s.len()
        invariant
            i <= s@.len() == v.len(),
            v == decimals_view(s@),
            k == max_scale(v.take(i as int)),
        decreases s@.len() - i,
    {
        proof {
            assert(v.take(i + 1).drop_last() =~= v.take(i as int));
            assert(v.take(i + 1).last() == decimal_view(s@[i as int]));
        }
        if s[i].scale > k {
            k = s[i].scale;
        }
        i = i + 1;
    }
    assert(v.take(s@.len() as int) =~= v);
    let mut total = BigNum::zero();
    let mut squares = BigNum::zero();
    let mut j: usize = 0;
    while j < s.len()
        invariant
            j <= s@.len() == v.len(),
            v == decimals_view(s@),
            k == max_scale(v),
            total@ == sum_scaled(v.take(j as int), k as nat),
            squares@ == sum_sq_scaled(v.take(j as int), k as nat),
        decreases s@.len() - j,
    {
        proof {
            lemma_max_scale_bound(v, j as int);
            assert(v[j as int] == decimal_view(s@[j as int]));
            assert(v.take(j + 1).drop_last() =~= v.take(j as int));
            assert(v.take(j + 1).last() == v[j as int]);
        }
        let x = s[j].mantissa.shift(k - s[j].scale);
        total = total.add(&x);
        squares = squares.add(&x.mul(&x));
        j = j + 1;
    }
    assert(v.take(s@.len() as int) =~= v);
    (k, total, squares)
}

/// `a < b` between two decimals.
fn dec_lt(a: &Decimal, b: &Decimal) -> (r: bool)
    ensures
        r == dec_less(decimal_view(*a), decimal_view(*b)),
{
    a.mantissa.shift(b.scale).lt(&b.mantissa.shift(a.scale))
}

impl PingStats {
    /// The samples' exact values.
    pub open spec fn samples_view(&self) -> Seq<(nat, nat)> {
        decimals_view(self.samples_ms@)
    }

    /// Packet loss in percent: `100 * lost / sent`; 0 when nothing was sent.
    pub open spec fn loss_spec(&self) -> Ratio {
        if self.packets_sent == 0 {
            Ratio { num: 0, den: 1 }
        } else {
            Ratio {
                num: (100 * (if self.packets_received <= self.packets_sent {
                    self.packets_sent - self.packets_received
                } else {
                    0
                })) as u128,
                den: self.packets_sent as u128,
            }
        }
    }

    /// Average round trip in milliseconds, `Σx / n`, as a fraction over the
    /// samples' largest scale `k`: `(Σx 10^k) / (n 10^k)`.
    pub open spec fn avg_spec(&self) -> Option<(nat, nat)> {
        let s = self.samples_view();
        let k = max_scale(s);
        if s.len() == 0 {
            None
        } else {
            Some((sum_scaled(s, k), s.len() * pow10(k)))
        }
    }

    /// Sample variance of the round trips in ms²:
    /// `(n Σx² - (Σx)²) / (n (n - 1))`, over the largest scale `k`, so that the
    /// denominator is `n (n - 1) 10^(2k)`; none below two samples.
    pub open spec fn variance_spec(&self) -> Option<(nat, nat)> {
        let s = self.samples_view();
        let k = max_scale(s);
        if s.len() < 2 {
            None
        } else {
            Some((scaled_variance(s) as nat, (s.len() * (s.len() - 1) * pow10(2 * k)) as nat))
        }
    }

    pub open spec fn avg_status_spec(&self) -> Status {
        match self.avg_spec() {
            Some(avg) => avg_class(avg.0, avg.1),
            None => Status::Bad,
        }
    }

    pub open spec fn jitter_status_spec(&self) -> Status {
        match self.variance_spec() {
            Some(v) => jitter_class(v.0, v.1),
            None => Status::Warn,
        }
    }

    pub open spec fn loss_status_spec(&self) -> Status {
        loss_class(self.loss_spec())
    }

    pub open spec fn overall_spec(&self) -> Status {
        Status::worse(
            Status::worse(self.avg_status_spec(), self.jitter_status_spec()),
            self.loss_status_spec(),
        )
    }

    pub fn loss_pct(&self) -> (r: Ratio)
        ensures
            r == self.loss_spec(),
            r.wf(),
    {
        if self.packets_sent == 0 {
            return Ratio { num: 0, den: 1 };
        }
        let lost = self.packets_sent.saturating_sub(self.packets_received);
        Ratio { num: 100 * (lost as u128), den: self.packets_sent as u128 }
    }

    /// The average round trip in milliseconds, exactly; none without samples.
    pub fn avg_ms(&self) -> (r: Option<BigRatio>)
        ensures
            match self.avg_spec() {
                Some(q) => r matches Some(a) && ratio_view(a) == q,
                None => r is None,
            },
    {
        let n = self.samples_ms.len();
        if n == 0 {
            return None;
        }
        let (k, total, _squares) = scaled_sums(&self.samples_ms);
        let den = BigNum::from_u128(n as u128).shift(k);
        Some(BigRatio { num: total, den })
    }

    /// Smallest round trip, in milliseconds.
    pub fn min_ms(&self) -> (r: Option<Decimal>)
        ensures
            self.samples_ms@.len() == 0 ==> r is None,
            self.samples_ms@.len() > 0 ==> (r matches Some(d) && decimal_view(d) == min_sample(
                self.samples_view(),
            )),
    {
        let s = &self.samples_ms;
        let ghost v = self.samples_view();
        if s.len() == 0 {
            return None;
        }
        let mut best: usize = 0;
        let mut i: usize = 1;
        while i < s.len()
            invariant
                1 <= i <= s@.len() == v.len(),
                v == decimals_view(s@),
                best < i,
                v[best as int] == min_sample(v.take(i as int)),
            decreases s@.len() - i,
        {
            proof {
                assert(v.take(i + 1).drop_last() =~= v.take(i as int));
                assert(v.take(i + 1).last() == v[i as int]);
                assert(v[i as int] == decimal_view(s@[i as int]));
                assert(v[best as int] == decimal_view(s@[best as int]));
            }
            if dec_lt(&s[i], &s[best]) {
                best = i;
            }
            i = i + 1;
        }
        assert(v.take(s@.len() as int) =~= v);
        assert(v[best as int] == decimal_view(s@[best as int]));
        Some(Decimal { mantissa: s[best].mantissa.normalized(), scale: s[best].scale })
    }

    /// Largest round trip, in milliseconds.
    pub fn max_ms(&self) -> (r: Option<Decimal>)
        ensures
            self.samples_ms@.len() == 0 ==> r is None,
            self.samples_ms@.len() > 0 ==> (r matches Some(d) && decimal_view(d) == max_sample(
                self.samples_view(),
            )),
    {
        let s = &self.samples_ms;
        let ghost v = self.samples_view();
        if s.len() == 0 {
            return None;
        }
        let mut best: usize = 0;
        let mut i: usize = 1;
        while i < s.len()
            invariant
                1 <= i <= s@.len() == v.len(),
                v == decimals_view(s@),
                best < i,
                v[best as int] == max_sample(v.take(i as int)),
            decreases s@.len() - i,
        {
            proof {
                assert(v.take(i + 1).drop_last() =~= v.take(i as int));
                assert(v.take(i + 1).last() == v[i as int]);
                assert(v[i as int] == decimal_view(s@[i as int]));
                assert(v[best as int] == decimal_view(s@[best as int]));
            }
            if dec_lt(&s[best], &s[i]) {
                best = i;
            }
            i = i + 1;
        }
        assert(v.take(s@.len() as int) =~= v);
        assert(v[best as int] == decimal_view(s@[best as int]));
        Some(Decimal { mantissa: s[best].mantissa.normalized(), scale: s[best].scale })
    }

    /// Sample variance of the round trips (the square of the jitter), in
    /// ms², exactly; none below two samples.
    pub fn jitter_ms_squared(&self) -> (r: Option<BigRatio>)
        ensures
            match self.variance_spec() {
                Some(q) => r matches Some(v) && ratio_view(v) == q,
                None => r is None,
            },
    {
        let s = &self.samples_ms;
        let n = s.len();
        if n < 2 {
            return None;
        }
        let (k, total, squares) = scaled_sums(s);
        let ghost v = self.samples_view();
        let nb = BigNum::from_u128(n as u128);
        let a = nb.mul(&squares);
        let b = total.mul(&total);
        proof {
            lemma_scaled_variance_nonneg(v);
        }
        let num = a.sub(&b);
        assert((n as u128) * ((n - 1) as u128) <= 0xffff_ffff_ffff_ffff * 0xffff_ffff_ffff_ffff)
            by (nonlinear_arith)
            requires
                n <= 0xffff_ffff_ffff_ffff,
        ;
        let pairs = (n as u128) * ((n - 1) as u128);
        let den = BigNum::from_u128(pairs).shift(k).shift(k);
        proof {
            lemma_pow10_add(k as nat, k as nat);
            let p = pow10(k as nat);
            assert(pairs * p * p == n * (n - 1) * (p * p)) by (nonlinear_arith)
                requires
                    pairs == n * (n - 1),
            ;
            assert(2 * k == k + k);
        }
        Some(BigRatio { num, den })
    }

    pub fn avg_status(&self) -> (r: Status)
        ensures
            r == self.avg_status_spec(),
    {
        match self.avg_ms() {
            Some(avg) => classify_avg(&avg),
            None => Status::Bad,
        }
    }

    pub fn jitter_status(&self) -> (r: Status)
        ensures
            r == self.jitter_status_spec(),
    {
        match self.jitter_ms_squared() {
            Some(v) => classify_jitter(&v),
            None => Status::Warn,
        }
    }

    pub fn loss_status(&self) -> (r: Status)
        ensures
            r == self.loss_status_spec(),
    {
        classify_loss(self.loss_pct())
    }

    pub fn overall(&self) -> (r: Status)
        ensures
            r == self.overall_spec(),
    {
        let parts = [self.avg_status(), self.jitter_status(), self.loss_status()];
        let r = Status::worst_of(&parts);
        proof {
            let s = parts@;
            let one = s.drop_last().drop_last();
            assert(one =~= seq![s[0]]);
            assert(one.drop_last() =~= Seq::<Status>::empty());
            assert(Status::worst_spec(one.drop_last()) == Status::Okay);
            assert(Status::worst_spec(one) == s[0]);
            assert(Status::worst_spec(s.drop_last()) == Status::worse(s[0], s[1]));
        }
        r
    }
}

// --- speed test ---

/// Speed test result, in Mbps; `None` where a direction failed.
#[derive(Debug, Clone, PartialEq)]
pub struct SpeedStats {
    pub download_mbps: Option<Ratio>,
    pub upload_mbps: Option<Ratio>,
}

impl SpeedStats {
    pub open spec fn download_status_spec(&self) -> Status {
        match self.download_mbps {
            Some(d) => download_class(d),
            None => Status::Bad,
        }
    }

    pub open spec fn upload_status_spec(&self) -> Status {
        match self.upload_mbps {
            Some(u) => upload_class(u),
            None => Status::Bad,
        }
    }

    pub open spec fn overall_spec(&self) -> Status {
        Status::worse(self.download_status_spec(), self.upload_status_spec())
    }

    pub fn download_status(&self) -> (r: Status)
        ensures
            r == self.download_status_spec(),
    {
        match self.download_mbps {
            Some(d) => classify_download(d),
            None => Status::Bad,
        }
    }

    pub fn upload_status(&self) -> (r: Status)
        ensures
            r == self.upload_status_spec(),
    {
        match self.upload_mbps {
            Some(u) => classify_upload(u),
            None => Status::Bad,
        }
    }

    pub fn overall(&self) -> (r: Status)
        ensures
            r == self.overall_spec(),
    {
        let parts = [self.download_status(), self.upload_status()];
        let r = Status::worst_of(&parts);
        proof {
            let s = parts@;
            let one = s.drop_last();
            assert(one =~= seq![s[0]]);
            assert(one.drop_last() =~= Seq::<Status>::empty());
            assert(Status::worst_spec(one.drop_last()) == Status::Okay);
            assert(Status::worst_spec(one) == s[0]);
        }
        r
    }
}

// --- the verdict ---

#[derive(Debug, Clone, Copy, PartialEq, Eq, Structural)]
pub enum VerdictLabel {
    You,
    Vendor,
    Clear,
}

/// Final verdict against the "is it me?" question.
#[derive(Debug, Clone, PartialEq)]
pub struct Verdict {
    pub label: VerdictLabel,
    pub reason: String,
}

pub open spec fn you_reason() -> Seq<char> {
    "Your network is the problem. Try restarting your router, or your reputation."@
}

pub open spec fn vendor_reason_tail() -> Seq<char> {
    " is having a bad day. Not your fault. Send a passive-aggressive support ticket."@
}

pub open spec fn warn_reason() -> Seq<char> {
    "It works, barely. Like your Monday motivation."@
}

pub open spec fn clear_reason() -> Seq<char> {
    "Your network is minty fresh. Go take the call."@
}

/// `i` is the first ping whose target is the baseline.
pub open spec fn first_baseline_at(name: Seq<char>, pings: Seq<PingStats>, i: int) -> bool {
    &&& 0 <= i < pings.len()
    &&& pings[i].target@ == name
    &&& forall|j: int| 0 <= j < i ==> pings[j].target@ != name
}

/// The (first) baseline target is BAD.
pub open spec fn baseline_bad(name: Seq<char>, pings: Seq<PingStats>) -> bool {
    exists|i: int| first_baseline_at(name, pings, i) && pings[i].overall_spec() == Status::Bad
}

/// A non-baseline target is BAD.
pub open spec fn is_bad_vendor(name: Seq<char>, p: PingStats) -> bool {
    p.target@ != name && p.overall_spec() == Status::Bad
}

/// `i` is the first BAD non-baseline target.
pub open spec fn first_bad_vendor_at(name: Seq<char>, pings: Seq<PingStats>, i: int) -> bool {
    &&& 0 <= i < pings.len()
    &&& is_bad_vendor(name, pings[i])
    &&& forall|j: int| 0 <= j < i ==> !is_bad_vendor(name, pings[j])
}

pub open spec fn speed_bad(speed: Option<&SpeedStats>) -> bool {
    speed matches Some(s) && s.overall_spec() == Status::Bad
}

/// Some target, or the speed test, is WARN.
pub open spec fn any_warn(pings: Seq<PingStats>, speed: Option<&SpeedStats>) -> bool {
    ||| exists|i: int| 0 <= i < pings.len() && pings[i].overall_spec() == Status::Warn
    ||| (speed matches Some(s) && s.overall_spec() == Status::Warn)
}

/// Build the final verdict from per-target ping stats (with one baseline
/// target identified by name), plus speed stats.
///
/// - If baseline is BAD, or speed is BAD: It's you.
/// - Else if any vendor target is BAD: It's <vendor>.
/// - Else: All clear.
pub fn build_verdict(baseline_name: &str, pings: &[PingStats], speed: Option<&SpeedStats>) -> (r:
    Verdict)
    ensures
        (r.label == VerdictLabel::You) == (baseline_bad(baseline_name@, pings@) || speed_bad(
            speed,
        )),
        (r.label == VerdictLabel::Vendor) == (!(baseline_bad(baseline_name@, pings@) || speed_bad(
            speed,
        )) && exists|i: int|
            0 <= i < pings@.len() && is_bad_vendor(baseline_name@, #[trigger] pings@[i])),
        baseline_bad(baseline_name@, pings@) || speed_bad(speed) ==> {
            &&& r.label == VerdictLabel::You
            &&& r.reason@ == you_reason()
        },
        forall|i: int|
            !(baseline_bad(baseline_name@, pings@) || speed_bad(speed)) && first_bad_vendor_at(
                baseline_name@,
                pings@,
                i,
            ) ==> {
                &&& r.label == VerdictLabel::Vendor
                &&& r.reason@ == pings@[i].target@ + vendor_reason_tail()
            },
        !(baseline_bad(baseline_name@, pings@) || speed_bad(speed)) && (forall|i: int|
            0 <= i < pings@.len() ==> !is_bad_vendor(baseline_name@, #[trigger] pings@[i]))
            ==> {
            &&& r.label == VerdictLabel::Clear
            &&& r.reason@ == (if any_warn(pings@, speed) {
                warn_reason()
            } else {
                clear_reason()
            })
        },
{
    // The first baseline target, if any.
    let mut base: Option<usize> = None;
    let mut i: usize = 0;
    while i < pings.len() && base.is_none()
        invariant
            i <= pings@.len(),
            base matches Some(b) ==> first_baseline_at(baseline_name@, pings@, b as int),
            base is None ==> forall|j: int| 0 <= j < i ==> pings@[j].target@ != baseline_name@,
        decreases pings@.len() - i,
    {
        if str_eq(pings[i].target.as_str(), baseline_name) {
            base = Some(i);
        }
        i = i + 1;
    }
    let baseline_is_bad = match base {
        Some(b) => pings[b].overall() == Status::Bad,
        None => false,
    };
    assert(baseline_is_bad == baseline_bad(baseline_name@, pings@)) by {
        assert forall|k: int| first_baseline_at(baseline_name@, pings@, k) implies base == Some(
            k as usize,
        ) by {
            if let Some(b) = base {
                if (b as int) < k {
                    assert(pings@[b as int].target@ == baseline_name@);
                } else if k < b {
                    assert(pings@[k].target@ == baseline_name@);
                }
            } else {
                assert(pings@[k].target@ == baseline_name@);
            }
        }
        if let Some(b) = base {
            if baseline_is_bad {
                assert(first_baseline_at(baseline_name@, pings@, b as int));
            }
        }
    }
    let speed_is_bad = match speed {
        Some(s) => s.overall() == Status::Bad,
        None => false,
    };
    if baseline_is_bad || speed_is_bad {
        return Verdict { label: VerdictLabel::You, reason: String::from_str(
            "Your network is the problem. Try restarting your router, or your reputation.",
        ) };
    }
    // The first BAD target that is not the baseline, if any.
    let mut vendor: Option<usize> = None;
    let mut k: usize = 0;
    while k < pings.len() && vendor.is_none()
        invariant
            k <= pings@.len(),
            vendor matches Some(v) ==> first_bad_vendor_at(baseline_name@, pings@, v as int),
            vendor is None ==> forall|j: int|
                0 <= j < k ==> !is_bad_vendor(baseline_name@, #[trigger] pings@[j]),
        decreases pings@.len() - k,
    {
        let p = &pings[k];
        if !str_eq(p.target.as_str(), baseline_name) && p.overall() == Status::Bad {
            vendor = Some(k);
        }
        k = k + 1;
    }
    if let Some(v) = vendor {
        assert(is_bad_vendor(baseline_name@, pings@[v as int]));
        let mut reason = pings[v].target.clone();
        reason.append(
            " is having a bad day. Not your fault. Send a passive-aggressive support ticket.",
        );
        assert forall|m: int| #[trigger]
            first_bad_vendor_at(baseline_name@, pings@, m) implies m == v by {
            if m < v {
                assert(is_bad_vendor(baseline_name@, pings@[m]));
            } else if m > v {
                assert(is_bad_vendor(baseline_name@, pings@[v as int]));
            }
        }
        return Verdict { label: VerdictLabel::Vendor, reason };
    }
    let mut warn = false;
    let mut w: usize = 0;
    while w < pings.len() && !warn
        invariant
            w <= pings@.len(),
            warn ==> exists|j: int|
                0 <= j < pings@.len() && #[trigger] pings@[j].overall_spec() == Status::Warn,
            !warn ==> forall|j: int|
                0 <= j < w ==> #[trigger] pings@[j].overall_spec() != Status::Warn,
        decreases pings@.len() - w,
    {
        if pings[w].overall() == Status::Warn {
            warn = true;
        }
        w = w + 1;
    }
    if !warn {
        warn = match speed {
            Some(s) => s.overall() == Status::Warn,
            None => false,
        };
    }
    assert(warn == any_warn(pings@, speed));
    if warn {
        return Verdict { label: VerdictLabel::Clear, reason: String::from_str(
            "It works, barely. Like your Monday motivation.",
        ) };
    }
    Verdict { label: VerdictLabel::Clear, reason: String::from_str(
        "Your network is minty fresh. Go take the call.",
    ) }
}

/// The overall status of each target, in order.
pub open spec fn statuses_of(pings: Seq<PingStats>) -> Seq<Status> {
    Seq::new(pings.len(), |i: int| pings[i].overall_spec())
}

/// The speed test's overall status, `Okay` when it was skipped.
pub open spec fn speed_status_or_okay(speed: Option<&SpeedStats>) -> Status {
    match speed {
        Some(s) => s.overall_spec(),
        None => Status::Okay,
    }
}

/// Worst status over the speed test and all targets.
#[verifier::rlimit(40)]
pub fn worst_status(pings: &[PingStats], speed: Option<&SpeedStats>) -> (r: Status)
    ensures
        r == Status::worst_spec(seq![speed_status_or_okay(speed)] + statuses_of(pings@)),
{
    let mut worst = match speed {
        Some(s) => s.overall(),
        None => Status::Okay,
    };
    let ghost all = seq![speed_status_or_okay(speed)] + statuses_of(pings@);
    let mut i: usize = 0;
    proof {
        let first = all.take(1);
        assert(first =~= seq![worst]);
        assert(first.drop_last() =~= Seq::<Status>::empty());
        assert(Status::worst_spec(first.drop_last()) == Status::Okay);
    }
    while i < pings.len()
        invariant
            i <= pings@.len(),
            all == seq![speed_status_or_okay(speed)] + statuses_of(pings@),
            worst == Status::worst_spec(all.take(i + 1)),
        decreases pings@.len() - i,
    {
        let x = pings[i].overall();
        let pair = [worst, x];
        let next = Status::worst_of(&pair);
        proof {
            let s = pair@;
            let one = s.drop_last();
            assert(one =~= seq![s[0]]);
            assert(one.drop_last() =~= Seq::<Status>::empty());
            assert(Status::worst_spec(one.drop_last()) == Status::Okay);
            assert(Status::worst_spec(one) == s[0]);
            assert(all.take(i + 2).drop_last() =~= all.take(i + 1));
            assert(all.take(i + 2).last() == x);
        }
        worst = next;
        i = i + 1;
    }
    assert(all.take(pings@.len() + 1int) =~= all);
    worst
}

/// Exit code for the CLI process, as the documentation lays it out: 0 when
/// all clear with no WARN and no BAD, 1 when warnings are present or a
/// vendor is BAD, 2 when there is BAD on your side. `worst` is the worst
/// status over the speed test and all targets.
pub fn exit_code(label: VerdictLabel, worst: Status) -> (r: i32)
    ensures
        r == match label {
            VerdictLabel::You => 2i32,
            VerdictLabel::Vendor => 1i32,
            VerdictLabel::Clear => if worst == Status::Okay {
                0i32
            } else {
                1i32
            },
        },
{
    match label {
        VerdictLabel::You => 2,
        VerdictLabel::Vendor => 1,
        VerdictLabel::Clear => if worst == Status::Okay {
            0
        } else {
            1
        },
    }
}

// --- laws ---

/// Summing over two runs of samples adds their sums.
pub proof fn lemma_sum_scaled_concat(a: Seq<(nat, nat)>, b: Seq<(nat, nat)>, k: nat)
    ensures
        sum_scaled(a + b, k) == sum_scaled(a, k) + sum_scaled(b, k),
    decreases b.len(),
{
    if b.len() == 0 {
        assert(a + b =~= a);
    } else {
        lemma_sum_scaled_concat(a, b.drop_last(), k);
        assert((a + b).drop_last() =~= a + b.drop_last());
        assert((a + b).last() == b.last());
    }
}

/// A single sample sums to its own value on the scale.
pub proof fn lemma_sum_scaled_single(x: (nat, nat), k: nat)
    ensures
        sum_scaled(seq![x], k) == scaled(x, k),
{
    let one = seq![x];
    let none = one.drop_last();
    assert(none =~= Seq::<(nat, nat)>::empty());
    assert(sum_scaled(none, k) == 0);
    assert(one.last() == x);
    assert(sum_scaled(one, k) == sum_scaled(none, k) + scaled(one.last(), k));
}

/// The average is the mean: on the samples' common scale `k`, the average
/// times the number of samples is the sum of the samples
/// (`num * n * 10^k == Σ(x * 10^k) * den`), and its denominator is positive.
pub proof fn lemma_avg_is_mean(p: PingStats)
    requires
        p.samples_ms@.len() > 0,
    ensures
        ({
            let s = p.samples_view();
            let k = max_scale(s);
            &&& p.avg_spec() matches Some(q)
            &&& q.1 > 0
            &&& q.0 * (s.len() * pow10(k)) == sum_scaled(s, k) * q.1
        }),
{
    let s = p.samples_view();
    let k = max_scale(s);
    assert(s.len() == p.samples_ms@.len());
    lemma_pow10_pos(k);
    assert(s.len() * pow10(k) > 0) by (nonlinear_arith)
        requires
            s.len() > 0,
            pow10(k) >= 1,
    ;
    let q = p.avg_spec().unwrap();
    assert(q.0 == sum_scaled(s, k) && q.1 == s.len() * pow10(k));
    assert(q.0 * (s.len() * pow10(k)) == sum_scaled(s, k) * q.1) by (nonlinear_arith)
        requires
            q.0 == sum_scaled(s, k),
            q.1 == s.len() * pow10(k),
    ;
}

/// `<` between decimals is transitive.
pub proof fn lemma_dec_less_trans(a: (nat, nat), b: (nat, nat), c: (nat, nat))
    requires
        dec_less(a, b),
        dec_less(b, c),
    ensures
        dec_less(a, c),
{
    lemma_pow10_pos(a.1);
    lemma_pow10_pos(b.1);
    lemma_pow10_pos(c.1);
    let (pa, pb, pc) = (pow10(a.1) as int, pow10(b.1) as int, pow10(c.1) as int);
    let (x, y, z) = (a.0 as int, b.0 as int, c.0 as int);
    assert(x * pc * pb < z * pa * pb) by (nonlinear_arith)
        requires
            x * pb < y * pa,
            y * pc < z * pb,
            pa > 0,
            pb > 0,
            pc > 0,
            x >= 0,
    ;
    assert(x * pc < z * pa) by (nonlinear_arith)
        requires
            x * pc * pb < z * pa * pb,
            pb > 0,
    ;
}

/// The smallest sample is one of the samples, and no sample is smaller.
pub proof fn lemma_min_sample_is_least(s: Seq<(nat, nat)>)
    requires
        s.len() > 0,
    ensures
        s.contains(min_sample(s)),
        forall|j: int| 0 <= j < s.len() ==> !dec_less(#[trigger] s[j], min_sample(s)),
    decreases s.len(),
{
    if s.len() > 1 {
        let p = s.drop_last();
        lemma_min_sample_is_least(p);
        let m = min_sample(p);
        let i = choose|i: int| 0 <= i < p.len() && p[i] == m;
        if dec_less(s.last(), m) {
            assert(s[s.len() - 1] == s.last());
            assert forall|j: int| 0 <= j < s.len() implies !dec_less(#[trigger] s[j], s.last()) by {
                if j < s.len() - 1 {
                    assert(s[j] == p[j]);
                    if dec_less(s[j], s.last()) {
                        lemma_dec_less_trans(s[j], s.last(), m);
                    }
                } else {
                    assert(!dec_less(s.last(), s.last()));
                }
            }
        } else {
            assert(s[i] == p[i]);
            assert forall|j: int| 0 <= j < s.len() implies !dec_less(#[trigger] s[j], m) by {
                if j < s.len() - 1 {
                    assert(s[j] == p[j]);
                }
            }
        }
    } else {
        assert(s[0] == min_sample(s));
    }
}

/// The largest sample is one of the samples, and no sample is larger.
pub proof fn lemma_max_sample_is_greatest(s: Seq<(nat, nat)>)
    requires
        s.len() > 0,
    ensures
        s.contains(max_sample(s)),
        forall|j: int| 0 <= j < s.len() ==> !dec_less(max_sample(s), #[trigger] s[j]),
    decreases s.len(),
{
    if s.len() > 1 {
        let p = s.drop_last();
        lemma_max_sample_is_greatest(p);
        let m = max_sample(p);
        let i = choose|i: int| 0 <= i < p.len() && p[i] == m;
        if dec_less(m, s.last()) {
            assert(s[s.len() - 1] == s.last());
            assert forall|j: int| 0 <= j < s.len() implies !dec_less(s.last(), #[trigger] s[j]) by {
                if j < s.len() - 1 {
                    assert(s[j] == p[j]);
                    if dec_less(s.last(), s[j]) {
                        lemma_dec_less_trans(m, s.last(), s[j]);
                    }
                } else {
                    assert(!dec_less(s.last(), s.last()));
                }
            }
        } else {
            assert(s[i] == p[i]);
            assert forall|j: int| 0 <= j < s.len() implies !dec_less(m, #[trigger] s[j]) by {
                if j < s.len() - 1 {
                    assert(s[j] == p[j]);
                }
            }
        }
    } else {
        assert(s[0] == max_sample(s));
    }
}

/// A target's overall rating is the worst of its three ratings: it is at
/// least as bad as the average's, the jitter's and the packet loss's, and is
/// one of them. So a loss of 5% or more makes a target BAD whatever its
/// round trips, a target without any reply is BAD, and one with a single
/// reply (no jitter to measure) is never OK.
pub proof fn lemma_overall_is_worst(p: PingStats)
    ensures
        p.overall_spec().rank() >= p.avg_status_spec().rank(),
        p.overall_spec().rank() >= p.jitter_status_spec().rank(),
        p.overall_spec().rank() >= loss_class(p.loss_spec()).rank(),
        p.overall_spec() == p.avg_status_spec() || p.overall_spec() == p.jitter_status_spec()
            || p.overall_spec() == loss_class(p.loss_spec()),
        !p.loss_spec().below(5, 1) ==> p.overall_spec() == Status::Bad,
        p.samples_ms@.len() == 0 ==> p.overall_spec() == Status::Bad,
        p.samples_ms@.len() < 2 ==> p.overall_spec() != Status::Okay,
{
    assert(p.samples_view().len() == p.samples_ms@.len());
}

/// The speed test's rating is the worst of its two directions: at least as
/// bad as the download's and the upload's, and one of them. A failed
/// direction, or an upload below 0.5 Mbps, makes it BAD.
pub proof fn lemma_speed_overall_is_worst(s: SpeedStats)
    ensures
        s.overall_spec().rank() >= s.download_status_spec().rank(),
        s.overall_spec().rank() >= s.upload_status_spec().rank(),
        s.overall_spec() == s.download_status_spec() || s.overall_spec()
            == s.upload_status_spec(),
        s.upload_mbps matches Some(u) ==> s.overall_spec().rank() >= upload_class(u).rank(),
        s.download_mbps matches Some(d) ==> s.overall_spec().rank() >= download_class(d).rank(),
        s.upload_mbps is None || s.download_mbps is None ==> s.overall_spec() == Status::Bad,
        (s.upload_mbps matches Some(u) && u.below(1, 2)) ==> s.overall_spec() == Status::Bad,
        (s.download_mbps matches Some(d) && d.below(1, 1)) ==> s.overall_spec() == Status::Bad,
{
}

/// The baseline is judged on all its metrics: where target `i` is the first
/// one named as the baseline, the baseline is BAD exactly when that
/// target's overall rating is BAD; so a baseline losing 5% or more of its
/// packets, or with a BAD average or jitter, is BAD.
pub proof fn lemma_baseline_judged_on_all_metrics(name: Seq<char>, pings: Seq<PingStats>, i: int)
    requires
        first_baseline_at(name, pings, i),
    ensures
        baseline_bad(name, pings) <==> pings[i].overall_spec() == Status::Bad,
        loss_class(pings[i].loss_spec()) == Status::Bad ==> baseline_bad(name, pings),
        pings[i].avg_status_spec() == Status::Bad ==> baseline_bad(name, pings),
        pings[i].jitter_status_spec() == Status::Bad ==> baseline_bad(name, pings),
{
    lemma_overall_is_worst(pings[i]);
    assert forall|j: int| #[trigger] first_baseline_at(name, pings, j) implies j == i by {
        if j < i {
            assert(pings[j].target@ == name);
        } else if i < j {
            assert(pings[i].target@ == name);
        }
    }
}


/// The worst status outranks every item and is one of them (or `Okay` when
/// there are none).
pub proof fn lemma_worst_is_max(items: Seq<Status>)
    ensures
        forall|i: int|
            0 <= i < items.len() ==> #[trigger] items[i].rank() <= Status::worst_spec(
                items,
            ).rank(),
        Status::worst_spec(items) == Status::Okay || exists|i: int|
            0 <= i < items.len() && items[i] == Status::worst_spec(items),
    decreases items.len(),
{
    if items.len() > 0 {
        let p = items.drop_last();
        lemma_worst_is_max(p);
        assert forall|i: int| 0 <= i < items.len() implies #[trigger] items[i].rank()
            <= Status::worst_spec(items).rank() by {
            if i < items.len() - 1 {
                assert(items[i] == p[i]);
            }
        }
        if Status::worst_spec(items) != Status::Okay {
            if Status::worst_spec(items) == items.last() {
                assert(items[items.len() - 1] == Status::worst_spec(items));
            } else {
                let j = choose|j: int| 0 <= j < p.len() && p[j] == Status::worst_spec(p);
                assert(items[j] == Status::worst_spec(items));
            }
        }
    }
}

/// The worst status depends only on which statuses occur, not on their
/// order or repetition.
pub proof fn lemma_worst_ignores_order(a: Seq<Status>, b: Seq<Status>)
    requires
        forall|x: Status| a.contains(x) <==> b.contains(x),
    ensures
        Status::worst_spec(a) == Status::worst_spec(b),
{
    lemma_worst_is_max(a);
    lemma_worst_is_max(b);
    let wa = Status::worst_spec(a);
    let wb = Status::worst_spec(b);
    if wa != Status::Okay {
        let i = choose|i: int| 0 <= i < a.len() && a[i] == wa;
        assert(a.contains(wa));
        assert(b.contains(wa));
        let j = choose|j: int| 0 <= j < b.len() && b[j] == wa;
        assert(b[j].rank() <= wb.rank());
    }
    if wb != Status::Okay {
        assert(b.contains(wb));
        assert(a.contains(wb));
        let j = choose|j: int| 0 <= j < a.len() && a[j] == wb;
        assert(a[j].rank() <= wa.rank());
    }
}

/// Folding in more statuses: the worst of a concatenation is the worse of
/// the two worsts.
pub proof fn lemma_worst_of_concat(a: Seq<Status>, b: Seq<Status>)
    ensures
        Status::worst_spec(a + b) == Status::worse(Status::worst_spec(a), Status::worst_spec(b)),
    decreases b.len(),
{
    if b.len() == 0 {
        assert(a + b =~= a);
    } else {
        lemma_worst_of_concat(a, b.drop_last());
        assert((a + b).drop_last() =~= a + b.drop_last());
        assert((a + b).last() == b.last());
    }
}

/// A longer average round trip never rates better.
pub proof fn lemma_avg_class_monotone(xn: nat, xd: nat, yn: nat, yd: nat)
    requires
        xd > 0,
        yd > 0,
        xn * yd <= yn * xd,
    ensures
        avg_class(xn, xd).rank() <= avg_class(yn, yd).rank(),
{
    lemma_fraction_order(xn, xd, yn, yd, 150);
    lemma_fraction_order(xn, xd, yn, yd, 300);
}

/// A larger jitter never rates better.
pub proof fn lemma_jitter_class_monotone(xn: nat, xd: nat, yn: nat, yd: nat)
    requires
        xd > 0,
        yd > 0,
        xn * yd <= yn * xd,
    ensures
        jitter_class(xn, xd).rank() <= jitter_class(yn, yd).rank(),
{
    lemma_fraction_order(xn, xd, yn, yd, 900);
    lemma_fraction_order(xn, xd, yn, yd, 2500);
}

/// For `x <= y` as fractions: below `c` and at most `c` pass from `y` to `x`.
proof fn lemma_fraction_order(xn: nat, xd: nat, yn: nat, yd: nat, c: nat)
    requires
        xd > 0,
        yd > 0,
        xn * yd <= yn * xd,
    ensures
        yn < c * yd ==> xn < c * xd,
        yn <= c * yd ==> xn <= c * xd,
{
    assert(yn < c * yd ==> xn < c * xd) by (nonlinear_arith)
        requires
            xd > 0,
            yd > 0,
            xn * yd <= yn * xd,
    ;
    assert(yn <= c * yd ==> xn <= c * xd) by (nonlinear_arith)
        requires
            xd > 0,
            yd > 0,
            xn * yd <= yn * xd,
    ;
}

/// A larger packet loss never rates better.
pub proof fn lemma_loss_class_monotone(x: Ratio, y: Ratio)
    requires
        x.wf(),
        y.wf(),
        x.num * y.den <= y.num * x.den,
    ensures
        loss_class(x).rank() <= loss_class(y).rank(),
{
    lemma_ratio_order_preserves(x, y, 1);
    lemma_ratio_order_preserves(x, y, 5);
}

/// A faster download never rates worse.
pub proof fn lemma_download_class_monotone(x: Ratio, y: Ratio)
    requires
        x.wf(),
        y.wf(),
        x.num * y.den <= y.num * x.den,
    ensures
        download_class(y).rank() <= download_class(x).rank(),
{
    lemma_ratio_order_preserves_le(x, y, 3);
    lemma_ratio_order_preserves(x, y, 1);
}

/// A faster upload never rates worse.
pub proof fn lemma_upload_class_monotone(x: Ratio, y: Ratio)
    requires
        x.wf(),
        y.wf(),
        x.num * y.den <= y.num * x.den,
    ensures
        upload_class(y).rank() <= upload_class(x).rank(),
{
    let (xn, xd, yn, yd) = (x.num as int, x.den as int, y.num as int, y.den as int);
    assert(yn * 2 <= 3 * yd ==> xn * 2 <= 3 * xd) by (nonlinear_arith)
        requires
            xd > 0,
            yd > 0,
            xn * yd <= yn * xd,
    ;
    assert(yn * 2 < 1 * yd ==> xn * 2 < 1 * xd) by (nonlinear_arith)
        requires
            xd > 0,
            yd > 0,
            xn * yd <= yn * xd,
    ;
}

/// For `x <= y`: if `y` is below `c` then so is `x`.
proof fn lemma_ratio_order_preserves(x: Ratio, y: Ratio, c: int)
    requires
        x.wf(),
        y.wf(),
        x.num * y.den <= y.num * x.den,
    ensures
        y.below(c, 1) ==> x.below(c, 1),
{
    let (xn, xd, yn, yd) = (x.num as int, x.den as int, y.num as int, y.den as int);
    assert(yn * 1 < c * yd ==> xn * 1 < c * xd) by (nonlinear_arith)
        requires
            xd > 0,
            yd > 0,
            xn * yd <= yn * xd,
    ;
}

/// For `x <= y`: if `y` is at most `c` then so is `x`.
proof fn lemma_ratio_order_preserves_le(x: Ratio, y: Ratio, c: int)
    requires
        x.wf(),
        y.wf(),
        x.num * y.den <= y.num * x.den,
    ensures
        y.at_most(c, 1) ==> x.at_most(c, 1),
{
    let (xn, xd, yn, yd) = (x.num as int, x.den as int, y.num as int, y.den as int);
    assert(yn * 1 <= c * yd ==> xn * 1 <= c * xd) by (nonlinear_arith)
        requires
            xd > 0,
            yd > 0,
            xn * yd <= yn * xd,
    ;
}

/// Packet loss is between 0% and 100%, and it is 0% when every packet
/// came back (or none was sent).
pub proof fn lemma_loss_in_range(p: PingStats)
    ensures
        p.loss_spec().wf(),
        p.loss_spec().at_most(100, 1),
        p.packets_received >= p.packets_sent ==> p.loss_spec().num == 0,
        p.packets_sent > 0 && p.packets_received <= p.packets_sent ==> p.loss_spec().num
            * p.packets_sent == 100 * (p.packets_sent - p.packets_received) * p.loss_spec().den,
{
}

/// Sum of the squared deviations from the mean, scaled: `Σ (n X - S)²` for
/// the samples `X` as counts of `10^-k` ms, `n` their count and `S` their
/// sum; `n² 10^(2k)` times `Σ (x - mean)²`.
pub open spec fn deviation_sum(s: Seq<(nat, nat)>, k: nat, n: int, total: int) -> int
    decreases s.len(),
{
    if s.len() == 0 {
        0
    } else {
        let d = n * scaled(s.last(), k) - total;
        deviation_sum(s.drop_last(), k, n, total) + d * d
    }
}

/// Expanding the squares: `Σ (nX - S)² = n² ΣX² - 2nS ΣX + len S²`.
proof fn lemma_deviation_sum_expand(s: Seq<(nat, nat)>, k: nat, n: int, total: int)
    ensures
        deviation_sum(s, k, n, total) == n * n * sum_sq_scaled(s, k) - 2 * n * total * sum_scaled(
            s,
            k,
        ) + s.len() * total * total,
    decreases s.len(),
{
    if s.len() > 0 {
        let p = s.drop_last();
        lemma_deviation_sum_expand(p, k, n, total);
        let x = scaled(s.last(), k) as int;
        let q = sum_sq_scaled(p, k) as int;
        let t = sum_scaled(p, k) as int;
        let m = p.len() as int;
        assert(sum_sq_scaled(s, k) == q + x * x);
        assert(sum_scaled(s, k) == t + x);
        assert(s.len() == m + 1);
        assert((n * n * q - 2 * n * total * t + m * total * total) + (n * x - total) * (n * x
            - total) == n * n * (q + x * x) - 2 * n * total * (t + x) + (m + 1) * total * total)
            by (nonlinear_arith);
    } else {
        assert(n * n * 0 - 2 * n * total * 0 + 0 * total * total == 0) by (nonlinear_arith);
    }
}

/// The variance is the sample variance: the sum of the squared deviations
/// from the mean, divided by one less than the number of samples. On the
/// samples' common scale `k`, with `n` samples summing to `S`:
/// `var * n² (n - 1) 10^(2k) == Σ (n X - S)²`, as `num * that == Σ * den`.
pub proof fn lemma_variance_is_sample_variance(p: PingStats)
    requires
        p.samples_ms@.len() >= 2,
    ensures
        ({
            let s = p.samples_view();
            let k = max_scale(s);
            let n = s.len() as int;
            &&& p.variance_spec() matches Some(q)
            &&& q.1 > 0
            &&& q.0 * (n * n * (n - 1) * pow10(2 * k)) == deviation_sum(
                s,
                k,
                n,
                sum_scaled(s, k) as int,
            ) * q.1
        }),
{
    let s = p.samples_view();
    let k = max_scale(s);
    let n = s.len() as int;
    assert(s.len() == p.samples_ms@.len());
    let total = sum_scaled(s, k) as int;
    let sq = sum_sq_scaled(s, k) as int;
    lemma_deviation_sum_expand(s, k, n, total);
    lemma_scaled_variance_nonneg(s);
    lemma_pow10_pos(2 * k);
    let q = p.variance_spec().unwrap();
    let p2 = pow10(2 * k) as int;
    assert(q.0 == n * sq - total * total);
    assert(q.1 == n * (n - 1) * p2);
    assert(q.1 > 0) by (nonlinear_arith)
        requires
            q.1 == n * (n - 1) * p2,
            n >= 2,
            p2 >= 1,
    ;
    assert(q.0 * (n * n * (n - 1) * p2) == (n * n * sq - 2 * n * total * total + n * total
        * total) * q.1) by (nonlinear_arith)
        requires
            q.0 == n * sq - total * total,
            q.1 == n * (n - 1) * p2,
    ;
}

} // verus!
