use vstd::prelude::*;

verus! {

/// An exact non-negative fraction `num / den`, the form in which the
/// library keeps its metrics (milliseconds, percents, megabits per second).
/// A ratio is well formed when its denominator is positive.
#[derive(Debug, Clone, Copy, PartialEq, Eq, Structural)]
pub struct Ratio {
    pub num: u128,
    pub den: u128,
}

impl Ratio {
    pub open spec fn wf(self) -> bool {
        self.den > 0
    }

    /// The ratio is strictly below `a / b` (for `b > 0`).
    pub open spec fn below(self, a: int, b: int) -> bool {
        self.num * b < a * self.den
    }

    /// The ratio is at most `a / b` (for `b > 0`).
    pub open spec fn at_most(self, a: int, b: int) -> bool {
        self.num * b <= a * self.den
    }

    /// Builds `num / den`.
    pub fn new(num: u128, den: u128) -> (r: Ratio)
        ensures
            r.num == num,
            r.den == den,
    {
        Ratio { num, den }
    }
}

/// `c * d` overflows `m` exactly when `d` exceeds `m / c`.
proof fn lemma_product_bound(c: int, d: int, m: int)
    requires
        c > 0,
        d >= 0,
        m >= 0,
    ensures
        d > m / c ==> c * d > m,
        d <= m / c ==> c * d <= m,
{
    vstd::arithmetic::div_mod::lemma_fundamental_div_mod(m, c);
    let q = m / c;
    let r = m % c;
    assert(0 <= r < c) by {
        vstd::arithmetic::div_mod::lemma_mod_pos_bound(m, c);
    }
    if d > q {
        assert(c * d > m) by (nonlinear_arith)
            requires
                c > 0,
                d >= q + 1,
                m == c * q + r,
                r < c,
        ;
    } else {
        assert(c * d <= m) by (nonlinear_arith)
            requires
                c > 0,
                d <= q,
                m == c * q + r,
                r >= 0,
        ;
    }
}

/// Decides `r.num < c * r.den` without overflow.
pub(crate) fn num_below_multiple(r: &Ratio, c: u128) -> (b: bool)
    requires
        c > 0,
    ensures
        b == (r.num < c * r.den),
{
    proof {
        lemma_product_bound(c as int, r.den as int, u128::MAX as int);
    }
    if r.den > u128::MAX / c {
        true
    } else {
        r.num < c * r.den
    }
}

/// Decides `r.num <= c * r.den` without overflow.
pub(crate) fn num_at_most_multiple(r: &Ratio, c: u128) -> (b: bool)
    requires
        c > 0,
    ensures
        b == (r.num <= c * r.den),
{
    proof {
        lemma_product_bound(c as int, r.den as int, u128::MAX as int);
    }
    if r.den > u128::MAX / c {
        true
    } else {
        r.num <= c * r.den
    }
}

/// Decides `2 * r.num > 3 * r.den` without overflow.
pub(crate) fn twice_num_above_thrice_den(r: &Ratio) -> (b: bool)
    ensures
        b == (2 * r.num > 3 * r.den),
{
    if r.num < r.den {
        false
    } else {
        let x = r.num - r.den;
        let h = r.den / 2;
        assert(r.den == 2 * h + r.den % 2) by {
            vstd::arithmetic::div_mod::lemma_fundamental_div_mod(r.den as int, 2);
        }
        assert(r.den % 2 < 2) by {
            vstd::arithmetic::div_mod::lemma_mod_pos_bound(r.den as int, 2);
        }
        x > h
    }
}

/// Decides `2 * r.num >= r.den` without overflow.
pub(crate) fn twice_num_at_least_den(r: &Ratio) -> (b: bool)
    ensures
        b == (2 * r.num >= r.den),
{
    let h = r.den / 2;
    assert(r.den == 2 * h + r.den % 2) by {
        vstd::arithmetic::div_mod::lemma_fundamental_div_mod(r.den as int, 2);
    }
    assert(r.den % 2 < 2) by {
        vstd::arithmetic::div_mod::lemma_mod_pos_bound(r.den as int, 2);
    }
    r.num >= r.den - h
}

} // verus!
