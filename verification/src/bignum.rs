use vstd::prelude::*;

verus! {

/// `10^n`.
pub open spec fn pow10(n: nat) -> nat
    decreases n,
{
    if n == 0 {
        1
    } else {
        10 * pow10((n - 1) as nat)
    }
}

/// Digit `i` of a little-endian digit string, 0 past its end.
pub open spec fn digit_at(s: Seq<u8>, i: int) -> nat {
    if 0 <= i < s.len() {
        s[i] as nat
    } else {
        0
    }
}

/// Value of the lowest `i` digits: `Σ_{j < i} s[j] * 10^j`.
pub open spec fn low_value(s: Seq<u8>, i: nat) -> nat
    decreases i,
{
    if i == 0 {
        0
    } else {
        low_value(s, (i - 1) as nat) + digit_at(s, i - 1) * pow10((i - 1) as nat)
    }
}

/// Value of a little-endian digit string.
pub open spec fn value_of(s: Seq<u8>) -> nat {
    low_value(s, s.len())
}

/// Every digit is a decimal digit.
pub open spec fn canonical(s: Seq<u8>) -> bool {
    forall|i: int| 0 <= i < s.len() ==> #[trigger] s[i] < 10
}

/// `k` zero digits.
pub open spec fn zeros(k: nat) -> Seq<u8> {
    Seq::new(k, |_i: int| 0u8)
}

/// A natural number of any size, as its decimal digits, least significant
/// first. Any byte counts with its own value, so every digit string has a
/// value; the operations below always produce decimal digits.
#[derive(Debug, Clone, PartialEq, Eq)]
pub struct BigNum {
    pub digits: Vec<u8>,
}

/// A decimal number `mantissa / 10^scale`, kept exactly as written.
#[derive(Debug, Clone, PartialEq, Eq)]
pub struct Decimal {
    pub mantissa: BigNum,
    pub scale: usize,
}

/// An exact fraction `num / den` of natural numbers of any size.
#[derive(Debug, Clone, PartialEq, Eq)]
pub struct BigRatio {
    pub num: BigNum,
    pub den: BigNum,
}

/// The numerator's and the denominator's values.
pub open spec fn ratio_view(q: BigRatio) -> (nat, nat) {
    (q.num@, q.den@)
}

/// The mantissa's value and the scale.
pub open spec fn decimal_view(d: Decimal) -> (nat, nat) {
    (d.mantissa@, d.scale as nat)
}

/// The exact parts of each decimal of a sequence.
pub open spec fn decimals_view(s: Seq<Decimal>) -> Seq<(nat, nat)> {
    s.map_values(|d: Decimal| decimal_view(d))
}

impl View for BigNum {
    type V = nat;

    open spec fn view(&self) -> nat {
        value_of(self.digits@)
    }
}

pub proof fn lemma_pow10_pos(n: nat)
    ensures
        pow10(n) >= 1,
    decreases n,
{
    if n > 0 {
        lemma_pow10_pos((n - 1) as nat);
    }
}

pub proof fn lemma_pow10_add(a: nat, b: nat)
    ensures
        pow10(a + b) == pow10(a) * pow10(b),
    decreases b,
{
    if b > 0 {
        let b1 = (b - 1) as nat;
        lemma_pow10_add(a, b1);
        let s1 = a + b1;
        assert(s1 + 1 == a + b);
        assert(pow10(s1 + 1) == 10 * pow10(s1));
        assert(pow10(b1 + 1) == 10 * pow10(b1));
        assert(10 * (pow10(a) * pow10(b1)) == pow10(a) * (10 * pow10(b1))) by (nonlinear_arith);
    } else {
        assert(pow10(0) == 1);
        assert(a + b == a);
    }
}

/// Digits past the end add nothing.
pub proof fn lemma_low_value_past(s: Seq<u8>, i: nat)
    requires
        i >= s.len(),
    ensures
        low_value(s, i) == value_of(s),
    decreases i,
{
    if i > s.len() {
        let j = (i - 1) as nat;
        lemma_low_value_past(s, j);
        assert(digit_at(s, j as int) == 0);
        assert(low_value(s, i) == low_value(s, j) + digit_at(s, j as int) * pow10(j));
    }
}

/// Decimal digits below position `i` are worth less than `10^i`.
proof fn lemma_low_value_bound(s: Seq<u8>, i: nat)
    requires
        canonical(s),
    ensures
        low_value(s, i) < pow10(i),
    decreases i,
{
    if i > 0 {
        let j = (i - 1) as nat;
        lemma_low_value_bound(s, j);
        let d = digit_at(s, j as int);
        assert(d <= 9) by {
            if (j as int) < s.len() {
                assert(s[j as int] < 10);
            }
        }
        let p = pow10(j);
        assert(low_value(s, j) + d * p < 10 * p) by (nonlinear_arith)
            requires
                low_value(s, j) < p,
                d <= 9,
        ;
    }
}

/// Strings agreeing below `i` have the same low value there.
proof fn lemma_low_value_agree(s: Seq<u8>, t: Seq<u8>, i: nat)
    requires
        forall|j: int| 0 <= j < i ==> digit_at(s, j) == digit_at(t, j),
    ensures
        low_value(s, i) == low_value(t, i),
    decreases i,
{
    if i > 0 {
        lemma_low_value_agree(s, t, (i - 1) as nat);
        assert(digit_at(s, i - 1) == digit_at(t, i - 1));
    }
}

/// Pushing a most significant digit.
pub proof fn lemma_value_push(s: Seq<u8>, d: u8)
    ensures
        value_of(s.push(d)) == value_of(s) + d * pow10(s.len()),
{
    let t = s.push(d);
    assert forall|j: int| 0 <= j < s.len() implies digit_at(t, j) == digit_at(s, j) by {
        assert(t[j] == s[j]);
    }
    lemma_low_value_agree(t, s, s.len());
    assert(digit_at(t, s.len() as int) == d);
}

/// Putting `k` zero digits below a number multiplies it by `10^k`.
pub proof fn lemma_value_shift(k: nat, s: Seq<u8>)
    ensures
        value_of(zeros(k) + s) == pow10(k) * value_of(s),
    decreases s.len(),
{
    if s.len() == 0 {
        let z = zeros(k);
        assert(z + s =~= z);
        assert forall|j: int| 0 <= j < k implies digit_at(z, j) == digit_at(Seq::<u8>::empty(), j) by {
        }
        lemma_low_value_agree(z, Seq::<u8>::empty(), k);
        assert(low_value(Seq::<u8>::empty(), k) == 0) by {
            lemma_low_value_past(Seq::<u8>::empty(), k);
        }
        assert(value_of(z) == 0);
        assert(value_of(s) == 0);
        assert(pow10(k) * value_of(s) == 0) by (nonlinear_arith)
            requires
                value_of(s) == 0,
        ;
    } else {
        let p = s.drop_last();
        let d = s.last();
        lemma_value_shift(k, p);
        assert(zeros(k) + s =~= (zeros(k) + p).push(d));
        assert(s =~= p.push(d));
        lemma_value_push(zeros(k) + p, d);
        lemma_value_push(p, d);
        lemma_pow10_add(k, p.len());
        let zp = zeros(k) + p;
        assert(zp.len() == k + p.len());
        assert(value_of(zeros(k) + s) == value_of(zp) + d * pow10(k + p.len()));
        assert(value_of(s) == value_of(p) + d * pow10(p.len()));
        assert(pow10(k) * value_of(p) + d * (pow10(k) * pow10(p.len())) == pow10(k) * (value_of(p)
            + d * pow10(p.len()))) by (nonlinear_arith);
    }
}

/// The value up to `i + 1` adds digit `i`.
pub proof fn lemma_low_value_step(s: Seq<u8>, i: nat)
    ensures
        low_value(s, i + 1) == low_value(s, i) + digit_at(s, i as int) * pow10(i),
{
}

/// Appends the digits of `carry`, above what `out` holds.
fn push_carry(out: &mut Vec<u8>, carry: u128)
    requires
        canonical(old(out)@),
    ensures
        canonical(final(out)@),
        value_of(final(out)@) == value_of(old(out)@) + carry * pow10(old(out)@.len()),
{
    let mut c = carry;
    while c > 0
        invariant
            canonical(out@),
            value_of(out@) + c * pow10(out@.len()) == value_of(old(out)@) + carry * pow10(
                old(out)@.len(),
            ),
        decreases c,
    {
        let d = (c % 10) as u8;
        let ghost before = out@;
        let ghost p = pow10(before.len());
        out.push(d);
        proof {
            lemma_value_push(before, d);
            assert(out@ == before.push(d));
            assert(pow10(out@.len()) == 10 * p);
            assert(c == 10 * (c / 10) + c % 10);
            assert(d * p + (c / 10) * (10 * p) == c * p) by (nonlinear_arith)
                requires
                    c == 10 * (c / 10) + d,
            ;
            assert forall|i: int| 0 <= i < out@.len() implies #[trigger] out@[i] < 10 by {
                if i < before.len() {
                    assert(out@[i] == before[i]);
                }
            }
        }
        c = c / 10;
    }
}

impl BigNum {
    /// Zero.
    pub fn zero() -> (r: BigNum)
        ensures
            r@ == 0,
            canonical(r.digits@),
    {
        BigNum { digits: Vec::new() }
    }

    /// The number `x`.
    pub fn from_u128(x: u128) -> (r: BigNum)
        ensures
            r@ == x,
            canonical(r.digits@),
    {
        let mut out: Vec<u8> = Vec::new();
        proof {
            assert(pow10(0) == 1);
            assert(value_of(out@) == 0);
        }
        push_carry(&mut out, x);
        BigNum { digits: out }
    }

    /// `self * k + c`, in decimal digits.
    pub fn mul_add(&self, k: u64, c: u64) -> (r: BigNum)
        requires
            k <= 0xffff_ffff,
        ensures
            r@ == self@ * k + c,
            canonical(r.digits@),
    {
        let a = &self.digits;
        let n = a.len();
        let mut out: Vec<u8> = Vec::new();
        let mut carry: u128 = c as u128;
        let mut i: usize = 0;
        proof {
            assert(pow10(0) == 1);
            assert(value_of(out@) == 0);
            assert(low_value(a@, 0) == 0);
        }
        while i < n
            invariant
                n == a@.len(),
                i <= n,
                k <= 0xffff_ffff,
                out@.len() == i,
                canonical(out@),
                carry <= c + 29 * k,
                value_of(out@) + carry * pow10(i as nat) == k * low_value(a@, i as nat) + c,
            decreases n - i,
        {
            let x = a[i];
            assert((x as u128) * (k as u128) <= 255 * 0xffff_ffff) by (nonlinear_arith)
                requires
                    x <= 255,
                    k <= 0xffff_ffff,
            ;
            let t = (x as u128) * (k as u128) + carry;
            let d = (t % 10) as u8;
            let ghost before = out@;
            let ghost p = pow10(i as nat);
            out.push(d);
            proof {
                lemma_value_push(before, d);
                assert(out@ == before.push(d));
                assert(digit_at(a@, i as int) == x);
                lemma_low_value_step(a@, i as nat);
                assert(pow10((i + 1) as nat) == 10 * p);
                assert(t == 10 * (t / 10) + d);
                let lv = low_value(a@, i as nat);
                assert(value_of(before) + d * p + (t / 10) * (10 * p) == k * (lv + x * p) + c)
                    by (nonlinear_arith)
                    requires
                        value_of(before) + carry * p == k * lv + c,
                        t == x * k + carry,
                        t == 10 * (t / 10) + d,
                ;
                assert((t / 10) <= c + 29 * k) by (nonlinear_arith)
                    requires
                        t == x * k + carry,
                        x <= 255,
                        carry <= c + 29 * k,
                ;
                assert forall|j: int| 0 <= j < out@.len() implies #[trigger] out@[j] < 10 by {
                    if j < before.len() {
                        assert(out@[j] == before[j]);
                    }
                }
            }
            carry = t / 10;
            i = i + 1;
        }
        push_carry(&mut out, carry);
        proof {
            assert(low_value(a@, n as nat) == self@);
            assert(k * self@ == self@ * k) by (nonlinear_arith);
        }
        BigNum { digits: out }
    }

    /// The same number with decimal digits only.
    pub fn normalized(&self) -> (r: BigNum)
        ensures
            r@ == self@,
            canonical(r.digits@),
    {
        self.mul_add(1, 0)
    }

    /// `self + other`.
    pub fn add(&self, other: &BigNum) -> (r: BigNum)
        ensures
            r@ == self@ + other@,
            canonical(r.digits@),
    {
        let a = &self.digits;
        let b = &other.digits;
        let n = if a.len() >= b.len() {
            a.len()
        } else {
            b.len()
        };
        let mut out: Vec<u8> = Vec::new();
        let mut carry: u128 = 0;
        let mut i: usize = 0;
        while i < n
            invariant
                n >= a@.len(),
                n >= b@.len(),
                i <= n,
                out@.len() == i,
                canonical(out@),
                carry <= 56,
                value_of(out@) + carry * pow10(i as nat) == low_value(a@, i as nat) + low_value(
                    b@,
                    i as nat,
                ),
            decreases n - i,
        {
            let x: u128 = if i < a.len() {
                a[i] as u128
            } else {
                0
            };
            let y: u128 = if i < b.len() {
                b[i] as u128
            } else {
                0
            };
            let t = x + y + carry;
            let d = (t % 10) as u8;
            let ghost before = out@;
            let ghost p = pow10(i as nat);
            out.push(d);
            proof {
                lemma_value_push(before, d);
                assert(out@ == before.push(d));
                lemma_low_value_step(a@, i as nat);
                lemma_low_value_step(b@, i as nat);
                assert(digit_at(a@, i as int) == x);
                assert(digit_at(b@, i as int) == y);
                assert(pow10((i + 1) as nat) == 10 * p);
                assert(t == 10 * (t / 10) + d);
                assert(d * p + (t / 10) * (10 * p) == (x + y + carry) * p) by (nonlinear_arith)
                    requires
                        t == x + y + carry,
                        t == 10 * (t / 10) + d,
                ;
                assert((x + y + carry) * p == x * p + y * p + carry * p) by (nonlinear_arith);
                assert forall|j: int| 0 <= j < out@.len() implies #[trigger] out@[j] < 10 by {
                    if j < before.len() {
                        assert(out@[j] == before[j]);
                    }
                }
            }
            carry = t / 10;
            i = i + 1;
        }
        proof {
            lemma_low_value_past(a@, n as nat);
            lemma_low_value_past(b@, n as nat);
        }
        push_carry(&mut out, carry);
        BigNum { digits: out }
    }

    /// `self - other`, for `other <= self`.
    pub fn sub(&self, other: &BigNum) -> (r: BigNum)
        requires
            other@ <= self@,
        ensures
            r@ == self@ - other@,
            canonical(r.digits@),
    {
        let an = self.normalized();
        let bn = other.normalized();
        let a = &an.digits;
        let b = &bn.digits;
        let n = if a.len() >= b.len() {
            a.len()
        } else {
            b.len()
        };
        let mut out: Vec<u8> = Vec::new();
        let mut borrow: u8 = 0;
        let mut i: usize = 0;
        while i < n
            invariant
                n >= a@.len(),
                n >= b@.len(),
                canonical(a@),
                canonical(b@),
                i <= n,
                out@.len() == i,
                canonical(out@),
                borrow <= 1,
                value_of(out@) + low_value(b@, i as nat) == low_value(a@, i as nat) + borrow
                    * pow10(i as nat),
            decreases n - i,
        {
            let x: u8 = if i < a.len() {
                a[i]
            } else {
                0
            };
            let y: u8 = if i < b.len() {
                b[i]
            } else {
                0
            };
            assert(x < 10 && y < 10);
            let d: u8;
            let next: u8;
            if x >= y + borrow {
                d = x - y - borrow;
                next = 0;
            } else {
                d = x + 10 - y - borrow;
                next = 1;
            }
            let ghost before = out@;
            let ghost p = pow10(i as nat);
            out.push(d);
            proof {
                lemma_value_push(before, d);
                assert(out@ == before.push(d));
                lemma_low_value_step(a@, i as nat);
                lemma_low_value_step(b@, i as nat);
                assert(digit_at(a@, i as int) == x);
                assert(digit_at(b@, i as int) == y);
                assert(pow10((i + 1) as nat) == 10 * p);
                assert(d + y == x + 10 * next - borrow);
                assert(d * p + y * p == x * p + next * (10 * p) - borrow * p) by (nonlinear_arith)
                    requires
                        d + y == x + 10 * next - borrow,
                ;
                assert forall|j: int| 0 <= j < out@.len() implies #[trigger] out@[j] < 10 by {
                    if j < before.len() {
                        assert(out@[j] == before[j]);
                    }
                }
            }
            borrow = next;
            i = i + 1;
        }
        proof {
            lemma_low_value_past(a@, n as nat);
            lemma_low_value_past(b@, n as nat);
            lemma_low_value_bound(out@, n as nat);
            if borrow == 1 {
                assert(value_of(out@) < pow10(n as nat));
                assert(false);
            }
        }
        BigNum { digits: out }
    }

    /// `self * 10^k`.
    pub fn shift(&self, k: usize) -> (r: BigNum)
        ensures
            r@ == self@ * pow10(k as nat),
            canonical(self.digits@) ==> canonical(r.digits@),
    {
        let mut out: Vec<u8> = Vec::new();
        let mut j: usize = 0;
        while j < k
            invariant
                j <= k,
                out@ == zeros(j as nat),
            decreases k - j,
        {
            out.push(0);
            j = j + 1;
            assert(out@ =~= zeros(j as nat));
        }
        let a = &self.digits;
        let mut i: usize = 0;
        while i < a.len()
            invariant
                i <= a@.len(),
                out@ == zeros(k as nat) + a@.take(i as int),
            decreases a@.len() - i,
        {
            out.push(a[i]);
            i = i + 1;
            assert(out@ =~= zeros(k as nat) + a@.take(i as int));
        }
        proof {
            assert(a@.take(a@.len() as int) =~= a@);
            lemma_value_shift(k as nat, a@);
            assert(pow10(k as nat) * value_of(a@) == value_of(a@) * pow10(k as nat))
                by (nonlinear_arith);
            if canonical(a@) {
                assert forall|t: int| 0 <= t < out@.len() implies #[trigger] out@[t] < 10 by {
                    if t >= k {
                        assert(out@[t] == a@[t - k]);
                    }
                }
            }
        }
        BigNum { digits: out }
    }

    /// `self * other`.
    pub fn mul(&self, other: &BigNum) -> (r: BigNum)
        ensures
            r@ == self@ * other@,
            canonical(r.digits@),
    {
        let b = &other.digits;
        let mut acc = BigNum::zero();
        let mut j: usize = 0;
        proof {
            assert(low_value(b@, 0) == 0);
            assert(self@ * 0 == 0) by (nonlinear_arith);
        }
        while j < b.len()
            invariant
                j <= b@.len(),
                acc@ == self@ * low_value(b@, j as nat),
                canonical(acc.digits@),
            decreases b@.len() - j,
        {
            let part = self.mul_add(b[j] as u64, 0).shift(j);
            let ghost lv = low_value(b@, j as nat);
            proof {
                lemma_low_value_step(b@, j as nat);
                assert(digit_at(b@, j as int) == b@[j as int]);
                let p = pow10(j as nat);
                let y = b@[j as int] as int;
                assert(self@ * lv + (self@ * y) * p == self@ * (lv + y * p)) by (nonlinear_arith);
            }
            acc = acc.add(&part);
            j = j + 1;
        }
        assert(low_value(b@, b@.len()) == other@);
        acc
    }

    /// `self < other`.
    pub fn lt(&self, other: &BigNum) -> (r: bool)
        ensures
            r == (self@ < other@),
    {
        let an = self.normalized();
        let bn = other.normalized();
        let a = &an.digits;
        let b = &bn.digits;
        let n = if a.len() >= b.len() {
            a.len()
        } else {
            b.len()
        };
        proof {
            lemma_low_value_past(a@, n as nat);
            lemma_low_value_past(b@, n as nat);
        }
        let mut i: usize = n;
        while i > 0
            invariant
                n >= a@.len(),
                n >= b@.len(),
                canonical(a@),
                canonical(b@),
                i <= n,
                an@ == self@,
                bn@ == other@,
                an@ - low_value(a@, i as nat) == bn@ - low_value(b@, i as nat),
            decreases i,
        {
            i = i - 1;
            let x: u8 = if i < a.len() {
                a[i]
            } else {
                0
            };
            let y: u8 = if i < b.len() {
                b[i]
            } else {
                0
            };
            proof {
                lemma_low_value_step(a@, i as nat);
                lemma_low_value_step(b@, i as nat);
                assert(digit_at(a@, i as int) == x);
                assert(digit_at(b@, i as int) == y);
                lemma_low_value_bound(a@, i as nat);
                lemma_low_value_bound(b@, i as nat);
            }
            if x != y {
                proof {
                    let p = pow10(i as nat);
                    let la = low_value(a@, i as nat);
                    let lb = low_value(b@, i as nat);
                    if x < y {
                        assert(la + x * p < lb + y * p) by (nonlinear_arith)
                            requires
                                la < p,
                                lb >= 0,
                                x < y,
                        ;
                    } else {
                        assert(lb + y * p < la + x * p) by (nonlinear_arith)
                            requires
                                lb < p,
                                la >= 0,
                                y < x,
                        ;
                    }
                }
                return x < y;
            }
        }
        false
    }
}

} // verus!
