//! Decimal prices, held as a mantissa and a base-ten scale, with the
//! arithmetic of `rust_decimal` behind trusted wrappers.
use vstd::prelude::*;

verus! {

/// The largest mantissa magnitude a decimal can hold (96 bits).
pub const MAX_MANTISSA: i128 = 0xFFFF_FFFF_FFFF_FFFF_FFFF_FFFFi128;

/// The largest scale a decimal can hold.
pub const MAX_SCALE: u32 = 28u32;

/// A decimal number `mantissa / 10^scale`, the plain-valued form of a
/// `rust_decimal::Decimal`.
#[derive(Clone, Copy, Debug, PartialEq, Eq, Structural)]
pub struct Dec {
    pub mantissa: i128,
    pub scale: u32,
}

/// `10^n`.
pub open spec fn pow10(n: nat) -> int
    decreases n,
{
    if n == 0 {
        1
    } else {
        10 * pow10((n - 1) as nat)
    }
}


/// The larger of two scales.
pub open spec fn larger_scale(a: Dec, b: Dec) -> u32 {
    if a.scale >= b.scale {
        a.scale
    } else {
        b.scale
    }
}

/// The mantissa of `a + b` written at the larger of their scales.
pub open spec fn aligned_total(a: Dec, b: Dec) -> int {
    a.mantissa * pow10((larger_scale(a, b) - a.scale) as nat) + b.mantissa * pow10(
        (larger_scale(a, b) - b.scale) as nat,
    )
}

/// The largest scale among some decimals (0 for none).
pub open spec fn max_scale(a: Seq<Dec>) -> u32
    decreases a.len(),
{
    if a.len() == 0 {
        0
    } else {
        let p = max_scale(a.drop_last());
        if a.last().scale > p {
            a.last().scale
        } else {
            p
        }
    }
}

/// The sum of some decimals, as a mantissa at scale `s` (for `s` at least
/// each of their scales).
pub open spec fn scaled_sum(a: Seq<Dec>, s: nat) -> int
    decreases a.len(),
{
    if a.len() == 0 {
        0
    } else {
        scaled_sum(a.drop_last(), s) + a.last().mantissa * pow10((s - a.last().scale) as nat)
    }
}

/// Some decimals, at least one, all positive, whose exact sum fits in 96
/// bits at their largest scale.
pub open spec fn exact_sum_fits(a: Seq<Dec>) -> bool {
    &&& a.len() > 0
    &&& forall|j: int| 0 <= j < a.len() ==> (#[trigger] a[j]).mantissa > 0
    &&& scaled_sum(a, max_scale(a) as nat) <= MAX_MANTISSA
}

/// The exact sum of some decimals, at their largest scale.
pub open spec fn exact_sum(a: Seq<Dec>) -> Dec {
    Dec { mantissa: scaled_sum(a, max_scale(a) as nat) as i128, scale: max_scale(a) }
}

/// The positive ones among some decimals, in order.
pub open spec fn positive_part(a: Seq<Dec>) -> Seq<Dec>
    decreases a.len(),
{
    if a.len() == 0 {
        Seq::empty()
    } else if a.last().mantissa > 0 {
        positive_part(a.drop_last()).push(a.last())
    } else {
        positive_part(a.drop_last())
    }
}

/// The positive ones among some decimals have an exact sum that fits (or
/// there are none).
pub open spec fn positive_sum_fits(a: Seq<Dec>) -> bool {
    positive_part(a).len() == 0 || exact_sum_fits(positive_part(a))
}

/// `|x|`.
pub open spec fn abs(x: int) -> int {
    if x < 0 {
        -x
    } else {
        x
    }
}

/// `2^95`, below which every exact result of `rust_decimal`'s arithmetic is
/// representable at scale 0.
pub open spec fn result_bound() -> int {
    39614081257132168796771975168
}

/// `d` is within 1 of the fraction `num / den` (`den != 0`).
pub open spec fn near(d: Dec, num: int, den: int) -> bool {
    abs(d.mantissa * den - num * pow10(d.scale as nat)) <= pow10(d.scale as nat) * abs(den)
}

/// `d` is within one unit of its own last digit (`10^-d.scale`) of the
/// fraction `num / den` (`den != 0`), strictly: the error of a rounding to
/// nearest at `d`'s scale.
pub open spec fn within_last_digit(d: Dec, num: int, den: int) -> bool {
    abs(d.mantissa * den - num * pow10(d.scale as nat)) < abs(den)
}

/// The exact difference `a - b`, as a fraction over `10^a.scale * 10^b.scale`:
/// its numerator.
pub open spec fn difference_num(a: Dec, b: Dec) -> int {
    a.mantissa * pow10(b.scale as nat) - b.mantissa * pow10(a.scale as nat)
}

/// The common denominator `10^a.scale * 10^b.scale`.
pub open spec fn scale_den(a: Dec, b: Dec) -> int {
    pow10(a.scale as nat) * pow10(b.scale as nat)
}

impl Dec {
    /// The representable range of `rust_decimal::Decimal`.
    pub open spec fn wf(self) -> bool {
        &&& self.scale <= MAX_SCALE
        &&& -MAX_MANTISSA <= self.mantissa <= MAX_MANTISSA
    }

    /// `self < other` as numbers (cross-multiplied, so no division).
    pub open spec fn lt_spec(self, other: Dec) -> bool {
        self.mantissa * pow10(other.scale as nat) < other.mantissa * pow10(self.scale as nat)
    }

    /// `self <= other` as numbers.
    pub open spec fn le_spec(self, other: Dec) -> bool {
        self.mantissa * pow10(other.scale as nat) <= other.mantissa * pow10(self.scale as nat)
    }

    /// The number zero, with scale 0.
    pub fn zero() -> (d: Dec)
        ensures
            d == (Dec { mantissa: 0, scale: 0 }),
    {
        Dec { mantissa: 0, scale: 0 }
    }

    /// The number one, with scale 0.
    pub fn one() -> (d: Dec)
        ensures
            d == (Dec { mantissa: 1, scale: 0 }),
    {
        Dec { mantissa: 1, scale: 0 }
    }

    /// Builds `mantissa / 10^scale`.
    pub fn new(mantissa: i128, scale: u32) -> (d: Dec)
        ensures
            d.mantissa == mantissa,
            d.scale == scale,
    {
        Dec { mantissa, scale }
    }

    /// `self < other` as numbers.
    pub fn lt(&self, other: &Dec) -> (r: bool)
        requires
            self.wf(),
            other.wf(),
        ensures
            r == self.lt_spec(*other),
    {
        decimal_lt(*self, *other)
    }

    /// `self <= other` as numbers.
    pub fn le(&self, other: &Dec) -> (r: bool)
        requires
            self.wf(),
            other.wf(),
        ensures
            r == self.le_spec(*other),
    {
        decimal_le(*self, *other)
    }

    /// `self + other`, `None` where `rust_decimal` reports overflow; exact
    /// when one side is zero, when both have the same scale and the sum fits,
    /// and when both are positive and the sum fits at the larger scale.
    pub fn checked_add(&self, other: &Dec) -> (r: Option<Dec>)
        requires
            self.wf(),
            other.wf(),
        ensures
            r == decimal_checked_add(*self, *other),
            r matches Some(d) ==> d.wf(),
            self.mantissa == 0 ==> r == Some(*other),
            other.mantissa == 0 && self.mantissa != 0 ==> r == Some(*self),
            self.scale == other.scale && -MAX_MANTISSA <= self.mantissa + other.mantissa <= MAX_MANTISSA ==> r
                == Some(Dec { mantissa: (self.mantissa + other.mantissa) as i128, scale: self.scale }),
            self.mantissa > 0 && other.mantissa > 0 && aligned_total(*self, *other) <= MAX_MANTISSA ==> r
                == Some(Dec { mantissa: aligned_total(*self, *other) as i128, scale: larger_scale(*self, *other) }),
            self.mantissa > 0 && other.mantissa > 0 ==> (r matches Some(d) ==> d.mantissa > 0),
    {
        decimal_add(*self, *other)
    }

    /// `self - other`, `None` where `rust_decimal` reports overflow.
    pub fn checked_sub(&self, other: &Dec) -> (r: Option<Dec>)
        requires
            self.wf(),
            other.wf(),
        ensures
            r == decimal_checked_sub(*self, *other),
            r matches Some(d) ==> d.wf(),
            abs(difference_num(*self, *other)) < result_bound() * scale_den(*self, *other) ==> r is Some,
            r matches Some(d) ==> near(d, difference_num(*self, *other), scale_den(*self, *other)),
            r matches Some(d) ==> within_last_digit(d, difference_num(*self, *other), scale_den(*self, *other)),
    {
        decimal_sub(*self, *other)
    }

    /// `self * other`, `None` where `rust_decimal` reports overflow.
    pub fn checked_mul(&self, other: &Dec) -> (r: Option<Dec>)
        requires
            self.wf(),
            other.wf(),
        ensures
            r == decimal_checked_mul(*self, *other),
            r matches Some(d) ==> d.wf(),
            abs(self.mantissa * other.mantissa) < result_bound() * scale_den(*self, *other) ==> r is Some,
            r matches Some(d) ==> near(d, self.mantissa * other.mantissa, scale_den(*self, *other)),
            r matches Some(d) ==> within_last_digit(d, self.mantissa * other.mantissa, scale_den(*self, *other)),
    {
        decimal_mul(*self, *other)
    }

    /// `self / other`, `None` on division by zero or overflow.
    pub fn checked_div(&self, other: &Dec) -> (r: Option<Dec>)
        requires
            self.wf(),
            other.wf(),
        ensures
            r == decimal_checked_div(*self, *other),
            r matches Some(d) ==> d.wf(),
            other.mantissa == 0 ==> r is None,
            other.mantissa != 0 && abs(self.mantissa * pow10(other.scale as nat)) < result_bound() * abs(
                other.mantissa * pow10(self.scale as nat),
            ) ==> r is Some,
            r matches Some(d) ==> near(d, self.mantissa * pow10(other.scale as nat), other.mantissa * pow10(self.scale as nat)),
            r matches Some(d) ==> within_last_digit(d, self.mantissa * pow10(other.scale as nat), other.mantissa * pow10(self.scale as nat)),
    {
        decimal_div(*self, *other)
    }

    /// Parses decimal text the way `Decimal::from_str` does.
    pub fn parse(text: &str) -> (r: Option<Dec>)
        ensures
            r == decimal_parse(text@),
            r matches Some(d) ==> d.wf(),
    {
        decimal_from_str(text)
    }
}


/// `10^n` is positive.
pub proof fn lemma_pow10_positive(n: nat)
    ensures
        pow10(n) > 0,
    decreases n,
{
    if n > 0 {
        lemma_pow10_positive((n - 1) as nat);
    }
}

/// `10^(x + y) == 10^x * 10^y`.
pub proof fn lemma_pow10_add(x: nat, y: nat)
    ensures
        pow10(x + y) == pow10(x) * pow10(y),
    decreases y,
{
    if y > 0 {
        lemma_pow10_add(x, (y - 1) as nat);
        assert(pow10(x + y) == 10 * pow10((x + y - 1) as nat));
        assert(pow10(y) == 10 * pow10((y - 1) as nat));
        assert(10 * (pow10(x) * pow10((y - 1) as nat)) == pow10(x) * (10 * pow10((y - 1) as nat))) by (nonlinear_arith);
    }
}

/// Every scale is at most the largest one, the largest is one of them (or
/// 0), and a prefix's largest scale is at most the whole's.
pub proof fn lemma_max_scale(a: Seq<Dec>)
    ensures
        forall|j: int| 0 <= j < a.len() ==> (#[trigger] a[j]).scale <= max_scale(a),
        forall|i: int| 0 <= i <= a.len() ==> #[trigger] max_scale(a.take(i)) <= max_scale(a),
        (forall|j: int| 0 <= j < a.len() ==> (#[trigger] a[j]).wf()) ==> max_scale(a) <= MAX_SCALE,
    decreases a.len(),
{
    if a.len() > 0 {
        let p = a.drop_last();
        lemma_max_scale(p);
        assert forall|j: int| 0 <= j < a.len() implies (#[trigger] a[j]).scale <= max_scale(a) by {
            if j < p.len() {
                assert(a[j] == p[j]);
            }
        }
        assert forall|i: int| 0 <= i <= a.len() implies #[trigger] max_scale(a.take(i)) <= max_scale(a) by {
            if i < a.len() {
                assert(a.take(i) =~= p.take(i));
            } else {
                assert(a.take(i) =~= a);
            }
        }
        if forall|j: int| 0 <= j < a.len() ==> (#[trigger] a[j]).wf() {
            assert forall|j: int| 0 <= j < p.len() implies (#[trigger] p[j]).wf() by {
                assert(p[j] == a[j]);
            }
            assert(a[a.len() - 1].wf());
        }
    } else {
        assert forall|i: int| 0 <= i <= a.len() implies #[trigger] max_scale(a.take(i)) <= max_scale(a) by {
            assert(a.take(i) =~= a);
        }
    }
}

/// Writing a sum at a larger scale multiplies its mantissa by the power of
/// ten between the scales.
pub proof fn lemma_scaled_sum_rescale(a: Seq<Dec>, s: nat, t: nat)
    requires
        s <= t,
        forall|j: int| 0 <= j < a.len() ==> (#[trigger] a[j]).scale <= s,
    ensures
        scaled_sum(a, t) == scaled_sum(a, s) * pow10((t - s) as nat),
    decreases a.len(),
{
    if a.len() > 0 {
        let p = a.drop_last();
        assert forall|j: int| 0 <= j < p.len() implies (#[trigger] p[j]).scale <= s by {
            assert(p[j] == a[j]);
        }
        lemma_scaled_sum_rescale(p, s, t);
        let x = a.last();
        assert(x.scale <= s);
        let e1 = (s - x.scale) as nat;
        let e2 = (t - s) as nat;
        lemma_pow10_add(e1, e2);
        assert((t - x.scale) as nat == e1 + e2);
        let m = x.mantissa as int;
        let q = scaled_sum(p, s);
        assert(m * (pow10(e1) * pow10(e2)) == (m * pow10(e1)) * pow10(e2)) by (nonlinear_arith);
        assert(q * pow10(e2) + (m * pow10(e1)) * pow10(e2) == (q + m * pow10(e1)) * pow10(e2)) by (nonlinear_arith);
    }
}

/// A sum of positive decimals is positive (zero when empty), and a prefix
/// sums to no more than the whole.
pub proof fn lemma_scaled_sum_positive(a: Seq<Dec>, s: nat)
    requires
        forall|j: int| 0 <= j < a.len() ==> (#[trigger] a[j]).mantissa > 0,
        forall|j: int| 0 <= j < a.len() ==> (#[trigger] a[j]).scale <= s,
    ensures
        scaled_sum(a, s) >= 0,
        a.len() > 0 ==> scaled_sum(a, s) > 0,
        forall|i: int| 0 <= i <= a.len() ==> #[trigger] scaled_sum(a.take(i), s) <= scaled_sum(a, s),
    decreases a.len(),
{
    if a.len() > 0 {
        let p = a.drop_last();
        assert forall|j: int| 0 <= j < p.len() implies (#[trigger] p[j]).mantissa > 0 && p[j].scale <= s by {
            assert(p[j] == a[j]);
        }
        lemma_scaled_sum_positive(p, s);
        let x = a.last();
        lemma_pow10_positive((s - x.scale) as nat);
        assert(x.mantissa * pow10((s - x.scale) as nat) > 0) by (nonlinear_arith)
            requires
                x.mantissa > 0,
                pow10((s - x.scale) as nat) > 0,
        ;
        assert forall|i: int| 0 <= i <= a.len() implies #[trigger] scaled_sum(a.take(i), s) <= scaled_sum(a, s) by {
            if i < a.len() {
                assert(a.take(i) =~= p.take(i));
                assert(scaled_sum(p.take(i), s) <= scaled_sum(p, s));
            } else {
                assert(a.take(i) =~= a);
            }
        }
    } else {
        assert forall|i: int| 0 <= i <= a.len() implies #[trigger] scaled_sum(a.take(i), s) <= scaled_sum(a, s) by {
            assert(a.take(i) =~= a);
        }
    }
}

/// `10^28`, the largest power of ten a scale reaches.
#[verifier::spinoff_prover]
pub proof fn lemma_pow10_28()
    ensures
        pow10(28) == 10000000000000000000000000000,
{
    reveal_with_fuel(pow10, 29);
}

/// Powers of ten grow with the exponent; up to the largest scale they stay
/// within `10^28`.
#[verifier::spinoff_prover]
pub proof fn lemma_pow10_bound(n: nat, m: nat)
    requires
        n <= m,
    ensures
        0 < pow10(n) <= pow10(m),
        m <= MAX_SCALE ==> pow10(m) <= 10000000000000000000000000000,
{
    lemma_pow10_add(n, (m - n) as nat);
    lemma_pow10_positive(n);
    lemma_pow10_positive((m - n) as nat);
    let x = pow10(n);
    let y = pow10((m - n) as nat);
    assert(x <= x * y) by (nonlinear_arith)
        requires
            x > 0,
            y >= 1,
    ;
    if m <= MAX_SCALE {
        lemma_pow10_28();
        lemma_pow10_add(m, (28 - m) as nat);
        lemma_pow10_positive(m);
        lemma_pow10_positive((28 - m) as nat);
        let u = pow10(m);
        let v = pow10((28 - m) as nat);
        assert(u <= u * v) by (nonlinear_arith)
            requires
                u > 0,
                v >= 1,
        ;
    }
}

/// `10^n` for a scale `n`, computed exactly.
pub fn ten_to_the(n: u32) -> (r: i128)
    requires
        n <= MAX_SCALE,
    ensures
        r == pow10(n as nat),
{
    let mut r: i128 = 1;
    let mut i: u32 = 0;
    while i < n
        invariant
            i <= n <= MAX_SCALE,
            r == pow10(i as nat),
        decreases n - i,
    {
        proof {
            lemma_pow10_bound((i + 1) as nat, (i + 1) as nat);
            assert(pow10((i + 1) as nat) == 10 * pow10(i as nat));
        }
        r = r * 10;
        i = i + 1;
    }
    r
}

/// A non-empty prefix of decimals whose exact sum fits has an exact sum that
/// fits too, and adding the next decimal to that prefix sum, at the larger
/// of the two scales, gives the exact sum of the longer prefix.
pub proof fn lemma_exact_prefix(a: Seq<Dec>, i: int)
    requires
        exact_sum_fits(a),
        0 < i < a.len(),
    ensures
        exact_sum_fits(a.take(i)),
        exact_sum_fits(a.take(i + 1)),
        exact_sum(a.take(i)).mantissa > 0,
        larger_scale(exact_sum(a.take(i)), a[i]) == max_scale(a.take(i + 1)),
        aligned_total(exact_sum(a.take(i)), a[i]) == scaled_sum(a.take(i + 1), max_scale(a.take(i + 1)) as nat),
        0 < aligned_total(exact_sum(a.take(i)), a[i]) <= MAX_MANTISSA,
{
    let m = max_scale(a) as nat;
    lemma_max_scale(a);
    lemma_scaled_sum_positive(a, m);
    assert forall|k: int| 0 <= k <= a.len() implies {
        &&& exact_sum_fits(#[trigger] a.take(k)) || k == 0
        &&& scaled_sum(a.take(k), max_scale(a.take(k)) as nat) >= 0
    } by {
        let p = a.take(k);
        let mp = max_scale(p) as nat;
        lemma_max_scale(p);
        assert forall|j: int| 0 <= j < p.len() implies (#[trigger] p[j]).mantissa > 0 && p[j].scale <= mp by {
            assert(p[j] == a[j]);
        }
        assert(max_scale(p) <= max_scale(a));
        lemma_scaled_sum_rescale(p, mp, m);
        lemma_scaled_sum_positive(p, mp);
        lemma_pow10_positive((m - mp) as nat);
        let x = scaled_sum(p, mp);
        assert(x <= x * pow10((m - mp) as nat)) by (nonlinear_arith)
            requires
                x >= 0,
                pow10((m - mp) as nat) >= 1,
        ;
        assert(scaled_sum(p, m) <= scaled_sum(a, m));
    }
    let p = a.take(i);
    let q = a.take(i + 1);
    assert(q.drop_last() =~= p);
    assert(q.last() == a[i]);
    let e = exact_sum(p);
    let mp = max_scale(p) as nat;
    let mq = max_scale(q) as nat;
    assert(e.mantissa == scaled_sum(p, mp));
    lemma_max_scale(p);
    lemma_max_scale(q);
    assert forall|j: int| 0 <= j < p.len() implies (#[trigger] p[j]).mantissa > 0 by {
        assert(p[j] == a[j]);
    }
    lemma_scaled_sum_positive(p, mp);
    assert(mp <= mq);
    lemma_scaled_sum_rescale(p, mp, mq);
    assert(scaled_sum(q, mq) == scaled_sum(p, mq) + a[i].mantissa * pow10((mq - a[i].scale) as nat));
    assert forall|j: int| 0 <= j < q.len() implies (#[trigger] q[j]).mantissa > 0 by {
        assert(q[j] == a[j]);
    }
    lemma_scaled_sum_positive(q, mq);
}

/// Decimals that are all positive are their own positive part.
pub proof fn lemma_positive_part_all(a: Seq<Dec>)
    requires
        forall|j: int| 0 <= j < a.len() ==> (#[trigger] a[j]).mantissa > 0,
    ensures
        positive_part(a) == a,
    decreases a.len(),
{
    if a.len() > 0 {
        let p = a.drop_last();
        assert forall|j: int| 0 <= j < p.len() implies (#[trigger] p[j]).mantissa > 0 by {
            assert(p[j] == a[j]);
        }
        lemma_positive_part_all(p);
        assert(a.last() == a[a.len() - 1]);
        assert(p.push(a.last()) =~= a);
    } else {
        assert(positive_part(a) =~= a);
    }
}

/// The positive part of a prefix is a prefix of the positive part.
pub proof fn lemma_positive_part_prefix(a: Seq<Dec>, i: int)
    requires
        0 <= i <= a.len(),
    ensures
        positive_part(a.take(i)).len() <= positive_part(a).len(),
        positive_part(a).take(positive_part(a.take(i)).len() as int) == positive_part(a.take(i)),
    decreases a.len(),
{
    if i == a.len() {
        assert(a.take(i) =~= a);
        assert(positive_part(a).take(positive_part(a).len() as int) =~= positive_part(a));
    } else {
        let d = a.drop_last();
        lemma_positive_part_prefix(d, i);
        assert(a.take(i) =~= d.take(i));
        let k = positive_part(d.take(i)).len() as int;
        if a.last().mantissa > 0 {
            assert(positive_part(a) == positive_part(d).push(a.last()));
            assert(positive_part(a).take(k) =~= positive_part(d).take(k));
        }
    }
}

/// What `Decimal::checked_add` returns for two decimals.
pub uninterp spec fn decimal_checked_add(a: Dec, b: Dec) -> Option<Dec>;

/// What `Decimal::checked_sub` returns for two decimals.
pub uninterp spec fn decimal_checked_sub(a: Dec, b: Dec) -> Option<Dec>;

/// What `Decimal::checked_mul` returns for two decimals.
pub uninterp spec fn decimal_checked_mul(a: Dec, b: Dec) -> Option<Dec>;

/// What `Decimal::checked_div` returns for two decimals.
pub uninterp spec fn decimal_checked_div(a: Dec, b: Dec) -> Option<Dec>;

/// What `Decimal::from_str` yields for a text, `None` for an error.
pub uninterp spec fn decimal_parse(text: Seq<char>) -> Option<Dec>;

/// Calls `Decimal::checked_add`. The result is named by `decimal_checked_add`;
/// a `Decimal` always has a 96-bit mantissa and a scale of at most 28. The
/// source returns the right operand unchanged when the left one is zero (and
/// the left one when only the right one is zero), and
/// adds the mantissas exactly, keeping the scale, when both operands have the
/// same scale and the sum fits in 96 bits. For two positive operands of
/// different scales it scales the one of smaller scale up to the larger scale
/// exactly and adds, so the sum is exact at the larger scale whenever it fits
/// in 96 bits there; it rounds only when the scaled operand or the sum needs
/// more than 96 bits, and then to nearest at a scale of 0 or more, so the sum
/// of two positive operands (at least `10^-28` and growing) stays positive.
#[verifier::external_body]
fn decimal_add(a: Dec, b: Dec) -> (r: Option<Dec>)
    requires
        a.wf(),
        b.wf(),
    ensures
        r == decimal_checked_add(a, b),
        r matches Some(d) ==> d.wf(),
        a.mantissa == 0 ==> r == Some(b),
        b.mantissa == 0 && a.mantissa != 0 ==> r == Some(a),
        a.scale == b.scale && -MAX_MANTISSA <= a.mantissa + b.mantissa <= MAX_MANTISSA ==> r == Some(
            Dec { mantissa: (a.mantissa + b.mantissa) as i128, scale: a.scale },
        ),
        a.mantissa > 0 && b.mantissa > 0 && aligned_total(a, b) <= MAX_MANTISSA ==> r == Some(
            Dec { mantissa: aligned_total(a, b) as i128, scale: larger_scale(a, b) },
        ),
        a.mantissa > 0 && b.mantissa > 0 ==> (r matches Some(d) ==> d.mantissa > 0),
{
    let x = rust_decimal::Decimal::from_i128_with_scale(a.mantissa, a.scale);
    let y = rust_decimal::Decimal::from_i128_with_scale(b.mantissa, b.scale);
    x.checked_add(y).map(|z| Dec { mantissa: z.mantissa(), scale: z.scale() })
}

/// Calls `Decimal::checked_sub`. The result is named by `decimal_checked_sub`;
/// a `Decimal` always has a 96-bit mantissa and a scale of at most 28. The
/// source overflows only when the result at scale 0 needs more than 96 bits,
/// so a difference below `2^95` in size is always returned; and it returns
/// the exact difference rounded to nearest at the result's scale (0 or
/// more), so less than one unit of its last digit from it, and within 1.
/// Which larger differences overflow is left unsaid.
#[verifier::external_body]
fn decimal_sub(a: Dec, b: Dec) -> (r: Option<Dec>)
    requires
        a.wf(),
        b.wf(),
    ensures
        r == decimal_checked_sub(a, b),
        r matches Some(d) ==> d.wf(),
        abs(difference_num(a, b)) < result_bound() * scale_den(a, b) ==> r is Some,
        r matches Some(d) ==> near(d, difference_num(a, b), scale_den(a, b)),
        r matches Some(d) ==> within_last_digit(d, difference_num(a, b), scale_den(a, b)),
{
    let x = rust_decimal::Decimal::from_i128_with_scale(a.mantissa, a.scale);
    let y = rust_decimal::Decimal::from_i128_with_scale(b.mantissa, b.scale);
    x.checked_sub(y).map(|z| Dec { mantissa: z.mantissa(), scale: z.scale() })
}

/// Calls `Decimal::checked_mul`. The result is named by `decimal_checked_mul`;
/// a `Decimal` always has a 96-bit mantissa and a scale of at most 28. The
/// source (`finish_mul`, `Buf24::rescale`) gives up only when the product at
/// scale 0 needs more than 96 bits, so a product below `2^95` in size is
/// always returned; it returns the exact product rounded to nearest at the
/// result's scale (0 or more), so less than one unit of its last digit from
/// it, and within 1. Which larger products overflow is left unsaid.
#[verifier::external_body]
fn decimal_mul(a: Dec, b: Dec) -> (r: Option<Dec>)
    requires
        a.wf(),
        b.wf(),
    ensures
        r == decimal_checked_mul(a, b),
        r matches Some(d) ==> d.wf(),
        abs(a.mantissa * b.mantissa) < result_bound() * scale_den(a, b) ==> r is Some,
        r matches Some(d) ==> near(d, a.mantissa * b.mantissa, scale_den(a, b)),
        r matches Some(d) ==> within_last_digit(d, a.mantissa * b.mantissa, scale_den(a, b)),
{
    let x = rust_decimal::Decimal::from_i128_with_scale(a.mantissa, a.scale);
    let y = rust_decimal::Decimal::from_i128_with_scale(b.mantissa, b.scale);
    x.checked_mul(y).map(|z| Dec { mantissa: z.mantissa(), scale: z.scale() })
}

/// Calls `Decimal::checked_div`. The result is named by `decimal_checked_div`;
/// the source answers a zero divisor with `None` (its `DivByZero` case), and a
/// `Decimal` always has a 96-bit mantissa and a scale of at most 28. Its
/// remainder loops overflow only when the quotient's integer part needs more
/// than 96 bits, so a quotient below `2^95` in size is always returned; and
/// the quotient is rounded to nearest at its scale (0 or more), so less than
/// one unit of its last digit from the exact one, and within 1. Which larger quotients overflow is left unsaid.
#[verifier::external_body]
fn decimal_div(a: Dec, b: Dec) -> (r: Option<Dec>)
    requires
        a.wf(),
        b.wf(),
    ensures
        r == decimal_checked_div(a, b),
        r matches Some(d) ==> d.wf(),
        b.mantissa == 0 ==> r is None,
        b.mantissa != 0 && abs(a.mantissa * pow10(b.scale as nat)) < result_bound() * abs(
            b.mantissa * pow10(a.scale as nat),
        ) ==> r is Some,
        r matches Some(d) ==> near(d, a.mantissa * pow10(b.scale as nat), b.mantissa * pow10(a.scale as nat)),
        r matches Some(d) ==> within_last_digit(d, a.mantissa * pow10(b.scale as nat), b.mantissa * pow10(a.scale as nat)),
{
    let x = rust_decimal::Decimal::from_i128_with_scale(a.mantissa, a.scale);
    let y = rust_decimal::Decimal::from_i128_with_scale(b.mantissa, b.scale);
    x.checked_div(y).map(|z| Dec { mantissa: z.mantissa(), scale: z.scale() })
}

/// Calls `<` on two `Decimal`s, which the source orders by numeric value
/// (it rescales both to a common scale before comparing).
#[verifier::external_body]
fn decimal_lt(a: Dec, b: Dec) -> (r: bool)
    requires
        a.wf(),
        b.wf(),
    ensures
        r == a.lt_spec(b),
{
    let x = rust_decimal::Decimal::from_i128_with_scale(a.mantissa, a.scale);
    let y = rust_decimal::Decimal::from_i128_with_scale(b.mantissa, b.scale);
    x < y
}

/// Calls `<=` on two `Decimal`s, which the source orders by numeric value.
#[verifier::external_body]
fn decimal_le(a: Dec, b: Dec) -> (r: bool)
    requires
        a.wf(),
        b.wf(),
    ensures
        r == a.le_spec(b),
{
    let x = rust_decimal::Decimal::from_i128_with_scale(a.mantissa, a.scale);
    let y = rust_decimal::Decimal::from_i128_with_scale(b.mantissa, b.scale);
    x <= y
}

/// Calls `Decimal::from_str`. The result is named by `decimal_parse`; a
/// parsed `Decimal` has a 96-bit mantissa and a scale of at most 28.
#[verifier::external_body]
fn decimal_from_str(text: &str) -> (r: Option<Dec>)
    ensures
        r == decimal_parse(text@),
        r matches Some(d) ==> d.wf(),
{
    <rust_decimal::Decimal as std::str::FromStr>::from_str(text).ok().map(|z| Dec { mantissa: z.mantissa(), scale: z.scale() })
}

} // verus!
