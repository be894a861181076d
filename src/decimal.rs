use vstd::prelude::*;
use bigdecimal::{BigDecimal, RoundingMode};
use num_bigint::BigInt;

verus! {

/// `10^n`.
pub open spec fn pow10(n: nat) -> int
    decreases n,
{
    if n == 0 { 1 } else { 10 * pow10((n - 1) as nat) }
}

/// `256^n`.
pub open spec fn pow256(n: nat) -> int
    decreases n,
{
    if n == 0 { 1 } else { 256 * pow256((n - 1) as nat) }
}

/// The unsigned integer written by little-endian bytes.
pub open spec fn unsigned_le(b: Seq<u8>) -> int
    decreases b.len(),
{
    if b.len() == 0 { 0 } else { b[0] as int + 256 * unsigned_le(b.drop_first()) }
}

/// The integer written by little-endian two's complement bytes.
pub open spec fn signed_le(b: Seq<u8>) -> int {
    if b.len() > 0 && b.last() >= 128 {
        unsigned_le(b) - pow256(b.len())
    } else {
        unsigned_le(b)
    }
}

pub open spec fn max_scale(a: int, b: int) -> int {
    if a >= b { a } else { b }
}

/// A decimal `(u, s)` stands for `u * 10^(-s)`; this is `u * 10^(k - s)`, its
/// value counted in units of `10^(-k)`, for `k >= s`.
pub open spec fn units_at(d: (int, int), k: int) -> int {
    d.0 * pow10((k - d.1) as nat)
}

/// The two decimals have the same value.
pub open spec fn same_value(a: (int, int), b: (int, int)) -> bool {
    let k = max_scale(a.1, b.1);
    units_at(a, k) == units_at(b, k)
}

/// The value of `a` is less than the value of `b`.
pub open spec fn less_value(a: (int, int), b: (int, int)) -> bool {
    let k = max_scale(a.1, b.1);
    units_at(a, k) < units_at(b, k)
}

/// `u * 10^(3 - s)` rounded to an integer, ties away from zero: the unscaled
/// value of `(u, s)` at three decimal places.
pub open spec fn round_half_up_3(d: (int, int)) -> int {
    if d.1 <= 3 {
        d.0 * pow10((3 - d.1) as nat)
    } else {
        let q = pow10((d.1 - 3) as nat);
        if d.0 >= 0 {
            (d.0 + q / 2) / q
        } else {
            -((-d.0 + q / 2) / q)
        }
    }
}

pub proof fn lemma_pow10_positive(n: nat)
    ensures
        pow10(n) > 0,
    decreases n,
{
    if n > 0 {
        lemma_pow10_positive((n - 1) as nat);
    }
}

pub proof fn lemma_pow10_add(a: nat, b: nat)
    ensures
        pow10(a + b) == pow10(a) * pow10(b),
    decreases a,
{
    if a > 0 {
        lemma_pow10_add((a - 1) as nat, b);
        let x = pow10((a - 1) as nat);
        let y = pow10(b);
        assert(pow10(a) == 10 * x);
        assert(pow10((a - 1 + b) as nat) == x * y);
        assert((10 * x) * y == 10 * (x * y)) by (nonlinear_arith);
    }
}

/// Counting in finer units multiplies by the power of ten between them.
pub proof fn lemma_units_rescale(d: (int, int), k0: int, k: int)
    requires
        d.1 <= k0 <= k,
    ensures
        units_at(d, k) == units_at(d, k0) * pow10((k - k0) as nat),
{
    lemma_pow10_add((k0 - d.1) as nat, (k - k0) as nat);
    let p = pow10((k0 - d.1) as nat);
    let q = pow10((k - k0) as nat);
    assert(pow10((k - d.1) as nat) == p * q);
    assert(d.0 * (p * q) == (d.0 * p) * q) by (nonlinear_arith);
}

/// A value above zero has a positive unscaled integer.
pub proof fn lemma_positive_unscaled(d: (int, int))
    requires
        less_value((0, 0), d),
    ensures
        d.0 > 0,
{
    let k = max_scale(0, d.1);
    let p = pow10((k - d.1) as nat);
    lemma_pow10_positive((k - d.1) as nat);
    lemma_pow10_positive((k - 0) as nat);
    assert(units_at((0, 0), k) == 0) by (nonlinear_arith)
        requires
            units_at((0, 0), k) == 0 * pow10((k - 0) as nat),
    ;
    assert(d.0 > 0) by (nonlinear_arith)
        requires
            d.0 * p > 0,
            p > 0,
    ;
}

/// Adding a positive value to a value at least zero gives a positive value.
pub proof fn lemma_sum_positive(a: (int, int), b: (int, int), r: (int, int), k: int)
    requires
        k >= a.1,
        k >= b.1,
        k >= r.1,
        units_at(r, k) == units_at(a, k) + units_at(b, k),
        a.0 >= 0,
        b.0 > 0,
    ensures
        r.0 > 0,
{
    let pa = pow10((k - a.1) as nat);
    let pb = pow10((k - b.1) as nat);
    let pr = pow10((k - r.1) as nat);
    lemma_pow10_positive((k - a.1) as nat);
    lemma_pow10_positive((k - b.1) as nat);
    lemma_pow10_positive((k - r.1) as nat);
    assert(r.0 > 0) by (nonlinear_arith)
        requires
            r.0 * pr == a.0 * pa + b.0 * pb,
            a.0 >= 0,
            b.0 > 0,
            pa > 0,
            pb > 0,
            pr > 0,
    ;
}

pub open spec fn abs(x: int) -> int {
    if x < 0 { -x } else { x }
}

/// `r` is `a / b` to within one unit of its last place, and it is exact or
/// has a hundred significant digits.
pub open spec fn quotient_close(a: (int, int), b: (int, int), r: (int, int)) -> bool {
    let k = max_scale(a.1, r.1 + b.1);
    let unit = pow10((k - r.1 - b.1) as nat);
    let times = r.0 * b.0 * unit;
    let exact = a.0 * pow10((k - a.1) as nat);
    &&& abs(times - exact) < abs(b.0) * unit
    &&& (times == exact || abs(r.0) >= pow10(99))
}

/// `r` times `b` is exactly `a`.
pub open spec fn quotient_exact(a: (int, int), b: (int, int), r: (int, int)) -> bool {
    let k = max_scale(a.1, r.1 + b.1);
    r.0 * b.0 * pow10((k - r.1 - b.1) as nat) == a.0 * pow10((k - a.1) as nat)
}

/// The representation (unscaled value, scale) that bigdecimal gives to a sum.
pub uninterp spec fn sum_repr(a: (int, int), b: (int, int)) -> (int, int);

/// The representation that bigdecimal gives to a product.
pub uninterp spec fn product_repr(a: (int, int), b: (int, int)) -> (int, int);

/// The representation that bigdecimal gives to a quotient, which it rounds to
/// a hundred significant digits.
pub uninterp spec fn quotient_repr(a: (int, int), b: (int, int)) -> (int, int);

/// The text that bigdecimal writes for a decimal.
pub uninterp spec fn text_of(a: (int, int)) -> Seq<char>;

/// Scales from here on stay well inside `i64`, so that the scale arithmetic of
/// a product or a quotient cannot overflow.
pub const SCALE_LIMIT: i64 = 0x100_0000_0000;

/// Operands of a quotient keep their scales within this bound, so that the
/// difference of the scales and the digits added to it stay inside `i64`.
pub const QUOTIENT_SCALE_LIMIT: i64 = 0x2000_0000_0000_0000;

/// A decimal held in memory has fewer decimal digits than this (its bytes fit
/// in a 2^56-byte address space); a quotient adds at most the divisor's
/// digits and a hundred more to the difference of the scales.
pub const DIVISION_DIGITS_LIMIT: i64 = 0x400_0000_0000_0000;

/// The scale is within `QUOTIENT_SCALE_LIMIT` of zero, so that two such scales
/// differ by less than `i64::MAX`.
pub open spec fn moderate(d: (int, int)) -> bool {
    -QUOTIENT_SCALE_LIMIT <= d.1 <= QUOTIENT_SCALE_LIMIT
}

/// An arbitrary-precision decimal: the integer held by `unscaled_le`
/// (little-endian two's complement) times `10^(-scale)`.
#[derive(Debug)]
pub struct Decimal {
    pub unscaled_le: Vec<u8>,
    pub scale: i64,
}

impl View for Decimal {
    type V = (int, int);

    open spec fn view(&self) -> (int, int) {
        (signed_le(self.unscaled_le@), self.scale as int)
    }
}

impl Decimal {
    pub open spec fn small_scale(&self) -> bool {
        -SCALE_LIMIT <= self.scale <= SCALE_LIMIT
    }

    pub fn new(unscaled_le: Vec<u8>, scale: i64) -> (r: Decimal)
        ensures
            r.unscaled_le@ == unscaled_le@,
            r.scale == scale,
    {
        Decimal { unscaled_le, scale }
    }

    /// Zero, at scale 0.
    pub fn zero() -> (r: Decimal)
        ensures
            r@ == (0int, 0int),
    {
        let r = Decimal { unscaled_le: vec![0u8], scale: 0 };
        assert(r.unscaled_le@.drop_first() =~= Seq::<u8>::empty());
        assert(unsigned_le(r.unscaled_le@.drop_first()) == 0);
        assert(unsigned_le(r.unscaled_le@) == 0);
        r
    }

    /// One hundred, at scale 0.
    pub fn hundred() -> (r: Decimal)
        ensures
            r@ == (100int, 0int),
    {
        let r = Decimal { unscaled_le: vec![100u8], scale: 0 };
        assert(r.unscaled_le@.drop_first() =~= Seq::<u8>::empty());
        assert(unsigned_le(r.unscaled_le@.drop_first()) == 0);
        assert(unsigned_le(r.unscaled_le@) == 100);
        r
    }

    pub fn duplicate(&self) -> (r: Decimal)
        ensures
            r@ == self@,
    {
        let bytes = self.unscaled_le.clone();
        assert(bytes@ =~= self.unscaled_le@);
        Decimal { unscaled_le: bytes, scale: self.scale }
    }
}

/// Relies on `BigDecimal::from(i64)`: the integer at scale 0.
#[verifier::external_body]
pub(crate) fn from_i64(v: i64) -> (r: Decimal)
    ensures
        r@ == (v as int, 0int),
{
    let (n, s) = BigDecimal::from(v).into_bigint_and_exponent();
    Decimal { unscaled_le: n.to_signed_bytes_le(), scale: s }
}

/// Relies on `BigDecimal + BigDecimal`: exact, at a scale between those of the
/// operands; it panics where the scales differ by more than `i64::MAX`.
#[verifier::external_body]
pub(crate) fn sum_of(a: &Decimal, b: &Decimal) -> (r: Decimal)
    requires
        moderate(a@),
        moderate(b@),
    ensures
        r@ == sum_repr(a@, b@),
        units_at(r@, max_scale(r@.1, max_scale(a@.1, b@.1))) == units_at(
            a@,
            max_scale(r@.1, max_scale(a@.1, b@.1)),
        ) + units_at(b@, max_scale(r@.1, max_scale(a@.1, b@.1))),
        a@.1 <= r@.1 <= b@.1 || b@.1 <= r@.1 <= a@.1,
{
    let x = BigDecimal::new(BigInt::from_signed_bytes_le(&a.unscaled_le), a.scale);
    let y = BigDecimal::new(BigInt::from_signed_bytes_le(&b.unscaled_le), b.scale);
    let (n, s) = (x + y).into_bigint_and_exponent();
    Decimal { unscaled_le: n.to_signed_bytes_le(), scale: s }
}

/// Relies on `BigDecimal * BigDecimal`: exact; it hands back an operand equal
/// to one unchanged, else adds the scales (which must not overflow).
#[verifier::external_body]
pub(crate) fn product_of(a: &Decimal, b: &Decimal) -> (r: Decimal)
    requires
        i64::MIN <= a.scale + b.scale <= i64::MAX,
    ensures
        r@ == product_repr(a@, b@),
        units_at(r@, max_scale(r@.1, a@.1 + b@.1)) == a@.0 * b@.0 * pow10(
            (max_scale(r@.1, a@.1 + b@.1) - a@.1 - b@.1) as nat,
        ),
        r@.1 == a@.1 || r@.1 == b@.1 || r@.1 == a@.1 + b@.1,
{
    let x = BigDecimal::new(BigInt::from_signed_bytes_le(&a.unscaled_le), a.scale);
    let y = BigDecimal::new(BigInt::from_signed_bytes_le(&b.unscaled_le), b.scale);
    let (n, s) = (x * y).into_bigint_and_exponent();
    Decimal { unscaled_le: n.to_signed_bytes_le(), scale: s }
}

/// Relies on `BigDecimal / BigDecimal`, which panics on a zero divisor. Its
/// scale is 0 or the dividend's, or else starts from the difference of the
/// scales and gains one per digit shifted or produced: at most the divisor's
/// digits and a hundred more, under `DIVISION_DIGITS_LIMIT` in all. Digits
/// stop when the remainder is zero or a hundred (the default precision) are
/// written; the next digit then rounds the last one half up. A hundredth of
/// a number of fewer than 98 digits needs at most two digits more: exact.
#[verifier::external_body]
pub(crate) fn quotient_of(a: &Decimal, b: &Decimal) -> (r: Decimal)
    requires
        b@.0 != 0,
        -QUOTIENT_SCALE_LIMIT <= a.scale <= QUOTIENT_SCALE_LIMIT,
        -QUOTIENT_SCALE_LIMIT <= b.scale <= QUOTIENT_SCALE_LIMIT,
    ensures
        r@ == quotient_repr(a@, b@),
        r@.1 == 0 || r@.1 == a@.1 || r@.1 >= a@.1 - b@.1,
        r@.1 <= 0 || r@.1 <= a@.1 || r@.1 <= a@.1 - b@.1 + DIVISION_DIGITS_LIMIT,
        quotient_close(a@, b@, r@),
        b@ == (100int, 0int) && abs(a@.0) < pow10(98) ==> quotient_exact(a@, b@, r@),
{
    let x = BigDecimal::new(BigInt::from_signed_bytes_le(&a.unscaled_le), a.scale);
    let y = BigDecimal::new(BigInt::from_signed_bytes_le(&b.unscaled_le), b.scale);
    let (n, s) = (x / y).into_bigint_and_exponent();
    Decimal { unscaled_le: n.to_signed_bytes_le(), scale: s }
}

/// Relies on `BigDecimal::with_scale_round(3, RoundingMode::HalfUp)`: three
/// decimal places, ties rounded away from zero.
#[verifier::external_body]
pub(crate) fn round_3(a: &Decimal) -> (r: Decimal)
    requires
        a.scale >= -QUOTIENT_SCALE_LIMIT,
    ensures
        r@ == (round_half_up_3(a@), 3int),
{
    let x = BigDecimal::new(BigInt::from_signed_bytes_le(&a.unscaled_le), a.scale);
    let (n, s) = x.with_scale_round(3, RoundingMode::HalfUp).into_bigint_and_exponent();
    Decimal { unscaled_le: n.to_signed_bytes_le(), scale: s }
}

/// Relies on `BigDecimal::cmp`: -1, 0 or 1 as `a`'s value is below, equal to
/// or above `b`'s.
#[verifier::external_body]
pub(crate) fn compare(a: &Decimal, b: &Decimal) -> (r: i8)
    ensures
        r == -1 <==> less_value(a@, b@),
        r == 0 <==> same_value(a@, b@),
        r == 1 <==> less_value(b@, a@),
{
    let x = BigDecimal::new(BigInt::from_signed_bytes_le(&a.unscaled_le), a.scale);
    let y = BigDecimal::new(BigInt::from_signed_bytes_le(&b.unscaled_le), b.scale);
    match x.cmp(&y) {
        std::cmp::Ordering::Less => -1,
        std::cmp::Ordering::Equal => 0,
        std::cmp::Ordering::Greater => 1,
    }
}

/// Relies on bigdecimal's `Display`: the decimal written out as text.
#[verifier::external_body]
pub(crate) fn to_text(a: &Decimal) -> (r: String)
    ensures
        r@ == text_of(a@),
{
    BigDecimal::new(BigInt::from_signed_bytes_le(&a.unscaled_le), a.scale).to_string()
}

impl PartialEq for Decimal {
    fn eq(&self, other: &Decimal) -> (r: bool) {
        compare(self, other) == 0
    }
}

impl vstd::std_specs::cmp::PartialEqSpecImpl for Decimal {
    open spec fn obeys_eq_spec() -> bool {
        true
    }

    open spec fn eq_spec(&self, other: &Decimal) -> bool {
        same_value(self@, other@)
    }
}

} // verus!
