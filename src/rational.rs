use num_bigint::BigInt;
use num_rational::BigRational;
use num_traits::Pow;
use vstd::arithmetic::mul::{lemma_mul_is_commutative, lemma_mul_is_distributive_add_other_way};
use vstd::arithmetic::power::{lemma_pow_increases, pow};
use vstd::prelude::*;

verus! {

/// The natural number written by little-endian base-256 digits.
pub open spec fn bytes_value(d: Seq<u8>) -> nat
    decreases d.len(),
{
    if d.len() == 0 {
        0
    } else {
        d[0] as nat + 256 * bytes_value(d.drop_first())
    }
}

/// The integer written by little-endian two's-complement bytes.
pub open spec fn signed_value(d: Seq<u8>) -> int {
    if d.len() > 0 && d.last() >= 128 {
        bytes_value(d) - pow(256, d.len())
    } else {
        bytes_value(d) as int
    }
}

/// Two fractions (numerator, denominator) with non-zero denominators denote the same number.
pub open spec fn frac_eq(a: (int, int), b: (int, int)) -> bool {
    a.0 * b.1 == b.0 * a.1
}

pub open spec fn frac_of_int(x: int) -> (int, int) {
    (x, 1)
}

pub open spec fn frac_add(a: (int, int), b: (int, int)) -> (int, int) {
    (a.0 * b.1 + b.0 * a.1, a.1 * b.1)
}

pub open spec fn frac_sub(a: (int, int), b: (int, int)) -> (int, int) {
    (a.0 * b.1 - b.0 * a.1, a.1 * b.1)
}

pub open spec fn frac_mul(a: (int, int), b: (int, int)) -> (int, int) {
    (a.0 * b.0, a.1 * b.1)
}

pub open spec fn frac_div(a: (int, int), b: (int, int)) -> (int, int) {
    (a.0 * b.1, a.1 * b.0)
}

/// `a` raised to an integer power; a negative power inverts.
pub open spec fn frac_pow(a: (int, int), e: int) -> (int, int) {
    if e >= 0 {
        (pow(a.0, e as nat), pow(a.1, e as nat))
    } else {
        (pow(a.1, (-e) as nat), pow(a.0, (-e) as nat))
    }
}

/// `k` divides both the numerator and the denominator.
pub open spec fn divides_both(a: (int, int), k: int) -> bool {
    a.0 % k == 0 && a.1 % k == 0
}

/// The fraction is in lowest terms: no integer above one divides both parts.
pub open spec fn lowest(a: (int, int)) -> bool {
    forall|k: int| k > 1 ==> !#[trigger] divides_both(a, k)
}

/// Integer division rounding towards zero, for a positive divisor.
pub open spec fn div_toward_zero(n: int, d: int) -> int {
    if n >= 0 {
        n / d
    } else {
        -((-n) / d)
    }
}

/// An exact rational number: numerator and denominator as little-endian
/// two's-complement bytes, the denominator positive.
#[derive(Debug, Clone)]
pub struct Rational {
    numer: Vec<u8>,
    denom: Vec<u8>,
}

impl View for Rational {
    type V = (int, int);

    /// The number as (numerator, denominator).
    open spec fn view(&self) -> (int, int) {
        (self.num(), self.den())
    }
}

impl Rational {
    pub closed spec fn num(&self) -> int {
        signed_value(self.numer@)
    }

    pub closed spec fn den(&self) -> int {
        signed_value(self.denom@)
    }

    /// A well-formed rational has a positive denominator.
    pub open spec fn wf(&self) -> bool {
        self.den() > 0
    }

    pub fn from_i64(x: i64) -> (r: Rational)
        ensures
            r.wf(),
            r@ == frac_of_int(x as int),
    {
        rat_from_integer(x)
    }

    pub fn zero() -> (r: Rational)
        ensures
            r.wf(),
            r@ == frac_of_int(0),
    {
        rat_from_integer(0)
    }

    pub fn one() -> (r: Rational)
        ensures
            r.wf(),
            r@ == frac_of_int(1),
    {
        rat_from_integer(1)
    }

    /// A copy with the same bytes.
    pub fn duplicate(&self) -> (r: Rational)
        ensures
            r@ == self@,
    {
        Rational { numer: copy_bytes(&self.numer), denom: copy_bytes(&self.denom) }
    }

    /// The numerator's and the denominator's bytes.
    pub fn to_bytes(&self) -> (r: (Vec<u8>, Vec<u8>))
        ensures
            signed_value(r.0@) == self.num(),
            signed_value(r.1@) == self.den(),
    {
        (copy_bytes(&self.numer), copy_bytes(&self.denom))
    }

    /// The rational with the given numerator and denominator bytes, if the denominator is positive.
    pub fn from_bytes(numer: Vec<u8>, denom: Vec<u8>) -> (r: Option<Rational>)
        ensures
            r is Some <==> signed_value(denom@) > 0,
            r is Some ==> r->0.wf() && r->0@ == (signed_value(numer@), signed_value(denom@)),
    {
        if bytes_negative(&denom) || bytes_zero(&denom) {
            None
        } else {
            Some(Rational { numer, denom })
        }
    }

    pub fn is_zero(&self) -> (r: bool)
        ensures
            r == (self.num() == 0),
    {
        bytes_zero(&self.numer)
    }

    pub fn is_negative(&self) -> (r: bool)
        ensures
            r == (self.num() < 0),
    {
        bytes_negative(&self.numer)
    }

    /// The value, for a non-negative integer below 2^64.
    pub fn to_u64(&self) -> (r: Option<u64>)
        requires
            self.den() == 1,
        ensures
            r == (if 0 <= self.num() < 0x1_0000_0000_0000_0000 {
                Some(self.num() as u64)
            } else {
                None::<u64>
            }),
    {
        if bytes_negative(&self.numer) {
            return None;
        }
        let d = &self.numer;
        proof {
            lemma_bytes_bound(d@);
        }
        let mut len: usize = d.len();
        assert(d@.subrange(0, len as int) == d@);
        while len > 0 && d[len - 1] == 0
            invariant
                len <= d.len(),
                bytes_value(d@) == bytes_value(d@.subrange(0, len as int)),
            decreases len,
        {
            proof {
                let s = d@.subrange(0, len as int);
                lemma_drop_zero_byte(s);
                assert(s.drop_last() == d@.subrange(0, len - 1));
            }
            len -= 1;
        }
        let ghost s = d@.subrange(0, len as int);
        proof {
            reveal_with_fuel(pow, 9);
            assert(pow(256, 8) == 0x1_0000_0000_0000_0000);
        }
        if len > 8 {
            proof {
                lemma_bytes_lower(s);
                lemma_pow_increases(256, 8, (len - 1) as nat);
            }
            return None;
        }
        let mut v: u64 = 0;
        let mut i: usize = len;
        while i > 0
            invariant
                i <= len <= 8,
                len <= d.len(),
                s == d@.subrange(0, len as int),
                v as nat == bytes_value(s.subrange(i as int, len as int)),
                v < pow(256, (len - i) as nat),
                pow(256, 8) == 0x1_0000_0000_0000_0000,
            decreases i,
        {
            proof {
                let t = s.subrange(i - 1, len as int);
                assert(t.drop_first() == s.subrange(i as int, len as int));
                let k = (len - i) as nat;
                reveal(pow);
                lemma_pow_increases(256, k + 1, 8);
                assert(pow(256, k + 1) == 256 * pow(256, k));
                assert(pow(256, k + 1) <= 0x1_0000_0000_0000_0000);
            }
            assert(v * 256 + d[i - 1] < 256 * pow(256, (len - i) as nat)) by (nonlinear_arith)
                requires
                    v < pow(256, (len - i) as nat),
                    d[i - 1] < 256,
            ;
            v = v * 256 + d[i - 1] as u64;
            i -= 1;
        }
        assert(s.subrange(0, len as int) == s);
        Some(v)
    }
}

fn copy_bytes(d: &Vec<u8>) -> (r: Vec<u8>)
    ensures
        r@ == d@,
{
    let mut r: Vec<u8> = Vec::new();
    let mut i: usize = 0;
    while i < d.len()
        invariant
            i <= d.len(),
            r@ == d@.subrange(0, i as int),
        decreases d.len() - i,
    {
        r.push(d[i]);
        i += 1;
    }
    assert(r@ == d@);
    r
}

/// Whether the bytes write zero.
fn bytes_zero(d: &Vec<u8>) -> (r: bool)
    ensures
        r == (signed_value(d@) == 0),
{
    proof {
        lemma_bytes_bound(d@);
    }
    let mut i: usize = 0;
    while i < d.len()
        invariant
            i <= d.len(),
            forall|k: int| 0 <= k < i ==> d@[k] == 0,
        decreases d.len() - i,
    {
        if d[i] != 0 {
            proof {
                lemma_byte_positive(d@, i as int);
                lemma_bytes_bound(d@);
                if d@.last() >= 128 {
                    assert(signed_value(d@) < 0);
                } else {
                    assert(signed_value(d@) > 0);
                }
            }
            return false;
        }
        i += 1;
    }
    proof {
        lemma_zero_bytes(d@);
    }
    true
}

/// Whether the bytes write a negative number.
fn bytes_negative(d: &Vec<u8>) -> (r: bool)
    ensures
        r == (signed_value(d@) < 0),
{
    proof {
        lemma_bytes_bound(d@);
    }
    d.len() > 0 && d[d.len() - 1] >= 128
}

proof fn lemma_bytes_bound(d: Seq<u8>)
    ensures
        bytes_value(d) < pow(256, d.len()),
    decreases d.len(),
{
    reveal(pow);
    if d.len() > 0 {
        let t = d.drop_first();
        lemma_bytes_bound(t);
        assert(pow(256, d.len()) == 256 * pow(256, t.len()));
        assert(d[0] + 256 * bytes_value(t) < 256 * pow(256, t.len())) by (nonlinear_arith)
            requires
                bytes_value(t) < pow(256, t.len()),
                d[0] < 256,
        ;
    }
}

proof fn lemma_bytes_lower(d: Seq<u8>)
    requires
        d.len() > 0,
        d.last() != 0,
    ensures
        bytes_value(d) >= pow(256, (d.len() - 1) as nat),
    decreases d.len(),
{
    reveal(pow);
    if d.len() > 1 {
        let t = d.drop_first();
        assert(t.last() == d.last());
        lemma_bytes_lower(t);
        assert(pow(256, (d.len() - 1) as nat) == 256 * pow(256, (t.len() - 1) as nat));
    }
}

proof fn lemma_byte_positive(d: Seq<u8>, i: int)
    requires
        0 <= i < d.len(),
        d[i] != 0,
    ensures
        bytes_value(d) > 0,
    decreases d.len(),
{
    if i > 0 {
        lemma_byte_positive(d.drop_first(), i - 1);
    }
}

proof fn lemma_zero_bytes(d: Seq<u8>)
    requires
        forall|k: int| 0 <= k < d.len() ==> d[k] == 0,
    ensures
        bytes_value(d) == 0,
    decreases d.len(),
{
    if d.len() > 0 {
        lemma_zero_bytes(d.drop_first());
    }
}

proof fn lemma_drop_zero_byte(d: Seq<u8>)
    requires
        d.len() > 0,
        d.last() == 0,
    ensures
        bytes_value(d) == bytes_value(d.drop_last()),
    decreases d.len(),
{
    if d.len() > 1 {
        assert(d.drop_first().last() == d.last());
        lemma_drop_zero_byte(d.drop_first());
        assert(d.drop_first().drop_last() == d.drop_last().drop_first());
        assert(d.drop_last()[0] == d[0]);
        assert(bytes_value(d.drop_last()) == d[0] + 256 * bytes_value(d.drop_last().drop_first()));
    } else {
        assert(d.drop_first().len() == 0);
        assert(bytes_value(d.drop_first()) == 0);
        assert(d.drop_last().len() == 0);
        assert(bytes_value(d.drop_last()) == 0);
    }
}

/// Equality of fractions is transitive through a fraction with a non-zero denominator.
pub proof fn lemma_frac_eq_trans(a: (int, int), b: (int, int), c: (int, int))
    requires
        b.1 != 0,
        frac_eq(a, b),
        frac_eq(b, c),
    ensures
        frac_eq(a, c),
{
    assert((a.0 * c.1 - c.0 * a.1) * b.1 == 0) by (nonlinear_arith)
        requires
            a.0 * b.1 == b.0 * a.1,
            b.0 * c.1 == c.0 * b.1,
    ;
    assert(a.0 * c.1 - c.0 * a.1 == 0) by (nonlinear_arith)
        requires
            (a.0 * c.1 - c.0 * a.1) * b.1 == 0,
            b.1 != 0,
    ;
}

/// Equal fractions give equal sums, differences, products and quotients.
pub proof fn lemma_frac_congr(a: (int, int), a2: (int, int), b: (int, int), b2: (int, int))
    requires
        frac_eq(a, a2),
        frac_eq(b, b2),
    ensures
        frac_eq(frac_add(a, b), frac_add(a2, b2)),
        frac_eq(frac_sub(a, b), frac_sub(a2, b2)),
        frac_eq(frac_mul(a, b), frac_mul(a2, b2)),
        frac_eq(frac_div(a, b), frac_div(a2, b2)),
{
    lemma_cross_add(a.0, a.1, b.0, b.1, a2.0, a2.1, b2.0, b2.1);
    assert((-b.0) * b2.1 == (-b2.0) * b.1) by (nonlinear_arith)
        requires
            b.0 * b2.1 == b2.0 * b.1,
    ;
    lemma_cross_add(a.0, a.1, -b.0, b.1, a2.0, a2.1, -b2.0, b2.1);
    assert((-b.0) * a.1 == -(b.0 * a.1)) by (nonlinear_arith);
    assert((-b2.0) * a2.1 == -(b2.0 * a2.1)) by (nonlinear_arith);
    assert((a.0 * b.0) * (a2.1 * b2.1) == (a2.0 * b2.0) * (a.1 * b.1)) by (nonlinear_arith)
        requires
            a.0 * a2.1 == a2.0 * a.1,
            b.0 * b2.1 == b2.0 * b.1,
    ;
    assert((a.0 * b.1) * (a2.1 * b2.0) == (a2.0 * b2.1) * (a.1 * b.0)) by (nonlinear_arith)
        requires
            a.0 * a2.1 == a2.0 * a.1,
            b.0 * b2.1 == b2.0 * b.1,
    ;
}

proof fn lemma_mul4(x: int, y: int, z: int, w: int)
    ensures
        (x * y) * (z * w) == (x * z) * (y * w),
{
    assert((x * y) * (z * w) == (x * z) * (y * w)) by (nonlinear_arith);
}

proof fn lemma_cross_add(a0: int, a1: int, b0: int, b1: int, c0: int, c1: int, d0: int, d1: int)
    requires
        a0 * c1 == c0 * a1,
        b0 * d1 == d0 * b1,
    ensures
        (a0 * b1 + b0 * a1) * (c1 * d1) == (c0 * d1 + d0 * c1) * (a1 * b1),
{
    lemma_mul_is_distributive_add_other_way(c1 * d1, a0 * b1, b0 * a1);
    lemma_mul_is_distributive_add_other_way(a1 * b1, c0 * d1, d0 * c1);
    lemma_mul4(a0, b1, c1, d1);
    lemma_mul4(c0, a1, b1, d1);
    lemma_mul4(c0, d1, a1, b1);
    lemma_mul4(b0, a1, d1, c1);
    lemma_mul_is_commutative(c1, d1);
    lemma_mul4(d0, b1, a1, c1);
    lemma_mul4(d0, c1, a1, b1);
    lemma_mul_is_commutative(b1, d1);
    lemma_mul_is_commutative(a1, c1);
    lemma_mul_is_commutative(b1, c1);
}

/// A fraction equal to one with a non-zero numerator has a non-zero numerator.
pub proof fn lemma_frac_nonzero(a: (int, int), b: (int, int))
    requires
        frac_eq(a, b),
        a.1 != 0,
        b.0 != 0,
    ensures
        a.0 != 0,
{
    assert(a.0 != 0) by (nonlinear_arith)
        requires
            a.0 * b.1 == b.0 * a.1,
            a.1 != 0,
            b.0 != 0,
    ;
}

/// Relies on `Ratio::from_integer` and `BigInt::from(i64)`: the integer itself, over one.
#[verifier::external_body]
fn rat_from_integer(x: i64) -> (r: Rational)
    ensures
        r.wf(),
        r@ == frac_of_int(x as int),
{
    let z = BigRational::from_integer(BigInt::from(x));
    Rational { numer: z.numer().to_signed_bytes_le(), denom: z.denom().to_signed_bytes_le() }
}

/// Relies on `Add for Ratio<BigInt>`: the exact sum, with a positive denominator.
#[verifier::external_body]
pub(crate) fn rat_add(a: &Rational, b: &Rational) -> (r: Rational)
    requires
        a.wf(),
        b.wf(),
    ensures
        r.wf(),
        frac_eq(r@, frac_add(a@, b@)),
{
    let x = BigRational::new(BigInt::from_signed_bytes_le(&a.numer), BigInt::from_signed_bytes_le(&a.denom));
    let y = BigRational::new(BigInt::from_signed_bytes_le(&b.numer), BigInt::from_signed_bytes_le(&b.denom));
    let z = x + y;
    Rational { numer: z.numer().to_signed_bytes_le(), denom: z.denom().to_signed_bytes_le() }
}

/// Relies on `Sub for Ratio<BigInt>`: the exact difference, with a positive denominator.
#[verifier::external_body]
pub(crate) fn rat_sub(a: &Rational, b: &Rational) -> (r: Rational)
    requires
        a.wf(),
        b.wf(),
    ensures
        r.wf(),
        frac_eq(r@, frac_sub(a@, b@)),
{
    let x = BigRational::new(BigInt::from_signed_bytes_le(&a.numer), BigInt::from_signed_bytes_le(&a.denom));
    let y = BigRational::new(BigInt::from_signed_bytes_le(&b.numer), BigInt::from_signed_bytes_le(&b.denom));
    let z = x - y;
    Rational { numer: z.numer().to_signed_bytes_le(), denom: z.denom().to_signed_bytes_le() }
}

/// Relies on `Mul for Ratio<BigInt>`: the exact product, reduced by `Ratio::new` to lowest
/// terms with a positive denominator.
#[verifier::external_body]
pub(crate) fn rat_mul(a: &Rational, b: &Rational) -> (r: Rational)
    requires
        a.wf(),
        b.wf(),
    ensures
        r.wf(),
        frac_eq(r@, frac_mul(a@, b@)),
        lowest(r@),
{
    let x = BigRational::new(BigInt::from_signed_bytes_le(&a.numer), BigInt::from_signed_bytes_le(&a.denom));
    let y = BigRational::new(BigInt::from_signed_bytes_le(&b.numer), BigInt::from_signed_bytes_le(&b.denom));
    let z = x * y;
    Rational { numer: z.numer().to_signed_bytes_le(), denom: z.denom().to_signed_bytes_le() }
}

/// Relies on `Div for Ratio<BigInt>`: the exact quotient, with a positive denominator.
/// It panics on a zero divisor, which `requires` leaves out.
#[verifier::external_body]
pub(crate) fn rat_div(a: &Rational, b: &Rational) -> (r: Rational)
    requires
        a.wf(),
        b.wf(),
        b.num() != 0,
    ensures
        r.wf(),
        frac_eq(r@, frac_div(a@, b@)),
{
    let x = BigRational::new(BigInt::from_signed_bytes_le(&a.numer), BigInt::from_signed_bytes_le(&a.denom));
    let y = BigRational::new(BigInt::from_signed_bytes_le(&b.numer), BigInt::from_signed_bytes_le(&b.denom));
    let z = x / y;
    Rational { numer: z.numer().to_signed_bytes_le(), denom: z.denom().to_signed_bytes_le() }
}

/// Relies on `Neg for Ratio<BigInt>`: the additive inverse, with a positive denominator.
#[verifier::external_body]
pub(crate) fn rat_neg(a: &Rational) -> (r: Rational)
    requires
        a.wf(),
    ensures
        r.wf(),
        frac_eq(r@, (-a@.0, a@.1)),
{
    let x = BigRational::new(BigInt::from_signed_bytes_le(&a.numer), BigInt::from_signed_bytes_le(&a.denom));
    let z = -x;
    Rational { numer: z.numer().to_signed_bytes_le(), denom: z.denom().to_signed_bytes_le() }
}

/// Relies on `PartialEq for Ratio<BigInt>`, which compares the numbers' values.
#[verifier::external_body]
pub(crate) fn rat_eq(a: &Rational, b: &Rational) -> (r: bool)
    requires
        a.wf(),
        b.wf(),
    ensures
        r == frac_eq(a@, b@),
{
    let x = BigRational::new(BigInt::from_signed_bytes_le(&a.numer), BigInt::from_signed_bytes_le(&a.denom));
    let y = BigRational::new(BigInt::from_signed_bytes_le(&b.numer), BigInt::from_signed_bytes_le(&b.denom));
    x == y
}

/// Relies on `Pow<i32> for Ratio<BigInt>`: the exact power; a negative exponent
/// takes the reciprocal, which panics on zero, so `requires` leaves that out.
#[verifier::external_body]
pub(crate) fn rat_pow(a: &Rational, e: i32) -> (r: Rational)
    requires
        a.wf(),
        e < 0 ==> a.num() != 0,
    ensures
        r.wf(),
        frac_eq(r@, frac_pow(a@, e as int)),
{
    let x = BigRational::new(BigInt::from_signed_bytes_le(&a.numer), BigInt::from_signed_bytes_le(&a.denom));
    let z = x.pow(e);
    Rational { numer: z.numer().to_signed_bytes_le(), denom: z.denom().to_signed_bytes_le() }
}

/// Relies on `Pow<BigInt> for Ratio<BigInt>`: the exact power for an integer exponent of any
/// size; a negative exponent takes the reciprocal, which panics on zero, so `requires` leaves
/// that out.
#[verifier::external_body]
pub(crate) fn rat_pow_big(a: &Rational, e: &Rational) -> (r: Rational)
    requires
        a.wf(),
        e.den() == 1,
        e.num() < 0 ==> a.num() != 0,
    ensures
        r.wf(),
        frac_eq(r@, frac_pow(a@, e.num())),
{
    let x = BigRational::new(BigInt::from_signed_bytes_le(&a.numer), BigInt::from_signed_bytes_le(&a.denom));
    let z = x.pow(BigInt::from_signed_bytes_le(&e.numer));
    Rational { numer: z.numer().to_signed_bytes_le(), denom: z.denom().to_signed_bytes_le() }
}

/// Relies on `Ratio::to_integer`: the integer part, rounding towards zero.
#[verifier::external_body]
pub(crate) fn rat_trunc(a: &Rational) -> (r: Rational)
    requires
        a.wf(),
    ensures
        r.den() == 1,
        r.num() == div_toward_zero(a.num(), a.den()),
{
    let x = BigRational::new(BigInt::from_signed_bytes_le(&a.numer), BigInt::from_signed_bytes_le(&a.denom));
    Rational { numer: x.to_integer().to_signed_bytes_le(), denom: vec![1u8] }
}

/// The text of the fraction `n/d`: in lowest terms, the numerator alone for a whole number.
pub uninterp spec fn ratio_text(n: int, d: int) -> Seq<char>;

/// Relies on `Display for Ratio<BigInt>`, which prints the number in lowest terms.
#[verifier::external_body]
pub(crate) fn rat_text(a: &Rational) -> (r: String)
    requires
        a.wf(),
    ensures
        r@ == ratio_text(a.num(), a.den()),
{
    let x = BigRational::new(BigInt::from_signed_bytes_le(&a.numer), BigInt::from_signed_bytes_le(&a.denom));
    x.to_string()
}

} // verus!
