//! Exact rational weights, computed by `num_rational` over `num_bigint`.
//!
//! A [`Rational`] keeps its numerator and denominator, in lowest terms, as
//! two's-complement little-endian byte strings.  The arithmetic itself is done by the big-number
//! crates; this module states what each operation does to the number that the
//! bytes stand for.

use crate::traits::Weight;
use num_bigint::BigInt;
use num_rational::Ratio;
use vstd::prelude::*;

verus! {

/// The integer that a little-endian two's-complement byte string stands for.
/// The empty string stands for zero.
pub open spec fn le_signed(bytes: Seq<u8>) -> int
    decreases bytes.len(),
{
    if bytes.len() == 0 {
        0
    } else if bytes.len() == 1 {
        if bytes[0] < 128 {
            bytes[0] as int
        } else {
            bytes[0] as int - 256
        }
    } else {
        bytes[0] as int + 256 * le_signed(bytes.skip(1))
    }
}

/// The fraction `n / d` is in lowest terms: `d` is positive and no number
/// above one divides both.
pub open spec fn lowest(n: int, d: int) -> bool {
    &&& d > 0
    &&& forall|k: int| k > 1 ==> !(#[trigger] (n % k) == 0 && d % k == 0)
}

/// The character of a digit.
pub open spec fn digit_char(d: int) -> char {
    (d + 48) as u8 as char
}

/// The digits of `n` in base ten, the highest first.
pub open spec fn digits(n: nat) -> Seq<char>
    decreases n,
{
    if n < 10 {
        seq![digit_char(n as int)]
    } else {
        digits(n / 10).push(digit_char((n % 10) as int))
    }
}

/// The integer `n` in base ten, with a minus sign if it is negative.
pub open spec fn decimal(n: int) -> Seq<char> {
    if n < 0 {
        seq!['-'] + digits((-n) as nat)
    } else {
        digits(n as nat)
    }
}

/// The fraction `n / d` as text: the numerator, and after a slash the
/// denominator unless it is one.
pub open spec fn fraction_text(n: int, d: int) -> Seq<char> {
    if d == 1 {
        decimal(n)
    } else {
        decimal(n) + seq!['/'] + decimal(d)
    }
}

/// A rational number in lowest terms.
pub struct Rational {
    numer: Vec<u8>,
    denom: Vec<u8>,
}

impl Rational {
    #[verifier::type_invariant]
    pub closed spec fn well_formed(&self) -> bool {
        lowest(le_signed(self.numer@), le_signed(self.denom@))
    }

    /// The numerator of the fraction as it is stored.
    pub closed spec fn numerator(&self) -> int {
        le_signed(self.numer@)
    }

    /// The denominator of the fraction as it is stored.
    pub closed spec fn denominator(&self) -> int {
        le_signed(self.denom@)
    }

    /// The quotient of numerator and denominator.
    pub open spec fn quotient(&self) -> real {
        self.numerator() as real / self.denominator() as real
    }

    /// The fraction as text: the numerator, and after a slash the denominator
    /// unless it is one.  The fraction is written in lowest terms.
    pub fn to_text(&self) -> (s: String)
        ensures
            s@ == fraction_text(self.numerator(), self.denominator()),
            lowest(self.numerator(), self.denominator()),
    {
        proof {
            use_type_invariant(self);
        }
        ratio_text(self)
    }
}

/// `Ratio::from_integer` on `BigInt::from`: the fraction `n / 1`, which is in
/// lowest terms.
#[verifier::external_body]
fn ratio_from_i64(n: i64) -> (r: Rational)
    ensures
        r.well_formed(),
        r.quotient() == n as real,
{
    let z = Ratio::from_integer(BigInt::from(n));
    Rational { numer: z.numer().to_signed_bytes_le(), denom: z.denom().to_signed_bytes_le() }
}

/// `Add` of `Ratio<BigInt>`: the exact sum, read from and written back to
/// two's-complement bytes by `BigInt::from_signed_bytes_le` and
/// `BigInt::to_signed_bytes_le`.  `Ratio::new` needs a denominator other than
/// zero.  Like every operator of `Ratio`, it gives its result in lowest terms,
/// with a positive denominator.
#[verifier::external_body]
fn ratio_add(a: &Rational, b: &Rational) -> (r: Rational)
    requires
        a.well_formed(),
        b.well_formed(),
    ensures
        r.well_formed(),
        r.quotient() == a.quotient() + b.quotient(),
{
    let x = Ratio::new(BigInt::from_signed_bytes_le(&a.numer), BigInt::from_signed_bytes_le(&a.denom));
    let y = Ratio::new(BigInt::from_signed_bytes_le(&b.numer), BigInt::from_signed_bytes_le(&b.denom));
    let z = x + y;
    Rational { numer: z.numer().to_signed_bytes_le(), denom: z.denom().to_signed_bytes_le() }
}

/// `Sub` of `Ratio<BigInt>`: the exact difference.
#[verifier::external_body]
fn ratio_sub(a: &Rational, b: &Rational) -> (r: Rational)
    requires
        a.well_formed(),
        b.well_formed(),
    ensures
        r.well_formed(),
        r.quotient() == a.quotient() - b.quotient(),
{
    let x = Ratio::new(BigInt::from_signed_bytes_le(&a.numer), BigInt::from_signed_bytes_le(&a.denom));
    let y = Ratio::new(BigInt::from_signed_bytes_le(&b.numer), BigInt::from_signed_bytes_le(&b.denom));
    let z = x - y;
    Rational { numer: z.numer().to_signed_bytes_le(), denom: z.denom().to_signed_bytes_le() }
}

/// `Mul` of `Ratio<BigInt>`: the exact product.
#[verifier::external_body]
fn ratio_mul(a: &Rational, b: &Rational) -> (r: Rational)
    requires
        a.well_formed(),
        b.well_formed(),
    ensures
        r.well_formed(),
        r.quotient() == a.quotient() * b.quotient(),
{
    let x = Ratio::new(BigInt::from_signed_bytes_le(&a.numer), BigInt::from_signed_bytes_le(&a.denom));
    let y = Ratio::new(BigInt::from_signed_bytes_le(&b.numer), BigInt::from_signed_bytes_le(&b.denom));
    let z = x * y;
    Rational { numer: z.numer().to_signed_bytes_le(), denom: z.denom().to_signed_bytes_le() }
}

/// `Div` of `Ratio<BigInt>`: the exact quotient.  It panics on a zero divisor,
/// which `requires` leaves out.
#[verifier::external_body]
fn ratio_div(a: &Rational, b: &Rational) -> (r: Rational)
    requires
        a.well_formed(),
        b.well_formed(),
        b.quotient() != 0real,
    ensures
        r.well_formed(),
        r.quotient() == a.quotient() / b.quotient(),
{
    let x = Ratio::new(BigInt::from_signed_bytes_le(&a.numer), BigInt::from_signed_bytes_le(&a.denom));
    let y = Ratio::new(BigInt::from_signed_bytes_le(&b.numer), BigInt::from_signed_bytes_le(&b.denom));
    let z = x / y;
    Rational { numer: z.numer().to_signed_bytes_le(), denom: z.denom().to_signed_bytes_le() }
}

/// `PartialOrd::lt` of `Ratio<BigInt>`: the order of the two numbers.
#[verifier::external_body]
fn ratio_lt(a: &Rational, b: &Rational) -> (r: bool)
    requires
        a.well_formed(),
        b.well_formed(),
    ensures
        r == (a.quotient() < b.quotient()),
{
    let x = Ratio::new(BigInt::from_signed_bytes_le(&a.numer), BigInt::from_signed_bytes_le(&a.denom));
    let y = Ratio::new(BigInt::from_signed_bytes_le(&b.numer), BigInt::from_signed_bytes_le(&b.denom));
    x < y
}

/// `PartialEq::eq` of `Ratio<BigInt>`: whether the two numbers are equal.
#[verifier::external_body]
fn ratio_eq(a: &Rational, b: &Rational) -> (r: bool)
    requires
        a.well_formed(),
        b.well_formed(),
    ensures
        r == (a.quotient() == b.quotient()),
{
    let x = Ratio::new(BigInt::from_signed_bytes_le(&a.numer), BigInt::from_signed_bytes_le(&a.denom));
    let y = Ratio::new(BigInt::from_signed_bytes_le(&b.numer), BigInt::from_signed_bytes_le(&b.denom));
    x == y
}

/// `Display` of `Ratio<BigInt>`, through `format!`: the numerator as `Display`
/// of `BigInt` writes it, in base ten with a minus sign if it is negative, and
/// after a slash the denominator unless it is one.  `Ratio::new` leaves a
/// fraction in lowest terms as it is.
#[verifier::external_body]
fn ratio_text(a: &Rational) -> (s: String)
    requires
        a.well_formed(),
    ensures
        s@ == fraction_text(a.numerator(), a.denominator()),
{
    let x = Ratio::new(BigInt::from_signed_bytes_le(&a.numer), BigInt::from_signed_bytes_le(&a.denom));
    format!("{}", x)
}

impl Weight for Rational {
    open spec fn value(&self) -> real {
        self.quotient()
    }

    fn zero() -> (r: Self) {
        ratio_from_i64(0)
    }

    fn one() -> (r: Self) {
        ratio_from_i64(1)
    }

    fn from_i64(n: i64) -> (r: Self) {
        ratio_from_i64(n)
    }

    fn plus(&self, other: &Self) -> (r: Self) {
        proof {
            use_type_invariant(self);
            use_type_invariant(other);
        }
        ratio_add(self, other)
    }

    fn minus(&self, other: &Self) -> (r: Self) {
        proof {
            use_type_invariant(self);
            use_type_invariant(other);
        }
        ratio_sub(self, other)
    }

    fn times(&self, other: &Self) -> (r: Self) {
        proof {
            use_type_invariant(self);
            use_type_invariant(other);
        }
        ratio_mul(self, other)
    }

    fn over(&self, other: &Self) -> (r: Self) {
        proof {
            use_type_invariant(self);
            use_type_invariant(other);
        }
        ratio_div(self, other)
    }

    fn is_zero(&self) -> (b: bool) {
        proof {
            use_type_invariant(self);
        }
        let z = ratio_from_i64(0);
        ratio_eq(self, &z)
    }

    fn less_than(&self, other: &Self) -> (b: bool) {
        proof {
            use_type_invariant(self);
            use_type_invariant(other);
        }
        ratio_lt(self, other)
    }

    fn fuzzy_eq(&self, other: &Self) -> (b: bool) {
        proof {
            use_type_invariant(self);
            use_type_invariant(other);
        }
        ratio_eq(self, other)
    }

    fn duplicate(&self) -> (r: Self) {
        proof {
            use_type_invariant(self);
        }
        let z = ratio_from_i64(0);
        ratio_add(self, &z)
    }
}

} // verus!
