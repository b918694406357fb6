//! Arbitrary-precision integers and rationals, as `num-bigint` and
//! `num-rational` compute them. Each value carries the number it holds as a
//! ghost model; only the trusted functions of this module build one, and each
//! says which number its result holds.
use crate::numtheory::{abs, canonical, lemma_zero_canonical, rat, rat_add, rat_div, rat_int, rat_mul, rat_neg, rat_sub, rat_zero};
use crate::text::{find_char, int_text, parse_int};
use num_bigint::{BigInt, ParseBigIntError};
use num_rational::{BigRational, ParseRatioError, Ratio};
use num_traits::{One, Zero};
use vstd::prelude::*;

verus! {

#[verifier::external_type_specification]
#[verifier::external_body]
pub struct ExBigInt(BigInt);

#[verifier::external_type_specification]
#[verifier::external_body]
#[verifier::reject_recursive_types(T)]
pub struct ExRatio<T>(Ratio<T>);

#[verifier::external_type_specification]
#[verifier::external_body]
pub struct ExParseRatioError(ParseRatioError);

#[verifier::external_type_specification]
#[verifier::external_body]
pub struct ExParseBigIntError(ParseBigIntError);

/// `Clone` on `ParseRatioError`, which derives it: the same report.
pub assume_specification[ <ParseRatioError as Clone>::clone ](e: &ParseRatioError) -> (r: ParseRatioError)
    ensures
        r == *e,
;

/// `Clone` on `ParseBigIntError`, which derives it: the same report.
pub assume_specification[ <ParseBigIntError as Clone>::clone ](e: &ParseBigIntError) -> (r: ParseBigIntError)
    ensures
        r == *e,
;

/// An arbitrary-precision integer.
pub struct Integer {
    pub(crate) value: BigInt,
    pub(crate) model: Ghost<int>,
}

/// An arbitrary-precision rational, always in lowest terms with a positive
/// denominator.
pub struct Rational {
    value: BigRational,
    model: Ghost<(int, int)>,
}

impl View for Integer {
    type V = int;

    closed spec fn view(&self) -> int {
        self.model@
    }
}

impl View for Rational {
    type V = (int, int);

    /// The fraction held, numerator and denominator.
    closed spec fn view(&self) -> (int, int) {
        if canonical(self.model@) {
            self.model@
        } else {
            rat_zero()
        }
    }
}

/// Every rational is held as its canonical fraction.
pub proof fn lemma_rational_canonical(r: Rational)
    ensures
        canonical(r@),
{
    lemma_zero_canonical();
}

/// `BigInt::from(i64)`: the integer `n`.
#[verifier::external_body]
pub fn integer_from_i64(n: i64) -> (r: Integer)
    ensures
        r@ == n as int,
{
    Integer { value: BigInt::from(n), model: Ghost(n as int) }
}

/// `BigInt::from(usize)`: the integer `n`.
#[verifier::external_body]
pub fn integer_from_usize(n: usize) -> (r: Integer)
    ensures
        r@ == n as int,
{
    Integer { value: BigInt::from(n), model: Ghost(n as int) }
}

/// `Clone` on a `BigInt`: the same integer.
#[verifier::external_body]
pub fn integer_clone(a: &Integer) -> (r: Integer)
    ensures
        r@ == a@,
{
    Integer { value: a.value.clone(), model: Ghost(a@) }
}

/// `&a + &b` on `BigInt`.
#[verifier::external_body]
pub fn integer_add(a: &Integer, b: &Integer) -> (r: Integer)
    ensures
        r@ == a@ + b@,
{
    Integer { value: &a.value + &b.value, model: Ghost(a@ + b@) }
}

/// `&a - &b` on `BigInt`.
#[verifier::external_body]
pub fn integer_sub(a: &Integer, b: &Integer) -> (r: Integer)
    ensures
        r@ == a@ - b@,
{
    Integer { value: &a.value - &b.value, model: Ghost(a@ - b@) }
}

/// `-&a` on `BigInt`.
#[verifier::external_body]
pub fn integer_neg(a: &Integer) -> (r: Integer)
    ensures
        r@ == -a@,
{
    Integer { value: -&a.value, model: Ghost(-a@) }
}

/// `&a * &b` on `BigInt`.
#[verifier::external_body]
pub fn integer_mul(a: &Integer, b: &Integer) -> (r: Integer)
    ensures
        r@ == a@ * b@,
{
    Integer { value: &a.value * &b.value, model: Ghost(a@ * b@) }
}

/// `&a / &b` on `BigInt`: the quotient rounded toward zero.
#[verifier::external_body]
pub fn integer_div(a: &Integer, b: &Integer) -> (r: Integer)
    requires
        b@ != 0,
    ensures
        r@ == trunc_div(a@, b@),
{
    Integer { value: &a.value / &b.value, model: Ghost(trunc_div(a@, b@)) }
}

/// `&a % &b` on `BigInt`: the remainder of the quotient rounded toward zero,
/// with the sign of `a`.
#[verifier::external_body]
pub fn integer_rem(a: &Integer, b: &Integer) -> (r: Integer)
    requires
        b@ != 0,
    ensures
        r@ == a@ - b@ * trunc_div(a@, b@),
{
    Integer { value: &a.value % &b.value, model: Ghost(a@ - b@ * trunc_div(a@, b@)) }
}

/// `==` on `BigInt`.
#[verifier::external_body]
pub fn integer_eq(a: &Integer, b: &Integer) -> (r: bool)
    ensures
        r == (a@ == b@),
{
    a.value == b.value
}

/// `<` on `BigInt`.
#[verifier::external_body]
pub fn integer_lt(a: &Integer, b: &Integer) -> (r: bool)
    ensures
        r == (a@ < b@),
{
    a.value < b.value
}

/// `Zero::is_zero` on `BigInt`.
#[verifier::external_body]
pub fn integer_is_zero(a: &Integer) -> (r: bool)
    ensures
        r == (a@ == 0),
{
    a.value.is_zero()
}

/// `to_string` on `BigInt`: its decimal digits, after a `-` when negative.
#[verifier::external_body]
pub fn integer_text(a: &Integer) -> (r: String)
    ensures
        r@ == int_text(a@),
{
    a.value.to_string()
}

/// `str::parse::<BigInt>`: the decimal integer the text spells, if any.
#[verifier::external_body]
pub fn integer_parse(s: &str) -> (r: Result<Integer, ParseBigIntError>)
    ensures
        r is Ok <==> parse_int(s@) is Some,
        r matches Ok(v) ==> v@ == parse_int(s@)->0,
{
    match s.parse::<BigInt>() {
        Ok(value) => Ok(Integer { value, model: Ghost(parse_int(s@)->0) }),
        Err(e) => Err(e),
    }
}

/// Truncating division as Rust's integer `/` computes it.
pub open spec fn trunc_div(a: int, b: int) -> int {
    sign(a) * sign(b) * (abs(a) as int / abs(b) as int)
}

pub open spec fn sign(a: int) -> int {
    if a < 0 {
        -1
    } else {
        1
    }
}

/// `Ratio::to_integer`: the rational rounded toward zero.
#[verifier::external_body]
pub fn rational_to_integer(a: &Rational) -> (r: Integer)
    ensures
        r@ == trunc_div(a@.0, a@.1),
{
    Integer { value: a.value.to_integer(), model: Ghost(trunc_div(a@.0, a@.1)) }
}

/// `Ratio::from_integer`: the integer `a` as a rational.
#[verifier::external_body]
pub fn rational_from_integer(a: &Integer) -> (r: Rational)
    ensures
        r@ == rat_int(a@),
{
    Rational { value: BigRational::from_integer(a.value.clone()), model: Ghost(rat_int(a@)) }
}

/// `Zero::zero` on `BigRational`.
#[verifier::external_body]
pub fn rational_zero() -> (r: Rational)
    ensures
        r@ == rat_zero(),
{
    Rational { value: BigRational::zero(), model: Ghost(rat_zero()) }
}

/// `One::one` on `BigRational`.
#[verifier::external_body]
pub fn rational_one() -> (r: Rational)
    ensures
        r@ == rat_int(1),
{
    Rational { value: BigRational::one(), model: Ghost(rat_int(1)) }
}

/// `Clone` on a `BigRational`: the same rational.
#[verifier::external_body]
pub fn rational_clone(a: &Rational) -> (r: Rational)
    ensures
        r@ == a@,
{
    Rational { value: a.value.clone(), model: Ghost(a@) }
}

/// `&a + &b` on `BigRational`, reduced to lowest terms.
#[verifier::external_body]
pub fn rational_add(a: &Rational, b: &Rational) -> (r: Rational)
    ensures
        r@ == rat_add(a@, b@),
{
    Rational { value: &a.value + &b.value, model: Ghost(rat_add(a@, b@)) }
}

/// `&a - &b` on `BigRational`, reduced to lowest terms.
#[verifier::external_body]
pub fn rational_sub(a: &Rational, b: &Rational) -> (r: Rational)
    ensures
        r@ == rat_sub(a@, b@),
{
    Rational { value: &a.value - &b.value, model: Ghost(rat_sub(a@, b@)) }
}

/// `-&a` on `BigRational`.
#[verifier::external_body]
pub fn rational_neg(a: &Rational) -> (r: Rational)
    ensures
        r@ == rat_neg(a@),
{
    Rational { value: -&a.value, model: Ghost(rat_neg(a@)) }
}

/// `&a * &b` on `BigRational`, reduced to lowest terms.
#[verifier::external_body]
pub fn rational_mul(a: &Rational, b: &Rational) -> (r: Rational)
    ensures
        r@ == rat_mul(a@, b@),
{
    Rational { value: &a.value * &b.value, model: Ghost(rat_mul(a@, b@)) }
}

/// `&a / &b` on `BigRational` (which panics on a zero divisor), reduced to
/// lowest terms.
#[verifier::external_body]
pub fn rational_div(a: &Rational, b: &Rational) -> (r: Rational)
    requires
        b@.0 != 0,
    ensures
        r@ == rat_div(a@, b@),
{
    Rational { value: &a.value / &b.value, model: Ghost(rat_div(a@, b@)) }
}

/// `==` on `BigRational`: equality of values.
#[verifier::external_body]
pub fn rational_eq(a: &Rational, b: &Rational) -> (r: bool)
    ensures
        r == (a@ == b@),
{
    a.value == b.value
}

/// `Zero::is_zero` on `BigRational`.
#[verifier::external_body]
pub fn rational_is_zero(a: &Rational) -> (r: bool)
    ensures
        r == (a@.0 == 0),
{
    a.value.is_zero()
}

/// `Ratio::is_integer`: whether the denominator is one.
#[verifier::external_body]
pub fn rational_is_integer(a: &Rational) -> (r: bool)
    ensures
        r == (a@.1 == 1),
{
    a.value.is_integer()
}

/// `Ratio::numer`: the numerator in lowest terms.
#[verifier::external_body]
pub fn rational_numer(a: &Rational) -> (r: Integer)
    ensures
        r@ == a@.0,
{
    Integer { value: a.value.numer().clone(), model: Ghost(a@.0) }
}

/// `Ratio::denom`: the positive denominator in lowest terms.
#[verifier::external_body]
pub fn rational_denom(a: &Rational) -> (r: Integer)
    ensures
        r@ == a@.1,
{
    Integer { value: a.value.denom().clone(), model: Ghost(a@.1) }
}

/// `str::parse::<BigRational>`: `numer` or `numer/denom`, each a decimal
/// integer, with a nonzero denominator; the result is reduced.
#[verifier::external_body]
pub fn rational_parse(s: &str) -> (r: Result<Rational, ParseRatioError>)
    ensures
        r is Ok <==> parse_ratio(s@) is Some,
        r matches Ok(v) ==> v@ == parse_ratio(s@)->0,
{
    match s.parse::<BigRational>() {
        Ok(value) => Ok(Rational { value, model: Ghost(parse_ratio(s@)->0) }),
        Err(e) => Err(e),
    }
}

/// The text of a ratio as `num-rational` parses it.
pub open spec fn parse_ratio(s: Seq<char>) -> Option<(int, int)> {
    let (n, d) = match find_char(s, '/') {
        Some(i) => (parse_int(s.subrange(0, i)), parse_int(s.subrange(i + 1, s.len() as int))),
        None => (parse_int(s), Some(1int)),
    };
    match (n, d) {
        (Some(n), Some(d)) => if d != 0 {
            Some(rat(n, d))
        } else {
            None
        },
        _ => None,
    }
}

} // verus!

verus! {

#[verifier::external_type_specification]
#[verifier::external_body]
pub struct ExFormatter<'a>(core::fmt::Formatter<'a>);

#[verifier::external_type_specification]
#[verifier::external_body]
pub struct ExFmtError(core::fmt::Error);

impl Integer {
    /// The `num-bigint` integer this value is held as; its number is `self@`.
    pub closed spec fn held(&self) -> BigInt {
        self.value
    }

    /// The `num-bigint` integer held.
    pub fn big(&self) -> (r: &BigInt)
        ensures
            *r == self.held(),
    {
        &self.value
    }
}

impl Rational {
    /// The `num-rational` fraction this value is held as; its number is
    /// `self@`.
    pub closed spec fn held(&self) -> BigRational {
        self.value
    }

    /// The `num-rational` fraction held.
    pub fn big(&self) -> (r: &BigRational)
        ensures
            *r == self.held(),
    {
        &self.value
    }
}

impl Clone for Integer {
    fn clone(&self) -> (r: Self)
        ensures
            r@ == self@,
    {
        integer_clone(self)
    }
}

impl PartialEq for Integer {
    fn eq(&self, other: &Self) -> (r: bool) {
        integer_eq(self, other)
    }
}

impl Eq for Integer {
}

impl vstd::std_specs::cmp::PartialEqSpecImpl for Integer {
    open spec fn obeys_eq_spec() -> bool {
        true
    }

    open spec fn eq_spec(&self, other: &Self) -> bool {
        self@ == other@
    }
}

impl Clone for Rational {
    fn clone(&self) -> (r: Self)
        ensures
            r@ == self@,
    {
        rational_clone(self)
    }
}

impl PartialEq for Rational {
    fn eq(&self, other: &Self) -> (r: bool) {
        rational_eq(self, other)
    }
}

impl Eq for Rational {
}

impl vstd::std_specs::cmp::PartialEqSpecImpl for Rational {
    open spec fn obeys_eq_spec() -> bool {
        true
    }

    open spec fn eq_spec(&self, other: &Self) -> bool {
        self@ == other@
    }
}

impl core::fmt::Debug for Rational {
    /// Writes the rational as `num-rational`'s `Debug` does.
    #[verifier::external_body]
    fn fmt(&self, f: &mut core::fmt::Formatter<'_>) -> core::fmt::Result {
        core::fmt::Debug::fmt(&self.value, f)
    }
}

} // verus!

verus! {

impl core::fmt::Debug for Integer {
    /// Writes the integer as `num-bigint`'s `Debug` does: in decimal.
    #[verifier::external_body]
    fn fmt(&self, f: &mut core::fmt::Formatter<'_>) -> core::fmt::Result {
        core::fmt::Debug::fmt(&self.value, f)
    }
}

} // verus!
