//! Arbitrary-width natural numbers used as Brainfuck tape cells.
//!
//! A `Natural` keeps the little-endian base 2^32 digits of its value; all
//! arithmetic on it is delegated to `num_bigint::BigUint`.
use num_bigint::BigUint;
use num_traits::{ToPrimitive, Zero};
use vstd::prelude::*;

verus! {

/// The value of a little-endian sequence of base 2^32 digits.
pub open spec fn digits_value(s: Seq<u32>) -> nat
    decreases s.len(),
{
    if s.len() == 0 {
        0
    } else {
        s[0] as nat + 0x1_0000_0000 * digits_value(s.drop_first())
    }
}

/// The number of bits needed to write `n` in binary (0 for 0).
pub open spec fn bit_length(n: nat) -> nat
    decreases n,
{
    if n == 0 {
        0
    } else {
        1 + bit_length(n / 2)
    }
}

/// A natural number of any size.
#[derive(Debug, PartialEq, Eq)]
pub struct Natural {
    digits: Vec<u32>,
}

impl View for Natural {
    type V = nat;

    closed spec fn view(&self) -> nat {
        digits_value(self.digits@)
    }
}

impl Clone for Natural {
    fn clone(&self) -> (r: Natural)
        ensures
            r@ == self@,
    {
        Natural { digits: self.digits.clone() }
    }
}

impl Natural {
    /// The number whose little-endian base 2^32 digits are `digits`.
    pub fn from_digits(digits: &[u32]) -> (r: Natural)
        ensures
            r@ == digits_value(digits@),
    {
        nat_from_digits(digits)
    }

    /// The number `v`.
    pub fn from_u32(v: u32) -> (r: Natural)
        ensures
            r@ == v as nat,
    {
        nat_from_u32(v)
    }

    /// The little-endian base 2^32 digits of the number, without trailing
    /// zeros.
    pub fn to_digits(&self) -> (r: Vec<u32>)
        ensures
            digits_value(r@) == self@,
            r@.len() == 0 || r@.last() != 0,
    {
        nat_to_digits(self)
    }
}

/// `BigUint::from_slice`: the number whose little-endian base 2^32 digits
/// are `digits`.
#[verifier::external_body]
pub(crate) fn nat_from_digits(digits: &[u32]) -> (r: Natural)
    ensures
        r@ == digits_value(digits@),
{
    Natural { digits: BigUint::from_slice(digits).to_u32_digits() }
}

/// The number `v`: one digit, or none for 0.
pub(crate) fn nat_from_u32(v: u32) -> (r: Natural)
    ensures
        r@ == v as nat,
{
    let mut digits: Vec<u32> = Vec::new();
    if v != 0 {
        digits.push(v);
    }
    proof {
        if v != 0 {
            assert(digits@.drop_first() =~= Seq::<u32>::empty());
            assert(digits_value(digits@.drop_first()) == 0);
        }
        assert(digits_value(digits@) == v as nat);
    }
    Natural { digits }
}

/// `BigUint::to_u32_digits`: the little-endian base 2^32 digits of `a`,
/// without trailing zeros.
#[verifier::external_body]
pub(crate) fn nat_to_digits(a: &Natural) -> (r: Vec<u32>)
    ensures
        digits_value(r@) == a@,
        r@.len() == 0 || r@.last() != 0,
{
    BigUint::from_slice(&a.digits).to_u32_digits()
}

/// `BigUint` addition: the sum of `a` and `b`.
#[verifier::external_body]
pub(crate) fn nat_add(a: &Natural, b: &Natural) -> (r: Natural)
    ensures
        r@ == a@ + b@,
{
    Natural { digits: (BigUint::from_slice(&a.digits) + BigUint::from_slice(&b.digits)).to_u32_digits() }
}

/// `BigUint` subtraction, which panics when `b > a`: the difference `a - b`.
#[verifier::external_body]
pub(crate) fn nat_sub(a: &Natural, b: &Natural) -> (r: Natural)
    requires
        b@ <= a@,
    ensures
        r@ == a@ - b@,
{
    Natural { digits: (BigUint::from_slice(&a.digits) - BigUint::from_slice(&b.digits)).to_u32_digits() }
}

/// `BigUint` multiplication: the product of `a` and `b`.
#[verifier::external_body]
pub(crate) fn nat_mul(a: &Natural, b: &Natural) -> (r: Natural)
    ensures
        r@ == a@ * b@,
{
    Natural { digits: (BigUint::from_slice(&a.digits) * BigUint::from_slice(&b.digits)).to_u32_digits() }
}

/// `BigUint` division, which panics on a zero divisor: the quotient rounded down.
#[verifier::external_body]
pub(crate) fn nat_div(a: &Natural, b: &Natural) -> (r: Natural)
    requires
        b@ != 0,
    ensures
        r@ == a@ / b@,
{
    Natural { digits: (BigUint::from_slice(&a.digits) / BigUint::from_slice(&b.digits)).to_u32_digits() }
}

/// `BigUint` remainder, which panics on a zero divisor.
#[verifier::external_body]
pub(crate) fn nat_rem(a: &Natural, b: &Natural) -> (r: Natural)
    requires
        b@ != 0,
    ensures
        r@ == a@ % b@,
{
    Natural { digits: (BigUint::from_slice(&a.digits) % BigUint::from_slice(&b.digits)).to_u32_digits() }
}

/// `BigUint`'s `<`: whether `a` is smaller than `b`.
#[verifier::external_body]
pub(crate) fn nat_lt(a: &Natural, b: &Natural) -> (r: bool)
    ensures
        r == (a@ < b@),
{
    BigUint::from_slice(&a.digits) < BigUint::from_slice(&b.digits)
}

/// `BigUint`'s `==`: whether `a` and `b` are the same number.
#[verifier::external_body]
pub(crate) fn nat_eq(a: &Natural, b: &Natural) -> (r: bool)
    ensures
        r == (a@ == b@),
{
    BigUint::from_slice(&a.digits) == BigUint::from_slice(&b.digits)
}

/// `Zero::is_zero` of `BigUint`: whether `a` is 0.
#[verifier::external_body]
pub(crate) fn nat_is_zero(a: &Natural) -> (r: bool)
    ensures
        r == (a@ == 0),
{
    BigUint::from_slice(&a.digits).is_zero()
}

/// `BigUint::bits`: the fewest bits needed to write `a`.
#[verifier::external_body]
pub(crate) fn nat_bits(a: &Natural) -> (r: u64)
    ensures
        r as nat == bit_length(a@),
{
    BigUint::from_slice(&a.digits).bits()
}

/// `ToPrimitive::to_u32` of `BigUint`: the value when it fits in a `u32`.
#[verifier::external_body]
pub(crate) fn nat_to_u32(a: &Natural) -> (r: Option<u32>)
    ensures
        r == (if a@ <= u32::MAX { Some(a@ as u32) } else { None::<u32> }),
{
    BigUint::from_slice(&a.digits).to_u32()
}

/// `ToPrimitive::to_u8` of `BigUint`: the value when it fits in a `u8`.
#[verifier::external_body]
pub(crate) fn nat_to_u8(a: &Natural) -> (r: Option<u8>)
    ensures
        r == (if a@ <= u8::MAX { Some(a@ as u8) } else { None::<u8> }),
{
    BigUint::from_slice(&a.digits).to_u8()
}

/// The decimal digit `d` as a character.
pub open spec fn digit_char(d: nat) -> char {
    seq!['0', '1', '2', '3', '4', '5', '6', '7', '8', '9'][d as int]
}

/// The decimal digits of `n`, most significant first, without leading
/// zeros (`"0"` for 0).
pub open spec fn decimal_digits(n: nat) -> Seq<char>
    decreases n,
{
    if n < 10 {
        seq![digit_char(n)]
    } else {
        decimal_digits(n / 10).push(digit_char(n % 10))
    }
}

pub open spec fn is_decimal_digit(c: char) -> bool {
    '0' <= c && c <= '9'
}

/// The value of decimal digits, most significant first, with every `_`
/// between them skipped.
pub open spec fn decimal_value(t: Seq<char>) -> nat
    decreases t.len(),
{
    if t.len() == 0 {
        0
    } else if t.last() == '_' {
        decimal_value(t.drop_last())
    } else {
        decimal_value(t.drop_last()) * 10 + ((t.last() as u32) - 48) as nat
    }
}

/// What parsing the text `t` as a decimal number gives: one leading `+`
/// (not followed by another) is dropped; the rest must be nonempty, start
/// with a digit and hold only digits and `_`, which are skipped.
pub open spec fn parse_decimal(t: Seq<char>) -> Option<nat> {
    let u = if t.len() >= 1 && t[0] == '+' && !(t.len() >= 2 && t[1] == '+') {
        t.drop_first()
    } else {
        t
    };
    if u.len() == 0 || u[0] == '_' || !(forall|i: int| 0 <= i < u.len() ==> is_decimal_digit(#[trigger] u[i]) || u[i]
        == '_') {
        None
    } else {
        Some(decimal_value(u))
    }
}

/// `<BigUint as Display>` (through `to_string`), read as characters: the
/// decimal digits of `a`.
#[verifier::external_body]
pub(crate) fn nat_to_decimal(a: &Natural) -> (r: Vec<char>)
    ensures
        r@ == decimal_digits(a@),
{
    BigUint::from_slice(&a.digits).to_string().chars().collect()
}

/// `<BigUint as FromStr>::from_str` (through `str::parse`) on the text of
/// the characters `t`: the number they write in decimal, or `None` where
/// they write none.
#[verifier::external_body]
pub(crate) fn nat_parse_decimal(t: &[char]) -> (r: Option<Natural>)
    ensures
        match parse_decimal(t@) {
            Some(v) => r matches Some(n) && n@ == v,
            None => r is None,
        },
{
    let text: String = t.iter().collect();
    match text.parse::<BigUint>() {
        Ok(n) => Some(Natural { digits: n.to_u32_digits() }),
        Err(_) => None,
    }
}

} // verus!
