//! Arbitrary-precision unsigned integers.
//!
//! A [`Natural`] stores its value as little-endian base-2^32 digits.  The
//! mathematical value of such a digit sequence is given by [`limbs_value`],
//! and every contract in this crate speaks about that value.  The basic
//! arithmetic operations are delegated to `num_bigint::BigUint`, which uses
//! exactly this digit representation: `BigUint::new` consumes little-endian
//! base-2^32 digits and `BigUint::to_u32_digits` produces them again.

use vstd::arithmetic::div_mod::lemma_fundamental_div_mod;
use vstd::arithmetic::power::lemma_pow0;
use vstd::arithmetic::power2::{lemma2_to64, lemma_pow2_adds, pow2};
use vstd::prelude::*;

verus! {

/// The value denoted by a little-endian sequence of base-2^32 digits.
pub open spec fn limbs_value(s: Seq<u32>) -> nat
    decreases s.len(),
{
    if s.len() == 0 {
        0
    } else {
        s[0] as nat + 0x1_0000_0000 * limbs_value(s.subrange(1, s.len() as int))
    }
}

/// A digit sequence of length `l` denotes a value below `2^(32l)`.
pub proof fn lemma_limbs_value_bound(s: Seq<u32>)
    ensures
        limbs_value(s) < pow2(32 * s.len()),
    decreases s.len(),
{
    if s.len() == 0 {
        lemma_pow0(2);
    } else {
        let rest = s.subrange(1, s.len() as int);
        lemma_limbs_value_bound(rest);
        lemma_pow2_adds(32, 32 * rest.len());
        lemma2_to64();
        assert(limbs_value(s) < pow2(32) * pow2(32 * rest.len())) by (nonlinear_arith)
            requires
                limbs_value(s) == s[0] as nat + 0x1_0000_0000 * limbs_value(rest),
                limbs_value(rest) < pow2(32 * rest.len()),
                s[0] < 0x1_0000_0000,
                pow2(32) == 0x1_0000_0000,
        {}
    }
}

/// The character for one decimal digit.
pub open spec fn dec_digit(d: nat) -> char {
    if d == 0 {
        '0'
    } else if d == 1 {
        '1'
    } else if d == 2 {
        '2'
    } else if d == 3 {
        '3'
    } else if d == 4 {
        '4'
    } else if d == 5 {
        '5'
    } else if d == 6 {
        '6'
    } else if d == 7 {
        '7'
    } else if d == 8 {
        '8'
    } else {
        '9'
    }
}

/// The decimal rendering of `n`, most significant digit first (just "0"
/// for zero).
pub open spec fn dec_of(n: nat) -> Seq<char>
    decreases n,
{
    if n < 10 {
        seq![dec_digit(n)]
    } else {
        dec_of(n / 10).push(dec_digit(n % 10))
    }
}

/// Whether `c` is one of the ten decimal digit characters.
pub open spec fn is_dec_digit(c: char) -> bool {
    '0' <= c && c <= '9'
}

/// The value of one decimal digit character (0 for anything else).
pub open spec fn dec_digit_value(c: char) -> nat {
    if c == '1' {
        1
    } else if c == '2' {
        2
    } else if c == '3' {
        3
    } else if c == '4' {
        4
    } else if c == '5' {
        5
    } else if c == '6' {
        6
    } else if c == '7' {
        7
    } else if c == '8' {
        8
    } else if c == '9' {
        9
    } else {
        0
    }
}

/// The number denoted by a sequence of decimal digit characters, most
/// significant first.
pub open spec fn dec_value(s: Seq<char>) -> nat
    decreases s.len(),
{
    if s.len() == 0 {
        0
    } else {
        dec_value(s.drop_last()) * 10 + dec_digit_value(s.last())
    }
}

/// An unbounded unsigned integer; the sole numeric currency of this crate.
///
/// Its view is the mathematical value of its digits, so two `Natural`s with
/// different digit paddings may denote the same number; all comparisons go
/// through the value, never through the raw digits.
#[derive(Debug, Clone)]
pub struct Natural {
    pub(crate) limbs: Vec<u32>,
}

impl View for Natural {
    type V = nat;

    closed spec fn view(&self) -> nat {
        limbs_value(self.limbs@)
    }
}

impl Natural {
    /// The number zero.
    pub fn zero() -> (r: Natural)
        ensures
            r@ == 0,
    {
        Natural { limbs: Vec::new() }
    }

    /// Builds a `Natural` out of a 64-bit value.
    pub fn from_u64(x: u64) -> (r: Natural)
        ensures
            r@ == x as nat,
    {
        let lo: u32 = (x % 0x1_0000_0000) as u32;
        let hi: u32 = (x / 0x1_0000_0000) as u32;
        let limbs: Vec<u32> = vec![lo, hi];
        proof {
            let s = limbs@;
            let s1 = s.subrange(1, 2);
            assert(s1.subrange(1, 1) =~= Seq::<u32>::empty());
            assert(limbs_value(s1.subrange(1, 1)) == 0);
            assert(limbs_value(s1) == hi as nat);
            assert(limbs_value(s) == lo as nat + 0x1_0000_0000 * (hi as nat));
            lemma_fundamental_div_mod(x as int, 0x1_0000_0000);
        }
        Natural { limbs }
    }

    /// Builds a `Natural` out of a 128-bit value.
    pub fn from_u128(x: u128) -> (r: Natural)
        ensures
            r@ == x as nat,
    {
        let lo = Natural::from_u64((x % 0x1_0000_0000_0000_0000) as u64);
        let hi = Natural::from_u64((x / 0x1_0000_0000_0000_0000) as u64);
        let half = Natural::from_u64(0x1_0000_0000);
        let scale = half.times(&half);
        proof {
            lemma_fundamental_div_mod(x as int, 0x1_0000_0000_0000_0000);
        }
        lo.plus(&hi.times(&scale))
    }

    /// A copy of this number with the same value.
    pub fn duplicate(&self) -> (r: Natural)
        ensures
            r@ == self@,
    {
        let limbs = self.limbs.clone();
        proof {
            assert(limbs@ =~= self.limbs@);
        }
        Natural { limbs }
    }

    /// Relies on `num_bigint::BigUint`: `new` reads little-endian base-2^32
    /// digits, `Add::add` adds the values, `to_u32_digits` writes the digits
    /// of the sum back.
    #[verifier::external_body]
    pub fn plus(&self, other: &Natural) -> (r: Natural)
        ensures
            r@ == self@ + other@,
    {
        let a = num_bigint::BigUint::new(self.limbs.clone());
        let b = num_bigint::BigUint::new(other.limbs.clone());
        Natural { limbs: (a + b).to_u32_digits() }
    }

    /// Relies on `num_bigint::BigUint`: `Sub::sub` subtracts the values and
    /// panics when the subtrahend is larger, which the precondition rules
    /// out.
    #[verifier::external_body]
    pub fn minus(&self, other: &Natural) -> (r: Natural)
        requires
            other@ <= self@,
        ensures
            r@ == self@ - other@,
    {
        let a = num_bigint::BigUint::new(self.limbs.clone());
        let b = num_bigint::BigUint::new(other.limbs.clone());
        Natural { limbs: (a - b).to_u32_digits() }
    }

    /// Relies on `num_bigint::BigUint::mul`, which multiplies the values.
    #[verifier::external_body]
    pub fn times(&self, other: &Natural) -> (r: Natural)
        ensures
            r@ == self@ * other@,
    {
        let a = num_bigint::BigUint::new(self.limbs.clone());
        let b = num_bigint::BigUint::new(other.limbs.clone());
        Natural { limbs: (a * b).to_u32_digits() }
    }

    /// Relies on `num_integer::Integer::div_rem` for `BigUint`: Euclidean
    /// quotient and remainder, undefined (panicking) only for a zero
    /// divisor, which the precondition rules out.
    #[verifier::external_body]
    pub fn div_rem(&self, other: &Natural) -> (r: (Natural, Natural))
        requires
            other@ > 0,
        ensures
            r.0@ == self@ / other@,
            r.1@ == self@ % other@,
    {
        let a = num_bigint::BigUint::new(self.limbs.clone());
        let b = num_bigint::BigUint::new(other.limbs.clone());
        let (q, rem) = num_integer::Integer::div_rem(&a, &b);
        (Natural { limbs: q.to_u32_digits() }, Natural { limbs: rem.to_u32_digits() })
    }

    /// Relies on `Ord::cmp` for `num_bigint::BigUint`, which orders by
    /// value.
    #[verifier::external_body]
    pub fn cmp_with(&self, other: &Natural) -> (r: i8)
        ensures
            (r == -1i8) == (self@ < other@),
            (r == 0i8) == (self@ == other@),
            (r == 1i8) == (self@ > other@),
    {
        let a = num_bigint::BigUint::new(self.limbs.clone());
        let b = num_bigint::BigUint::new(other.limbs.clone());
        match a.cmp(&b) {
            core::cmp::Ordering::Less => -1,
            core::cmp::Ordering::Equal => 0,
            core::cmp::Ordering::Greater => 1,
        }
    }

    /// Relies on `num_bigint::BigUint::sqrt`, the truncated principal
    /// square root.
    #[verifier::external_body]
    pub fn sqrt_floor(&self) -> (r: Natural)
        ensures
            r@ * r@ <= self@,
            self@ < (r@ + 1) * (r@ + 1),
    {
        let a = num_bigint::BigUint::new(self.limbs.clone());
        Natural { limbs: a.sqrt().to_u32_digits() }
    }

    /// Relies on `num_traits::ToPrimitive::to_u64` for `BigUint`, which
    /// returns the value exactly when it fits in 64 bits and `None`
    /// otherwise.
    #[verifier::external_body]
    pub fn to_u64(&self) -> (r: Option<u64>)
        ensures
            match r {
                Some(v) => v == self@,
                None => self@ > u64::MAX,
            },
    {
        num_traits::ToPrimitive::to_u64(&num_bigint::BigUint::new(self.limbs.clone()))
    }

    /// Relies on `num_bigint::BigUint::to_str_radix` with radix 10, which
    /// writes the usual decimal digits, most significant first.
    #[verifier::external_body]
    pub fn to_decimal(&self) -> (r: String)
        ensures
            r@ == dec_of(self@),
    {
        num_bigint::BigUint::new(self.limbs.clone()).to_str_radix(10)
    }

    /// Relies on `num_bigint::BigUint::parse_bytes` with radix 10: a
    /// non-empty string of decimal digits parses to the number it denotes
    /// (a leading '+' and embedded '_' separators are also tolerated), and
    /// any string holding some other character is rejected.
    #[verifier::external_body]
    pub fn from_decimal_str(s: &str) -> (r: Option<Natural>)
        ensures
            (s@.len() > 0 && (forall|i: int| 0 <= i < s@.len() ==> is_dec_digit(#[trigger] s@[i])))
                ==> (match r {
                Some(v) => v@ == dec_value(s@),
                None => false,
            }),
            (exists|i: int|
                0 <= i < s@.len() && !is_dec_digit(#[trigger] s@[i]) && s@[i] != '+' && s@[i]
                    != '_') ==> r is None,
    {
        num_bigint::BigUint::parse_bytes(s.as_bytes(), 10).map(
            |b| Natural { limbs: b.to_u32_digits() },
        )
    }

    /// `self < other`, decided on the values.
    pub fn lt(&self, other: &Natural) -> (r: bool)
        ensures
            r == (self@ < other@),
    {
        self.cmp_with(other) == -1
    }

    /// `self <= other`, decided on the values.
    pub fn le(&self, other: &Natural) -> (r: bool)
        ensures
            r == (self@ <= other@),
    {
        self.cmp_with(other) != 1
    }

    /// The number of stored base-2^32 digits; the value lies below
    /// `2^(32 · limb_count)`.
    pub fn limb_count(&self) -> (r: usize)
        ensures
            self@ < pow2(32 * r as nat),
    {
        proof {
            lemma_limbs_value_bound(self.limbs@);
        }
        self.limbs.len()
    }

    /// Whether this number is zero.
    pub fn is_zero(&self) -> (r: bool)
        ensures
            r == (self@ == 0),
    {
        let z = Natural::zero();
        self.cmp_with(&z) == 0
    }
}

impl PartialEq for Natural {
    /// Equality of the values, independent of digit padding.
    fn eq(&self, other: &Natural) -> (r: bool) {
        self.cmp_with(other) == 0
    }
}

impl vstd::std_specs::cmp::PartialEqSpecImpl for Natural {
    open spec fn obeys_eq_spec() -> bool {
        true
    }

    open spec fn eq_spec(&self, other: &Natural) -> bool {
        self@ == other@
    }
}

} // verus!
