//! Number-theoretic workhorses: divisibility, greatest common divisor and
//! modular exponentiation.

use crate::natural::Natural;
use crate::NtError;
use num_bigint::RandBigInt;
use vstd::arithmetic::div_mod::{
    lemma_add_mod_noop_right, lemma_fundamental_div_mod, lemma_mod_bound,
    lemma_mod_multiples_vanish, lemma_mod_self_0, lemma_mul_mod_noop_general, lemma_small_mod,
};
use vstd::pervasive::VecAdditionalExecFns;
use vstd::arithmetic::mul::{lemma_mul_is_associative, lemma_mul_is_commutative};
use vstd::arithmetic::power::{
    lemma_pow0, lemma_pow1, lemma_pow_adds, lemma_pow_mod_noop, lemma_pow_multiplies,
    lemma_square_is_pow2, pow,
};
use vstd::prelude::*;

verus! {

/// `d` divides `n` (divisors are positive by convention).
pub open spec fn divides(d: nat, n: nat) -> bool {
    d >= 1 && n % d == 0
}

/// `g` is the greatest common divisor of `a` and `b`: a common divisor that
/// every common divisor divides.
pub open spec fn is_gcd(g: nat, a: nat, b: nat) -> bool {
    &&& divides(g, a)
    &&& divides(g, b)
    &&& forall|d: nat| divides(d, a) && divides(d, b) ==> divides(d, g)
}

/// When `d` divides `b`, replacing `a` by `a % b` changes nothing about
/// divisibility by `d`.
proof fn lemma_mod_preserves_common(a: nat, b: nat, d: nat)
    requires
        b >= 1,
        d >= 1,
        divides(d, b),
    ensures
        divides(d, a) <==> divides(d, a % b),
{
    let q = a as int / b as int;
    let r = a as int % b as int;
    lemma_fundamental_div_mod(a as int, b as int);
    assert(a as int == q * b + r);
    let e = b as int / d as int;
    lemma_fundamental_div_mod(b as int, d as int);
    assert(b as int == d * e);
    assert(q * (d * e) == d * (q * e)) by {
        lemma_mul_is_associative(q, d as int, e);
        lemma_mul_is_commutative(q, d as int);
        lemma_mul_is_associative(d as int, q, e);
    }
    lemma_mod_multiples_vanish(q * e, r, d as int);
    assert((d * (q * e) + r) % (d as int) == r % (d as int));
    assert(a as int % d as int == r % (d as int));
}

/// The [greatest common divisor](https://en.wikipedia.org/wiki/Greatest_common_divisor),
/// computed with the [Euclidean algorithm](https://en.wikipedia.org/wiki/Euclidean_algorithm).
pub trait Gcd: Sized {
    fn gcd_euclid(&self, other: &Self) -> Self;
}

impl Natural {
    /// Euclid's algorithm: replace the larger number by its remainder
    /// modulo the smaller until one of them vanishes.
    pub fn gcd(&self, other: &Natural) -> (r: Natural)
        ensures
            self@ + other@ > 0 ==> is_gcd(r@, self@, other@),
            self@ == 0 && other@ == 0 ==> r@ == 0,
    {
        let mut x = self.duplicate();
        let mut y = other.duplicate();
        while !y.is_zero()
            invariant
                forall|d: nat|
                    (divides(d, x@) && divides(d, y@)) <==> (divides(d, self@) && divides(
                        d,
                        other@,
                    )),
                self@ + other@ > 0 ==> x@ + y@ > 0,
                self@ == 0 && other@ == 0 ==> x@ == 0 && y@ == 0,
            decreases y@,
        {
            let (_, rem) = x.div_rem(&y);
            proof {
                lemma_mod_bound(x@ as int, y@ as int);
                assert forall|d: nat| divides(d, y@) implies (divides(d, x@) <==> divides(
                    d,
                    x@ % y@,
                )) by {
                    lemma_mod_preserves_common(x@, y@, d);
                }
            }
            x = y;
            y = rem;
        }
        proof {
            if self@ + other@ > 0 {
                lemma_mod_self_0(x@ as int);
                lemma_small_mod(0, x@);
                assert(divides(x@, x@) && divides(x@, y@));
            }
        }
        x
    }
}

impl Gcd for Natural {
    fn gcd_euclid(&self, other: &Natural) -> (r: Natural)
        ensures
            self@ + other@ > 0 ==> is_gcd(r@, self@, other@),
            self@ == 0 && other@ == 0 ==> r@ == 0,
    {
        self.gcd(other)
    }
}

/// Square-and-multiply modular exponentiation for a positive modulus.
pub(crate) fn mod_pow_pos(base: &Natural, e: &Natural, modulus: &Natural) -> (r: Natural)
    requires
        modulus@ >= 1,
    ensures
        r@ == pow(base@ as int, e@) % (modulus@ as int),
        r@ < modulus@,
{
    let two = Natural::from_u64(2);
    let one = Natural::from_u64(1);
    let mut exp = e.duplicate();
    let (_, mut acc) = one.div_rem(modulus);
    let (_, mut s) = base.div_rem(modulus);
    proof {
        let m = modulus@ as int;
        lemma_mod_bound(1, m);
        lemma_mod_bound(base@ as int, m);
        lemma_pow_mod_noop(base@ as int, e@, m);
        lemma_mul_mod_noop_general(1, pow(s@ as int, e@), m);
    }
    while !exp.is_zero()
        invariant
            two@ == 2,
            modulus@ >= 1,
            acc@ < modulus@,
            s@ < modulus@,
            (acc@ as int * pow(s@ as int, exp@)) % (modulus@ as int) == pow(base@ as int, e@) % (
            modulus@ as int),
        decreases exp@,
    {
        let ghost m_int = modulus@ as int;
        let (q, rem) = exp.div_rem(&two);
        let ghost a0 = acc@ as int;
        let ghost s0 = s@ as int;
        proof {
            lemma_fundamental_div_mod(exp@ as int, 2);
            lemma_mod_bound(exp@ as int, 2);
            assert(exp@ == 2 * q@ + rem@);
            assert(rem@ < 2);
            lemma_pow_adds(s0, 2 * q@, rem@);
            lemma_pow_multiplies(s0, 2, q@);
            lemma_square_is_pow2(s0);
            // pow(s, exp) == pow(s * s, q) * pow(s, rem)
            lemma_pow_mod_noop(s0 * s0, q@, m_int);
            lemma_mod_bound(s0 * s0, m_int);
            lemma_mod_bound(a0 * s0, m_int);
        }
        if rem.is_zero() == false {
            let acc_new = acc.times(&s);
            let (_, acc_red) = acc_new.div_rem(modulus);
            proof {
                lemma_pow1(s0);
                let p = pow(s0 * s0, q@);
                // ((a * s) % m) * (pow((s*s) % m, q)) % m == (a * pow(s, exp)) % m
                lemma_pow_mod_noop(s0 * s0, q@, m_int);
                lemma_mul_mod_noop_general(a0 * s0, p, m_int);
                assert((((a0 * s0) % m_int) * (p % m_int)) % m_int == ((a0 * s0) * p) % m_int);
                assert((a0 * s0) * p == a0 * (s0 * p)) by {
                    lemma_mul_is_associative(a0, s0, p);
                }
                assert(s0 * p == pow(s0, exp@)) by {
                    assert(pow(s0, exp@) == pow(s0, 2 * q@) * pow(s0, rem@));
                    assert(pow(s0, 2 * q@) == p);
                    assert(pow(s0, rem@) == s0);
                    lemma_mul_is_commutative(p, s0);
                }
            }
            acc = acc_red;
        } else {
            proof {
                lemma_pow0(s0);
                let p = pow(s0 * s0, q@);
                lemma_mul_mod_noop_general(a0, p, m_int);
                assert((a0 * (p % m_int)) % m_int == (a0 * p) % m_int);
                assert(pow(s0, exp@) == pow(s0, 2 * q@) * pow(s0, rem@));
                assert(pow(s0, exp@) == p);
            }
        }
        let s_new = s.times(&s);
        let (_, s_red) = s_new.div_rem(modulus);
        proof {
            let p = pow(s0 * s0, q@);
            lemma_mul_mod_noop_general(acc@ as int, p, m_int);
            assert((acc@ as int * (p % m_int)) % m_int == (acc@ as int * p) % m_int);
            assert(pow((s0 * s0) % m_int, q@) % m_int == p % m_int);
            lemma_mul_mod_noop_general(acc@ as int, pow((s0 * s0) % m_int, q@), m_int);
        }
        s = s_red;
        exp = q;
    }
    proof {
        lemma_pow0(s@ as int);
        lemma_small_mod(acc@, modulus@);
    }
    acc
}

/// Returns the non-negative integer below `modulus` that is congruent to
/// `base^e (mod modulus)`.  A zero modulus is rejected.
pub fn modular_pow(base: &Natural, e: &Natural, modulus: &Natural) -> (r: Result<Natural, NtError>)
    ensures
        match r {
            Ok(v) => modulus@ >= 1 && v@ == pow(base@ as int, e@) % (modulus@ as int) && v@
                < modulus@,
            Err(err) => modulus@ == 0 && err == NtError::InvalidInput,
        },
{
    if modulus.is_zero() {
        return Err(NtError::InvalidInput);
    }
    Ok(mod_pow_pos(base, e, modulus))
}

/// Relies on `rand::thread_rng` with
/// `num_bigint::RandBigInt::gen_biguint_range`, which draws a value from
/// `[low, high)` and panics on an empty range, which the precondition rules
/// out.  Nothing beyond the range is promised of the draw.
#[verifier::external_body]
pub fn generate_random_int_in_range(low: &Natural, high: &Natural) -> (r: Natural)
    requires
        low@ < high@,
    ensures
        low@ <= r@ < high@,
{
    let mut rng = rand::thread_rng();
    let lo = num_bigint::BigUint::new(low.limbs.clone());
    let hi = num_bigint::BigUint::new(high.limbs.clone());
    Natural { limbs: rng.gen_biguint_range(&lo, &hi).to_u32_digits() }
}

/// The number of binary digits of `x` (0 for 0).
pub open spec fn bit_length(x: nat) -> nat
    decreases x,
{
    if x == 0 {
        0
    } else {
        1 + bit_length(x / 2)
    }
}

/// The bit length, computed by repeated halving.
pub fn bit_length_of(x: &Natural) -> (r: Natural)
    ensures
        r@ == bit_length(x@),
{
    let one = Natural::from_u64(1);
    let two = Natural::from_u64(2);
    let mut m = x.duplicate();
    let mut c = Natural::zero();
    while !m.is_zero()
        invariant
            one@ == 1,
            two@ == 2,
            c@ + bit_length(m@) == bit_length(x@),
        decreases m@,
    {
        let (q, _) = m.div_rem(&two);
        m = q;
        c = c.plus(&one);
    }
    c
}

/// The integer square root, defined by counting up.
pub open spec fn nat_sqrt(x: nat) -> nat
    decreases x,
{
    if x == 0 {
        0
    } else if (nat_sqrt((x - 1) as nat) + 1) * (nat_sqrt((x - 1) as nat) + 1) <= x {
        nat_sqrt((x - 1) as nat) + 1
    } else {
        nat_sqrt((x - 1) as nat)
    }
}

/// `nat_sqrt` really is the truncated square root.
pub proof fn lemma_nat_sqrt(x: nat)
    ensures
        nat_sqrt(x) * nat_sqrt(x) <= x,
        x < (nat_sqrt(x) + 1) * (nat_sqrt(x) + 1),
    decreases x,
{
    if x > 0 {
        lemma_nat_sqrt((x - 1) as nat);
        let s = nat_sqrt((x - 1) as nat);
        if (s + 1) * (s + 1) <= x {
            assert(nat_sqrt(x) == s + 1);
            assert(x < (s + 2) * (s + 2)) by (nonlinear_arith)
                requires
                    ((x - 1) as nat) < (s + 1) * (s + 1),
                    (s + 1) * (s + 1) <= x,
            {}
            assert((nat_sqrt(x) + 1) * (nat_sqrt(x) + 1) == (s + 2) * (s + 2));
        } else {
            assert(nat_sqrt(x) == s);
            assert(s * s <= x);
            assert(x < (s + 1) * (s + 1));
        }
    } else {
        assert(nat_sqrt(0) == 0);
        assert((nat_sqrt(x) + 1) * (nat_sqrt(x) + 1) == 1) by (nonlinear_arith)
            requires
                nat_sqrt(x) == 0,
        {}
    }
}

/// The integer square root of a `Natural`, pinned to [`nat_sqrt`].
pub fn sqrt_exact(x: &Natural) -> (r: Natural)
    ensures
        r@ == nat_sqrt(x@),
{
    let s = x.sqrt_floor();
    proof {
        lemma_nat_sqrt(x@);
        assert(s@ == nat_sqrt(x@)) by (nonlinear_arith)
            requires
                s@ * s@ <= x@,
                x@ < (s@ + 1) * (s@ + 1),
                nat_sqrt(x@) * nat_sqrt(x@) <= x@,
                x@ < (nat_sqrt(x@) + 1) * (nat_sqrt(x@) + 1),
        {}
    }
    s
}

/// The values of a coefficient vector.
pub open spec fn views_of(s: Seq<Natural>) -> Seq<nat> {
    s.map_values(|x: Natural| x@)
}

/// The length of a cyclic product: full convolution length, capped at `r`.
pub open spec fn pmul_len(al: nat, bl: nat, r: nat) -> nat {
    if al + bl - 1 <= r {
        (al + bl - 1) as nat
    } else {
        r
    }
}

/// The contributions of row `i` (columns below `jmax`) to coefficient `k`
/// of the cyclic convolution: `a[i]·b[j]` lands on slot `(i+j) mod r`.
pub open spec fn row_sum(a: Seq<nat>, b: Seq<nat>, r: nat, k: nat, i: nat, jmax: nat) -> nat
    decreases jmax,
{
    if jmax == 0 {
        0
    } else {
        row_sum(a, b, r, k, i, (jmax - 1) as nat) + if (i + jmax - 1) as nat % r == k {
            a[i as int] * b[jmax - 1]
        } else {
            0
        }
    }
}

/// The contributions of every row below `imax` to coefficient `k`.
pub open spec fn conv_sum(a: Seq<nat>, b: Seq<nat>, r: nat, k: nat, imax: nat) -> nat
    decreases imax,
{
    if imax == 0 {
        0
    } else {
        conv_sum(a, b, r, k, (imax - 1) as nat) + row_sum(a, b, r, k, (imax - 1) as nat, b.len())
    }
}

/// The product of two polynomials in ℤ_n[x]/(x^r − 1): exponents wrap
/// around modulo `r`, coefficients are reduced modulo `n`.
pub open spec fn poly_mul_spec(a: Seq<nat>, b: Seq<nat>, n: nat, r: nat) -> Seq<nat> {
    Seq::new(pmul_len(a.len(), b.len(), r) as nat, |k: int| conv_sum(a, b, r, k as nat, a.len()) % n)
}

/// Multiplies two coefficient vectors in ℤ_n[x]/(x^r − 1).
pub fn polynomial_mul(a: &Vec<Natural>, b: &Vec<Natural>, n: &Natural, r: &Natural) -> (out: Vec<
    Natural,
>)
    requires
        n@ >= 1,
        r@ >= 1,
        1 <= a@.len() <= r@,
        1 <= b@.len() <= r@,
        a@.len() + b@.len() <= usize::MAX,
    ensures
        views_of(out@) == poly_mul_spec(views_of(a@), views_of(b@), n@, r@),
        out@.len() == pmul_len(a@.len(), b@.len(), r@),
        forall|k: int| 0 <= k < out@.len() ==> (#[trigger] out@[k])@ < n@,
{
    let ghost av = views_of(a@);
    let ghost bv = views_of(b@);
    let lsum = a.len() + b.len() - 1;
    let lsum_nat = Natural::from_u64(lsum as u64);
    let wrap = r.lt(&lsum_nat);
    let olen: usize = if wrap {
        match r.to_u64() {
            Some(v) => v as usize,
            None => {
                proof {
                    assert(false);
                }
                0
            },
        }
    } else {
        lsum
    };
    proof {
        assert(olen as nat == pmul_len(av.len(), bv.len(), r@));
    }
    let mut out: Vec<Natural> = Vec::new();
    while out.len() < olen
        invariant
            out@.len() <= olen,
            forall|k: int| 0 <= k < out@.len() ==> (#[trigger] out@[k])@ == 0,
        decreases olen - out@.len(),
    {
        out.push(Natural::zero());
    }
    let mut i: usize = 0;
    proof {
        assert forall|k: int| 0 <= k < out@.len() implies (#[trigger] out@[k])@ == conv_sum(
            av,
            bv,
            r@,
            k as nat,
            0,
        ) % n@ by {
            vstd::arithmetic::div_mod::lemma_small_mod(0, n@);
        }
    }
    while i < a.len()
        invariant
            n@ >= 1,
            r@ >= 1,
            1 <= a@.len() <= r@,
            1 <= b@.len() <= r@,
            a@.len() + b@.len() <= usize::MAX,
            av == views_of(a@),
            bv == views_of(b@),
            i <= a@.len(),
            out@.len() == pmul_len(av.len(), bv.len(), r@),
            out@.len() == olen,
            olen >= 1,
            (olen as nat == r@) || (olen == a@.len() + b@.len() - 1 && olen as nat <= r@),
            forall|k: int|
                0 <= k < out@.len() ==> (#[trigger] out@[k])@ == conv_sum(av, bv, r@, k as nat, i as nat)
                    % n@,
        decreases a@.len() - i,
    {
        let mut j: usize = 0;
        while j < b.len()
            invariant
                n@ >= 1,
                r@ >= 1,
                1 <= a@.len() <= r@,
                1 <= b@.len() <= r@,
                a@.len() + b@.len() <= usize::MAX,
                av == views_of(a@),
                bv == views_of(b@),
                i < a@.len(),
                j <= b@.len(),
                out@.len() == olen,
                olen >= 1,
                (olen as nat == r@) || (olen == a@.len() + b@.len() - 1 && olen as nat <= r@),
                forall|k: int|
                    0 <= k < out@.len() ==> (#[trigger] out@[k])@ == (conv_sum(
                        av,
                        bv,
                        r@,
                        k as nat,
                        i as nat,
                    ) + row_sum(av, bv, r@, k as nat, i as nat, j as nat)) % n@,
            decreases b@.len() - j,
        {
            let idx = (i + j) % olen;
            proof {
                assert(idx as nat == (i + j) as nat % r@) by {
                    if olen as nat == r@ {
                    } else {
                        vstd::arithmetic::div_mod::lemma_small_mod((i + j) as nat, olen as nat);
                        vstd::arithmetic::div_mod::lemma_small_mod((i + j) as nat, r@);
                    }
                }
            }
            let prod = a[i].times(&b[j]);
            let sum = out[idx].plus(&prod);
            let (_, red) = sum.div_rem(n);
            let ghost out_old = out@;
            out.set(idx, red);
            proof {
                let k0 = idx as nat;
                let c = conv_sum(av, bv, r@, k0, i as nat);
                let rs = row_sum(av, bv, r@, k0, i as nat, j as nat);
                let p = av[i as int] * bv[j as int];
                assert(prod@ == p);
                lemma_add_mod_noop_right(p as int, (c + rs) as int, n@ as int);
                assert(red@ == (c + row_sum(av, bv, r@, k0, i as nat, (j + 1) as nat)) % n@);
                assert forall|k: int| 0 <= k < out@.len() implies (#[trigger] out@[k])@ == (
                conv_sum(av, bv, r@, k as nat, i as nat) + row_sum(
                    av,
                    bv,
                    r@,
                    k as nat,
                    i as nat,
                    (j + 1) as nat,
                )) % n@ by {
                    if k != idx {
                        assert(out@[k] == out_old[k]);
                        assert((i + j) as nat % r@ != k as nat);
                        assert(row_sum(av, bv, r@, k as nat, i as nat, (j + 1) as nat) == row_sum(
                            av,
                            bv,
                            r@,
                            k as nat,
                            i as nat,
                            j as nat,
                        ));
                    }
                }
            }
            j = j + 1;
        }
        i = i + 1;
        proof {
            assert forall|k: int| 0 <= k < out@.len() implies (#[trigger] out@[k])@ == conv_sum(
                av,
                bv,
                r@,
                k as nat,
                i as nat,
            ) % n@ by {
                assert(conv_sum(av, bv, r@, k as nat, i as nat) == conv_sum(
                    av,
                    bv,
                    r@,
                    k as nat,
                    (i - 1) as nat,
                ) + row_sum(av, bv, r@, k as nat, (i - 1) as nat, bv.len()));
            }
        }
    }
    proof {
        assert(views_of(out@) =~= poly_mul_spec(av, bv, n@, r@));
        assert forall|k: int| 0 <= k < out@.len() implies (#[trigger] out@[k])@ < n@ by {
            vstd::arithmetic::div_mod::lemma_mod_bound(
                conv_sum(av, bv, r@, k as nat, a@.len()) as int,
                n@ as int,
            );
        }
    }
    out
}

/// The constant polynomial 1, padded to `l` coefficients.
pub open spec fn one_poly(l: nat) -> Seq<nat> {
    Seq::new(
        l,
        |i: int|
            if i == 0 {
                1nat
            } else {
                0nat
            },
    )
}

/// Binary exponentiation in ℤ_n[x]/(x^r − 1): at every set bit of the
/// exponent the accumulator takes a factor of the running square of the
/// base.
pub open spec fn poly_pow_spec(acc: Seq<nat>, b: Seq<nat>, e: nat, n: nat, r: nat) -> Seq<nat>
    decreases e,
{
    if e == 0 {
        acc
    } else if e % 2 == 1 {
        poly_pow_spec(poly_mul_spec(acc, b, n, r), poly_mul_spec(b, b, n, r), e / 2, n, r)
    } else {
        poly_pow_spec(acc, poly_mul_spec(b, b, n, r), e / 2, n, r)
    }
}

/// `x - y`, taken modulo `n`.
pub open spec fn sub_mod(x: nat, y: nat, n: nat) -> nat
    recommends
        n >= 1,
{
    (((x + n) - (y % n)) as nat) % n
}

/// `p` with `amt` subtracted (modulo `n`) from the coefficient at `idx`,
/// when that coefficient exists.
pub open spec fn dec_at(p: Seq<nat>, idx: int, amt: nat, n: nat) -> Seq<nat> {
    if 0 <= idx < p.len() {
        p.update(idx, sub_mod(p[idx], amt, n))
    } else {
        p
    }
}

/// What [`fastpoly`] computes: `base` raised to `e` in ℤ_n[x]/(x^r − 1),
/// minus the polynomial `x^(e mod r) + base[0]`.
pub open spec fn fastpoly_spec(b: Seq<nat>, e: nat, n: nat, r: nat) -> Seq<nat>
    recommends
        n >= 1,
        r >= 1,
{
    dec_at(dec_at(poly_pow_spec(one_poly(b.len()), b, e, n, r), 0, b[0], n), (e % r) as int, 1, n)
}

/// `x - y` modulo `n`, on `Natural`s.
pub fn sub_mod_exec(x: &Natural, y: &Natural, n: &Natural) -> (r: Natural)
    requires
        n@ >= 1,
    ensures
        r@ == sub_mod(x@, y@, n@),
{
    let (_, ym) = y.div_rem(n);
    proof {
        lemma_mod_bound(y@ as int, n@ as int);
    }
    let s = x.plus(n).minus(&ym);
    let (_, red) = s.div_rem(n);
    red
}

/// Raises the polynomial `base` to the power `power` in the quotient ring
/// ℤ_power[x]/(x^r − 1) by repeated squaring, then subtracts the
/// polynomial `x^(power mod r) + base[0]`.  A zero result therefore checks
/// the AKS congruence `(x + a)^n ≡ x^n + a`.
pub fn fastpoly(base: &Vec<Natural>, power: &Natural, r: &Natural) -> (out: Vec<Natural>)
    requires
        power@ >= 1,
        r@ >= 2,
        1 <= base@.len() <= r@,
        r@ <= usize::MAX / 2,
    ensures
        views_of(out@) == fastpoly_spec(views_of(base@), power@, power@, r@),
{
    let one = Natural::from_u64(1);
    let two = Natural::from_u64(2);
    let mut x: Vec<Natural> = Vec::new();
    x.push(Natural::from_u64(1));
    while x.len() < base.len()
        invariant
            1 <= x@.len(),
            x@.len() <= base@.len(),
            forall|k: int|
                0 <= k < x@.len() ==> (#[trigger] x@[k])@ == (if k == 0 {
                    1nat
                } else {
                    0nat
                }),
        decreases base@.len() - x@.len(),
    {
        x.push(Natural::zero());
    }
    proof {
        assert(views_of(x@) =~= one_poly(base@.len()));
    }
    let mut b: Vec<Natural> = Vec::new();
    let mut ci: usize = 0;
    while ci < base.len()
        invariant
            ci <= base@.len(),
            b@.len() == ci,
            forall|k: int| 0 <= k < ci ==> (#[trigger] b@[k])@ == base@[k]@,
        decreases base@.len() - ci,
    {
        b.push(base[ci].duplicate());
        ci = ci + 1;
    }
    proof {
        assert(views_of(b@) =~= views_of(base@));
    }
    let mut e = power.duplicate();
    while !e.is_zero()
        invariant
            power@ >= 1,
            r@ >= 2,
            r@ <= usize::MAX / 2,
            two@ == 2,
            1 <= x@.len() <= r@,
            1 <= b@.len() <= r@,
            poly_pow_spec(views_of(x@), views_of(b@), e@, power@, r@) == poly_pow_spec(
                one_poly(base@.len()),
                views_of(base@),
                power@,
                power@,
                r@,
            ),
        decreases e@,
    {
        let (q, rem) = e.div_rem(&two);
        proof {
            lemma_fundamental_div_mod(e@ as int, 2);
            lemma_mod_bound(e@ as int, 2);
        }
        if !rem.is_zero() {
            let xn = polynomial_mul(&x, &b, power, r);
            x = xn;
        }
        let bn = polynomial_mul(&b, &b, power, r);
        b = bn;
        e = q;
    }
    let a0 = &base[0];
    let x0 = sub_mod_exec(&x[0], a0, power);
    let ghost before0 = x@;
    x.set(0, x0);
    proof {
        assert(views_of(x@) =~= dec_at(views_of(before0), 0, base@[0]@, power@));
    }
    let (_, idx_nat) = power.div_rem(r);
    proof {
        lemma_mod_bound(power@ as int, r@ as int);
    }
    let idx: usize = match idx_nat.to_u64() {
        Some(v) => v as usize,
        None => {
            proof {
                assert(false);
            }
            0
        },
    };
    if idx < x.len() {
        let xi = sub_mod_exec(&x[idx], &one, power);
        let ghost before1 = x@;
        x.set(idx, xi);
        proof {
            assert(views_of(x@) =~= dec_at(views_of(before1), idx as int, 1, power@));
        }
    } else {
        proof {
            assert(views_of(x@) =~= dec_at(views_of(x@), idx as int, 1, power@));
        }
    }
    x
}

/// For every exponent `k` between 1 and `s`, `n^k mod r` avoids 0 and 1 —
/// that is, the multiplicative order of `n` modulo `r` exceeds `s` (and no
/// power collapses onto 0).
pub open spec fn order_cond(n: nat, r: nat, s: nat) -> bool {
    forall|k: nat|
        1 <= k <= s ==> (#[trigger] pow(n as int, k)) % (r as int) != 0 && pow(n as int, k) % (
        r as int) != 1
}

/// Whether [`order_cond`] holds, by testing every exponent in turn.
fn order_exceeds(n: &Natural, r: &Natural, s: &Natural) -> (b: bool)
    requires
        r@ >= 1,
    ensures
        b == order_cond(n@, r@, s@),
{
    let one = Natural::from_u64(1);
    let mut k = Natural::from_u64(1);
    while k.le(s)
        invariant
            r@ >= 1,
            one@ == 1,
            k@ >= 1,
            forall|kk: nat|
                1 <= kk < k@ ==> (#[trigger] pow(n@ as int, kk)) % (r@ as int) != 0 && pow(
                    n@ as int,
                    kk,
                ) % (r@ as int) != 1,
        decreases s@ + 1 - k@,
    {
        let p = mod_pow_pos(n, &k, r);
        if p.is_zero() {
            return false;
        }
        if p.cmp_with(&one) == 0 {
            return false;
        }
        k = k.plus(&one);
    }
    true
}

/// The AKS order bound: the square of the bit length of `n`.
pub open spec fn aks_s(n: nat) -> nat {
    bit_length(n) * bit_length(n)
}

/// The cap on the search for the AKS parameter `r`.  The known bounds on
/// that parameter lie far below this; the cap only makes the search
/// provably finite.
pub open spec fn aks_r_cap(n: nat) -> nat {
    n + bit_length(n) * bit_length(n) * bit_length(n) * bit_length(n) * bit_length(n) + 100
}

/// The smallest `r` in `[start, cap]` satisfying [`order_cond`] for
/// exponent bound [`aks_s`], or 0 when none does.
pub open spec fn first_good_r(n: nat, start: nat, cap: nat) -> nat
    decreases cap + 1 - start,
{
    if start > cap {
        0
    } else if order_cond(n, start, aks_s(n)) {
        start
    } else {
        first_good_r(n, start + 1, cap)
    }
}

/// Finds the smallest modulus `r ≥ 2` for which the multiplicative order
/// of `n` exceeds the square of the bit length of `n`.  The search stops
/// at [`aks_r_cap`]; an exhausted search (which no genuine input reaches)
/// is reported rather than looped on.
pub fn findr(n: &Natural) -> (res: Result<Natural, NtError>)
    ensures
        match res {
            Ok(r) => {
                &&& r@ >= 2
                &&& r@ == first_good_r(n@, 2, aks_r_cap(n@))
                &&& order_cond(n@, r@, aks_s(n@))
            },
            Err(e) => {
                &&& e == NtError::SearchExhausted
                &&& first_good_r(n@, 2, aks_r_cap(n@)) == 0
            },
        },
{
    let one = Natural::from_u64(1);
    let bl = bit_length_of(n);
    let s = bl.times(&bl);
    let l5 = bl.times(&bl).times(&bl).times(&bl).times(&bl);
    let cap = n.plus(&l5).plus(&Natural::from_u64(100));
    let mut r = Natural::from_u64(2);
    while r.le(&cap)
        invariant
            one@ == 1,
            s@ == aks_s(n@),
            cap@ == aks_r_cap(n@),
            r@ >= 2,
            first_good_r(n@, 2, cap@) == first_good_r(n@, r@, cap@),
        decreases cap@ + 1 - r@,
    {
        if order_exceeds(n, &r, &s) {
            return Ok(r);
        }
        r = r.plus(&one);
    }
    Err(NtError::SearchExhausted)
}

} // verus!
