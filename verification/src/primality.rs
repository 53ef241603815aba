//! Primality tests: trial division (sequential and data-parallel),
//! Miller-Rabin, and the AKS deterministic test.

use crate::display::{format_miller_rabin_steps_print, mr_message, sup_text, MillerRabinTable};
use crate::groups_modulo_n::{coprime, coprime_count};
use crate::natural::{dec_of, Natural};
use crate::prime_factors::{pow_nat, valid_factor_seq};
use crate::utils::{
    aks_r_cap, bit_length, bit_length_of, fastpoly, fastpoly_spec, findr, first_good_r,
    generate_random_int_in_range, is_gcd, mod_pow_pos, nat_sqrt, sqrt_exact, views_of,
};
use crate::NtError;
use rayon::iter::{ParallelBridge, ParallelIterator};
use vstd::arithmetic::div_mod::{
    lemma_fundamental_div_mod, lemma_mod_mod, lemma_mod_multiples_basic,
    lemma_mul_mod_noop_general, lemma_small_mod,
};
use vstd::arithmetic::mul::{lemma_mul_is_associative, lemma_mul_is_commutative};
use vstd::arithmetic::power::{
    lemma_pow0, lemma_pow1, lemma_pow_adds, lemma_pow_increases, lemma_pow_positive,
    lemma_pow_strictly_increases, pow,
};
use vstd::arithmetic::power2::{
    lemma_pow2_adds, lemma_pow2_pos, lemma_pow2_strictly_increases, lemma_pow2_unfold, pow2,
};
use vstd::prelude::*;

verus! {

/// Primality of a natural number: at least 2, and no number strictly
/// between 1 and itself divides it.
pub open spec fn is_prime(n: nat) -> bool {
    n >= 2 && forall|d: nat| 2 <= d < n ==> #[trigger] (n % d) != 0
}

/// Divisibility carries down through a divisor: if `a` divides `b` and `b`
/// divides `n`, then `a` divides `n`.
pub proof fn lemma_divides_transitive(a: nat, b: nat, n: nat)
    requires
        a >= 1,
        b >= 1,
        b % a == 0,
        n % b == 0,
    ensures
        n % a == 0,
{
    let k = b as int / a as int;
    lemma_fundamental_div_mod(b as int, a as int);
    let m = n as int / b as int;
    lemma_fundamental_div_mod(n as int, b as int);
    assert(n as int == (a as int * k) * m);
    assert((a as int * k) * m == (k * m) * a as int) by {
        lemma_mul_is_associative(a as int, k, m);
        lemma_mul_is_associative(k, m, a as int);
        lemma_mul_is_associative(k, a as int, m);
    }
    lemma_mod_multiples_basic(k * m, a as int);
}

/// A composite number has a divisor no larger than its square root: any
/// nontrivial divisor can be traded for its cofactor, and one of the two is
/// small.
pub proof fn lemma_small_divisor_exists(n: nat, d: nat)
    requires
        2 <= d < n,
        n % d == 0,
    ensures
        exists|e: nat| 2 <= e && #[trigger] (e * e) <= n && n % e == 0,
{
    let q = (n / d) as nat;
    lemma_fundamental_div_mod(n as int, d as int);
    assert(n == d * q);
    assert(q >= 2) by (nonlinear_arith)
        requires
            n == d * q,
            2 <= d < n,
    {}
    assert(n % q == 0) by {
        lemma_mod_multiples_basic(d as int, q as int);
    }
    if d * d <= n {
        assert(2 <= d && d * d <= n && n % d == 0);
    } else {
        assert(q * q <= n) by (nonlinear_arith)
            requires
                n == d * q,
                d * d > n,
                d >= 2,
                q >= 2,
        {}
        assert(2 <= q && q * q <= n && n % q == 0);
    }
}

/// Trial division: tests candidate divisors of the form 6k±1 up to one past
/// the integer square root, after handling 2 and 3 specially.
pub fn is_prime_trial_division(n: &Natural) -> (r: bool)
    ensures
        r == is_prime(n@),
{
    let one = Natural::from_u64(1);
    let two = Natural::from_u64(2);
    let three = Natural::from_u64(3);
    if n.le(&three) {
        proof {
            if n@ == 2 || n@ == 3 {
                assert forall|d: nat| 2 <= d < n@ implies #[trigger] (n@ % d) != 0 by {
                    assert(d == 2 && n@ == 3);
                }
            }
        }
        return one.lt(n);
    }
    let (_, r2) = n.div_rem(&two);
    if r2.is_zero() {
        proof {
            assert(2 <= 2 < n@ && n@ % 2 == 0);
        }
        return false;
    }
    let (_, r3) = n.div_rem(&three);
    if r3.is_zero() {
        proof {
            assert(2 <= 3 < n@ && n@ % 3 == 0);
        }
        return false;
    }
    let sqrt = n.sqrt_floor();
    let bound = sqrt.plus(&one);
    let six = Natural::from_u64(6);
    let mut i = Natural::from_u64(5);
    proof {
        assert forall|d: nat| 2 <= d < 5 implies #[trigger] (n@ % d) != 0 by {
            if d == 4 && n@ % d == 0 {
                lemma_divides_transitive(2, 4, n@);
            }
        }
    }
    while i.le(&bound)
        invariant
            n@ >= 4,
            n@ % 2 != 0,
            n@ % 3 != 0,
            two@ == 2,
            six@ == 6,
            i@ % 6 == 5,
            i@ >= 5,
            sqrt@ * sqrt@ <= n@,
            n@ < (sqrt@ + 1) * (sqrt@ + 1),
            bound@ == sqrt@ + 1,
            forall|d: nat| 2 <= d < i@ ==> #[trigger] (n@ % d) != 0,
        decreases bound@ + 6 - i@,
    {
        proof {
            assert(i@ < n@ && i@ + 2 < n@) by (nonlinear_arith)
                requires
                    i@ <= sqrt@ + 1,
                    i@ >= 5,
                    sqrt@ * sqrt@ <= n@,
            {}
        }
        let (_, ri) = n.div_rem(&i);
        if ri.is_zero() {
            proof {
                assert(2 <= i@ < n@ && n@ % i@ == 0);
            }
            return false;
        }
        let i2 = i.plus(&two);
        let (_, ri2) = n.div_rem(&i2);
        if ri2.is_zero() {
            proof {
                assert(2 <= i2@ < n@ && n@ % i2@ == 0);
            }
            return false;
        }
        proof {
            lemma_mod_mod(i@ as int, 2, 3);
            lemma_mod_mod(i@ as int, 3, 2);
            assert(i@ % 2 == 1 && i@ % 3 == 2);
            assert forall|d: nat| 2 <= d < i@ + 6 implies #[trigger] (n@ % d) != 0 by {
                if d >= i@ && d != i@ && d != i@ + 2 {
                    if d == i@ + 4 {
                        assert(d % 3 == 0);
                        if n@ % d == 0 {
                            lemma_divides_transitive(3, d, n@);
                        }
                    } else {
                        assert(d % 2 == 0);
                        if n@ % d == 0 {
                            lemma_divides_transitive(2, d, n@);
                        }
                    }
                }
            }
        }
        i = i.plus(&six);
    }
    proof {
        if !is_prime(n@) {
            let d = choose|d: nat| 2 <= d < n@ && #[trigger] (n@ % d) == 0;
            lemma_small_divisor_exists(n@, d);
            let e = choose|e: nat| 2 <= e && #[trigger] (e * e) <= n@ && n@ % e == 0;
            assert(e <= sqrt@) by (nonlinear_arith)
                requires
                    e * e <= n@,
                    n@ < (sqrt@ + 1) * (sqrt@ + 1),
                    e >= 2,
            {}
            assert(e < i@ && n@ % e == 0);
        }
    }
    true
}

/// Whether `d` is at least 1 and divides `n`.
pub fn divides_value(n: &Natural, d: &Natural) -> (r: bool)
    ensures
        r == (d@ >= 1 && n@ % d@ == 0),
{
    if d.is_zero() {
        false
    } else {
        let (_, rem) = n.div_rem(d);
        rem.is_zero()
    }
}

/// Relies on `num_iter::range_inclusive` to enumerate every integer from
/// `lo` to `hi`, and on rayon's `ParallelBridge` with
/// `ParallelIterator::any`, which reports whether the predicate holds of
/// some element of the iterator.  The predicate only calls the verified
/// divisibility test [`divides_value`].
#[verifier::external_body]
fn any_divisor_in_range(n: &Natural, lo: &Natural, hi: &Natural) -> (r: bool)
    requires
        lo@ >= 1,
    ensures
        r == (exists|d: nat| lo@ <= d <= hi@ && #[trigger] (n@ % d) == 0),
{
    let a = num_bigint::BigUint::new(lo.limbs.clone());
    let b = num_bigint::BigUint::new(hi.limbs.clone());
    num_iter::range_inclusive(a, b).par_bridge().any(
        |d| divides_value(n, &Natural { limbs: d.to_u32_digits() }),
    )
}

/// Trial division with the divisor search in [5, √n + 1] fanned out over a
/// thread pool.  The verdict agrees with [`is_prime_trial_division`] on
/// every input; only the order of the divisor probes differs.
pub fn is_prime_trial_division_parallel(n: &Natural) -> (r: bool)
    ensures
        r == is_prime(n@),
{
    let one = Natural::from_u64(1);
    let two = Natural::from_u64(2);
    let three = Natural::from_u64(3);
    if n.le(&three) {
        proof {
            if n@ == 2 || n@ == 3 {
                assert forall|d: nat| 2 <= d < n@ implies #[trigger] (n@ % d) != 0 by {
                    assert(d == 2 && n@ == 3);
                }
            }
        }
        return one.lt(n);
    }
    let (_, r2) = n.div_rem(&two);
    if r2.is_zero() {
        proof {
            assert(2 <= 2 < n@ && n@ % 2 == 0);
        }
        return false;
    }
    let (_, r3) = n.div_rem(&three);
    if r3.is_zero() {
        proof {
            assert(2 <= 3 < n@ && n@ % 3 == 0);
        }
        return false;
    }
    let sqrt = n.sqrt_floor();
    let bound = sqrt.plus(&one);
    let five = Natural::from_u64(5);
    let found = any_divisor_in_range(n, &five, &bound);
    if found {
        proof {
            let d = choose|d: nat| 5 <= d <= bound@ && #[trigger] (n@ % d) == 0;
            assert(d < n@) by (nonlinear_arith)
                requires
                    5 <= d <= sqrt@ + 1,
                    sqrt@ * sqrt@ <= n@,
            {}
            assert(2 <= d < n@ && n@ % d == 0);
        }
        false
    } else {
        proof {
            assert forall|d: nat| 2 <= d <= bound@ implies #[trigger] (n@ % d) != 0 by {
                if d == 4 && n@ % d == 0 {
                    lemma_divides_transitive(2, 4, n@);
                }
            }
            if !is_prime(n@) {
                let d = choose|d: nat| 2 <= d < n@ && #[trigger] (n@ % d) == 0;
                lemma_small_divisor_exists(n@, d);
                let e = choose|e: nat| 2 <= e && #[trigger] (e * e) <= n@ && n@ % e == 0;
                assert(e <= sqrt@) by (nonlinear_arith)
                    requires
                        e * e <= n@,
                        n@ < (sqrt@ + 1) * (sqrt@ + 1),
                        e >= 2,
                {}
                assert(e <= bound@ && n@ % e == 0);
            }
        }
        true
    }
}

/// The smallest prime at or after `n` (or 2 when `n` is below 2), searched
/// with the parallel trial-division test.  The search is capped at `2n + 2`
/// so that it provably ends; by Bertrand's postulate the cap is never
/// reached.
pub fn next_prime(n: &Natural) -> (r: Result<Natural, NtError>)
    ensures
        match r {
            Ok(p) => {
                &&& is_prime(p@)
                &&& n@ <= 2 ==> p@ == 2
                &&& n@ >= 3 ==> p@ >= n@ && (forall|q: nat|
                    n@ <= q < p@ ==> !is_prime(q))
            },
            Err(e) => {
                &&& e == NtError::SearchExhausted
                &&& n@ >= 3
                &&& forall|q: nat| n@ <= q < 2 * n@ + 2 ==> !is_prime(q)
            },
        },
{
    let one = Natural::from_u64(1);
    let two = Natural::from_u64(2);
    if n.le(&two) {
        return Ok(two);
    }
    let mut m = n.duplicate();
    let (_, rm2) = m.div_rem(&two);
    if rm2.is_zero() {
        proof {
            assert(2 <= 2 < n@ && n@ % 2 == 0);
        }
        m = m.plus(&one);
    }
    let cap = n.times(&two).plus(&two);
    while m.lt(&cap)
        invariant
            two@ == 2,
            n@ >= 3,
            cap@ == 2 * n@ + 2,
            n@ <= m@,
            m@ % 2 == 1,
            forall|q: nat| n@ <= q < m@ ==> !is_prime(q),
        decreases cap@ + 2 - m@,
    {
        if is_prime_trial_division_parallel(&m) {
            return Ok(m);
        }
        proof {
            assert forall|q: nat| n@ <= q < m@ + 2 implies !is_prime(q) by {
                if q == m@ + 1 {
                    assert(q % 2 == 0 && q >= 4);
                    assert(2 <= 2 < q && q % 2 == 0);
                }
            }
        }
        m = m.plus(&two);
    }
    Err(NtError::SearchExhausted)
}

/// The odd part of `x`: what remains after halving away every factor 2.
pub open spec fn odd_part(x: nat) -> nat
    decreases x,
{
    if x == 0 || x % 2 == 1 {
        x
    } else {
        odd_part(x / 2)
    }
}

/// The exponent of 2 in `x`: how many times `x` halves evenly.
pub open spec fn two_adic_valuation(x: nat) -> nat
    decreases x,
{
    if x == 0 || x % 2 == 1 {
        0
    } else {
        1 + two_adic_valuation(x / 2)
    }
}

/// `x` splits into its odd part times the matching power of two.
pub proof fn lemma_odd_part_decomposition(x: nat)
    requires
        x >= 1,
    ensures
        odd_part(x) % 2 == 1,
        odd_part(x) >= 1,
        x == odd_part(x) * pow2(two_adic_valuation(x)),
    decreases x,
{
    if x % 2 == 1 {
        lemma_pow0(2);
        assert(pow2(0) == 1);
        assert(two_adic_valuation(x) == 0);
        assert(odd_part(x) == x);
        assert(x * 1 == x);
    } else {
        lemma_fundamental_div_mod(x as int, 2);
        lemma_odd_part_decomposition(x / 2);
        let m = odd_part(x / 2);
        let v = two_adic_valuation(x / 2);
        lemma_pow2_unfold(v + 1);
        assert(x == 2 * (m * pow2(v)));
        assert(2 * (m * pow2(v)) == m * (2 * pow2(v))) by {
            lemma_mul_is_associative(2, m as int, pow2(v) as int);
            lemma_mul_is_commutative(2, m as int);
            lemma_mul_is_associative(m as int, 2, pow2(v) as int);
        }
    }
}

/// Once a power of `b` is congruent to 1, every repeated squaring of it
/// stays congruent to 1.
pub proof fn lemma_pow_one_stays(b: int, e: nat, t: nat, nn: int)
    requires
        nn >= 2,
        pow(b, e) % nn == 1,
    ensures
        pow(b, e * pow2(t)) % nn == 1,
    decreases t,
{
    if t == 0 {
        lemma_pow0(2);
        assert(pow2(0) == 1);
        assert(e * 1 == e);
    } else {
        lemma_pow_one_stays(b, e, (t - 1) as nat, nn);
        let ep = e * pow2((t - 1) as nat);
        lemma_pow2_unfold(t);
        assert(e * pow2(t) == ep + ep) by (nonlinear_arith)
            requires
                pow2(t) == 2 * pow2((t - 1) as nat),
                ep == e * pow2((t - 1) as nat),
        {}
        lemma_pow_adds(b, ep, ep);
        lemma_mul_mod_noop_general(pow(b, ep), pow(b, ep), nn);
        lemma_small_mod(1, nn as nat);
    }
}

/// Squaring a residue of `pow(aa, e)` gives the residue of `pow(aa, 2e)`.
proof fn lemma_square_step(aa: int, e: nat, nn: int, x: int)
    requires
        nn >= 1,
        x == pow(aa, e) % nn,
    ensures
        (x * x) % nn == pow(aa, 2 * e) % nn,
{
    lemma_pow_adds(aa, e, e);
    lemma_mul_mod_noop_general(pow(aa, e), pow(aa, e), nn);
}

/// One Miller-Rabin round, as a function of the base `a`: with
/// `n - 1 = m·2^s` (m odd), the base fails to witness compositeness iff
/// `a^m ≡ ±1 (mod n)`, or some of the first `s - 1` squarings of `a^m` is
/// congruent to -1.
pub open spec fn mr_round_passes(n: nat, a: nat) -> bool
    recommends
        n >= 2,
{
    let m = odd_part((n - 1) as nat);
    let s = two_adic_valuation((n - 1) as nat);
    ||| pow(a as int, m) % (n as int) == 1
    ||| pow(a as int, m) % (n as int) == n - 1
    ||| exists|k: nat|
        1 <= k < s && #[trigger] pow(a as int, m * pow2(k)) % (n as int) == n - 1
}

/// The odd part of `x`, computed by repeated halving.
fn odd_part_of(x: &Natural) -> (r: Natural)
    requires
        x@ >= 1,
    ensures
        r@ == odd_part(x@),
{
    let two = Natural::from_u64(2);
    let mut m = x.duplicate();
    loop
        invariant
            two@ == 2,
            m@ >= 1,
            odd_part(m@) == odd_part(x@),
        ensures
            m@ >= 1,
            m@ % 2 == 1,
            odd_part(m@) == odd_part(x@),
        decreases m@,
    {
        let (q, rem) = m.div_rem(&two);
        if !rem.is_zero() {
            break ;
        }
        proof {
            lemma_fundamental_div_mod(m@ as int, 2);
        }
        m = q;
    }
    proof {
        assert(odd_part(m@) == m@);
    }
    m
}

/// Runs one Miller-Rabin round for the given base, and returns exactly
/// whether that base passes ([`mr_round_passes`]).
fn miller_rabin_round(n: &Natural, m: &Natural, a: &Natural) -> (r: bool)
    requires
        n@ >= 5,
        m@ == odd_part((n@ - 1) as nat),
        2 <= a@ <= n@ - 2,
    ensures
        r == mr_round_passes(n@, a@),
{
    let one = Natural::from_u64(1);
    let two = Natural::from_u64(2);
    let n_minus_one = n.minus(&one);
    let ghost s = two_adic_valuation((n@ - 1) as nat);
    proof {
        lemma_odd_part_decomposition((n@ - 1) as nat);
    }
    let mut x = mod_pow_pos(a, m, n);
    if x.cmp_with(&one) == 0 || x.cmp_with(&n_minus_one) == 0 {
        return true;
    }
    if m.cmp_with(&n_minus_one) == 0 {
        proof {
            // n - 1 == m means no factor 2 at all: s == 0, so no squaring
            // can save the base.
            assert(pow2(s) == 1) by (nonlinear_arith)
                requires
                    (n@ - 1) as nat == m@ * pow2(s),
                    m@ == (n@ - 1) as nat,
                    m@ >= 1,
            {}
            if s >= 1 {
                lemma_pow2_strictly_increases(0, s);
                lemma_pow0(2);
            }
        }
        return false;
    }
    proof {
        // m != n - 1 forces at least one factor 2 in n - 1.
        if s == 0 {
            lemma_pow0(2);
            assert((n@ - 1) as nat == m@ * 1);
        }
        lemma_pow2_pos(s);
    }
    let (half, _) = n_minus_one.div_rem(&two);
    proof {
        lemma_pow2_unfold(s);
        assert((n@ - 1) as nat == 2 * (m@ * pow2((s - 1) as nat))) by (nonlinear_arith)
            requires
                (n@ - 1) as nat == m@ * pow2(s),
                pow2(s) == 2 * pow2((s - 1) as nat),
                s >= 1,
        {}
        assert(half@ == m@ * pow2((s - 1) as nat));
        lemma_pow0(2);
        lemma_pow2_pos((s - 1) as nat);
        assert(m@ * 1 <= m@ * pow2((s - 1) as nat)) by (nonlinear_arith)
            requires
                pow2((s - 1) as nat) >= 1,
                m@ >= 1,
        {}
    }
    let mut d = m.duplicate();
    let ghost mut k: nat = 0;
    while d.lt(&half)
        invariant
            n@ >= 5,
            one@ == 1,
            two@ == 2,
            n_minus_one@ == n@ - 1,
            m@ == odd_part((n@ - 1) as nat),
            m@ % 2 == 1,
            m@ >= 1,
            s == two_adic_valuation((n@ - 1) as nat),
            (n@ - 1) as nat == m@ * pow2(s),
            s >= 1,
            half@ == m@ * pow2((s - 1) as nat),
            2 <= a@ <= n@ - 2,
            d@ >= 1,
            d@ == m@ * pow2(k),
            k < s,
            d@ <= half@,
            x@ == pow(a@ as int, m@ * pow2(k)) % (n@ as int),
            pow(a@ as int, m@) % (n@ as int) != 1,
            pow(a@ as int, m@) % (n@ as int) != n@ - 1,
            forall|j: nat|
                1 <= j <= k ==> #[trigger] pow(a@ as int, m@ * pow2(j)) % (n@ as int) != n@
                    - 1,
        decreases half@ - d@,
    {
        let xx = x.times(&x);
        let (_, xn) = xx.div_rem(n);
        proof {
            lemma_square_step(a@ as int, m@ * pow2(k), n@ as int, x@ as int);
            lemma_pow2_unfold(k + 1);
            assert(2 * (m@ * pow2(k)) == m@ * pow2(k + 1)) by (nonlinear_arith)
                requires
                    pow2(k + 1) == 2 * pow2(k),
            {}
            // the doubled exponent still sits below s
            assert(pow2(k) < pow2((s - 1) as nat)) by (nonlinear_arith)
                requires
                    d@ == m@ * pow2(k),
                    half@ == m@ * pow2((s - 1) as nat),
                    d@ < half@,
                    m@ >= 1,
            {}
            if k >= (s - 1) as nat {
                if k > (s - 1) as nat {
                    lemma_pow2_strictly_increases((s - 1) as nat, k);
                }
                assert(false);
            }
            k = k + 1;
            assert(k < s);
            if k < (s - 1) as nat {
                lemma_pow2_strictly_increases(k, (s - 1) as nat);
            }
            assert(pow2(k) <= pow2((s - 1) as nat));
            assert(m@ * pow2(k) <= m@ * pow2((s - 1) as nat)) by (nonlinear_arith)
                requires
                    pow2(k) <= pow2((s - 1) as nat),
                    m@ >= 1,
            {}
        }
        x = xn;
        d = d.times(&two);
        proof {
            assert(d@ == m@ * pow2(k));
            assert(x@ == pow(a@ as int, m@ * pow2(k)) % (n@ as int));
        }
        if x.cmp_with(&n_minus_one) == 0 {
            proof {
                let mm = odd_part((n@ - 1) as nat);
                assert(mm == m@);
                assert(mm * pow2(k) == m@ * pow2(k));
                assert(1 <= k < s && pow(a@ as int, mm * pow2(k)) % (n@ as int) == n@ - 1);
                assert(mr_round_passes(n@, a@));
            }
            return true;
        }
        if x.cmp_with(&one) == 0 {
            proof {
                let mm = odd_part((n@ - 1) as nat);
                assert forall|j: nat|
                    1 <= j < s implies #[trigger] pow(a@ as int, mm * pow2(j)) % (n@ as int)
                    != n@ - 1 by {
                    assert(mm * pow2(j) == m@ * pow2(j));
                    if j > k {
                        let t = (j - k) as nat;
                        lemma_pow2_adds(k, t);
                        assert((m@ * pow2(k)) * pow2(t) == m@ * pow2(j)) by (nonlinear_arith)
                            requires
                                pow2(j) == pow2(k) * pow2(t),
                        {}
                        lemma_pow_one_stays(a@ as int, m@ * pow2(k), t, n@ as int);
                    }
                }
                assert(!mr_round_passes(n@, a@));
            }
            return false;
        }
    }
    proof {
        // the loop stops exactly at d == half, that is k == s - 1; every
        // admissible squaring has been inspected.
        assert(pow2(k) >= pow2((s - 1) as nat)) by (nonlinear_arith)
            requires
                d@ == m@ * pow2(k),
                half@ == m@ * pow2((s - 1) as nat),
                d@ >= half@,
                m@ >= 1,
        {}
        if k < s - 1 {
            lemma_pow2_strictly_increases(k, (s - 1) as nat);
        }
        assert(k == s - 1);
    }
    false
}

/// The Miller-Rabin probabilistic test with a chosen number of independent
/// random trials.  Small inputs are decided outright; for n ≥ 5 a `false`
/// verdict is always backed by a concrete witness base that failed its
/// round, while a `true` verdict only says that every sampled base passed.
pub fn miller_rabin_primality_with_trials(n: &Natural, trials: u32) -> (r: bool)
    ensures
        n@ <= 1 || n@ == 4 ==> r == false,
        2 <= n@ <= 3 ==> r == true,
        (!r && n@ >= 5) ==> (exists|a: nat| 2 <= a <= n@ - 2 && !mr_round_passes(n@, a)),
{
    let one = Natural::from_u64(1);
    let two = Natural::from_u64(2);
    let three = Natural::from_u64(3);
    let four = Natural::from_u64(4);
    if n.le(&one) || n.cmp_with(&four) == 0 {
        return false;
    }
    if n.le(&three) {
        return true;
    }
    let n_minus_one = n.minus(&one);
    let m = odd_part_of(&n_minus_one);
    let mut t: u32 = 0;
    while t < trials
        invariant
            n@ >= 5,
            two@ == 2,
            n_minus_one@ == n@ - 1,
            m@ == odd_part((n@ - 1) as nat),
        decreases trials - t,
    {
        let a = generate_random_int_in_range(&two, &n_minus_one);
        if !miller_rabin_round(n, &m, &a) {
            proof {
                assert(2 <= a@ <= n@ - 2 && !mr_round_passes(n@, a@));
            }
            return false;
        }
        t = t + 1;
    }
    true
}

/// The Miller-Rabin test with the default confidence of 5 random trials
/// (error probability at most 4⁻⁵ for a composite input).
pub fn miller_rabin_primality(n: &Natural) -> (r: bool)
    ensures
        n@ <= 1 || n@ == 4 ==> r == false,
        2 <= n@ <= 3 ==> r == true,
        (!r && n@ >= 5) ==> (exists|a: nat| 2 <= a <= n@ - 2 && !mr_round_passes(n@, a)),
{
    miller_rabin_primality_with_trials(n, 5)
}

/// The exponent of 2 in `x`, computed by repeated halving.
fn two_adic_of(x: &Natural) -> (r: Natural)
    requires
        x@ >= 1,
    ensures
        r@ == two_adic_valuation(x@),
{
    let one = Natural::from_u64(1);
    let two = Natural::from_u64(2);
    let mut m = x.duplicate();
    let mut c = Natural::zero();
    loop
        invariant
            one@ == 1,
            two@ == 2,
            m@ >= 1,
            c@ + two_adic_valuation(m@) == two_adic_valuation(x@),
        ensures
            c@ == two_adic_valuation(x@),
        decreases m@,
    {
        let (q, rem) = m.div_rem(&two);
        if !rem.is_zero() {
            break ;
        }
        proof {
            lemma_fundamental_div_mod(m@ as int, 2);
        }
        m = q;
        c = c.plus(&one);
    }
    c
}

/// The first step index in `[k, last]` whose Miller-Rabin value is ±1
/// (mod n), or `last` itself when none is.
pub open spec fn mr_first_stop(n: nat, a: nat, k: nat, last: nat) -> nat
    decreases last + 1 - k,
{
    let m = odd_part((n - 1) as nat);
    if k >= last {
        last
    } else if pow(a as int, m * pow2(k)) % (n as int) == 1 || pow(a as int, m * pow2(k)) % (
    n as int) == n - 1 {
        k
    } else {
        mr_first_stop(n, a, k + 1, last)
    }
}

/// The decomposition caption shown with every trace row:
/// "n-1 = m.2^s".
pub open spec fn mr_form_text(n: nat) -> Seq<char> {
    dec_of((n - 1) as nat) + " = "@ + dec_of(odd_part((n - 1) as nat)) + ".2"@ + sup_text(
        two_adic_valuation((n - 1) as nat),
    )
}

/// One trace row of [`miller_rabin_test`] describes step `k` exactly:
/// every numeric column in decimal, the congruence flags, and the message
/// of [`mr_message`].
pub open spec fn mr_row_ok(row: MillerRabinTable, n: nat, a: nat, k: nat) -> bool {
    let m = odd_part((n - 1) as nat);
    let s = two_adic_valuation((n - 1) as nat);
    let e = m * pow2(k);
    let x = (pow(a as int, e) % (n as int)) as nat;
    &&& row.n@ == dec_of(n)
    &&& row.n_minus_one_form@ == mr_form_text(n)
    &&& row.s@ == dec_of(s)
    &&& row.a@ == dec_of(a)
    &&& row.k@ == dec_of(k)
    &&& row.e@ == dec_of(e)
    &&& row.a_raised_e@ == dec_of(x)
    &&& row.x_congruent_1_mod_n == (x == 1)
    &&& row.x_congruent_minus_1_mod_n == (x == n - 1)
    &&& row.message@ == mr_message(n, x, s, k, x == 1, x == n - 1)
}

/// One Miller-Rabin round for an explicitly chosen base, with a full
/// diagnostic trace: one row per exponentiation step, stopping at the
/// first ±1 or after the last admissible squaring.  The verdict equals
/// [`mr_round_passes`] for that base.
pub fn miller_rabin_test(n: &Natural, base: &Natural) -> (res: (bool, Vec<MillerRabinTable>))
    requires
        n@ >= 3,
    ensures
        res.0 == mr_round_passes(n@, base@),
        ({
            let s = two_adic_valuation((n@ - 1) as nat);
            let cap = if s == 0 {
                0nat
            } else {
                (s - 1) as nat
            };
            &&& res.1@.len() == mr_first_stop(n@, base@, 0, cap) + 1
            &&& forall|i: int|
                0 <= i < res.1@.len() ==> mr_row_ok(#[trigger] res.1@[i], n@, base@, i as nat)
        }),
{
    let one = Natural::from_u64(1);
    let two = Natural::from_u64(2);
    let zero = Natural::zero();
    let n_minus_one = n.minus(&one);
    let m = odd_part_of(&n_minus_one);
    let s_nat = two_adic_of(&n_minus_one);
    let ghost s = two_adic_valuation((n@ - 1) as nat);
    let ghost cap: nat = if s == 0 {
        0nat
    } else {
        (s - 1) as nat
    };
    proof {
        lemma_odd_part_decomposition((n@ - 1) as nat);
    }
    let mut form = n_minus_one.to_decimal();
    form.append(" = ");
    let m_text = m.to_decimal();
    form.append(m_text.as_str());
    form.append(".2");
    let s_text = crate::display::superscript_text(&s_nat);
    form.append(s_text.as_str());
    proof {
        assert(form@ == mr_form_text(n@));
    }
    let mut table: Vec<MillerRabinTable> = Vec::new();
    let x0 = mod_pow_pos(base, &m, n);
    let x1f = x0.cmp_with(&one) == 0;
    let xm1f = x0.cmp_with(&n_minus_one) == 0;
    proof {
        lemma_pow0(2);
        assert(pow2(0) == 1);
        assert(m@ * pow2(0) == m@);
    }
    format_miller_rabin_steps_print(
        n,
        &form,
        &s_nat,
        base,
        &zero,
        &m,
        &x0,
        x1f,
        xm1f,
        &mut table,
    );
    if x1f || xm1f {
        proof {
            assert(mr_first_stop(n@, base@, 0, cap) == 0);
        }
        return (true, table);
    }
    if m.cmp_with(&n_minus_one) == 0 {
        proof {
            assert(pow2(s) == 1) by (nonlinear_arith)
                requires
                    (n@ - 1) as nat == m@ * pow2(s),
                    m@ == (n@ - 1) as nat,
                    m@ >= 1,
            {}
            if s >= 1 {
                lemma_pow2_strictly_increases(0, s);
            }
            assert(mr_first_stop(n@, base@, 0, cap) == 0);
        }
        return (false, table);
    }
    proof {
        if s == 0 {
            assert((n@ - 1) as nat == m@ * 1);
        }
        lemma_pow2_pos(s);
    }
    let (half, _) = n_minus_one.div_rem(&two);
    proof {
        lemma_pow2_unfold(s);
        assert((n@ - 1) as nat == 2 * (m@ * pow2((s - 1) as nat))) by (nonlinear_arith)
            requires
                (n@ - 1) as nat == m@ * pow2(s),
                pow2(s) == 2 * pow2((s - 1) as nat),
                s >= 1,
        {}
        assert(half@ == m@ * pow2((s - 1) as nat));
        lemma_pow2_pos((s - 1) as nat);
        assert(m@ * 1 <= m@ * pow2((s - 1) as nat)) by (nonlinear_arith)
            requires
                pow2((s - 1) as nat) >= 1,
                m@ >= 1,
        {}
        assert(cap == (s - 1) as nat);
        if 0 < cap {
            assert(mr_first_stop(n@, base@, 0, cap) == mr_first_stop(n@, base@, 1, cap));
        }
    }
    let mut d = m.duplicate();
    let mut x = x0;
    let mut k_nat = Natural::zero();
    let ghost mut k: nat = 0;
    while d.lt(&half)
        invariant
            n@ >= 3,
            one@ == 1,
            two@ == 2,
            n_minus_one@ == n@ - 1,
            form@ == mr_form_text(n@),
            m@ == odd_part((n@ - 1) as nat),
            m@ % 2 == 1,
            m@ >= 1,
            s == two_adic_valuation((n@ - 1) as nat),
            s_nat@ == s,
            (n@ - 1) as nat == m@ * pow2(s),
            s >= 1,
            cap == (s - 1) as nat,
            half@ == m@ * pow2((s - 1) as nat),
            d@ >= 1,
            d@ == m@ * pow2(k),
            k <= cap,
            k_nat@ == k,
            d@ <= half@,
            x@ == pow(base@ as int, m@ * pow2(k)) % (n@ as int),
            pow(base@ as int, m@) % (n@ as int) != 1,
            pow(base@ as int, m@) % (n@ as int) != n@ - 1,
            forall|j: nat|
                1 <= j <= k ==> #[trigger] pow(base@ as int, m@ * pow2(j)) % (n@ as int) != n@
                    - 1,
            forall|j: nat|
                1 <= j <= k ==> #[trigger] pow(base@ as int, m@ * pow2(j)) % (n@ as int) != 1,
            mr_first_stop(n@, base@, 0, cap) == mr_first_stop(n@, base@, k + 1, cap),
            table@.len() == k + 1,
            forall|i: int| 0 <= i < table@.len() ==> mr_row_ok(#[trigger] table@[i], n@, base@, i as nat),
        decreases half@ - d@,
    {
        let xx = x.times(&x);
        let (_, xn) = xx.div_rem(n);
        proof {
            lemma_square_step(base@ as int, m@ * pow2(k), n@ as int, x@ as int);
            lemma_pow2_unfold(k + 1);
            assert(2 * (m@ * pow2(k)) == m@ * pow2(k + 1)) by (nonlinear_arith)
                requires
                    pow2(k + 1) == 2 * pow2(k),
            {}
            assert(pow2(k) < pow2((s - 1) as nat)) by (nonlinear_arith)
                requires
                    d@ == m@ * pow2(k),
                    half@ == m@ * pow2((s - 1) as nat),
                    d@ < half@,
                    m@ >= 1,
            {}
            if k >= (s - 1) as nat {
                if k > (s - 1) as nat {
                    lemma_pow2_strictly_increases((s - 1) as nat, k);
                }
                assert(false);
            }
            k = k + 1;
            assert(k <= cap);
            if k < (s - 1) as nat {
                lemma_pow2_strictly_increases(k, (s - 1) as nat);
            }
            assert(pow2(k) <= pow2((s - 1) as nat));
            assert(m@ * pow2(k) <= m@ * pow2((s - 1) as nat)) by (nonlinear_arith)
                requires
                    pow2(k) <= pow2((s - 1) as nat),
                    m@ >= 1,
            {}
        }
        x = xn;
        d = d.times(&two);
        k_nat = k_nat.plus(&one);
        let x1f2 = x.cmp_with(&one) == 0;
        let xm1f2 = x.cmp_with(&n_minus_one) == 0;
        format_miller_rabin_steps_print(
            n,
            &form,
            &s_nat,
            base,
            &k_nat,
            &d,
            &x,
            x1f2,
            xm1f2,
            &mut table,
        );
        if xm1f2 {
            proof {
                let mm = odd_part((n@ - 1) as nat);
                assert(mm * pow2(k) == m@ * pow2(k));
                assert(1 <= k < s && pow(base@ as int, mm * pow2(k)) % (n@ as int) == n@ - 1);
                assert(mr_round_passes(n@, base@));
                assert(mr_first_stop(n@, base@, k, cap) == k);
            }
            return (true, table);
        }
        if x1f2 {
            proof {
                let mm = odd_part((n@ - 1) as nat);
                assert forall|j: nat|
                    1 <= j < s implies #[trigger] pow(base@ as int, mm * pow2(j)) % (n@ as int)
                    != n@ - 1 by {
                    assert(mm * pow2(j) == m@ * pow2(j));
                    if j > k {
                        let t = (j - k) as nat;
                        lemma_pow2_adds(k, t);
                        assert((m@ * pow2(k)) * pow2(t) == m@ * pow2(j)) by (nonlinear_arith)
                            requires
                                pow2(j) == pow2(k) * pow2(t),
                        {}
                        lemma_pow_one_stays(base@ as int, m@ * pow2(k), t, n@ as int);
                    }
                }
                assert(!mr_round_passes(n@, base@));
                assert(mr_first_stop(n@, base@, k, cap) == k);
            }
            return (false, table);
        }
        proof {
            if k < cap {
                assert(mr_first_stop(n@, base@, k, cap) == mr_first_stop(n@, base@, k + 1, cap));
            } else {
                assert(mr_first_stop(n@, base@, k + 1, cap) == cap);
                assert(mr_first_stop(n@, base@, k, cap) == cap);
            }
        }
    }
    proof {
        assert(pow2(k) >= pow2((s - 1) as nat)) by (nonlinear_arith)
            requires
                d@ == m@ * pow2(k),
                half@ == m@ * pow2((s - 1) as nat),
                d@ >= half@,
                m@ >= 1,
        {}
        if k < (s - 1) as nat {
            lemma_pow2_strictly_increases(k, (s - 1) as nat);
        }
        assert(k == cap);
        assert(mr_first_stop(n@, base@, k + 1, cap) == cap);
        assert(!mr_round_passes(n@, base@));
    }
    (false, table)
}

/// Draws the requested number of random bases in `[2, n-1)` and pairs
/// each with its greatest common divisor with `n` — a gcd above 1 exposes
/// a factor, so repeated draws form a cheap probabilistic compositeness
/// probe.
pub fn gcd_test(n: &Natural, num_trials: u8) -> (out: Vec<(Natural, Natural)>)
    requires
        n@ >= 4,
    ensures
        out@.len() == num_trials,
        forall|i: int|
            0 <= i < out@.len() ==> 2 <= (#[trigger] out@[i]).0@ <= n@ - 2 && is_gcd(
                out@[i].1@,
                n@,
                out@[i].0@,
            ),
{
    let one = Natural::from_u64(1);
    let two = Natural::from_u64(2);
    let n_minus_one = n.minus(&one);
    let mut out: Vec<(Natural, Natural)> = Vec::new();
    let mut t: u8 = 0;
    while t < num_trials
        invariant
            n@ >= 4,
            two@ == 2,
            n_minus_one@ == n@ - 1,
            t <= num_trials,
            out@.len() == t,
            forall|i: int|
                0 <= i < out@.len() ==> 2 <= (#[trigger] out@[i]).0@ <= n@ - 2 && is_gcd(
                    out@[i].1@,
                    n@,
                    out@[i].0@,
                ),
        decreases num_trials - t,
    {
        let a = generate_random_int_in_range(&two, &n_minus_one);
        let g = n.gcd(&a);
        out.push((a, g));
        t = t + 1;
    }
    out
}

/// Fermat's test over every coprime residue at once: `n` withstands it
/// when each `x` coprime to `n` satisfies `x^(n-1) ≡ 1 (mod n)`.  A
/// composite number with that property is a Carmichael number.
pub fn carmichael_nums_flt(n: &Natural) -> (r: bool)
    requires
        n@ >= 2,
    ensures
        r == (forall|x: nat|
            1 <= x < n@ && coprime(x, n@) ==> #[trigger] pow(x as int, (n@ - 1) as nat) % (
            n@ as int) == 1),
{
    let one = Natural::from_u64(1);
    let n_minus_one = n.minus(&one);
    let coprimes = crate::groups_modulo_n::coprime_nums_less_than_n(n);
    let mut i: usize = 0;
    while i < coprimes.len()
        invariant
            n@ >= 2,
            one@ == 1,
            n_minus_one@ == n@ - 1,
            i <= coprimes@.len(),
            forall|t: int|
                0 <= t < coprimes@.len() ==> 1 <= (#[trigger] coprimes@[t])@ < n@ && coprime(
                    coprimes@[t]@,
                    n@,
                ),
            forall|v: nat|
                1 <= v < n@ && coprime(v, n@) ==> crate::groups_modulo_n::contains_value(
                    coprimes@,
                    v,
                ),
            forall|t: int|
                0 <= t < i ==> #[trigger] pow(coprimes@[t]@ as int, (n@ - 1) as nat) % (n@ as int)
                    == 1,
        decreases coprimes@.len() - i,
    {
        let xp = mod_pow_pos(&coprimes[i], &n_minus_one, n);
        if xp.cmp_with(&one) != 0 {
            proof {
                let v = coprimes@[i as int]@;
                assert(1 <= v < n@ && coprime(v, n@) && pow(v as int, (n@ - 1) as nat) % (
                n@ as int) != 1);
            }
            return false;
        }
        i = i + 1;
    }
    proof {
        assert forall|x: nat| 1 <= x < n@ && coprime(x, n@) implies #[trigger] pow(
            x as int,
            (n@ - 1) as nat,
        ) % (n@ as int) == 1 by {
            assert(crate::groups_modulo_n::contains_value(coprimes@, x));
            let t = choose|t: int|
                0 <= t < coprimes@.len() && (#[trigger] coprimes@[t])@ == x;
            assert(pow(coprimes@[t]@ as int, (n@ - 1) as nat) % (n@ as int) == 1);
        }
    }
    true
}

/// Every multiplicity in the factorisation is 1.
pub open spec fn squarefree_factors(f: Seq<(Natural, u128)>) -> bool {
    forall|i: int| 0 <= i < f.len() ==> (#[trigger] f[i]).1 == 1
}

/// Each factor `p` satisfies `p - 1 | n - 1` — Korselt's divisibility
/// condition.
pub open spec fn korselt_divisibility(f: Seq<(Natural, u128)>, n: nat) -> bool {
    forall|i: int|
        0 <= i < f.len() ==> ((n - 1) as nat) % (((#[trigger] f[i]).0@ - 1) as nat) == 0
}

/// Korselt's criterion on a fresh factorisation of `n`: squarefree, and
/// `p - 1` divides `n - 1` for every factor `p`.  The verdict is exact
/// for the factorisation obtained, which itself leans on Miller-Rabin.
pub fn carmichael_nums_korselt(n: &Natural) -> (r: Result<bool, NtError>)
    ensures
        match r {
            Ok(b) => n@ >= 2 && (exists|f: Seq<(Natural, u128)>|
                #[trigger] valid_factor_seq(f, n@) && b == (squarefree_factors(f)
                    && korselt_divisibility(f, n@))),
            Err(e) => {
                &&& (e == NtError::InvalidInput <==> n@ <= 1)
                &&& e != NtError::SearchExhausted
            },
        },
{
    let one = Natural::from_u64(1);
    let mut primes: Vec<Natural> = Vec::new();
    primes.push(Natural::from_u64(2));
    let f = match n.prime_factors(&mut primes) {
        Ok(f) => f,
        Err(e) => {
            return Err(e);
        },
    };
    let mut squarefree = true;
    let mut i: usize = 0;
    while i < f.len()
        invariant
            i <= f@.len(),
            squarefree == (forall|t: int| 0 <= t < i ==> (#[trigger] f@[t]).1 == 1),
        decreases f@.len() - i,
    {
        if f[i].1 != 1 {
            squarefree = false;
        }
        i = i + 1;
    }
    let mut all_divide = true;
    if squarefree {
        let n_minus_one = n.minus(&one);
        let mut j: usize = 0;
        while j < f.len()
            invariant
                n@ >= 2,
                one@ == 1,
                n_minus_one@ == n@ - 1,
                j <= f@.len(),
                forall|t: int| 0 <= t < f@.len() ==> (#[trigger] f@[t]).0@ >= 2,
                all_divide == (forall|t: int|
                    0 <= t < j ==> ((n@ - 1) as nat) % (((#[trigger] f@[t]).0@ - 1) as nat) == 0),
            decreases f@.len() - j,
        {
            let p_minus = f[j].0.minus(&one);
            let (_, rem) = n_minus_one.div_rem(&p_minus);
            if !rem.is_zero() {
                all_divide = false;
            }
            j = j + 1;
        }
    }
    let b = squarefree && all_divide;
    proof {
        if squarefree {
            assert(b == (squarefree_factors(f@) && korselt_divisibility(f@, n@)));
        } else {
            assert(!squarefree_factors(f@));
        }
        assert(valid_factor_seq(f@, n@));
    }
    Ok(b)
}

/// `n` is a power `b^e` with both the base and the exponent at least 2.
pub open spec fn is_perfect_power(n: nat) -> bool {
    exists|b: nat, e: nat| b >= 2 && e >= 2 && #[trigger] pow_nat(b, e) == n
}

/// Whether `n` is a perfect power, by dividing out every candidate base
/// up to the square root.
fn is_perfect_k_th_power(n: &Natural) -> (res: bool)
    requires
        n@ >= 2,
    ensures
        res == is_perfect_power(n@),
{
    let one = Natural::from_u64(1);
    let two = Natural::from_u64(2);
    let sqrt = n.sqrt_floor();
    let mut k = Natural::from_u64(2);
    while k.le(&sqrt)
        invariant
            n@ >= 2,
            one@ == 1,
            two@ == 2,
            k@ >= 2,
            sqrt@ * sqrt@ <= n@,
            n@ < (sqrt@ + 1) * (sqrt@ + 1),
            forall|b: nat, e: nat| 2 <= b < k@ && e >= 2 ==> #[trigger] pow_nat(b, e) != n@,
        decreases sqrt@ + 1 - k@,
    {
        let mut m = n.duplicate();
        let mut j = Natural::zero();
        proof {
            lemma_pow0(k@ as int);
            assert(pow_nat(k@, j@) == 1);
            assert(m@ * pow_nat(k@, j@) == n@) by (nonlinear_arith)
                requires
                    m@ == n@,
                    pow_nat(k@, j@) == 1,
            {}
        }
        loop
            invariant
                one@ == 1,
                k@ >= 2,
                n@ >= 2,
                m@ >= 1,
                m@ * pow_nat(k@, j@) == n@,
            ensures
                m@ >= 1,
                m@ * pow_nat(k@, j@) == n@,
                m@ % k@ != 0,
            decreases m@,
        {
            let (q, rr) = m.div_rem(&k);
            if !rr.is_zero() {
                break ;
            }
            proof {
                lemma_fundamental_div_mod(m@ as int, k@ as int);
                assert(m@ == k@ * q@);
                assert(q@ >= 1 && q@ < m@) by (nonlinear_arith)
                    requires
                        m@ == k@ * q@,
                        m@ >= 1,
                        k@ >= 2,
                {}
                lemma_pow1(k@ as int);
                lemma_pow_adds(k@ as int, j@, 1);
                lemma_pow_positive(k@ as int, j@);
                lemma_pow_positive(k@ as int, j@ + 1);
                assert(pow_nat(k@, j@ + 1) == pow_nat(k@, j@) * k@);
                assert(q@ * pow_nat(k@, j@ + 1) == m@ * pow_nat(k@, j@)) by (nonlinear_arith)
                    requires
                        m@ == k@ * q@,
                        pow_nat(k@, j@ + 1) == pow_nat(k@, j@) * k@,
                {}
            }
            m = q;
            j = j.plus(&one);
        }
        let found = m.cmp_with(&one) == 0 && two.le(&j);
        if found {
            proof {
                assert(pow_nat(k@, j@) == n@) by (nonlinear_arith)
                    requires
                        m@ * pow_nat(k@, j@) == n@,
                        m@ == 1,
                {}
                assert(k@ >= 2 && j@ >= 2 && pow_nat(k@, j@) == n@);
            }
            return true;
        }
        proof {
            lemma_pow_positive(k@ as int, j@);
            assert forall|e: nat| e >= 2 implies #[trigger] pow_nat(k@, e) != n@ by {
                if pow_nat(k@, e) == n@ {
                    lemma_pow_positive(k@ as int, e);
                    if j@ < e {
                        lemma_pow_adds(k@ as int, j@, (e - j@) as nat);
                        lemma_pow_positive(k@ as int, (e - j@) as nat);
                        assert(m@ == pow_nat(k@, (e - j@) as nat)) by (nonlinear_arith)
                            requires
                                m@ * pow_nat(k@, j@) == pow_nat(k@, e),
                                pow_nat(k@, e) == pow_nat(k@, j@) * pow_nat(k@, (e - j@) as nat),
                                pow_nat(k@, j@) >= 1,
                        {}
                        lemma_pow1(k@ as int);
                        lemma_pow_adds(k@ as int, 1, (e - j@ - 1) as nat);
                        lemma_pow_positive(k@ as int, (e - j@ - 1) as nat);
                        assert(m@ == k@ * pow_nat(k@, (e - j@ - 1) as nat));
                        lemma_mod_multiples_basic(pow_nat(k@, (e - j@ - 1) as nat) as int, k@ as int);
                        assert(m@ % k@ == 0) by {
                            assert(k@ * pow_nat(k@, (e - j@ - 1) as nat) == pow_nat(
                                k@,
                                (e - j@ - 1) as nat,
                            ) * k@) by (nonlinear_arith);
                        }
                    } else if j@ == e {
                        assert(m@ == 1) by (nonlinear_arith)
                            requires
                                m@ * pow_nat(k@, j@) == pow_nat(k@, e),
                                j@ == e,
                                pow_nat(k@, j@) >= 1,
                        {}
                        assert(j@ >= 2);
                        assert(false);
                    } else {
                        lemma_pow_adds(k@ as int, e, (j@ - e) as nat);
                        lemma_pow_positive(k@ as int, e);
                        lemma_pow_strictly_increases(k@, 0, (j@ - e) as nat);
                        lemma_pow0(k@ as int);
                        assert(m@ * (pow_nat(k@, e) * pow_nat(k@, (j@ - e) as nat)) == pow_nat(
                            k@,
                            e,
                        ) * 1) by (nonlinear_arith)
                            requires
                                m@ * pow_nat(k@, j@) == pow_nat(k@, e),
                                pow_nat(k@, j@) == pow_nat(k@, e) * pow_nat(k@, (j@ - e) as nat),
                        {}
                        assert(false) by (nonlinear_arith)
                            requires
                                m@ * (pow_nat(k@, e) * pow_nat(k@, (j@ - e) as nat)) == pow_nat(
                                    k@,
                                    e,
                                ) * 1,
                                pow_nat(k@, (j@ - e) as nat) >= 2,
                                pow_nat(k@, e) >= 1,
                                m@ >= 1,
                        {}
                    }
                }
            }
        }
        k = k.plus(&one);
    }
    proof {
        if is_perfect_power(n@) {
            let (b, e): (nat, nat) = choose|b: nat, e: nat|
                b >= 2 && e >= 2 && #[trigger] pow_nat(b, e) == n@;
            if b > sqrt@ {
                lemma_pow_increases(b, 2, e);
                vstd::arithmetic::power::lemma_square_is_pow2(b as int);
                assert(b * b > n@) by (nonlinear_arith)
                    requires
                        b >= sqrt@ + 1,
                        n@ < (sqrt@ + 1) * (sqrt@ + 1),
                {}
                assert(false);
            }
        }
    }
    false
}

/// A perfect square of any base at least 2 is a perfect power, so the
/// [`aks`] gates convict it at the very first step: whenever the test
/// answers at all for such an input, the answer is composite.
pub proof fn lemma_aks_rejects_perfect_squares(b: nat)
    requires
        b >= 2,
    ensures
        is_perfect_power(b * b),
{
    vstd::arithmetic::power::lemma_square_is_pow2(b as int);
    lemma_pow_positive(b as int, 2);
    assert(b >= 2 && 2 >= 2 && pow_nat(b, 2) == b * b);
}

/// Some integer strictly between 1 and min(r, n) shares a factor with `n`.
pub open spec fn aks_has_small_factor(n: nat, r: nat) -> bool {
    exists|a: nat| 2 <= a && a < r && a < n && !(#[trigger] coprime(a, n))
}

/// Every coefficient of the sequence is zero.
pub open spec fn all_zero(s: Seq<nat>) -> bool {
    forall|i: int| 0 <= i < s.len() ==> s[i] == 0
}

/// The linear polynomial `x + a`, as the coefficient sequence the
/// polynomial gate feeds to [`fastpoly_spec`].
pub open spec fn aks_base(a: nat) -> Seq<nat> {
    seq![a, 1nat]
}

/// The number of bases the AKS polynomial gate inspects:
/// √φ(r) · bitlength(n).
pub open spec fn aks_gate5_bound(n: nat, r: nat) -> nat {
    nat_sqrt(coprime_count(r, r)) * bit_length(n)
}

/// The AKS polynomial congruence holds for every inspected base: the
/// residual of `(x + a)^n − (x^n + a)` in ℤ_n[x]/(x^r − 1) vanishes.
pub open spec fn aks_poly_ok(n: nat, r: nat) -> bool {
    forall|a: nat| 1 <= a < aks_gate5_bound(n, r) ==> all_zero(#[trigger] fastpoly_spec(aks_base(a), n, n, r))
}

/// The verdict of the AKS gates that follow the perfect-power test, given
/// the order parameter `r`: a shared small factor convicts `n`, a small
/// `n` is acquitted outright, and otherwise the polynomial congruences
/// decide.
pub open spec fn aks_verdict(n: nat, r: nat) -> bool {
    if aks_has_small_factor(n, r) {
        false
    } else if n <= r {
        true
    } else {
        aks_poly_ok(n, r)
    }
}

/// The AKS deterministic primality test: perfect-power gate, order
/// search, small-factor gate, small-input shortcut, and the polynomial
/// congruence gate, in that order, each able to settle the verdict.
/// `Ok(true)` means prime and `Ok(false)` composite; inputs below 2 are
/// rejected, and the two bounded searches report exhaustion (which no
/// genuine input reaches) instead of running unchecked — the polynomial
/// gate also needs its `r` coefficients to be addressable in memory.
pub fn aks(n: &Natural) -> (res: Result<bool, NtError>)
    ensures
        match res {
            Ok(b) => {
                &&& n@ >= 2
                &&& (if is_perfect_power(n@) {
                    b == false
                } else {
                    first_good_r(n@, 2, aks_r_cap(n@)) != 0 && b == aks_verdict(
                        n@,
                        first_good_r(n@, 2, aks_r_cap(n@)),
                    )
                })
            },
            Err(e) => {
                &&& (e == NtError::InvalidInput <==> n@ <= 1)
                &&& e != NtError::UnresolvedResidue
                &&& (e == NtError::SearchExhausted ==> !is_perfect_power(n@) && (first_good_r(
                    n@,
                    2,
                    aks_r_cap(n@),
                ) == 0 || first_good_r(n@, 2, aks_r_cap(n@)) > usize::MAX / 2))
            },
        },
{
    let one = Natural::from_u64(1);
    if n.le(&one) {
        return Err(NtError::InvalidInput);
    }
    if is_perfect_k_th_power(n) {
        return Ok(false);
    }
    let r = match findr(n) {
        Ok(v) => v,
        Err(_) => {
            return Err(NtError::SearchExhausted);
        },
    };
    let r_fits = match r.to_u64() {
        Some(v) => v <= (usize::MAX / 2) as u64,
        None => false,
    };
    if !r_fits {
        return Err(NtError::SearchExhausted);
    }
    // small-factor gate: any a below min(r, n) sharing a divisor with n
    // convicts it.
    let min_rn = if r.lt(n) {
        r.duplicate()
    } else {
        n.duplicate()
    };
    let mut a = Natural::from_u64(2);
    while a.lt(&min_rn)
        invariant
            one@ == 1,
            n@ >= 2,
            a@ >= 2,
            !is_perfect_power(n@),
            r@ >= 2,
            r@ == first_good_r(n@, 2, aks_r_cap(n@)),
            min_rn@ == (if r@ < n@ {
                r@
            } else {
                n@
            }),
            forall|aa: nat| 2 <= aa < a@ ==> #[trigger] coprime(aa, n@),
        decreases min_rn@ - a@,
    {
        if !crate::groups_modulo_n::coprime_check(&a, n) {
            proof {
                assert(2 <= a@ && a@ < r@ && a@ < n@ && !coprime(a@, n@));
            }
            return Ok(false);
        }
        a = a.plus(&one);
    }
    proof {
        assert(!aks_has_small_factor(n@, r@));
    }
    if n.le(&r) {
        return Ok(true);
    }
    // polynomial gate: check (x + a)^n ≡ x^n + a (mod x^r − 1, n) for
    // every base a up to √φ(r)·bitlength(n).
    let phi = crate::groups_modulo_n::euler_totient_phi_counting_coprimes(&r);
    let sq = sqrt_exact(&phi);
    let bl = bit_length_of(n);
    let bound = sq.times(&bl);
    let mut av = Natural::from_u64(1);
    while av.lt(&bound)
        invariant
            one@ == 1,
            n@ >= 2,
            n@ > r@,
            r@ >= 2,
            r@ <= usize::MAX / 2,
            !is_perfect_power(n@),
            r@ == first_good_r(n@, 2, aks_r_cap(n@)),
            !aks_has_small_factor(n@, r@),
            av@ >= 1,
            bound@ == aks_gate5_bound(n@, r@),
            forall|aa: nat|
                1 <= aa < av@ ==> all_zero(#[trigger] fastpoly_spec(aks_base(aa), n@, n@, r@)),
        decreases bound@ - av@,
    {
        let mut base: Vec<Natural> = Vec::new();
        base.push(av.duplicate());
        base.push(Natural::from_u64(1));
        proof {
            assert(views_of(base@) =~= aks_base(av@));
        }
        let fp = fastpoly(&base, n, &r);
        let mut fi: usize = 0;
        while fi < fp.len()
            invariant
                fi <= fp@.len(),
                n@ >= 2,
                n@ > r@,
                r@ >= 2,
                !is_perfect_power(n@),
                r@ == first_good_r(n@, 2, aks_r_cap(n@)),
                !aks_has_small_factor(n@, r@),
                1 <= av@,
                av@ < aks_gate5_bound(n@, r@),
                views_of(fp@) == fastpoly_spec(aks_base(av@), n@, n@, r@),
                forall|i: int| 0 <= i < fi ==> (#[trigger] fp@[i])@ == 0,
            decreases fp@.len() - fi,
        {
            if !fp[fi].is_zero() {
                proof {
                    assert(fastpoly_spec(aks_base(av@), n@, n@, r@)[fi as int] != 0);
                    assert(!all_zero(fastpoly_spec(aks_base(av@), n@, n@, r@)));
                }
                return Ok(false);
            }
            fi = fi + 1;
        }
        proof {
            assert(all_zero(fastpoly_spec(aks_base(av@), n@, n@, r@)));
        }
        av = av.plus(&one);
    }
    proof {
        assert(aks_poly_ok(n@, r@));
    }
    Ok(true)
}

} // verus!

