//! Incremental factorisation against a caller-owned cache of small primes.
//!
//! The cache is an ascending list of probable primes starting at 2.  It is
//! grown lazily — only when the number at hand needs divisors beyond the
//! cached range — and the growth survives the call, so a scan over many
//! numbers pays the prime search once.

use crate::natural::{Natural, lemma_limbs_value_bound};
use crate::primality::miller_rabin_primality;
use crate::NtError;
use dpc_pariter::IteratorExt;
use vstd::arithmetic::div_mod::lemma_fundamental_div_mod;
use vstd::arithmetic::mul::lemma_mul_is_associative;
use vstd::arithmetic::power::{lemma_pow1, lemma_pow_adds, pow};
use vstd::arithmetic::power2::{lemma_pow2_strictly_increases, pow2};
use vstd::prelude::*;

verus! {

/// `b` raised to `e`, as a natural number.
pub open spec fn pow_nat(b: nat, e: nat) -> nat {
    pow(b as int, e) as nat
}

/// The product of a factorisation: each base raised to its multiplicity,
/// all multiplied together.
pub open spec fn prod_pairs(s: Seq<(Natural, u128)>) -> nat
    decreases s.len(),
{
    if s.len() == 0 {
        1
    } else {
        prod_pairs(s.drop_last()) * pow_nat(s.last().0@, s.last().1 as nat)
    }
}

/// A plausible factorisation of `n`: multiplicities at least 1, bases at
/// least 2 and strictly ascending, and the whole product restoring `n`.
pub open spec fn valid_factor_seq(f: Seq<(Natural, u128)>, n: nat) -> bool {
    &&& prod_pairs(f) == n
    &&& forall|i: int| 0 <= i < f.len() ==> (#[trigger] f[i]).1 >= 1 && f[i].0@ >= 2
    &&& forall|i: int, j: int| 0 <= i < j < f.len() ==> f[i].0@ < f[j].0@
}

/// A well-formed prime cache: non-empty, led by 2, strictly ascending (so
/// free of duplicates).
pub open spec fn cache_wf(c: Seq<Natural>) -> bool {
    &&& c.len() >= 1
    &&& c[0]@ == 2
    &&& forall|i: int, j: int| 0 <= i < j < c.len() ==> c[i]@ < c[j]@
}

/// Powers of anything at least 2 dominate the powers of 2.
proof fn lemma_pow_nat_ge_pow2(b: nat, e: nat)
    requires
        b >= 2,
    ensures
        pow2(e) <= pow_nat(b, e),
        pow_nat(b, e) >= 1,
    decreases e,
{
    if e == 0 {
        assert(pow(b as int, 0) == 1) by {
            vstd::arithmetic::power::lemma_pow0(b as int);
        }
        assert(pow2(0) == 1) by {
            vstd::arithmetic::power::lemma_pow0(2);
        }
    } else {
        lemma_pow_nat_ge_pow2(b, (e - 1) as nat);
        vstd::arithmetic::power2::lemma_pow2_unfold(e);
        assert(pow(b as int, e) == b * pow(b as int, (e - 1) as nat)) by {
            lemma_pow1(b as int);
            lemma_pow_adds(b as int, 1, (e - 1) as nat);
        }
        vstd::arithmetic::power::lemma_pow_positive(b as int, e);
        vstd::arithmetic::power::lemma_pow_positive(b as int, (e - 1) as nat);
        assert(pow_nat(b, e) == b * pow_nat(b, (e - 1) as nat));
        assert(2 * pow2((e - 1) as nat) <= b * pow_nat(b, (e - 1) as nat)) by (nonlinear_arith)
            requires
                b >= 2,
                pow2((e - 1) as nat) <= pow_nat(b, (e - 1) as nat),
                pow_nat(b, (e - 1) as nat) >= 1,
        {}
        assert(b * pow_nat(b, (e - 1) as nat) >= 1) by (nonlinear_arith)
            requires
                b >= 2,
                pow_nat(b, (e - 1) as nat) >= 1,
        {}
    }
}

/// Appending a factor multiplies the product by that factor's power.
proof fn lemma_prod_pairs_push(s: Seq<(Natural, u128)>, x: (Natural, u128))
    ensures
        prod_pairs(s.push(x)) == prod_pairs(s) * pow_nat(x.0@, x.1 as nat),
{
    assert(s.push(x).drop_last() =~= s);
    assert(s.push(x).last() == x);
}

/// Relies on `num_iter::range_inclusive` for the ascending candidate
/// sequence and on `dpc_pariter::IteratorExt::parallel_filter`, which keeps
/// the elements the predicate accepts, in their original order.  The
/// predicate calls the verified Miller-Rabin test; its verdicts draw random
/// bases, so nothing is promised about which candidates survive — only that
/// the survivors lie in the range and stay strictly ascending.
#[verifier::external_body]
fn par_probable_primes_in_range(lo: &Natural, hi: &Natural) -> (r: Vec<Natural>)
    ensures
        forall|i: int| 0 <= i < r@.len() ==> lo@ <= #[trigger] r@[i]@ <= hi@,
        forall|i: int, j: int| 0 <= i < j < r@.len() ==> r@[i]@ < r@[j]@,
{
    let a = num_bigint::BigUint::new(lo.limbs.clone());
    let b = num_bigint::BigUint::new(hi.limbs.clone());
    num_iter::range_inclusive(a, b).parallel_filter(
        |x| miller_rabin_primality(&Natural { limbs: x.to_u32_digits() }),
    ).map(|x| Natural { limbs: x.to_u32_digits() }).collect()
}

/// Prime factorisation with a caller-owned, growing cache of small primes.
pub trait PrimeFactors: View<V = nat> + Sized {
    fn prime_factors(&self, primes: &mut Vec<Natural>) -> (r: Result<
        Vec<(Natural, u128)>,
        NtError,
    >)
        requires
            cache_wf(old(primes)@),
        ensures
            cache_wf(final(primes)@),
            match r {
                Ok(f) => {
                    &&& self@ >= 2
                    &&& prod_pairs(f@) == self@
                    &&& forall|i: int|
                        0 <= i < f@.len() ==> (#[trigger] f@[i]).1 >= 1 && f@[i].0@ >= 2
                    &&& forall|i: int, j: int| 0 <= i < j < f@.len() ==> f@[i].0@ < f@[j].0@
                },
                Err(e) => {
                    &&& (e == NtError::InvalidInput <==> self@ <= 1)
                    &&& e != NtError::SearchExhausted
                },
            },
    ;
}

impl Natural {
    /// Factors `self` (rejecting values below 2) into an ascending list of
    /// `(factor, multiplicity)` pairs whose product restores `self`
    /// exactly.  The entries come from the cache — extended under √self
    /// first, if it falls short — plus at most one probable-prime residue.
    /// Both the residue test and the cache growth lean on Miller-Rabin, so
    /// an entry is prime only with the confidence that test gives.
    pub fn prime_factors(&self, primes: &mut Vec<Natural>) -> (r: Result<
        Vec<(Natural, u128)>,
        NtError,
    >)
        requires
            cache_wf(old(primes)@),
        ensures
            cache_wf(final(primes)@),
            final(primes)@.len() >= old(primes)@.len(),
            forall|i: int| 0 <= i < old(primes)@.len() ==> final(primes)@[i] == old(primes)@[i],
            forall|rt: nat|
                (#[trigger] (rt * rt) <= self@ && self@ < (rt + 1) * (rt + 1) && rt <= old(
                    primes,
                )@.last()@ + 2) ==> final(primes)@ == old(primes)@,
            match r {
                Ok(f) => {
                    &&& self@ >= 2
                    &&& prod_pairs(f@) == self@
                    &&& forall|i: int|
                        0 <= i < f@.len() ==> (#[trigger] f@[i]).1 >= 1 && f@[i].0@ >= 2
                    &&& forall|i: int, j: int| 0 <= i < j < f@.len() ==> f@[i].0@ < f@[j].0@
                },
                Err(e) => {
                    &&& (e == NtError::InvalidInput <==> self@ <= 1)
                    &&& e != NtError::SearchExhausted
                },
            },
    {
        let one = Natural::from_u64(1);
        let two = Natural::from_u64(2);
        if self.le(&one) {
            return Err(NtError::InvalidInput);
        }
        if miller_rabin_primality(self) {
            let mut out: Vec<(Natural, u128)> = Vec::new();
            out.push((self.duplicate(), 1u128));
            proof {
                lemma_prod_pairs_push(Seq::<(Natural, u128)>::empty(), out@[0]);
                assert(out@.drop_last() =~= Seq::<(Natural, u128)>::empty());
                lemma_pow1(self@ as int);
            }
            return Ok(out);
        }
        let sqrt = self.sqrt_floor();
        let last_idx = primes.len() - 1;
        let within = primes[last_idx].plus(&two);
        if within.lt(&sqrt) {
            // the cache stops too far below √self: test every candidate
            // between its end and √self + 1, in parallel, and append the
            // survivors in order.
            let lo = primes[last_idx].plus(&one);
            let hi = sqrt.plus(&one);
            let fresh = par_probable_primes_in_range(&lo, &hi);
            let mut k: usize = 0;
            while k < fresh.len()
                invariant
                    cache_wf(primes@),
                    primes@.len() >= old(primes)@.len(),
                    forall|i: int| 0 <= i < old(primes)@.len() ==> primes@[i] == old(primes)@[i],
                    k <= fresh@.len(),
                    forall|i: int, j: int|
                        0 <= i < j < fresh@.len() ==> fresh@[i]@ < fresh@[j]@,
                    forall|j: int|
                        k <= j < fresh@.len() ==> primes@.last()@ < #[trigger] fresh@[j]@,
                decreases fresh@.len() - k,
            {
                let ghost before = primes@;
                primes.push(fresh[k].duplicate());
                proof {
                    assert(primes@.last() == primes@[primes@.len() - 1]);
                    assert forall|i: int, j: int| 0 <= i < j < primes@.len() implies primes@[i]@
                        < primes@[j]@ by {
                        if j == primes@.len() - 1 {
                            if i < before.len() - 1 {
                                assert(before[i]@ < before[before.len() - 1]@);
                            }
                        }
                    }
                }
                k = k + 1;
            }
        }
        proof {
            assert forall|rt: nat|
                (#[trigger] (rt * rt) <= self@ && self@ < (rt + 1) * (rt + 1) && rt <= old(
                    primes,
                )@.last()@ + 2) implies primes@ == old(primes)@ by {
                assert(rt == sqrt@) by (nonlinear_arith)
                    requires
                        rt * rt <= self@,
                        self@ < (rt + 1) * (rt + 1),
                        sqrt@ * sqrt@ <= self@,
                        self@ < (sqrt@ + 1) * (sqrt@ + 1),
                {}
            }
        }
        // extraction: walk the cache upward and divide each entry out of
        // the remainder as often as it goes.
        let nbits = self.limb_count();
        let mut rem = self.duplicate();
        let mut out: Vec<(Natural, u128)> = Vec::new();
        proof {
            assert(out@.len() == 0);
            assert(prod_pairs(out@) == 1);
        }
        let mut ci: usize = 0;
        while ci < primes.len()
            invariant
                cache_wf(primes@),
                self@ >= 2,
                self@ < pow2(32 * nbits as nat),
                ci <= primes@.len(),
                rem@ >= 1,
                prod_pairs(out@) * rem@ == self@,
                forall|i: int| 0 <= i < out@.len() ==> (#[trigger] out@[i]).1 >= 1 && out@[i].0@ >= 2,
                forall|i: int, j: int| 0 <= i < j < out@.len() ==> out@[i].0@ < out@[j].0@,
                forall|t: int, j: int|
                    0 <= t < out@.len() && ci <= j < primes@.len() ==> (#[trigger] out@[t]).0@ < (
                    #[trigger] primes@[j])@,
            decreases primes@.len() - ci,
        {
            let p = &primes[ci];
            let mut mult: u128 = 0;
            proof {
                lemma_pow_nat_ge_pow2(p@, 0);
                assert(pow(p@ as int, 0) == 1) by {
                    vstd::arithmetic::power::lemma_pow0(p@ as int);
                }
            }
            loop
                invariant
                    p@ >= 2,
                    self@ >= 2,
                    self@ < pow2(32 * nbits as nat),
                    rem@ >= 1,
                    prod_pairs(out@) * (pow_nat(p@, mult as nat) * rem@) == self@,
                    pow_nat(p@, mult as nat) <= self@,
                    mult as nat <= 32 * nbits as nat,
                ensures
                    p@ >= 2,
                    rem@ >= 1,
                    rem@ % p@ != 0,
                    prod_pairs(out@) * (pow_nat(p@, mult as nat) * rem@) == self@,
                decreases rem@,
            {
                let (q, rr) = rem.div_rem(p);
                if !rr.is_zero() {
                    break ;
                }
                proof {
                    lemma_fundamental_div_mod(rem@ as int, p@ as int);
                    assert(rem@ == p@ * q@);
                    assert(q@ >= 1 && q@ < rem@) by (nonlinear_arith)
                        requires
                            rem@ == p@ * q@,
                            rem@ >= 1,
                            p@ >= 2,
                    {}
                    lemma_pow1(p@ as int);
                    lemma_pow_adds(p@ as int, mult as nat, 1);
                    vstd::arithmetic::power::lemma_pow_positive(p@ as int, mult as nat);
                    vstd::arithmetic::power::lemma_pow_positive(p@ as int, (mult + 1) as nat);
                    assert(pow_nat(p@, (mult + 1) as nat) == pow_nat(p@, mult as nat) * p@);
                    assert(pow_nat(p@, mult as nat) * rem@ == pow_nat(p@, (mult + 1) as nat)
                        * q@) by (nonlinear_arith)
                        requires
                            rem@ == p@ * q@,
                            pow_nat(p@, (mult + 1) as nat) == pow_nat(p@, mult as nat) * p@,
                    {}
                    assert(pow_nat(p@, (mult + 1) as nat) <= self@) by (nonlinear_arith)
                        requires
                            prod_pairs(out@) * (pow_nat(p@, (mult + 1) as nat) * q@) == self@,
                            prod_pairs(out@) >= 1 || prod_pairs(out@) == 0,
                            q@ >= 1,
                            self@ >= 2,
                            pow_nat(p@, (mult + 1) as nat) >= 0,
                    {}
                    lemma_pow_nat_ge_pow2(p@, (mult + 1) as nat);
                    if (mult + 1) as nat > 32 * nbits as nat {
                        lemma_pow2_strictly_increases(32 * nbits as nat, (mult + 1) as nat);
                    }
                }
                rem = q;
                mult = mult + 1;
            }
            proof {
                if mult == 0 {
                    vstd::arithmetic::power::lemma_pow0(p@ as int);
                    assert(pow_nat(p@, mult as nat) == 1);
                    assert(pow_nat(p@, mult as nat) * rem@ == rem@) by (nonlinear_arith)
                        requires
                            pow_nat(p@, mult as nat) == 1,
                    {}
                }
            }
            if mult > 0 {
                let ghost outg = out@;
                out.push((p.duplicate(), mult));
                proof {
                    lemma_prod_pairs_push(outg, out@.last());
                    assert(out@.drop_last() =~= outg);
                    assert(prod_pairs(outg) * (pow_nat(p@, mult as nat) * rem@) == (prod_pairs(
                        outg,
                    ) * pow_nat(p@, mult as nat)) * rem@) by {
                        lemma_mul_is_associative(
                            prod_pairs(outg) as int,
                            pow_nat(p@, mult as nat) as int,
                            rem@ as int,
                        );
                    }
                }
            }
            ci = ci + 1;
        }
        if rem.le(&one) {
            return Ok(out);
        }
        // the cache is exhausted; the remaining cofactor must itself be a
        // probable prime, larger than everything already emitted.
        if miller_rabin_primality(&rem) {
            let fits = if out.len() == 0 {
                true
            } else {
                let li = out.len() - 1;
                out[li].0.lt(&rem)
            };
            if fits {
                let ghost outg = out@;
                out.push((rem, 1u128));
                proof {
                    lemma_prod_pairs_push(outg, out@.last());
                    assert(out@.drop_last() =~= outg);
                    lemma_pow1(out@.last().0@ as int);
                }
                return Ok(out);
            }
        }
        Err(NtError::UnresolvedResidue)
    }
}

impl PrimeFactors for Natural {
    fn prime_factors(&self, primes: &mut Vec<Natural>) -> (r: Result<
        Vec<(Natural, u128)>,
        NtError,
    >) {
        Natural::prime_factors(self, primes)
    }
}

} // verus!
