//! Ready-made scans over numeric ranges: prime searches, factorisation
//! listings and Carmichael-number hunts, plus the selector enums their
//! callers dispatch on.

use crate::display::{factors_form, format_prime_factors_print, NumFactorTable};
use crate::groups_modulo_n::{contains_value, coprime, has_listed_prim_root, no_listed_prim_root};
use crate::natural::{dec_of, Natural};
use crate::primality::{
    carmichael_nums_flt, carmichael_nums_korselt, is_prime, is_prime_trial_division,
    is_prime_trial_division_parallel, korselt_divisibility, miller_rabin_test, mr_round_passes,
    squarefree_factors,
};
use crate::prime_factors::valid_factor_seq;
use crate::NtError;
use vstd::arithmetic::power::pow;
use vstd::prelude::*;

verus! {

/// Which numbers a range scan reports.
#[derive(Debug, Clone, PartialEq, Eq, Structural)]
pub enum NumCategory {
    Primes,
    Composites,
    CompositesPQ,
    All,
}

/// The primality algorithms a caller can ask for.
#[derive(Debug, Clone, PartialEq, Eq, Structural)]
pub enum PrimalityMethods {
    TrialDivision,
    Fermat,
    Gcd,
    MillerRabin,
    AKS,
}

/// The two Carmichael-number detection methods.
#[derive(Debug, Clone, PartialEq, Eq, Structural)]
pub enum CarmichaelMethods {
    Fermat,
    Korselt,
}

/// How scan results are rendered by the front ends.
#[derive(Debug, Clone, PartialEq, Eq, Structural)]
pub enum OutputFormat {
    Table,
    Json,
}

/// Splits `[start, end]` into its primes and its non-primes (both
/// ascending), deciding each number by sequential trial division.
pub fn find_primes_in_range_trial_division(start: &Natural, end: &Natural) -> (r: (
    Vec<Natural>,
    Vec<Natural>,
))
    ensures
        forall|i: int|
            0 <= i < r.0@.len() ==> start@ <= (#[trigger] r.0@[i])@ <= end@ && is_prime(r.0@[i]@),
        forall|i: int|
            0 <= i < r.1@.len() ==> start@ <= (#[trigger] r.1@[i])@ <= end@ && !is_prime(r.1@[i]@),
        forall|i: int, j: int| 0 <= i < j < r.0@.len() ==> r.0@[i]@ < r.0@[j]@,
        forall|i: int, j: int| 0 <= i < j < r.1@.len() ==> r.1@[i]@ < r.1@[j]@,
        forall|v: nat|
            start@ <= v <= end@ ==> (if is_prime(v) {
                contains_value(r.0@, v)
            } else {
                contains_value(r.1@, v)
            }),
{
    let one = Natural::from_u64(1);
    let mut primes: Vec<Natural> = Vec::new();
    let mut composites: Vec<Natural> = Vec::new();
    let mut x = start.duplicate();
    while x.le(end)
        invariant
            one@ == 1,
            start@ <= x@,
            x@ <= end@ + 1 || x@ == start@,
            forall|i: int|
                0 <= i < primes@.len() ==> start@ <= (#[trigger] primes@[i])@ < x@ && is_prime(
                    primes@[i]@,
                ),
            forall|i: int|
                0 <= i < composites@.len() ==> start@ <= (#[trigger] composites@[i])@ < x@
                    && !is_prime(composites@[i]@),
            forall|i: int, j: int| 0 <= i < j < primes@.len() ==> primes@[i]@ < primes@[j]@,
            forall|i: int, j: int|
                0 <= i < j < composites@.len() ==> composites@[i]@ < composites@[j]@,
            forall|v: nat|
                start@ <= v < x@ ==> (if is_prime(v) {
                    contains_value(primes@, v)
                } else {
                    contains_value(composites@, v)
                }),
        decreases end@ + 1 - x@,
    {
        let ghost pb = primes@;
        let ghost cb = composites@;
        if is_prime_trial_division(&x) {
            primes.push(x.duplicate());
        } else {
            composites.push(x.duplicate());
        }
        proof {
            assert forall|v: nat|
                start@ <= v < x@ + 1 implies (if is_prime(v) {
                contains_value(primes@, v)
            } else {
                contains_value(composites@, v)
            }) by {
                if v < x@ {
                    if is_prime(v) {
                        let t = choose|t: int| 0 <= t < pb.len() && (#[trigger] pb[t])@ == v;
                        assert(primes@[t]@ == v);
                    } else {
                        let t = choose|t: int| 0 <= t < cb.len() && (#[trigger] cb[t])@ == v;
                        assert(composites@[t]@ == v);
                    }
                } else {
                    if is_prime(v) {
                        assert(primes@[primes@.len() - 1]@ == v);
                    } else {
                        assert(composites@[composites@.len() - 1]@ == v);
                    }
                }
            }
        }
        x = x.plus(&one);
    }
    (primes, composites)
}

/// The same split of `[start, end]`, with each number decided by the
/// data-parallel trial division.
pub fn find_primes_in_range_trial_division_parallel(start: &Natural, end: &Natural) -> (r: (
    Vec<Natural>,
    Vec<Natural>,
))
    ensures
        forall|i: int|
            0 <= i < r.0@.len() ==> start@ <= (#[trigger] r.0@[i])@ <= end@ && is_prime(r.0@[i]@),
        forall|i: int|
            0 <= i < r.1@.len() ==> start@ <= (#[trigger] r.1@[i])@ <= end@ && !is_prime(r.1@[i]@),
        forall|i: int, j: int| 0 <= i < j < r.0@.len() ==> r.0@[i]@ < r.0@[j]@,
        forall|i: int, j: int| 0 <= i < j < r.1@.len() ==> r.1@[i]@ < r.1@[j]@,
        forall|v: nat|
            start@ <= v <= end@ ==> (if is_prime(v) {
                contains_value(r.0@, v)
            } else {
                contains_value(r.1@, v)
            }),
{
    let one = Natural::from_u64(1);
    let mut primes: Vec<Natural> = Vec::new();
    let mut composites: Vec<Natural> = Vec::new();
    let mut x = start.duplicate();
    while x.le(end)
        invariant
            one@ == 1,
            start@ <= x@,
            x@ <= end@ + 1 || x@ == start@,
            forall|i: int|
                0 <= i < primes@.len() ==> start@ <= (#[trigger] primes@[i])@ < x@ && is_prime(
                    primes@[i]@,
                ),
            forall|i: int|
                0 <= i < composites@.len() ==> start@ <= (#[trigger] composites@[i])@ < x@
                    && !is_prime(composites@[i]@),
            forall|i: int, j: int| 0 <= i < j < primes@.len() ==> primes@[i]@ < primes@[j]@,
            forall|i: int, j: int|
                0 <= i < j < composites@.len() ==> composites@[i]@ < composites@[j]@,
            forall|v: nat|
                start@ <= v < x@ ==> (if is_prime(v) {
                    contains_value(primes@, v)
                } else {
                    contains_value(composites@, v)
                }),
        decreases end@ + 1 - x@,
    {
        let ghost pb = primes@;
        let ghost cb = composites@;
        if is_prime_trial_division_parallel(&x) {
            primes.push(x.duplicate());
        } else {
            composites.push(x.duplicate());
        }
        proof {
            assert forall|v: nat|
                start@ <= v < x@ + 1 implies (if is_prime(v) {
                contains_value(primes@, v)
            } else {
                contains_value(composites@, v)
            }) by {
                if v < x@ {
                    if is_prime(v) {
                        let t = choose|t: int| 0 <= t < pb.len() && (#[trigger] pb[t])@ == v;
                        assert(primes@[t]@ == v);
                    } else {
                        let t = choose|t: int| 0 <= t < cb.len() && (#[trigger] cb[t])@ == v;
                        assert(composites@[t]@ == v);
                    }
                } else {
                    if is_prime(v) {
                        assert(primes@[primes@.len() - 1]@ == v);
                    } else {
                        assert(composites@[composites@.len() - 1]@ == v);
                    }
                }
            }
        }
        x = x.plus(&one);
    }
    (primes, composites)
}

/// Whether a factorisation falls in the requested category.
pub open spec fn category_ok(c: NumCategory, f: Seq<(Natural, u128)>) -> bool {
    match c {
        NumCategory::All => true,
        NumCategory::Composites => f.len() >= 2,
        NumCategory::CompositesPQ => f.len() == 2 && f[0].1 == 1 && f[1].1 == 1,
        NumCategory::Primes => false,
    }
}

/// Factors every number in `[start, end]` against one shared prime cache
/// and keeps the entries matching the category, pairing each kept number
/// with its factorisation and a pre-rendered table row.  Numbers below 2
/// are passed over.
pub fn list_prime_factors_in_range(start: &Natural, end: &Natural, opts: NumCategory) -> (res:
    Result<(Vec<NumFactorTable>, Vec<(Natural, Vec<(Natural, u128)>)>), NtError>)
    ensures
        match res {
            Ok(r) => {
                &&& r.0@.len() == r.1@.len()
                &&& forall|i: int|
                    0 <= i < r.1@.len() ==> {
                        &&& start@ <= (#[trigger] r.1@[i]).0@ <= end@
                        &&& r.1@[i].0@ >= 2
                        &&& valid_factor_seq(r.1@[i].1@, r.1@[i].0@)
                        &&& category_ok(opts, r.1@[i].1@)
                    }
                &&& forall|i: int, j: int| 0 <= i < j < r.1@.len() ==> r.1@[i].0@ < r.1@[j].0@
                &&& forall|i: int|
                    0 <= i < r.0@.len() ==> (#[trigger] r.0@[i]).number@ == dec_of(r.1@[i].0@)
                        && r.0@[i].factorisation@ == factors_form(
                        r.1@[i].1@,
                        r.1@[i].1@.len() as int,
                    )
            },
            Err(e) => e == NtError::UnresolvedResidue,
        },
{
    let one = Natural::from_u64(1);
    let two = Natural::from_u64(2);
    let mut primes: Vec<Natural> = Vec::new();
    primes.push(Natural::from_u64(2));
    let mut table_data: Vec<NumFactorTable> = Vec::new();
    let mut nums_pfactors: Vec<(Natural, Vec<(Natural, u128)>)> = Vec::new();
    let mut num = start.duplicate();
    while num.le(end)
        invariant
            one@ == 1,
            two@ == 2,
            crate::prime_factors::cache_wf(primes@),
            start@ <= num@,
            num@ <= end@ + 1 || num@ == start@,
            table_data@.len() == nums_pfactors@.len(),
            forall|i: int|
                0 <= i < nums_pfactors@.len() ==> {
                    &&& start@ <= (#[trigger] nums_pfactors@[i]).0@ < num@
                    &&& nums_pfactors@[i].0@ >= 2
                    &&& valid_factor_seq(nums_pfactors@[i].1@, nums_pfactors@[i].0@)
                    &&& category_ok(opts, nums_pfactors@[i].1@)
                },
            forall|i: int, j: int|
                0 <= i < j < nums_pfactors@.len() ==> nums_pfactors@[i].0@ < nums_pfactors@[j].0@,
            forall|i: int|
                0 <= i < table_data@.len() ==> (#[trigger] table_data@[i]).number@ == dec_of(
                    nums_pfactors@[i].0@,
                ) && table_data@[i].factorisation@ == factors_form(
                    nums_pfactors@[i].1@,
                    nums_pfactors@[i].1@.len() as int,
                ),
        decreases end@ + 1 - num@,
    {
        if num.le(&one) {
            num = num.plus(&one);
            continue ;
        }
        let p_factors = match num.prime_factors(&mut primes) {
            Ok(f) => f,
            Err(_) => {
                return Err(NtError::UnresolvedResidue);
            },
        };
        let keep: bool = match opts {
            NumCategory::All => true,
            NumCategory::Composites => p_factors.len() >= 2,
            NumCategory::CompositesPQ => {
                p_factors.len() == 2 && p_factors[0].1 == 1 && p_factors[1].1 == 1
            },
            NumCategory::Primes => false,
        };
        if keep {
            let mut form = String::new();
            format_prime_factors_print(&num, &p_factors, &mut form, &mut table_data);
            nums_pfactors.push((num.duplicate(), p_factors));
        }
        num = num.plus(&one);
    }
    Ok((table_data, nums_pfactors))
}

/// A unit base that fails to expose the compositeness of `n` in one
/// Miller-Rabin round.
pub open spec fn mr_non_witness(n: nat, a: nat) -> bool {
    2 <= a && a <= n - 2 && mr_round_passes(n, a)
}

/// Runs one deterministic Miller-Rabin round for every base in
/// `[2, n-1)` and reports the decomposition caption together with the
/// decimal renderings of the bases that pass (the non-witnesses).
pub fn ass1_question3_miller_rabin(n: &Natural) -> (r: (String, Vec<String>))
    requires
        n@ >= 4,
    ensures
        r.1@.len() > 0 ==> r.0@ == crate::primality::mr_form_text(n@),
        exists|bs: Seq<nat>|
            #[trigger] bs.len() == r.1@.len() && (forall|i: int|
                0 <= i < r.1@.len() ==> mr_non_witness(n@, bs[i]) && (#[trigger] r.1@[i])@
                    == dec_of(bs[i])),
{
    let one = Natural::from_u64(1);
    let n_minus_one = n.minus(&one);
    let mut n_minus_one_form = String::new();
    let mut form_filled = false;
    let mut non_witnesses: Vec<String> = Vec::new();
    let ghost mut bases: Seq<nat> = Seq::empty();
    let mut base = Natural::from_u64(2);
    while base.lt(&n_minus_one)
        invariant
            n@ >= 4,
            one@ == 1,
            n_minus_one@ == n@ - 1,
            2 <= base@,
            bases.len() == non_witnesses@.len(),
            form_filled == (non_witnesses@.len() > 0),
            form_filled ==> n_minus_one_form@ == crate::primality::mr_form_text(n@),
            forall|i: int| 0 <= i < non_witnesses@.len() ==> mr_non_witness(n@, #[trigger] bases[i]),
            forall|i: int|
                0 <= i < non_witnesses@.len() ==> (#[trigger] non_witnesses@[i])@ == dec_of(
                    bases[i],
                ),
        decreases n@ - base@,
    {
        let (passes, trace) = miller_rabin_test(n, &base);
        if passes {
            let ghost nwb = non_witnesses@;
            let ghost basesb = bases;
            let text = base.to_decimal();
            non_witnesses.push(text);
            proof {
                bases = bases.push(base@);
                assert(mr_non_witness(n@, base@));
                assert(non_witnesses@[non_witnesses@.len() - 1]@ == dec_of(base@));
                assert forall|i: int|
                    0 <= i < non_witnesses@.len() implies mr_non_witness(n@, bases[i]) && (
                #[trigger] non_witnesses@[i])@ == dec_of(bases[i]) by {
                    if i < non_witnesses@.len() - 1 {
                        assert(non_witnesses@[i] == nwb[i]);
                        assert(bases[i] == basesb[i]);
                        assert(mr_non_witness(n@, basesb[i]) && nwb[i]@ == dec_of(basesb[i]));
                    } else {
                        assert(bases[i] == base@);
                    }
                }
            }
            if !form_filled && trace.len() > 0 {
                proof {
                    assert(crate::primality::mr_row_ok(trace@[0], n@, base@, 0));
                }
                n_minus_one_form = trace[0].n_minus_one_form.clone();
                form_filled = true;
            }
        }
        base = base.plus(&one);
    }
    proof {
        assert(bases.len() == non_witnesses@.len());
        assert forall|i: int|
            0 <= i < non_witnesses@.len() implies mr_non_witness(n@, bases[i]) && (
        #[trigger] non_witnesses@[i])@ == dec_of(bases[i]) by {}
    }
    (n_minus_one_form, non_witnesses)
}

/// Finds the Carmichael numbers in `[start, end]`: the composite entries
/// of the factorisation scan that withstand the chosen detector, each
/// with its factorisation.
pub fn list_carmichael_nums(start: &Natural, end: &Natural, method: CarmichaelMethods) -> (res:
    Result<Vec<(Natural, Vec<(Natural, u128)>)>, NtError>)
    ensures
        match res {
            Ok(r) => forall|i: int|
                0 <= i < r@.len() ==> {
                    &&& start@ <= (#[trigger] r@[i]).0@ <= end@
                    &&& valid_factor_seq(r@[i].1@, r@[i].0@)
                    &&& r@[i].1@.len() >= 2
                    &&& (method == CarmichaelMethods::Fermat ==> (forall|x: nat|
                        1 <= x < r@[i].0@ && coprime(x, r@[i].0@) ==> #[trigger] pow(
                            x as int,
                            (r@[i].0@ - 1) as nat,
                        ) % (r@[i].0@ as int) == 1))
                    &&& (method == CarmichaelMethods::Korselt ==> (exists|
                        f: Seq<(Natural, u128)>,
                    |
                        #[trigger] valid_factor_seq(f, r@[i].0@) && squarefree_factors(f)
                            && korselt_divisibility(f, r@[i].0@)))
                },
            Err(e) => e == NtError::UnresolvedResidue,
        },
{
    let mut composites = match list_prime_factors_in_range(start, end, NumCategory::Composites) {
        Ok(r) => r.1,
        Err(e) => {
            return Err(e);
        },
    };
    let mut out: Vec<(Natural, Vec<(Natural, u128)>)> = Vec::new();
    let ghost mut fs: Seq<Seq<(Natural, u128)>> = Seq::empty();
    while composites.len() > 0
        invariant
            forall|t: int|
                0 <= t < composites@.len() ==> {
                    &&& start@ <= (#[trigger] composites@[t]).0@ <= end@
                    &&& composites@[t].0@ >= 2
                    &&& valid_factor_seq(composites@[t].1@, composites@[t].0@)
                    &&& composites@[t].1@.len() >= 2
                },
            forall|t: int| 0 <= t < out@.len() ==> start@ <= (#[trigger] out@[t]).0@ <= end@,
            forall|t: int|
                0 <= t < out@.len() ==> valid_factor_seq((#[trigger] out@[t]).1@, out@[t].0@),
            forall|t: int| 0 <= t < out@.len() ==> (#[trigger] out@[t]).1@.len() >= 2,
            method == CarmichaelMethods::Fermat ==> (forall|t: int, x: nat|
                0 <= t < out@.len() && 1 <= x < (#[trigger] out@[t]).0@ && coprime(
                    x,
                    out@[t].0@,
                ) ==> #[trigger] pow(x as int, (out@[t].0@ - 1) as nat) % (out@[t].0@ as int)
                    == 1),
            method == CarmichaelMethods::Korselt ==> fs.len() == out@.len(),
            method == CarmichaelMethods::Korselt ==> (forall|t: int|
                0 <= t < out@.len() ==> valid_factor_seq(#[trigger] fs[t], (out@[t]).0@)
                    && squarefree_factors(fs[t]) && korselt_divisibility(fs[t], out@[t].0@)),
        decreases composites@.len(),
    {
        let ghost before = composites@;
        let item = composites.remove(0);
        proof {
            assert(item == before[0]);
            assert(forall|t: int|
                0 <= t < composites@.len() ==> composites@[t] == before[t + 1]);
        }
        let keep: bool = match method {
            CarmichaelMethods::Fermat => carmichael_nums_flt(&item.0),
            CarmichaelMethods::Korselt => {
                match carmichael_nums_korselt(&item.0) {
                    Ok(b) => b,
                    Err(_) => {
                        return Err(NtError::UnresolvedResidue);
                    },
                }
            },
        };
        let ghost outb = out@;
        if keep {
            proof {
                assert(start@ <= item.0@ <= end@);
                assert(valid_factor_seq(item.1@, item.0@));
                assert(item.1@.len() >= 2);
            }
            out.push(item);
            proof {
                assert(out@[out@.len() - 1] == item);
                assert(forall|t: int| 0 <= t < outb.len() ==> out@[t] == outb[t]);
                if method == CarmichaelMethods::Korselt {
                    let f0 = choose|f: Seq<(Natural, u128)>|
                        #[trigger] valid_factor_seq(f, item.0@) && keep == (squarefree_factors(f)
                            && korselt_divisibility(f, item.0@));
                    fs = fs.push(f0);
                    assert(fs[fs.len() - 1] == f0);
                    assert(forall|t: int| 0 <= t < outb.len() ==> fs[t] == fs.drop_last()[t]);
                }
            }
        }
    }
    proof {
        assert forall|i: int| 0 <= i < out@.len() implies {
            &&& start@ <= (#[trigger] out@[i]).0@ <= end@
            &&& valid_factor_seq(out@[i].1@, out@[i].0@)
            &&& out@[i].1@.len() >= 2
            &&& (method == CarmichaelMethods::Fermat ==> (forall|x: nat|
                1 <= x < out@[i].0@ && coprime(x, out@[i].0@) ==> #[trigger] pow(
                    x as int,
                    (out@[i].0@ - 1) as nat,
                ) % (out@[i].0@ as int) == 1))
            &&& (method == CarmichaelMethods::Korselt ==> (exists|f: Seq<(Natural, u128)>|
                #[trigger] valid_factor_seq(f, out@[i].0@) && squarefree_factors(f)
                    && korselt_divisibility(f, out@[i].0@)))
        } by {
            if method == CarmichaelMethods::Korselt {
                assert(valid_factor_seq(fs[i], out@[i].0@) && squarefree_factors(fs[i])
                    && korselt_divisibility(fs[i], out@[i].0@));
            }
        }
    }
    Ok(out)
}

/// Splits `[start, end]` by the existence of primitive roots, rendering
/// each number in decimal.
pub fn search_nums_with_primitive_roots(start: &Natural, end: &Natural) -> (res: Result<
    (Vec<String>, Vec<String>),
    NtError,
>)
    ensures
        match res {
            Ok(r) => {
                &&& exists|vs: Seq<nat>|
                    #[trigger] vs.len() == r.0@.len() && (forall|i: int|
                        0 <= i < r.0@.len() ==> start@ <= vs[i] <= end@ && (#[trigger] r.0@[i])@
                            == dec_of(vs[i])) && (forall|i: int|
                        0 <= i < r.0@.len() ==> has_listed_prim_root(#[trigger] vs[i]))
                &&& exists|vs: Seq<nat>|
                    #[trigger] vs.len() == r.1@.len() && (forall|i: int|
                        0 <= i < r.1@.len() ==> start@ <= vs[i] <= end@ && (#[trigger] r.1@[i])@
                            == dec_of(vs[i])) && (forall|i: int|
                        0 <= i < r.1@.len() ==> no_listed_prim_root(#[trigger] vs[i]))
            },
            Err(e) => e == NtError::UnresolvedResidue,
        },
{
    let one = Natural::from_u64(1);
    let mut with_roots: Vec<String> = Vec::new();
    let mut without_roots: Vec<String> = Vec::new();
    let ghost mut with_vals: Seq<nat> = Seq::empty();
    let ghost mut without_vals: Seq<nat> = Seq::empty();
    let mut x = start.duplicate();
    while x.le(end)
        invariant
            one@ == 1,
            start@ <= x@,
            x@ <= end@ + 1 || x@ == start@,
            with_vals.len() == with_roots@.len(),
            without_vals.len() == without_roots@.len(),
            forall|i: int|
                0 <= i < with_roots@.len() ==> start@ <= #[trigger] with_vals[i] <= end@,
            forall|i: int|
                0 <= i < with_roots@.len() ==> has_listed_prim_root(#[trigger] with_vals[i]),
            forall|i: int|
                0 <= i < with_roots@.len() ==> (#[trigger] with_roots@[i])@ == dec_of(
                    with_vals[i],
                ),
            forall|i: int|
                0 <= i < without_roots@.len() ==> start@ <= #[trigger] without_vals[i] <= end@,
            forall|i: int|
                0 <= i < without_roots@.len() ==> no_listed_prim_root(#[trigger] without_vals[i]),
            forall|i: int|
                0 <= i < without_roots@.len() ==> (#[trigger] without_roots@[i])@ == dec_of(
                    without_vals[i],
                ),
        decreases end@ + 1 - x@,
    {
        let roots = match crate::groups_modulo_n::primitive_roots_trial_n_error(&x) {
            Ok(r) => r,
            Err(e) => {
                return Err(e);
            },
        };
        let ghost phi = crate::groups_modulo_n::coprime_count(x@, x@);
        if roots.len() > 0 {
            proof {
                // a non-empty root list is only produced for a totient of
                // at least 2, and its first entry witnesses a root
                assert(phi >= 2);
                let f = choose|f: Seq<(Natural, u128)>|
                    #[trigger] valid_factor_seq(f, phi) && (forall|v: nat|
                        crate::groups_modulo_n::contains_value(roots@, v) <==> (1 <= v < x@
                            && coprime(v, x@) && crate::groups_modulo_n::prim_root_listed(
                            v,
                            x@,
                            phi,
                            f,
                        )));
                assert(crate::groups_modulo_n::contains_value(roots@, roots@[0]@));
                assert(crate::groups_modulo_n::prim_root_listed(roots@[0]@, x@, phi, f));
                assert(has_listed_prim_root(x@));
            }
            with_roots.push(x.to_decimal());
            proof {
                with_vals = with_vals.push(x@);
                assert(with_roots@[with_roots@.len() - 1]@ == dec_of(x@));
            }
        } else {
            proof {
                if phi >= 2 {
                    let f = choose|f: Seq<(Natural, u128)>|
                        #[trigger] valid_factor_seq(f, phi) && (forall|v: nat|
                            crate::groups_modulo_n::contains_value(roots@, v) <==> (1 <= v < x@
                                && coprime(v, x@) && crate::groups_modulo_n::prim_root_listed(
                                v,
                                x@,
                                phi,
                                f,
                            )));
                    assert forall|a: nat|
                        1 <= a < x@ && coprime(a, x@) implies !(
                    #[trigger] crate::groups_modulo_n::prim_root_listed(a, x@, phi, f)) by {
                        if crate::groups_modulo_n::prim_root_listed(a, x@, phi, f) {
                            assert(crate::groups_modulo_n::contains_value(roots@, a));
                        }
                    }
                }
                assert(no_listed_prim_root(x@));
            }
            without_roots.push(x.to_decimal());
            proof {
                without_vals = without_vals.push(x@);
                assert(without_roots@[without_roots@.len() - 1]@ == dec_of(x@));
            }
        }
        x = x.plus(&one);
    }
    proof {
        assert forall|i: int|
            0 <= i < with_roots@.len() implies start@ <= with_vals[i] <= end@ && (
        #[trigger] with_roots@[i])@ == dec_of(with_vals[i]) by {}
        assert(forall|i: int|
            0 <= i < with_roots@.len() ==> has_listed_prim_root(#[trigger] with_vals[i]));
        assert(forall|i: int|
            0 <= i < without_roots@.len() ==> no_listed_prim_root(#[trigger] without_vals[i]));
        assert forall|i: int|
            0 <= i < without_roots@.len() implies start@ <= without_vals[i] <= end@ && (
        #[trigger] without_roots@[i])@ == dec_of(without_vals[i]) by {}
        assert(with_vals.len() == with_roots@.len());
        assert(without_vals.len() == without_roots@.len());
    }
    Ok((with_roots, without_roots))
}

} // verus!
