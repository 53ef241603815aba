//! Matrix preparation for the quadratic sieve: find a factor base by
//! Euler's criterion, scan a window around √n for smooth values of
//! x² − n, and record each smooth value's exponent row.

use crate::natural::Natural;
use crate::prime_factors::{valid_factor_seq, PrimeFactors};
use crate::utils::mod_pow_pos;
use crate::NtError;
use vstd::arithmetic::power::pow;
use vstd::prelude::*;

verus! {

/// A vector of `size` zeroes.
pub fn zeros(size: usize) -> (r: Vec<i32>)
    ensures
        r@.len() == size,
        forall|i: int| 0 <= i < r@.len() ==> r@[i] == 0,
{
    let mut zero_vec: Vec<i32> = Vec::new();
    while zero_vec.len() < size
        invariant
            zero_vec@.len() <= size,
            forall|i: int| 0 <= i < zero_vec@.len() ==> zero_vec@[i] == 0,
        decreases size - zero_vec@.len(),
    {
        zero_vec.push(0);
    }
    zero_vec
}

/// The candidate factor base the sieve starts from.
pub open spec fn sieve_base_candidates() -> Seq<nat> {
    seq![2nat, 5, 7, 11, 13, 17, 19, 23, 29, 31, 37, 41]
}

/// Euler's criterion: `n` is a quadratic residue modulo `p` when
/// `n^((p-1)/2) ≡ 1 (mod p)`.
pub open spec fn euler_criterion(n: nat, p: nat) -> bool {
    pow(n as int, ((p - 1) / 2) as nat) % (p as int) == 1
}

/// The value of the list entry at `j` (0 when out of range).
pub open spec fn value_at(list: Seq<Natural>, j: int) -> nat {
    if 0 <= j < list.len() {
        list[j]@
    } else {
        0
    }
}

/// The multiplicity of base `p` in a factorisation (0 when absent).
pub open spec fn mult_of(f: Seq<(Natural, u128)>, p: nat) -> nat
    decreases f.len(),
{
    if f.len() == 0 {
        0
    } else if f.last().0@ == p {
        f.last().1 as nat
    } else {
        mult_of(f.drop_last(), p)
    }
}

/// In a factorisation the multiplicity of a base found at some index is
/// that entry's count.
proof fn lemma_mult_of_found(f: Seq<(Natural, u128)>, t: int, p: nat)
    requires
        0 <= t < f.len(),
        f[t].0@ == p,
        forall|i: int, j: int| 0 <= i < j < f.len() ==> f[i].0@ < f[j].0@,
    ensures
        mult_of(f, p) == f[t].1 as nat,
    decreases f.len(),
{
    if t == f.len() - 1 {
    } else {
        assert(f[t].0@ < f[f.len() - 1].0@);
        assert(f.drop_last()[t] == f[t]);
        lemma_mult_of_found(f.drop_last(), t, p);
    }
}

/// A base absent from a factorisation has multiplicity 0.
proof fn lemma_mult_of_absent(f: Seq<(Natural, u128)>, p: nat)
    requires
        forall|i: int| 0 <= i < f.len() ==> (#[trigger] f[i]).0@ != p,
    ensures
        mult_of(f, p) == 0,
    decreases f.len(),
{
    if f.len() > 0 {
        assert(forall|i: int| 0 <= i < f.drop_last().len() ==> (#[trigger] f.drop_last()[i]).0@
            != p);
        lemma_mult_of_absent(f.drop_last(), p);
    }
}

/// The index of the entry with value `p` in an ascending list, if any.
fn find_value(list: &Vec<Natural>, p: &Natural) -> (r: Option<usize>)
    ensures
        match r {
            Some(t) => t < list@.len() && list@[t as int]@ == p@,
            None => forall|t: int| 0 <= t < list@.len() ==> (#[trigger] list@[t])@ != p@,
        },
{
    let mut t: usize = 0;
    while t < list.len()
        invariant
            t <= list@.len(),
            forall|u: int| 0 <= u < t ==> (#[trigger] list@[u])@ != p@,
        decreases list@.len() - t,
    {
        if list[t].cmp_with(p) == 0 {
            return Some(t);
        }
        t = t + 1;
    }
    None
}

/// The index of the factor with base `p` in a factorisation, if any.
fn find_factor(f: &Vec<(Natural, u128)>, p: &Natural) -> (r: Option<usize>)
    ensures
        match r {
            Some(t) => t < f@.len() && f@[t as int].0@ == p@,
            None => forall|t: int| 0 <= t < f@.len() ==> (#[trigger] f@[t]).0@ != p@,
        },
{
    let mut t: usize = 0;
    while t < f.len()
        invariant
            t <= f@.len(),
            forall|u: int| 0 <= u < t ==> (#[trigger] f@[u]).0@ != p@,
        decreases f@.len() - t,
    {
        if f[t].0.cmp_with(p) == 0 {
            return Some(t);
        }
        t = t + 1;
    }
    None
}

/// Builds the sieve matrix for `n`: keeps the candidate primes passing
/// Euler's criterion as the factor base, then walks the window from
/// √n − 100 to √n + 200 and, for every x whose |x² − n| factors entirely
/// over the base, emits a row holding a sign bit followed by the exponent
/// of each base prime.  Values whose factorisation cannot be settled
/// (or whose exponents overflow the matrix entries) are passed over.
pub fn prepare_matrix(n: &Natural) -> (res: Result<(Vec<Natural>, Vec<Vec<i32>>), NtError>)
    ensures
        match res {
            Ok(r) => {
                &&& forall|j: int|
                    0 <= j < r.0@.len() ==> euler_criterion(n@, (#[trigger] r.0@[j])@)
                &&& forall|j: int, k: int| 0 <= j < k < r.0@.len() ==> r.0@[j]@ < r.0@[k]@
                &&& forall|t: int|
                    0 <= t < r.1@.len() ==> (#[trigger] r.1@[t]).len() == r.0@.len() + 1
                &&& forall|t: int|
                    0 <= t < r.1@.len() ==> ((#[trigger] r.1@[t])[0] == 0 || r.1@[t]@[0] == 1)
                &&& exists|ys: Seq<nat>, fss: Seq<Seq<(Natural, u128)>>|
                    #![trigger ys.len(), fss.len()]
                    ys.len() == r.1@.len() && fss.len() == r.1@.len() && (forall|t: int|
                        0 <= t < r.1@.len() ==> valid_factor_seq(#[trigger] fss[t], ys[t])) && (
                    forall|t: int, j: int|
                        #![trigger r.1@[t]@[j]]
                        0 <= t < r.1@.len() && 1 <= j < r.1@[t]@.len() ==> r.1@[t]@[j] >= 0
                            && r.1@[t]@[j] as nat == mult_of(fss[t], value_at(r.0@, j - 1)))
            },
            Err(e) => e == NtError::UnresolvedResidue,
        },
{
    let one = Natural::from_u64(1);
    let mut primes: Vec<Natural> = Vec::new();
    primes.push(Natural::from_u64(2));
    let candidates: Vec<u64> = vec![2u64, 5, 7, 11, 13, 17, 19, 23, 29, 31, 37, 41];
    proof {
        assert(candidates@.len() == sieve_base_candidates().len());
        assert(forall|j: int|
            0 <= j < candidates@.len() ==> #[trigger] candidates@[j] as nat
                == sieve_base_candidates()[j]);
    }
    let two = Natural::from_u64(2);
    let mut fb_raw: Vec<Natural> = Vec::new();
    let mut ci: usize = 0;
    while ci < candidates.len()
        invariant
            one@ == 1,
            two@ == 2,
            ci <= candidates@.len(),
            forall|j: int|
                0 <= j < fb_raw@.len() ==> euler_criterion(n@, (#[trigger] fb_raw@[j])@),
        decreases candidates@.len() - ci,
    {
        let c = candidates[ci];
        if c >= 2 {
            let p = Natural::from_u64(c);
            let pm = p.minus(&one);
            let (e, _) = pm.div_rem(&two);
            let x = mod_pow_pos(n, &e, &p);
            if x.cmp_with(&one) == 0 {
                proof {
                    assert(euler_criterion(n@, p@));
                }
                fb_raw.push(p);
            }
        }
        ci = ci + 1;
    }
    let factor_base = crate::groups_modulo_n::sort_dedup(&fb_raw);
    proof {
        assert forall|j: int|
            0 <= j < factor_base@.len() implies euler_criterion(
            n@,
            (#[trigger] factor_base@[j])@,
        ) by {
            assert(crate::groups_modulo_n::contains_value(factor_base@, factor_base@[j]@));
            assert(crate::groups_modulo_n::contains_value(fb_raw@, factor_base@[j]@));
            let t = choose|t: int|
                0 <= t < fb_raw@.len() && (#[trigger] fb_raw@[t])@ == factor_base@[j]@;
            assert(euler_criterion(n@, fb_raw@[t]@));
        }
    }
    let sqrt = n.sqrt_floor();
    let hundred = Natural::from_u64(100);
    let start = if hundred.le(&sqrt) {
        sqrt.minus(&hundred)
    } else {
        Natural::zero()
    };
    let end = sqrt.plus(&Natural::from_u64(200));
    let mut rows: Vec<Vec<i32>> = Vec::new();
    let ghost mut ys: Seq<nat> = Seq::empty();
    let ghost mut fss: Seq<Seq<(Natural, u128)>> = Seq::empty();
    let mut i = start.duplicate();
    while i.le(&end)
        invariant
            one@ == 1,
            crate::prime_factors::cache_wf(primes@),
            i@ <= end@ + 1 || i@ == start@,
            forall|j: int|
                0 <= j < factor_base@.len() ==> euler_criterion(n@, (#[trigger] factor_base@[j])@),
            forall|j: int, k: int|
                0 <= j < k < factor_base@.len() ==> factor_base@[j]@ < factor_base@[k]@,
            ys.len() == rows@.len(),
            fss.len() == rows@.len(),
            forall|t: int|
                0 <= t < rows@.len() ==> (#[trigger] rows@[t]).len() == factor_base@.len() + 1,
            forall|t: int|
                0 <= t < rows@.len() ==> ((#[trigger] rows@[t])[0] == 0 || rows@[t]@[0] == 1),
            forall|t: int|
                0 <= t < rows@.len() ==> valid_factor_seq(#[trigger] fss[t], ys[t]),
            forall|t: int, j: int|
                #![trigger rows@[t]@[j]]
                0 <= t < rows@.len() && 1 <= j < rows@[t]@.len() ==> rows@[t]@[j] >= 0
                    && rows@[t]@[j] as nat == mult_of(fss[t], value_at(factor_base@, j - 1)),
        decreases end@ + 1 - i@,
    {
        let isq = i.times(&i);
        let y = if n.le(&isq) {
            isq.minus(n)
        } else {
            n.minus(&isq)
        };
        let sign: i32 = if i.lt(&sqrt) {
            1
        } else {
            0
        };
        if one.lt(&y) {
            let f = match y.prime_factors(&mut primes) {
                Ok(f) => f,
                Err(_) => {
                    return Err(NtError::UnresolvedResidue);
                },
            };
            let mut smooth = true;
            let mut ti: usize = 0;
            while ti < f.len()
                invariant
                    ti <= f@.len(),
                    smooth ==> (forall|u: int|
                        0 <= u < ti ==> crate::groups_modulo_n::contains_value(
                            factor_base@,
                            (#[trigger] f@[u]).0@,
                        ) && f@[u].1 <= i32::MAX as u128),
                    !smooth ==> true,
                decreases f@.len() - ti,
            {
                match find_value(&factor_base, &f[ti].0) {
                    Some(fi) => {
                        proof {
                            assert(factor_base@[fi as int]@ == f@[ti as int].0@);
                        }
                        if f[ti].1 > (i32::MAX as u128) {
                            smooth = false;
                        }
                    },
                    None => {
                        smooth = false;
                    },
                }
                ti = ti + 1;
            }
            if smooth {
                let mut row: Vec<i32> = Vec::new();
                row.push(sign);
                let mut j: usize = 0;
                while j < factor_base.len()
                    invariant
                        j <= factor_base@.len(),
                        row@.len() == j + 1,
                        row@[0] == 0 || row@[0] == 1,
                        valid_factor_seq(f@, y@),
                        forall|u: int, v: int| 0 <= u < v < f@.len() ==> f@[u].0@ < f@[v].0@,
                        forall|u: int|
                            0 <= u < j ==> #[trigger] row@[u + 1] >= 0 && row@[u + 1] as nat
                                == mult_of(f@, factor_base@[u]@),
                        forall|u: int|
                            0 <= u < f@.len() ==> (#[trigger] f@[u]).1 <= i32::MAX as u128,
                    decreases factor_base@.len() - j,
                {
                    let entry: i32 = match find_factor(&f, &factor_base[j]) {
                        Some(t) => {
                            proof {
                                lemma_mult_of_found(f@, t as int, factor_base@[j as int]@);
                            }
                            f[t].1 as i32
                        },
                        None => {
                            proof {
                                lemma_mult_of_absent(f@, factor_base@[j as int]@);
                            }
                            0
                        },
                    };
                    row.push(entry);
                    j = j + 1;
                }
                let ghost rb = rows@;
                let ghost ysb = ys;
                let ghost fsb = fss;
                let ghost rowg = row@;
                proof {
                    assert forall|u: int|
                        0 <= u < factor_base@.len() implies #[trigger] rowg[u + 1] >= 0 && rowg[u
                        + 1] as nat == mult_of(f@, factor_base@[u]@) by {
                        assert(row@[u + 1] >= 0 && row@[u + 1] as nat == mult_of(
                            f@,
                            factor_base@[u]@,
                        ));
                    }
                }
                rows.push(row);
                proof {
                    ys = ys.push(y@);
                    fss = fss.push(f@);
                    assert(forall|t: int| 0 <= t < rb.len() ==> rows@[t] == rb[t]);
                    assert(forall|t: int| 0 <= t < rb.len() ==> fss[t] == fsb[t]);
                    assert(forall|t: int| 0 <= t < rb.len() ==> ys[t] == ysb[t]);
                    assert(rows@[rows@.len() - 1]@ == rowg);
                    assert forall|t: int|
                        0 <= t < rows@.len() implies valid_factor_seq(
                        #[trigger] fss[t],
                        ys[t],
                    ) by {
                        if t < rows@.len() - 1 {
                            assert(fss[t] == fsb[t]);
                            assert(ys[t] == ysb[t]);
                        } else {
                            assert(fss[t] == f@);
                            assert(ys[t] == y@);
                        }
                    }
                    assert forall|t: int, j: int|
                        #![trigger rows@[t]@[j]]
                        0 <= t < rows@.len() && 1 <= j < rows@[t]@.len() implies rows@[t]@[j]
                        >= 0 && rows@[t]@[j] as nat == mult_of(
                        fss[t],
                        value_at(factor_base@, j - 1),
                    ) by {
                        if t < rows@.len() - 1 {
                            assert(rows@[t] == rb[t]);
                            assert(fss[t] == fsb[t]);
                        } else {
                            assert(fss[t] == f@);
                            assert(rows@[t]@ == rowg);
                            assert(rowg[(j - 1) + 1] >= 0 && rowg[(j - 1) + 1] as nat == mult_of(
                                f@,
                                factor_base@[j - 1]@,
                            ));
                            assert(value_at(factor_base@, j - 1) == factor_base@[j - 1]@);
                        }
                    }

                }
            }
        }
        i = i.plus(&one);
    }
    proof {
        assert(ys.len() == rows@.len() && fss.len() == rows@.len());
    }
    Ok((factor_base, rows))
}

} // verus!