//! The multiplicative structure of the integers modulo n: coprime
//! residues, Euler's totient, divisors, orders and primitive roots.

use crate::natural::Natural;
use crate::prime_factors::{pow_nat, valid_factor_seq, PrimeFactors};
use crate::utils::{divides, is_gcd, mod_pow_pos};
use crate::NtError;
use vstd::arithmetic::div_mod::{
    lemma_fundamental_div_mod, lemma_mod_multiples_basic, lemma_small_mod,
};
use vstd::arithmetic::power::{
    lemma0_pow, lemma_pow0, lemma_pow1, lemma_pow_adds, lemma_pow_positive, pow,
};
use vstd::prelude::*;

verus! {

/// No number at least 2 divides both `a` and `b`.
pub open spec fn coprime(a: nat, b: nat) -> bool {
    forall|g: nat| g >= 2 ==> !(#[trigger] divides(g, a) && divides(g, b))
}

/// A greatest common divisor of 1 means exactly that the two numbers are
/// coprime.
pub proof fn lemma_gcd_one_iff_coprime(g: nat, a: nat, b: nat)
    requires
        is_gcd(g, a, b),
    ensures
        (g == 1) == coprime(a, b),
{
    if g == 1 {
        assert forall|gg: nat| gg >= 2 implies !(#[trigger] divides(gg, a) && divides(
            gg,
            b,
        )) by {
            if divides(gg, a) && divides(gg, b) {
                assert(divides(gg, g));
                lemma_small_mod(1, gg);
            }
        }
    } else {
        assert(divides(g, a) && divides(g, b));
        assert(g >= 2);
    }
}

/// Whether two numbers (not both zero) are coprime, decided through the
/// greatest common divisor.
pub fn coprime_check(a: &Natural, b: &Natural) -> (r: bool)
    requires
        a@ + b@ > 0,
    ensures
        r == coprime(a@, b@),
{
    let one = Natural::from_u64(1);
    let g = a.gcd(b);
    proof {
        lemma_gcd_one_iff_coprime(g@, a@, b@);
    }
    g.cmp_with(&one) == 0
}

/// How many of the numbers in `[1, upto)` are coprime to `n`.
pub open spec fn coprime_count(n: nat, upto: nat) -> nat
    decreases upto,
{
    if upto <= 1 {
        0
    } else {
        coprime_count(n, (upto - 1) as nat) + if coprime((upto - 1) as nat, n) {
            1nat
        } else {
            0nat
        }
    }
}

/// Whether some element of the list carries the value `v`.
pub open spec fn contains_value(s: Seq<Natural>, v: nat) -> bool {
    exists|i: int| 0 <= i < s.len() && (#[trigger] s[i])@ == v
}

/// The ascending list of integers in `[1, n)` that are coprime to `n`.
pub fn coprime_nums_less_than_n(n: &Natural) -> (out: Vec<Natural>)
    ensures
        out@.len() == coprime_count(n@, n@),
        forall|i: int| 0 <= i < out@.len() ==> 1 <= (#[trigger] out@[i])@ < n@ && coprime(out@[i]@, n@),
        forall|i: int, j: int| 0 <= i < j < out@.len() ==> out@[i]@ < out@[j]@,
        forall|v: nat| 1 <= v < n@ && coprime(v, n@) ==> contains_value(out@, v),
{
    let one = Natural::from_u64(1);
    let mut out: Vec<Natural> = Vec::new();
    let mut x = Natural::from_u64(1);
    while x.lt(n)
        invariant
            one@ == 1,
            1 <= x@,
            x@ <= n@ || n@ == 0,
            n@ == 0 ==> x@ == 1,
            out@.len() == coprime_count(n@, x@),
            forall|i: int|
                0 <= i < out@.len() ==> 1 <= (#[trigger] out@[i])@ < x@ && coprime(out@[i]@, n@),
            forall|i: int, j: int| 0 <= i < j < out@.len() ==> out@[i]@ < out@[j]@,
            forall|v: nat| 1 <= v < x@ && coprime(v, n@) ==> contains_value(out@, v),
        decreases n@ - x@,
    {
        if coprime_check(&x, n) {
            let ghost before = out@;
            out.push(x.duplicate());
            proof {
                assert forall|v: nat| 1 <= v < x@ + 1 && coprime(v, n@) implies contains_value(
                    out@,
                    v,
                ) by {
                    if v < x@ {
                        let i = choose|i: int| 0 <= i < before.len() && (#[trigger] before[i])@ == v;
                        assert(out@[i]@ == v);
                    } else {
                        assert(out@[out@.len() - 1]@ == v);
                    }
                }
            }
        }
        x = x.plus(&one);
    }
    out
}

/// Euler's totient of `n`, obtained by counting the coprime residues.
pub fn euler_totient_phi_counting_coprimes(n: &Natural) -> (r: Natural)
    ensures
        r@ == coprime_count(n@, n@),
{
    let coprimes = coprime_nums_less_than_n(n);
    Natural::from_u64(coprimes.len() as u64)
}

/// Sorts a list of values ascending and drops duplicates: the result
/// carries exactly the values of the input, each once, in order.
pub fn sort_dedup(input: &Vec<Natural>) -> (out: Vec<Natural>)
    ensures
        forall|i: int, j: int| 0 <= i < j < out@.len() ==> out@[i]@ < out@[j]@,
        forall|v: nat| contains_value(out@, v) <==> contains_value(input@, v),
{
    let mut out: Vec<Natural> = Vec::new();
    let mut i: usize = 0;
    while i < input.len()
        invariant
            i <= input@.len(),
            forall|a: int, b: int| 0 <= a < b < out@.len() ==> out@[a]@ < out@[b]@,
            forall|v: nat|
                contains_value(out@, v) <==> (exists|t: int|
                    0 <= t < i && (#[trigger] input@[t])@ == v),
        decreases input@.len() - i,
    {
        let v = &input[i];
        let mut pos: usize = 0;
        let mut dup = false;
        loop
            invariant_except_break
                !dup,
            invariant
                pos <= out@.len(),
                forall|t: int| 0 <= t < pos ==> (#[trigger] out@[t])@ < v@,
            ensures
                pos <= out@.len(),
                forall|t: int| 0 <= t < pos ==> (#[trigger] out@[t])@ < v@,
                dup ==> pos < out@.len() && out@[pos as int]@ == v@,
                !dup ==> pos == out@.len() || out@[pos as int]@ > v@,
            decreases out@.len() - pos,
        {
            if pos >= out.len() {
                break ;
            }
            let c = out[pos].cmp_with(v);
            if c == 0 {
                dup = true;
                break ;
            }
            if c == 1 {
                break ;
            }
            pos = pos + 1;
        }
        let ghost before = out@;
        if !dup {
            out.insert(pos, v.duplicate());
            proof {
                assert forall|a: int, b: int| 0 <= a < b < out@.len() implies out@[a]@
                    < out@[b]@ by {
                    if b < pos {
                    } else if a < pos && b == pos {
                    } else if a == pos {
                        assert(out@[b] == before[b - 1]);
                        assert(before[pos as int]@ <= before[b - 1]@);
                    } else if a >= pos && a != b {
                        assert(out@[a] == before[a - 1]);
                        assert(out@[b] == before[b - 1]);
                    }
                }
                assert forall|w: nat|
                    contains_value(out@, w) <==> (contains_value(before, w) || w == v@) by {
                    if contains_value(out@, w) {
                        let t = choose|t: int| 0 <= t < out@.len() && (#[trigger] out@[t])@ == w;
                        if t < pos {
                            assert(before[t]@ == w);
                        } else if t == pos {
                        } else {
                            assert(before[t - 1]@ == w);
                        }
                    }
                    if contains_value(before, w) {
                        let t = choose|t: int|
                            0 <= t < before.len() && (#[trigger] before[t])@ == w;
                        if t < pos {
                            assert(out@[t]@ == w);
                        } else {
                            assert(out@[t + 1]@ == w);
                        }
                    }
                    if w == v@ {
                        assert(out@[pos as int]@ == w);
                    }
                }
            }
        }
        proof {
            assert forall|w: nat|
                contains_value(out@, w) <==> (exists|t: int|
                    0 <= t < i + 1 && (#[trigger] input@[t])@ == w) by {
                if contains_value(out@, w) {
                    if dup {
                        assert(out@ == before);
                        assert(contains_value(before, w));
                    } else {
                        assert(contains_value(before, w) || w == v@);
                        if w == v@ {
                            assert(input@[i as int]@ == w);
                        } else {
                            assert(contains_value(before, w));
                        }
                    }
                }
                if exists|t: int| 0 <= t < i + 1 && (#[trigger] input@[t])@ == w {
                    let t = choose|t: int| 0 <= t < i + 1 && (#[trigger] input@[t])@ == w;
                    if t < i {
                        assert(contains_value(before, w));
                        if dup {
                            assert(out@ == before);
                        }
                        assert(contains_value(out@, w));
                    } else {
                        assert(w == v@);
                        assert(out@[pos as int]@ == v@);
                        assert(contains_value(out@, w));
                    }
                }
            }
        }
        i = i + 1;
    }
    out
}

/// Raises a `Natural` to a machine-integer power by repeated
/// multiplication.
pub fn pow_exact(b: &Natural, e: u128) -> (r: Natural)
    ensures
        r@ == pow_nat(b@, e as nat),
{
    if b.is_zero() {
        proof {
            lemma_pow0(b@ as int);
        }
        if e == 0 {
            return Natural::from_u64(1);
        }
        proof {
            lemma0_pow(e as nat);
        }
        return Natural::zero();
    }
    let mut acc = Natural::from_u64(1);
    let mut t: u128 = 0;
    proof {
        lemma_pow0(b@ as int);
    }
    while t < e
        invariant
            b@ >= 1,
            t <= e,
            acc@ == pow_nat(b@, t as nat),
        decreases e - t,
    {
        proof {
            lemma_pow1(b@ as int);
            lemma_pow_adds(b@ as int, t as nat, 1);
            lemma_pow_positive(b@ as int, t as nat);
            lemma_pow_positive(b@ as int, (t + 1) as nat);
        }
        acc = acc.times(b);
        t = t + 1;
    }
    acc
}

/// Membership in the divisor listing that the factor walk produces: every
/// power of a listed factor that divides `n`, and its cofactor.
pub open spec fn div_listed(f: Seq<(Natural, u128)>, n: nat, v: nat) -> bool {
    exists|t: int, i: nat|
        0 <= t < f.len() && divides(#[trigger] pow_nat(f[t].0@, i), n) && (v == pow_nat(
            f[t].0@,
            i,
        ) || v == n / pow_nat(f[t].0@, i))
}

/// Once a power of `p` fails to divide `n`, no higher power can.
proof fn lemma_pow_divides_consecutive(p: nat, n: nat, j: nat, i: nat)
    requires
        p >= 2,
        n >= 1,
        j <= i,
        divides(pow_nat(p, i), n),
    ensures
        divides(pow_nat(p, j), n),
{
    lemma_pow_adds(p as int, j, (i - j) as nat);
    lemma_pow_positive(p as int, j);
    lemma_pow_positive(p as int, i);
    lemma_pow_positive(p as int, (i - j) as nat);
    assert(pow_nat(p, i) % pow_nat(p, j) == 0) by {
        lemma_mod_multiples_basic(pow_nat(p, (i - j) as nat) as int, pow_nat(p, j) as int);
        assert(pow_nat(p, j) * pow_nat(p, (i - j) as nat) == pow_nat(p, (i - j) as nat) * pow_nat(
            p,
            j,
        )) by (nonlinear_arith);
    }
    crate::primality::lemma_divides_transitive(pow_nat(p, j), pow_nat(p, i), n);
}

/// The divisors of `n` harvested from a fresh factorisation: for each
/// factor `p`, every power `p^i` dividing `n` together with its cofactor
/// `n / p^i`, sorted ascending without duplicates.  (Divisors mixing
/// several distinct factors are outside this listing's reach.)
pub fn divisors_of_n(n: &Natural) -> (res: Result<Vec<Natural>, NtError>)
    ensures
        match res {
            Ok(out) => {
                &&& n@ >= 2
                &&& exists|f: Seq<(Natural, u128)>|
                    #[trigger] valid_factor_seq(f, n@) && (forall|i: int, j: int|
                        0 <= i < j < out@.len() ==> out@[i]@ < out@[j]@) && (forall|v: nat|
                        contains_value(out@, v) <==> div_listed(f, n@, v))
            },
            Err(e) => {
                &&& (e == NtError::InvalidInput <==> n@ <= 1)
                &&& e != NtError::SearchExhausted
            },
        },
{
    let mut primes: Vec<Natural> = Vec::new();
    primes.push(Natural::from_u64(2));
    let f = match n.prime_factors(&mut primes) {
        Ok(f) => f,
        Err(e) => {
            return Err(e);
        },
    };
    let mut coll: Vec<Natural> = Vec::new();
    let mut t: usize = 0;
    while t < f.len()
        invariant
            n@ >= 2,
            forall|u: int| 0 <= u < f@.len() ==> (#[trigger] f@[u]).0@ >= 2,
            t <= f@.len(),
            forall|v: nat|
                contains_value(coll@, v) <==> (exists|u: int, i: nat|
                    0 <= u < t && divides(#[trigger] pow_nat(f@[u].0@, i), n@) && (v == pow_nat(
                        f@[u].0@,
                        i,
                    ) || v == n@ / pow_nat(f@[u].0@, i))),
        decreases f@.len() - t,
    {
        let p = &f[t].0;
        let mut power = Natural::from_u64(1);
        let ghost mut i: nat = 0;
        proof {
            lemma_pow0(p@ as int);
            assert(power@ <= n@ * p@) by (nonlinear_arith)
                requires
                    power@ == 1,
                    n@ >= 2,
                    p@ >= 2,
            {}
        }
        loop
            invariant
                n@ >= 2,
                p@ >= 2,
                p == f@[t as int].0,
                t < f@.len(),
                forall|u: int| 0 <= u < f@.len() ==> (#[trigger] f@[u]).0@ >= 2,
                power@ == pow_nat(p@, i),
                power@ >= 1,
                power@ <= n@ * p@,
                forall|v: nat|
                    contains_value(coll@, v) <==> ((exists|u: int, ii: nat|
                        0 <= u < t && divides(#[trigger] pow_nat(f@[u].0@, ii), n@) && (v
                            == pow_nat(f@[u].0@, ii) || v == n@ / pow_nat(f@[u].0@, ii))) || (
                    exists|ii: nat|
                        ii < i && divides(#[trigger] pow_nat(p@, ii), n@) && (v == pow_nat(p@, ii)
                            || v == n@ / pow_nat(p@, ii)))),
            ensures
                forall|v: nat|
                    contains_value(coll@, v) <==> ((exists|u: int, ii: nat|
                        0 <= u < t && divides(#[trigger] pow_nat(f@[u].0@, ii), n@) && (v
                            == pow_nat(f@[u].0@, ii) || v == n@ / pow_nat(f@[u].0@, ii))) || (
                    exists|ii: nat|
                        divides(#[trigger] pow_nat(p@, ii), n@) && (v == pow_nat(p@, ii) || v == n@
                            / pow_nat(p@, ii)))),
            decreases n@ * p@ + 1 - power@,
        {
            let (q, rem) = n.div_rem(&power);
            if !rem.is_zero() {
                proof {
                    assert forall|ii: nat|
                        divides(#[trigger] pow_nat(p@, ii), n@) implies ii < i by {
                        if ii >= i {
                            lemma_pow_divides_consecutive(p@, n@, i, ii);
                        }
                    }
                }
                break ;
            }
            let ghost before = coll@;
            coll.push(q);
            coll.push(power.duplicate());
            proof {
                lemma_pow_positive(p@ as int, i);
                assert(divides(pow_nat(p@, i), n@));
                assert(coll@.len() == before.len() + 2);
                assert(forall|w: int| 0 <= w < before.len() ==> coll@[w] == before[w]);
                assert(coll@[coll@.len() - 1]@ == pow_nat(p@, i));
                assert(coll@[coll@.len() - 2]@ == n@ / pow_nat(p@, i));
                assert forall|v: nat|
                    contains_value(coll@, v) <==> ((exists|u: int, ii: nat|
                        0 <= u < t && divides(#[trigger] pow_nat(f@[u].0@, ii), n@) && (v
                            == pow_nat(f@[u].0@, ii) || v == n@ / pow_nat(f@[u].0@, ii))) || (
                    exists|ii: nat|
                        ii < i + 1 && divides(#[trigger] pow_nat(p@, ii), n@) && (v == pow_nat(
                            p@,
                            ii,
                        ) || v == n@ / pow_nat(p@, ii)))) by {
                    if contains_value(coll@, v) {
                        let w = choose|w: int|
                            0 <= w < coll@.len() && (#[trigger] coll@[w])@ == v;
                        if w < before.len() {
                            assert(before[w]@ == v);
                            assert(contains_value(before, v));
                        } else if w == coll@.len() - 2 {
                            assert(v == n@ / pow_nat(p@, i));
                        } else {
                            assert(v == pow_nat(p@, i));
                        }
                    }
                    if (exists|u: int, ii: nat|
                        0 <= u < t && divides(#[trigger] pow_nat(f@[u].0@, ii), n@) && (v
                            == pow_nat(f@[u].0@, ii) || v == n@ / pow_nat(f@[u].0@, ii))) || (
                    exists|ii: nat|
                        ii < i + 1 && divides(#[trigger] pow_nat(p@, ii), n@) && (v == pow_nat(
                            p@,
                            ii,
                        ) || v == n@ / pow_nat(p@, ii))) {
                        if exists|ii: nat|
                            ii < i + 1 && divides(#[trigger] pow_nat(p@, ii), n@) && (v == pow_nat(
                                p@,
                                ii,
                            ) || v == n@ / pow_nat(p@, ii)) {
                            let ii = choose|ii: nat|
                                ii < i + 1 && divides(#[trigger] pow_nat(p@, ii), n@) && (v
                                    == pow_nat(p@, ii) || v == n@ / pow_nat(p@, ii));
                            if ii < i {
                                assert(contains_value(before, v));
                                let w = choose|w: int|
                                    0 <= w < before.len() && (#[trigger] before[w])@ == v;
                                assert(coll@[w]@ == v);
                            } else {
                                if v == pow_nat(p@, i) {
                                    assert(coll@[coll@.len() - 1]@ == v);
                                } else {
                                    assert(coll@[coll@.len() - 2]@ == v);
                                }
                            }
                        } else {
                            assert(contains_value(before, v));
                            let w = choose|w: int|
                                0 <= w < before.len() && (#[trigger] before[w])@ == v;
                            assert(coll@[w]@ == v);
                        }
                        assert(contains_value(coll@, v));
                    }
                }
                lemma_pow1(p@ as int);
                lemma_pow_adds(p@ as int, i, 1);
                lemma_pow_positive(p@ as int, i + 1);
                i = i + 1;
            }
            let pn = power.times(p);
            proof {
                // the next power is strictly larger yet still at most n
                // while it divides n
                assert(power@ < pn@) by (nonlinear_arith)
                    requires
                        pn@ == power@ * p@,
                        power@ >= 1,
                        p@ >= 2,
                {}
                lemma_fundamental_div_mod(n@ as int, power@ as int);
                assert(power@ <= n@) by (nonlinear_arith)
                    requires
                        n@ == power@ * (n@ as int / power@ as int),
                        n@ >= 1,
                        power@ >= 1,
                {}
                assert(pn@ <= n@ * p@) by (nonlinear_arith)
                    requires
                        pn@ == power@ * p@,
                        power@ <= n@,
                        p@ >= 2,
                {}
            }
            power = pn;
        }
        proof {
            assert forall|v: nat|
                contains_value(coll@, v) <==> (exists|u: int, ii: nat|
                    0 <= u < t + 1 && divides(#[trigger] pow_nat(f@[u].0@, ii), n@) && (v
                        == pow_nat(f@[u].0@, ii) || v == n@ / pow_nat(f@[u].0@, ii))) by {
                if exists|ii: nat|
                    divides(#[trigger] pow_nat(p@, ii), n@) && (v == pow_nat(p@, ii) || v == n@
                        / pow_nat(p@, ii)) {
                    let ii = choose|ii: nat|
                        divides(#[trigger] pow_nat(p@, ii), n@) && (v == pow_nat(p@, ii) || v == n@
                            / pow_nat(p@, ii));
                    assert(divides(pow_nat(f@[t as int].0@, ii), n@) && (v == pow_nat(
                        f@[t as int].0@,
                        ii,
                    ) || v == n@ / pow_nat(f@[t as int].0@, ii)));
                }
                if exists|u: int, ii: nat|
                    0 <= u < t + 1 && divides(#[trigger] pow_nat(f@[u].0@, ii), n@) && (v
                        == pow_nat(f@[u].0@, ii) || v == n@ / pow_nat(f@[u].0@, ii)) {
                    let (u, ii): (int, nat) = choose|u: int, ii: nat|
                        0 <= u < t + 1 && divides(#[trigger] pow_nat(f@[u].0@, ii), n@) && (v
                            == pow_nat(f@[u].0@, ii) || v == n@ / pow_nat(f@[u].0@, ii));
                    if u == t {
                        assert(divides(pow_nat(p@, ii), n@) && (v == pow_nat(p@, ii) || v == n@
                            / pow_nat(p@, ii)));
                    }
                }
            }
        }
        t = t + 1;
    }
    let out = sort_dedup(&coll);
    proof {
        assert(valid_factor_seq(f@, n@));
        assert forall|v: nat| contains_value(out@, v) <==> div_listed(f@, n@, v) by {
            assert(contains_value(out@, v) <==> contains_value(coll@, v));
        }
    }
    Ok(out)
}

/// The totient value a factorisation yields: (p-1)·p^(e-1) per factor,
/// multiplied together.
pub open spec fn phi_product(f: Seq<(Natural, u128)>) -> nat
    decreases f.len(),
{
    if f.len() == 0 {
        1
    } else {
        phi_product(f.drop_last()) * (((f.last().0@ - 1) as nat) * pow_nat(
            f.last().0@,
            (f.last().1 - 1) as nat,
        ))
    }
}

/// Euler's totient through a fresh factorisation of `n`: the product of
/// `(p-1)·p^(e-1)` over the factors found.
pub fn euler_totient_phi(n: &Natural) -> (res: Result<Natural, NtError>)
    ensures
        match res {
            Ok(v) => n@ >= 2 && (exists|f: Seq<(Natural, u128)>|
                #[trigger] valid_factor_seq(f, n@) && v@ == phi_product(f)),
            Err(e) => {
                &&& (e == NtError::InvalidInput <==> n@ <= 1)
                &&& e != NtError::SearchExhausted
            },
        },
{
    let one = Natural::from_u64(1);
    let mut primes: Vec<Natural> = Vec::new();
    primes.push(Natural::from_u64(2));
    let f = match n.prime_factors(&mut primes) {
        Ok(f) => f,
        Err(e) => {
            return Err(e);
        },
    };
    let mut acc = Natural::from_u64(1);
    let mut i: usize = 0;
    proof {
        assert(f@.subrange(0, 0) =~= Seq::<(Natural, u128)>::empty());
    }
    while i < f.len()
        invariant
            one@ == 1,
            i <= f@.len(),
            forall|t: int| 0 <= t < f@.len() ==> (#[trigger] f@[t]).1 >= 1 && f@[t].0@ >= 2,
            acc@ == phi_product(f@.subrange(0, i as int)),
        decreases f@.len() - i,
    {
        let p_minus = f[i].0.minus(&one);
        let pe = pow_exact(&f[i].0, f[i].1 - 1);
        let factor_phi = p_minus.times(&pe);
        acc = acc.times(&factor_phi);
        proof {
            let pre = f@.subrange(0, i as int);
            let post = f@.subrange(0, i + 1);
            assert(post.drop_last() =~= pre);
            assert(post.last() == f@[i as int]);
        }
        i = i + 1;
    }
    proof {
        assert(f@.subrange(0, f@.len() as int) =~= f@);
        assert(valid_factor_seq(f@, n@) && acc@ == phi_product(f@));
    }
    Ok(acc)
}

/// The multiplicative order of `a` modulo `n`, found as the smallest entry
/// of the divisor listing of φ(n) whose power of `a` is congruent to 1.
/// `None` when `a` and `n` share a factor, when φ(n) is too small to
/// factor, or when no listed divisor works.
pub fn multiplicative_order(a: &Natural, n: &Natural) -> (res: Result<Option<Natural>, NtError>)
    requires
        a@ + n@ > 0,
    ensures
        match res {
            Ok(opt) => {
                &&& (!coprime(a@, n@) ==> opt is None)
                &&& (coprime(a@, n@) && coprime_count(n@, n@) <= 1 ==> opt is None)
                &&& (coprime(a@, n@) && coprime_count(n@, n@) >= 2 ==> (exists|
                    f: Seq<(Natural, u128)>,
                |
                    #[trigger] valid_factor_seq(f, coprime_count(n@, n@)) && (match opt {
                        Some(v) => {
                            &&& div_listed(f, coprime_count(n@, n@), v@)
                            &&& pow(a@ as int, v@) % (n@ as int) == 1
                            &&& forall|w: nat|
                                div_listed(f, coprime_count(n@, n@), w) && #[trigger] pow(
                                    a@ as int,
                                    w,
                                ) % (n@ as int) == 1 ==> v@ <= w
                        },
                        None => forall|w: nat|
                            div_listed(f, coprime_count(n@, n@), w) ==> #[trigger] pow(
                                a@ as int,
                                w,
                            ) % (n@ as int) != 1,
                    })))
            },
            Err(e) => e == NtError::UnresolvedResidue,
        },
{
    let one = Natural::from_u64(1);
    if !coprime_check(a, n) {
        return Ok(None);
    }
    let phi = euler_totient_phi_counting_coprimes(n);
    let ds = match divisors_of_n(&phi) {
        Ok(ds) => ds,
        Err(e) => {
            if matches!(e, NtError::UnresolvedResidue) {
                return Err(NtError::UnresolvedResidue);
            }
            return Ok(None);
        },
    };
    proof {
        // a totient of at least 2 needs at least two units below n
        if n@ < 3 {
            if n@ == 2 {
                assert forall|gg: nat| gg >= 2 implies !(#[trigger] divides(gg, 1nat) && divides(
                    gg,
                    2nat,
                )) by {
                    if divides(gg, 1nat) {
                        lemma_small_mod(1, gg);
                    }
                }
                assert(coprime(1, 2));
                assert(coprime_count(2, 1) == 0);
                assert(coprime_count(2, 2) == 1);
            } else {
                assert(coprime_count(n@, n@) == 0);
            }
            assert(false);
        }
    }
    let mut idx: usize = 0;
    while idx < ds.len()
        invariant
            n@ >= 3,
            one@ == 1,
            phi@ == coprime_count(n@, n@),
            phi@ >= 2,
            coprime(a@, n@),
            idx <= ds@.len(),
            forall|i: int, j: int| 0 <= i < j < ds@.len() ==> ds@[i]@ < ds@[j]@,
            exists|f: Seq<(Natural, u128)>|
                #[trigger] valid_factor_seq(f, phi@) && (forall|v: nat|
                    contains_value(ds@, v) <==> div_listed(f, phi@, v)),
            forall|t: int|
                0 <= t < idx ==> #[trigger] pow(a@ as int, (ds@[t])@) % (n@ as int) != 1,
        decreases ds@.len() - idx,
    {
        let xp = mod_pow_pos(a, &ds[idx], n);
        if xp.cmp_with(&one) == 0 {
            let v = ds[idx].duplicate();
            proof {
                let f = choose|f: Seq<(Natural, u128)>|
                    #[trigger] valid_factor_seq(f, phi@) && (forall|v2: nat|
                        contains_value(ds@, v2) <==> div_listed(f, phi@, v2));
                assert(contains_value(ds@, v@));
                assert forall|w: nat|
                    div_listed(f, phi@, w) && #[trigger] pow(a@ as int, w) % (n@ as int)
                        == 1 implies v@ <= w by {
                    assert(contains_value(ds@, w));
                    let j = choose|j: int| 0 <= j < ds@.len() && (#[trigger] ds@[j])@ == w;
                    if j < idx {
                        assert(pow(a@ as int, ds@[j]@) % (n@ as int) != 1);
                    } else if j > idx {
                        assert(ds@[idx as int]@ < ds@[j]@);
                    }
                }
            }
            return Ok(Some(v));
        }
        idx = idx + 1;
    }
    proof {
        let f = choose|f: Seq<(Natural, u128)>|
            #[trigger] valid_factor_seq(f, phi@) && (forall|v2: nat|
                contains_value(ds@, v2) <==> div_listed(f, phi@, v2));
        assert forall|w: nat| div_listed(f, phi@, w) implies #[trigger] pow(a@ as int, w) % (
        n@ as int) != 1 by {
            assert(contains_value(ds@, w));
            let j = choose|j: int| 0 <= j < ds@.len() && (#[trigger] ds@[j])@ == w;
            assert(pow(a@ as int, ds@[j]@) % (n@ as int) != 1);
        }
    }
    Ok(None)
}

/// What the trial-and-error search accepts as a primitive root: a unit
/// other than 1 whose power only returns to 1 at the listed divisor φ(n)
/// itself.
pub open spec fn prim_root_listed(a: nat, n: nat, phi: nat, f: Seq<(Natural, u128)>) -> bool {
    &&& a != 1
    &&& pow(a as int, phi) % (n as int) == 1
    &&& forall|d: nat|
        div_listed(f, phi, d) && d != phi ==> #[trigger] pow(a as int, d) % (n as int) != 1
}

/// The primitive roots of `n`, found by trial and error: every coprime
/// residue whose multiplicative order (probed through the divisor listing
/// of φ(n)) is φ(n) itself, ascending.  Moduli whose totient is below 2
/// have no root other than the trivial 1 and yield an empty list.
pub fn primitive_roots_trial_n_error(n: &Natural) -> (res: Result<Vec<Natural>, NtError>)
    ensures
        match res {
            Ok(out) => {
                &&& (coprime_count(n@, n@) <= 1 ==> out@.len() == 0)
                &&& forall|i: int, j: int| 0 <= i < j < out@.len() ==> out@[i]@ < out@[j]@
                &&& (coprime_count(n@, n@) >= 2 ==> (exists|f: Seq<(Natural, u128)>|
                    #[trigger] valid_factor_seq(f, coprime_count(n@, n@)) && (forall|v: nat|
                        contains_value(out@, v) <==> (1 <= v < n@ && coprime(v, n@)
                            && prim_root_listed(v, n@, coprime_count(n@, n@), f)))))
            },
            Err(e) => e == NtError::UnresolvedResidue,
        },
{
    let one = Natural::from_u64(1);
    let coprimes = coprime_nums_less_than_n(n);
    let phi = Natural::from_u64(coprimes.len() as u64);
    if phi.le(&one) {
        return Ok(Vec::new());
    }
    let ds = match divisors_of_n(&phi) {
        Ok(ds) => ds,
        Err(_) => {
            return Err(NtError::UnresolvedResidue);
        },
    };
    proof {
        if n@ < 3 {
            if n@ == 2 {
                assert forall|gg: nat| gg >= 2 implies !(#[trigger] divides(gg, 1nat) && divides(
                    gg,
                    2nat,
                )) by {
                    if divides(gg, 1nat) {
                        lemma_small_mod(1, gg);
                    }
                }
                assert(coprime(1, 2));
                assert(coprime_count(2, 1) == 0);
                assert(coprime_count(2, 2) == 1);
            } else {
                assert(coprime_count(n@, n@) == 0);
            }
            assert(false);
        }
    }
    let mut out: Vec<Natural> = Vec::new();
    let mut i: usize = 0;
    while i < coprimes.len()
        invariant
            n@ >= 3,
            one@ == 1,
            phi@ == coprime_count(n@, n@),
            phi@ >= 2,
            i <= coprimes@.len(),
            forall|t: int|
                0 <= t < coprimes@.len() ==> 1 <= (#[trigger] coprimes@[t])@ < n@ && coprime(
                    coprimes@[t]@,
                    n@,
                ),
            forall|t: int, u: int| 0 <= t < u < coprimes@.len() ==> coprimes@[t]@ < coprimes@[u]@,
            forall|v: nat| 1 <= v < n@ && coprime(v, n@) ==> contains_value(coprimes@, v),
            forall|t: int, u: int| 0 <= t < u < ds@.len() ==> ds@[t]@ < ds@[u]@,
            exists|f: Seq<(Natural, u128)>|
                #[trigger] valid_factor_seq(f, phi@) && (forall|v: nat|
                    contains_value(ds@, v) <==> div_listed(f, phi@, v)),
            forall|t: int, u: int| 0 <= t < u < out@.len() ==> out@[t]@ < out@[u]@,
            forall|t: int| 0 <= t < out@.len() ==> 1 <= (#[trigger] out@[t])@ < n@,
            forall|v: nat|
                contains_value(out@, v) <==> (exists|t: int|
                    0 <= t < i && (#[trigger] coprimes@[t])@ == v && coprime(v, n@) && (exists|
                        f: Seq<(Natural, u128)>,
                    |
                        #[trigger] valid_factor_seq(f, phi@) && (forall|w: nat|
                            contains_value(ds@, w) <==> div_listed(f, phi@, w))
                            && prim_root_listed(v, n@, phi@, f))),
        decreases coprimes@.len() - i,
    {
        let a = &coprimes[i];
        let not_one = a.cmp_with(&one) != 0;
        let mut good = not_one;
        if good {
            let xp = mod_pow_pos(a, &phi, n);
            if xp.cmp_with(&one) != 0 {
                good = false;
            }
        }
        if good {
            let mut j: usize = 0;
            while j < ds.len()
                invariant
                    n@ >= 3,
                    one@ == 1,
                    phi@ >= 2,
                    a == coprimes@[i as int],
                    i < coprimes@.len(),
                    j <= ds@.len(),
                    good ==> (forall|t: int|
                        0 <= t < j && (#[trigger] ds@[t])@ != phi@ ==> pow(a@ as int, ds@[t]@) % (
                        n@ as int) != 1),
                    !good ==> (exists|t: int|
                        0 <= t < ds@.len() && (#[trigger] ds@[t])@ != phi@ && pow(
                            a@ as int,
                            ds@[t]@,
                        ) % (n@ as int) == 1),
                decreases ds@.len() - j,
            {
                if ds[j].cmp_with(&phi) != 0 {
                    let xd = mod_pow_pos(a, &ds[j], n);
                    if xd.cmp_with(&one) == 0 {
                        good = false;
                    }
                }
                j = j + 1;
            }
        }
        let ghost before = out@;
        if good {
            out.push(a.duplicate());
        }
        proof {
            let f0 = choose|f: Seq<(Natural, u128)>|
                #[trigger] valid_factor_seq(f, phi@) && (forall|v: nat|
                    contains_value(ds@, v) <==> div_listed(f, phi@, v));
            if good {
                assert forall|t: int, u: int| 0 <= t < u < out@.len() implies out@[t]@
                    < out@[u]@ by {
                    if u == out@.len() - 1 {
                        assert(out@[t] == before[t]);
                        assert(contains_value(before, before[t]@));
                        let tt = choose|tt: int|
                            0 <= tt < i && (#[trigger] coprimes@[tt])@ == before[t]@ && coprime(
                                before[t]@,
                                n@,
                            ) && (exists|f: Seq<(Natural, u128)>|
                                #[trigger] valid_factor_seq(f, phi@) && (forall|w: nat|
                                    contains_value(ds@, w) <==> div_listed(f, phi@, w))
                                    && prim_root_listed(before[t]@, n@, phi@, f));
                        assert(coprimes@[tt]@ < coprimes@[i as int]@);
                    }
                }
                assert(prim_root_listed(a@, n@, phi@, f0)) by {
                    assert forall|d: nat|
                        div_listed(f0, phi@, d) && d != phi@ implies #[trigger] pow(
                            a@ as int,
                            d,
                        ) % (n@ as int) != 1 by {
                        assert(contains_value(ds@, d));
                        let t = choose|t: int| 0 <= t < ds@.len() && (#[trigger] ds@[t])@ == d;
                        assert(pow(a@ as int, ds@[t]@) % (n@ as int) != 1);
                    }
                }
            }
            assert forall|v: nat|
                contains_value(out@, v) <==> (exists|t: int|
                    0 <= t < i + 1 && (#[trigger] coprimes@[t])@ == v && coprime(v, n@) && (exists|
                        f: Seq<(Natural, u128)>,
                    |
                        #[trigger] valid_factor_seq(f, phi@) && (forall|w: nat|
                            contains_value(ds@, w) <==> div_listed(f, phi@, w))
                            && prim_root_listed(v, n@, phi@, f))) by {
                if contains_value(out@, v) {
                    let t = choose|t: int| 0 <= t < out@.len() && (#[trigger] out@[t])@ == v;
                    if t < before.len() {
                        assert(before[t]@ == v);
                        assert(contains_value(before, v));
                    } else {
                        assert(v == a@);
                        assert(coprimes@[i as int]@ == v);
                    }
                }
                if exists|t: int|
                    0 <= t < i + 1 && (#[trigger] coprimes@[t])@ == v && coprime(v, n@) && (exists|
                        f: Seq<(Natural, u128)>,
                    |
                        #[trigger] valid_factor_seq(f, phi@) && (forall|w: nat|
                            contains_value(ds@, w) <==> div_listed(f, phi@, w))
                            && prim_root_listed(v, n@, phi@, f)) {
                    let t = choose|t: int|
                        0 <= t < i + 1 && (#[trigger] coprimes@[t])@ == v && coprime(v, n@) && (
                        exists|f: Seq<(Natural, u128)>|
                            #[trigger] valid_factor_seq(f, phi@) && (forall|w: nat|
                                contains_value(ds@, w) <==> div_listed(f, phi@, w))
                                && prim_root_listed(v, n@, phi@, f));
                    if t < i {
                        assert(contains_value(before, v));
                        let u = choose|u: int|
                            0 <= u < before.len() && (#[trigger] before[u])@ == v;
                        assert(out@[u]@ == v);
                    } else {
                        assert(v == a@);
                        let fw = choose|f: Seq<(Natural, u128)>|
                            #[trigger] valid_factor_seq(f, phi@) && (forall|w: nat|
                                contains_value(ds@, w) <==> div_listed(f, phi@, w))
                                && prim_root_listed(v, n@, phi@, f);
                        if !good {
                            if !not_one {
                            } else {
                                if pow(a@ as int, phi@) % (n@ as int) != 1 {
                                } else {
                                    let u = choose|u: int|
                                        0 <= u < ds@.len() && (#[trigger] ds@[u])@ != phi@ && pow(
                                            a@ as int,
                                            ds@[u]@,
                                        ) % (n@ as int) == 1;
                                    assert(contains_value(ds@, ds@[u]@));
                                    assert(div_listed(fw, phi@, ds@[u]@));
                                }
                            }
                            assert(false);
                        }
                        assert(out@[out@.len() - 1]@ == v);
                    }
                }
            }
        }
        i = i + 1;
    }
    proof {
        let f0 = choose|f: Seq<(Natural, u128)>|
            #[trigger] valid_factor_seq(f, phi@) && (forall|v: nat|
                contains_value(ds@, v) <==> div_listed(f, phi@, v));
        assert forall|v: nat|
            contains_value(out@, v) <==> (1 <= v < n@ && coprime(v, n@) && prim_root_listed(
                v,
                n@,
                phi@,
                f0,
            )) by {
            if contains_value(out@, v) {
                let t = choose|t: int|
                    0 <= t < i && (#[trigger] coprimes@[t])@ == v && coprime(v, n@) && (exists|
                        f: Seq<(Natural, u128)>,
                    |
                        #[trigger] valid_factor_seq(f, phi@) && (forall|w: nat|
                            contains_value(ds@, w) <==> div_listed(f, phi@, w))
                            && prim_root_listed(v, n@, phi@, f));
                let fw = choose|f: Seq<(Natural, u128)>|
                    #[trigger] valid_factor_seq(f, phi@) && (forall|w: nat|
                        contains_value(ds@, w) <==> div_listed(f, phi@, w)) && prim_root_listed(
                        v,
                        n@,
                        phi@,
                        f,
                    );
                assert(prim_root_listed(v, n@, phi@, f0)) by {
                    assert forall|d: nat|
                        div_listed(f0, phi@, d) && d != phi@ implies #[trigger] pow(
                            v as int,
                            d,
                        ) % (n@ as int) != 1 by {
                        assert(contains_value(ds@, d));
                        assert(div_listed(fw, phi@, d));
                    }
                }
            }
            if 1 <= v < n@ && coprime(v, n@) && prim_root_listed(v, n@, phi@, f0) {
                assert(contains_value(coprimes@, v));
                let t = choose|t: int|
                    0 <= t < coprimes@.len() && (#[trigger] coprimes@[t])@ == v;
            }
        }
    }
    Ok(out)
}

/// Some unit below `v` is accepted as a primitive root (relative to a
/// factorisation of φ(v)).
pub open spec fn has_listed_prim_root(v: nat) -> bool {
    coprime_count(v, v) >= 2 && (exists|a: nat, f: Seq<(Natural, u128)>|
        1 <= a < v && coprime(a, v) && valid_factor_seq(f, coprime_count(v, v))
            && #[trigger] prim_root_listed(a, v, coprime_count(v, v), f))
}

/// No unit below `v` is accepted as a primitive root: either the totient
/// is too small to probe, or some factorisation of it rejects every unit.
pub open spec fn no_listed_prim_root(v: nat) -> bool {
    ||| coprime_count(v, v) <= 1
    ||| (exists|f: Seq<(Natural, u128)>|
        #[trigger] valid_factor_seq(f, coprime_count(v, v)) && (forall|a: nat|
            1 <= a < v && coprime(a, v) ==> !(#[trigger] prim_root_listed(
                a,
                v,
                coprime_count(v, v),
                f,
            ))))
}

/// The factorisation shapes `p^k` (p an odd factor) and `2·p^k`, under
/// which primitive roots exist.
pub open spec fn pk_2pk_shape(f: Seq<(Natural, u128)>) -> bool {
    ||| (f.len() == 1 && f[0].0@ != 2)
    ||| (f.len() == 2 && f[0].0@ == 2 && f[0].1 == 1)
}

/// Returns the factorisation of `n` when it has the shape `p^k` or
/// `2·p^k` (odd p), and an empty list otherwise.
pub fn is_integer_of_form_pk_2pk(n: &Natural) -> (res: Result<Vec<(Natural, u128)>, NtError>)
    ensures
        match res {
            Ok(out) => n@ >= 2 && (exists|f: Seq<(Natural, u128)>|
                #[trigger] valid_factor_seq(f, n@) && (if pk_2pk_shape(f) {
                    out@ == f
                } else {
                    out@.len() == 0
                })),
            Err(e) => {
                &&& (e == NtError::InvalidInput <==> n@ <= 1)
                &&& e != NtError::SearchExhausted
            },
        },
{
    let mut primes: Vec<Natural> = Vec::new();
    primes.push(Natural::from_u64(2));
    let f = match n.prime_factors(&mut primes) {
        Ok(f) => f,
        Err(e) => {
            return Err(e);
        },
    };
    let two = Natural::from_u64(2);
    let shape_ok: bool = if f.len() == 1 {
        f[0].0.cmp_with(&two) != 0
    } else if f.len() == 2 {
        f[0].0.cmp_with(&two) == 0 && f[0].1 == 1
    } else {
        false
    };
    if shape_ok {
        proof {
            assert(valid_factor_seq(f@, n@) && pk_2pk_shape(f@));
        }
        Ok(f)
    } else {
        proof {
            assert(valid_factor_seq(f@, n@) && !pk_2pk_shape(f@));
        }
        Ok(Vec::new())
    }
}

/// The factorisation shape under which the count of primitive roots is
/// computed: a single factor (2 only up to the square), or 2 times an odd
/// factor power.
pub open spec fn count_shape_ok(f: Seq<(Natural, u128)>) -> bool {
    ||| (f.len() == 1 && (f[0].0@ != 2 || f[0].1 <= 2))
    ||| (f.len() == 2 && f[0].0@ == 2 && f[0].1 <= 1)
}

/// The number of primitive roots modulo `n`: zero unless the factorisation
/// shape admits any, and φ(φ(n)) otherwise, both totients computed through
/// factorisations.
pub fn primitive_roots_count_modulo_n(n: &Natural) -> (res: Result<Natural, NtError>)
    ensures
        match res {
            Ok(v) => n@ >= 2 && (exists|f: Seq<(Natural, u128)>|
                #[trigger] valid_factor_seq(f, n@) && ((!count_shape_ok(f) && v@ == 0) || (
                count_shape_ok(f) && (exists|f2: Seq<(Natural, u128)>|
                    #[trigger] valid_factor_seq(f2, n@) && ((phi_product(f2) <= 1 && v@ == 1) || (
                    exists|f3: Seq<(Natural, u128)>|
                        #[trigger] valid_factor_seq(f3, phi_product(f2)) && v@ == phi_product(
                            f3,
                        ))))))),
            Err(e) => {
                &&& (e == NtError::InvalidInput <==> n@ <= 1)
                &&& e != NtError::SearchExhausted
            },
        },
{
    let mut primes: Vec<Natural> = Vec::new();
    primes.push(Natural::from_u64(2));
    let f = match n.prime_factors(&mut primes) {
        Ok(f) => f,
        Err(e) => {
            return Err(e);
        },
    };
    let two = Natural::from_u64(2);
    let one = Natural::from_u64(1);
    let shape_ok: bool = if f.len() == 1 {
        f[0].0.cmp_with(&two) != 0 || f[0].1 <= 2
    } else if f.len() == 2 {
        f[0].0.cmp_with(&two) == 0 && f[0].1 <= 1
    } else {
        false
    };
    if !shape_ok {
        proof {
            assert(valid_factor_seq(f@, n@) && !count_shape_ok(f@));
        }
        return Ok(Natural::zero());
    }
    let phi_n = match euler_totient_phi(n) {
        Ok(v) => v,
        Err(e) => {
            return Err(e);
        },
    };
    if phi_n.le(&one) {
        proof {
            assert(valid_factor_seq(f@, n@) && count_shape_ok(f@));
        }
        return Ok(one);
    }
    match euler_totient_phi(&phi_n) {
        Ok(v) => {
            proof {
                assert(valid_factor_seq(f@, n@) && count_shape_ok(f@));
            }
            Ok(v)
        },
        Err(e) => {
            proof {
                if matches!(e, NtError::InvalidInput) {
                    assert(phi_n@ <= 1);
                    assert(false);
                }
            }
            Err(NtError::UnresolvedResidue)
        },
    }
}

} // verus!
