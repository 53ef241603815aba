//! Pollard's p-1 factoring attempt: raise a base through a fixed ladder
//! of prime-power exponents and watch for a nontrivial gcd with n.

use crate::natural::Natural;
use crate::primality::miller_rabin_primality;
use crate::utils::{is_gcd, mod_pow_pos};
use vstd::arithmetic::power::pow;
use vstd::prelude::*;

verus! {

/// The fixed ladder of prime-power exponents the method steps through.
pub open spec fn pollard_exponents() -> Seq<nat> {
    seq![
        2nat,
        3,
        2,
        5,
        7,
        2,
        3,
        11,
        13,
        2,
        17,
        19,
        23,
        5,
        3,
        29,
        31,
        2,
        37,
        41,
        43,
        47,
        49,
        53,
        59,
        61,
        2,
        67,
        71,
        73,
        79,
        3,
        83,
        89,
        97,
    ]
}

/// `x - 1`, clamped at 0.
pub open spec fn dec_or_zero(x: nat) -> nat {
    if x >= 1 {
        (x - 1) as nat
    } else {
        0
    }
}

/// One attempt of Pollard's p-1 method.  A probable prime is reported
/// with no work (`true` with an empty trace).  Otherwise each step
/// records `(exponent, base, base^exponent mod n, gcd(n, that - 1))`;
/// the next step starts from the previous power, and the ladder stops
/// early as soon as a gcd above 1 is found.
pub fn pollards_p_1(n: &Natural, a: &Natural) -> (res: (bool, Vec<(Natural, Natural, Natural, Natural)>))
    requires
        n@ >= 1,
    ensures
        res.0 ==> res.1@.len() == 0,
        !res.0 ==> {
            &&& res.1@.len() <= pollard_exponents().len()
            &&& forall|i: int|
                0 <= i < res.1@.len() ==> {
                    &&& (#[trigger] res.1@[i]).0@ == pollard_exponents()[i]
                    &&& res.1@[i].2@ == pow(res.1@[i].1@ as int, pollard_exponents()[i]) % (
                    n@ as int)
                    &&& is_gcd(res.1@[i].3@, n@, dec_or_zero(res.1@[i].2@))
                }
            &&& forall|i: int| 0 < i < res.1@.len() ==> (#[trigger] res.1@[i]).1@ == res.1@[i - 1].2@
            &&& res.1@.len() > 0 ==> res.1@[0].1@ == a@
            &&& forall|i: int| 0 <= i < res.1@.len() - 1 ==> (#[trigger] res.1@[i]).3@ <= 1
        },
{
    if miller_rabin_primality(n) {
        return (true, Vec::new());
    }
    let exps: Vec<u64> = vec![
        2u64,
        3,
        2,
        5,
        7,
        2,
        3,
        11,
        13,
        2,
        17,
        19,
        23,
        5,
        3,
        29,
        31,
        2,
        37,
        41,
        43,
        47,
        49,
        53,
        59,
        61,
        2,
        67,
        71,
        73,
        79,
        3,
        83,
        89,
        97,
    ];
    proof {
        assert(exps@.len() == pollard_exponents().len());
        assert(forall|i: int|
            0 <= i < exps@.len() ==> #[trigger] exps@[i] as nat == pollard_exponents()[i]);
    }
    let one = Natural::from_u64(1);
    let mut rows: Vec<(Natural, Natural, Natural, Natural)> = Vec::new();
    let mut cur = a.duplicate();
    let mut i: usize = 0;
    while i < exps.len()
        invariant
            n@ >= 1,
            one@ == 1,
            i <= exps@.len(),
            exps@.len() == pollard_exponents().len(),
            forall|t: int|
                0 <= t < exps@.len() ==> #[trigger] exps@[t] as nat == pollard_exponents()[t],
            rows@.len() == i,
            forall|t: int|
                0 <= t < rows@.len() ==> {
                    &&& (#[trigger] rows@[t]).0@ == pollard_exponents()[t]
                    &&& rows@[t].2@ == pow(rows@[t].1@ as int, pollard_exponents()[t]) % (
                    n@ as int)
                    &&& is_gcd(rows@[t].3@, n@, dec_or_zero(rows@[t].2@))
                },
            forall|t: int| 0 < t < rows@.len() ==> (#[trigger] rows@[t]).1@ == rows@[t - 1].2@,
            rows@.len() > 0 ==> rows@[0].1@ == a@,
            forall|t: int| 0 <= t < rows@.len() - 1 ==> (#[trigger] rows@[t]).3@ <= 1,
            rows@.len() > 0 ==> rows@[rows@.len() - 1].3@ <= 1,
            rows@.len() > 0 ==> cur@ == rows@[rows@.len() - 1].2@,
            rows@.len() == 0 ==> cur@ == a@,
        decreases exps@.len() - i,
    {
        let e = Natural::from_u64(exps[i]);
        let b = mod_pow_pos(&cur, &e, n);
        let bdec = if b.is_zero() {
            Natural::zero()
        } else {
            b.minus(&one)
        };
        let g = n.gcd(&bdec);
        let g_big = one.lt(&g);
        rows.push((e, cur, b.duplicate(), g));
        cur = b;
        i = i + 1;
        if g_big {
            return (false, rows);
        }
    }
    (false, rows)
}

} // verus!
