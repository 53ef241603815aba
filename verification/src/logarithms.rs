//! Pollard's rho search for discrete logarithms: a tortoise-and-hare walk
//! through the pseudo-random sequence x ↦ {x², ax, bx} (mod n), recorded
//! step by step until the two walkers collide.

use crate::natural::Natural;
use crate::utils::{is_gcd, sub_mod};
use vstd::prelude::*;

verus! {

/// One step of the walk: the residue class of x modulo 3 picks whether x
/// is squared or multiplied by `a` or `b`, with the two exponent counters
/// updated modulo n-1 accordingly.
pub open spec fn rho_step(state: (nat, nat, nat), a: nat, b: nat, n: nat) -> (nat, nat, nat)
    recommends
        n >= 2,
{
    let x = state.0;
    let ai = state.1;
    let bi = state.2;
    if x % 3 == 0 {
        ((x * x) % n, (ai * 2) % ((n - 1) as nat), (bi * 2) % ((n - 1) as nat))
    } else if x % 3 == 1 {
        ((x * a) % n, (ai + 1) % ((n - 1) as nat), bi)
    } else {
        ((x * b) % n, ai, (bi + 1) % ((n - 1) as nat))
    }
}

/// The walker's state after `k` steps from (1, 0, 0).
pub open spec fn rho_iterate(a: nat, b: nat, n: nat, k: nat) -> (nat, nat, nat)
    decreases k,
{
    if k == 0 {
        (1, 0, 0)
    } else {
        rho_step(rho_iterate(a, b, n, (k - 1) as nat), a, b, n)
    }
}

/// What the collision of the two walkers yields: a congruence
/// `c·x ≡ r (mod m)` to solve for the logarithm, or the discovery that
/// none exists, or an exhausted walk.
pub enum RhoOutcome {
    Congruence(Natural, Natural, Natural),
    NoSolution,
    Exhausted,
}

/// Advances one walker state.
fn new_xab(
    x: Natural,
    ai: Natural,
    bi: Natural,
    a: &Natural,
    b: &Natural,
    n: &Natural,
) -> (r: (Natural, Natural, Natural))
    requires
        n@ >= 2,
    ensures
        (r.0@, r.1@, r.2@) == rho_step((x@, ai@, bi@), a@, b@, n@),
{
    let one = Natural::from_u64(1);
    let two = Natural::from_u64(2);
    let three = Natural::from_u64(3);
    let n_minus_one = n.minus(&one);
    let (_, rem) = x.div_rem(&three);
    if rem.is_zero() {
        let (_, xn) = x.times(&x).div_rem(n);
        let (_, an) = ai.times(&two).div_rem(&n_minus_one);
        let (_, bn) = bi.times(&two).div_rem(&n_minus_one);
        (xn, an, bn)
    } else if rem.cmp_with(&one) == 0 {
        let (_, xn) = x.times(a).div_rem(n);
        let (_, an) = ai.plus(&one).div_rem(&n_minus_one);
        (xn, an, bi)
    } else {
        let (_, xn) = x.times(b).div_rem(n);
        let (_, bn) = bi.plus(&one).div_rem(&n_minus_one);
        (xn, ai, bn)
    }
}

/// Walks the rho sequence with a tortoise (one step per round) and a hare
/// (two steps per round), recording each round, until the walkers land on
/// the same x.  The collision turns into a congruence for the discrete
/// logarithm of `b` to the base `a` modulo `n`; a walk of n-1 rounds
/// without a collision is reported as exhausted.
pub fn pollards_rho(a: &Natural, b: &Natural, n: &Natural) -> (res: (
    Vec<(Natural, Natural, Natural, Natural, Natural, Natural, Natural)>,
    RhoOutcome,
))
    requires
        n@ >= 2,
    ensures
        forall|t: int|
            0 <= t < res.0@.len() ==> {
                &&& (#[trigger] res.0@[t]).0@ == t + 1
                &&& (res.0@[t].1@, res.0@[t].2@, res.0@[t].3@) == rho_iterate(a@, b@, n@, (t
                    + 1) as nat)
                &&& (res.0@[t].4@, res.0@[t].5@, res.0@[t].6@) == rho_iterate(
                    a@,
                    b@,
                    n@,
                    (2 * (t + 1)) as nat,
                )
            },
        match res.1 {
            RhoOutcome::Exhausted => true,
            RhoOutcome::NoSolution => res.0@.len() > 0 && res.0@.last().1@ == res.0@.last().4@,
            RhoOutcome::Congruence(c, rhs, m) => {
                &&& res.0@.len() > 0
                &&& res.0@.last().1@ == res.0@.last().4@
                &&& (exists|d: nat|
                    #[trigger] is_gcd(
                        d,
                        sub_mod(res.0@.last().6@, res.0@.last().3@, (n@ - 1) as nat),
                        (n@ - 1) as nat,
                    ) && (if d == 1 {
                        c@ == sub_mod(res.0@.last().6@, res.0@.last().3@, (n@ - 1) as nat) && rhs@
                            == sub_mod(res.0@.last().2@, res.0@.last().5@, (n@ - 1) as nat) && m@
                            == n@ - 1
                    } else {
                        sub_mod(res.0@.last().2@, res.0@.last().5@, (n@ - 1) as nat) % d == 0 && c@
                            == sub_mod(res.0@.last().6@, res.0@.last().3@, (n@ - 1) as nat) / d
                            && rhs@ == sub_mod(
                            res.0@.last().2@,
                            res.0@.last().5@,
                            (n@ - 1) as nat,
                        ) / d && m@ == ((n@ - 1) as nat) / d
                    }))
            },
        },
{
    let one = Natural::from_u64(1);
    let n_minus_one = n.minus(&one);
    let mut rows: Vec<(Natural, Natural, Natural, Natural, Natural, Natural, Natural)> =
        Vec::new();
    let mut x1 = Natural::from_u64(1);
    let mut a1 = Natural::zero();
    let mut b1 = Natural::zero();
    let mut x2 = Natural::from_u64(1);
    let mut a2 = Natural::zero();
    let mut b2 = Natural::zero();
    let mut i = Natural::from_u64(1);
    while i.lt(n)
        invariant
            n@ >= 2,
            one@ == 1,
            n_minus_one@ == n@ - 1,
            1 <= i@,
            i@ <= n@,
            rows@.len() + 1 == i@,
            (x1@, a1@, b1@) == rho_iterate(a@, b@, n@, (i@ - 1) as nat),
            (x2@, a2@, b2@) == rho_iterate(a@, b@, n@, (2 * (i@ - 1)) as nat),
            forall|t: int|
                0 <= t < rows@.len() ==> {
                    &&& (#[trigger] rows@[t]).0@ == t + 1
                    &&& (rows@[t].1@, rows@[t].2@, rows@[t].3@) == rho_iterate(a@, b@, n@, (t
                        + 1) as nat)
                    &&& (rows@[t].4@, rows@[t].5@, rows@[t].6@) == rho_iterate(
                        a@,
                        b@,
                        n@,
                        (2 * (t + 1)) as nat,
                    )
                },
        decreases n@ - i@,
    {
        let (nx1, na1, nb1) = new_xab(x1, a1, b1, a, b, n);
        x1 = nx1;
        a1 = na1;
        b1 = nb1;
        let (mx2, ma2, mb2) = new_xab(x2, a2, b2, a, b, n);
        let (nx2, na2, nb2) = new_xab(mx2, ma2, mb2, a, b, n);
        x2 = nx2;
        a2 = na2;
        b2 = nb2;
        proof {
            let k = (i@ - 1) as nat;
            assert(rho_iterate(a@, b@, n@, k + 1) == rho_step(
                rho_iterate(a@, b@, n@, k),
                a@,
                b@,
                n@,
            ));
            assert(rho_iterate(a@, b@, n@, 2 * k + 1) == rho_step(
                rho_iterate(a@, b@, n@, 2 * k),
                a@,
                b@,
                n@,
            ));
            assert(rho_iterate(a@, b@, n@, 2 * k + 2) == rho_step(
                rho_iterate(a@, b@, n@, 2 * k + 1),
                a@,
                b@,
                n@,
            ));
            assert((x1@, a1@, b1@) == rho_iterate(a@, b@, n@, k + 1));
            assert((x2@, a2@, b2@) == rho_iterate(a@, b@, n@, 2 * k + 2));
            assert(2 * k + 2 == 2 * (k + 1));
        }
        let ghost rb = rows@;
        rows.push(
            (
                i.duplicate(),
                x1.duplicate(),
                a1.duplicate(),
                b1.duplicate(),
                x2.duplicate(),
                a2.duplicate(),
                b2.duplicate(),
            ),
        );
        proof {
            assert forall|t: int|
                0 <= t < rows@.len() implies {
                &&& (#[trigger] rows@[t]).0@ == t + 1
                &&& (rows@[t].1@, rows@[t].2@, rows@[t].3@) == rho_iterate(a@, b@, n@, (t
                    + 1) as nat)
                &&& (rows@[t].4@, rows@[t].5@, rows@[t].6@) == rho_iterate(
                    a@,
                    b@,
                    n@,
                    (2 * (t + 1)) as nat,
                )
            } by {
                if t < rows@.len() - 1 {
                    assert(rows@[t] == rb[t]);
                } else {
                    assert(rows@[t].0@ == i@);
                }
            }
        }
        if x1.cmp_with(&x2) == 0 {
            let db = crate::utils::sub_mod_exec(&b2, &b1, &n_minus_one);
            let da = crate::utils::sub_mod_exec(&a1, &a2, &n_minus_one);
            let d = db.gcd(&n_minus_one);
            if d.cmp_with(&one) == 0 {
                return (rows, RhoOutcome::Congruence(db, da, n_minus_one));
            }
            let (q, rem) = da.div_rem(&d);
            if !rem.is_zero() {
                return (rows, RhoOutcome::NoSolution);
            }
            let (cq, _) = db.div_rem(&d);
            let (mq, _) = n_minus_one.div_rem(&d);
            return (rows, RhoOutcome::Congruence(cq, q, mq));
        }
        i = i.plus(&one);
    }
    (rows, RhoOutcome::Exhausted)
}

} // verus!
