use nt_tools::natural::Natural;
use nt_tools::primality::{aks, is_prime_trial_division};
use nt_tools::utils::{fastpoly, findr};
use nt_tools::NtError;

fn num(x: u64) -> Natural {
    Natural::from_u64(x)
}

#[test]
fn aks_agrees_with_trial_division_on_small_inputs() {
    for n in 2..=25u64 {
        let verdict = aks(&num(n)).unwrap();
        assert_eq!(verdict, is_prime_trial_division(&num(n)));
    }
}

#[test]
fn aks_accepts_a_medium_prime() {
    assert_eq!(aks(&num(31)).unwrap(), true);
}

#[test]
fn aks_rejects_a_perfect_square_at_the_power_gate() {
    assert_eq!(aks(&num(49)).unwrap(), false);
    assert_eq!(aks(&num(121)).unwrap(), false);
}

#[test]
fn aks_rejects_inputs_below_two() {
    assert_eq!(aks(&num(0)), Err(NtError::InvalidInput));
    assert_eq!(aks(&num(1)), Err(NtError::InvalidInput));
}

#[test]
fn polynomial_congruence_holds_for_a_prime_exponent() {
    // (x + a)^7 ≡ x^7 + a (mod x^5 - 1, 7) for a genuine prime 7
    for a in 1..=4u64 {
        let base = vec![num(a), num(1)];
        let residual = fastpoly(&base, &num(7), &num(5));
        for c in residual.iter() {
            assert_eq!(c, &num(0));
        }
    }
}

#[test]
fn polynomial_congruence_fails_for_a_composite_exponent() {
    // (x + 1)^6 is not congruent to x^6 + 1 modulo (x^5 - 1, 6)
    let base = vec![num(1), num(1)];
    let residual = fastpoly(&base, &num(6), &num(5));
    let mut any_nonzero = false;
    for c in residual.iter() {
        if c != &num(0) {
            any_nonzero = true;
        }
    }
    assert!(any_nonzero);
}

#[test]
fn findr_yields_a_usable_order_parameter() {
    let r = findr(&num(31)).unwrap();
    assert!(num(2).le(&r));
}

#[test]
fn order_search_is_exhausted_for_one() {
    // every power of 1 is 1, so no modulus can push its order past the
    // bound and the capped search reports exhaustion
    assert_eq!(findr(&num(1)), Err(NtError::SearchExhausted));
}
