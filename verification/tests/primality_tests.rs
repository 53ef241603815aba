use nt_tools::natural::Natural;
use nt_tools::primality::{
    is_prime_trial_division, is_prime_trial_division_parallel, miller_rabin_primality, next_prime,
};

fn num(x: u64) -> Natural {
    Natural::from_u64(x)
}

#[test]
fn test_is_prime_1() {
    let result = is_prime_trial_division(&num(409));
    assert_eq!(result, true);
}

#[test]
fn test_is_prime_2() {
    let result = is_prime_trial_division(&num(1363));
    assert_eq!(result, false);
    let result = is_prime_trial_division_parallel(&num(37909));
    assert_eq!(result, false);
    let result = is_prime_trial_division_parallel(&num(37949));
    assert_eq!(result, false);
    let result = is_prime_trial_division(&num(37979));
    assert_eq!(result, false);
}

#[test]
fn test_miller_rabin_primality_1() {
    let result = miller_rabin_primality(&num(409));
    assert_eq!(result, true);
}

#[test]
fn test_miller_rabin_primality_2() {
    let result = miller_rabin_primality(&num(511));
    assert_eq!(result, false);
    let result = miller_rabin_primality(&num(721));
    assert_eq!(result, false);
    let big = Natural::from_decimal_str(
        "49675218696612399034240799519655205503986657506787162015105425670413948962864456158664793804627084299081036134562339483478437262146378569515417671690110863951848724044479367633926630234074394356492223",
    )
    .unwrap();
    let result = miller_rabin_primality(&big);
    assert_eq!(result, true);
}

#[test]
fn edge_case_two() {
    assert_eq!(next_prime(&num(2)).unwrap(), num(2));
}

#[test]
fn finds_small_primes() {
    let primes = vec![
        num(5),
        num(7),
        num(11),
        num(13),
        num(17),
        num(19),
        num(23),
        num(29),
    ];
    for p in primes.iter() {
        let back = next_prime(&p.minus(&num(1))).unwrap();
        assert_eq!(&back, p);
    }
}

#[test]
fn returns_argument_when_it_is_already_prime() {
    assert_eq!(next_prime(&num(101)).unwrap(), num(101));
}

#[test]
fn trial_division_agrees_with_miller_rabin() {
    for n in 0..400u64 {
        let t = is_prime_trial_division(&num(n));
        let tp = is_prime_trial_division_parallel(&num(n));
        let mr = miller_rabin_primality(&num(n));
        assert_eq!(t, tp);
        assert_eq!(t, mr);
    }
}

#[test]
fn boundary_values_are_consistent() {
    assert_eq!(is_prime_trial_division(&num(0)), false);
    assert_eq!(is_prime_trial_division(&num(1)), false);
    assert_eq!(is_prime_trial_division(&num(2)), true);
    assert_eq!(is_prime_trial_division(&num(3)), true);
    assert_eq!(is_prime_trial_division_parallel(&num(0)), false);
    assert_eq!(is_prime_trial_division_parallel(&num(1)), false);
    assert_eq!(is_prime_trial_division_parallel(&num(2)), true);
    assert_eq!(is_prime_trial_division_parallel(&num(3)), true);
    assert_eq!(miller_rabin_primality(&num(0)), false);
    assert_eq!(miller_rabin_primality(&num(1)), false);
    assert_eq!(miller_rabin_primality(&num(2)), true);
    assert_eq!(miller_rabin_primality(&num(3)), true);
    assert_eq!(miller_rabin_primality(&num(4)), false);
}
