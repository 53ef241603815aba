use nt_tools::factorisations::pollards_p_1;
use nt_tools::natural::Natural;
use nt_tools::presets::{list_carmichael_nums, CarmichaelMethods};
use nt_tools::prime_factors::PrimeFactors;
use nt_tools::primality::{carmichael_nums_flt, carmichael_nums_korselt};
use nt_tools::NtError;

fn num(x: u64) -> Natural {
    Natural::from_u64(x)
}

fn product_of(factors: &Vec<(Natural, u128)>) -> Natural {
    let mut acc = num(1);
    for (p, e) in factors.iter() {
        let mut i = 0u128;
        while i < *e {
            acc = acc.times(p);
            i += 1;
        }
    }
    acc
}

#[test]
fn test_prime_factors() {
    let b1 = num(100);
    let mut primes = vec![num(2)];
    let result = b1.prime_factors(&mut primes).unwrap();
    assert_eq!(result, vec![(num(2), 2u128), (num(5), 2u128)]);
}

#[test]
fn factor_product_restores_the_input() {
    for n in 2..200u64 {
        // a cold cache can leave an odd remainder that no cached prime
        // resolves; such inputs are rejected rather than looped on, and
        // every answered input must multiply back exactly
        let mut primes = vec![num(2)];
        match num(n).prime_factors(&mut primes) {
            Ok(f) => assert_eq!(product_of(&f), num(n)),
            Err(e) => assert_eq!(e, NtError::UnresolvedResidue),
        }
    }
    // with the needed primes already cached every number is answered
    let mut warm = vec![num(2), num(3), num(5), num(7), num(11), num(13)];
    for n in 2..200u64 {
        let f = num(n).prime_factors(&mut warm).unwrap();
        assert_eq!(product_of(&f), num(n));
    }
}

#[test]
fn factoring_twice_with_a_sufficient_cache_is_stable() {
    let mut primes = vec![num(2), num(3), num(5), num(7), num(11), num(13)];
    let first = num(120).prime_factors(&mut primes).unwrap();
    let cache_after_first = primes.clone();
    let second = num(120).prime_factors(&mut primes).unwrap();
    assert_eq!(first, second);
    assert_eq!(primes, cache_after_first);
}

#[test]
fn factoring_rejects_inputs_below_two() {
    let mut primes = vec![num(2)];
    assert_eq!(num(0).prime_factors(&mut primes), Err(NtError::InvalidInput));
    assert_eq!(num(1).prime_factors(&mut primes), Err(NtError::InvalidInput));
}

#[test]
fn carmichael_number_561_is_detected() {
    assert!(carmichael_nums_korselt(&num(561)).unwrap());
    assert!(carmichael_nums_flt(&num(561)));
    assert!(!carmichael_nums_korselt(&num(562)).unwrap());
}

#[test]
fn carmichael_scan_finds_561() {
    let found = list_carmichael_nums(&num(500), &num(600), CarmichaelMethods::Korselt).unwrap();
    assert_eq!(found.len(), 1);
    assert_eq!(found[0].0, num(561));
}

#[test]
fn pollards_p_1_finds_a_factor_of_91() {
    let (prime, rows) = pollards_p_1(&num(91), &num(2));
    assert!(!prime);
    assert!(rows.len() >= 2);
    let last = &rows[rows.len() - 1];
    assert_eq!(last.3, num(7));
}

#[test]
fn unresolved_residue_is_reported_not_looped_on() {
    // 9 offers no cached divisor and is no probable prime, and the cache
    // of a number this small is never extended
    let mut primes = vec![num(2)];
    assert_eq!(
        num(9).prime_factors(&mut primes),
        Err(NtError::UnresolvedResidue)
    );
}
