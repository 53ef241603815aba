use nt_tools::natural::Natural;
use nt_tools::utils::{modular_pow, Gcd};
use nt_tools::NtError;

fn num(x: u64) -> Natural {
    Natural::from_u64(x)
}

#[test]
fn test_gcd_euclid_1() {
    let a = num(100);
    let result = a.gcd_euclid(&num(76));
    assert_eq!(result, num(4));
    assert_eq!(num(44), num(2024).gcd_euclid(&num(748)));
}

#[test]
fn test_modular_pow() {
    let result = modular_pow(&num(2), &num(825), &num(173)).unwrap();
    assert_eq!(result, num(107));
}

fn naive_pow_mod(base: u64, e: u64, m: u64) -> u64 {
    let mut acc: u128 = 1 % (m as u128);
    let mut i = 0;
    while i < e {
        acc = (acc * base as u128) % (m as u128);
        i += 1;
    }
    acc as u64
}

#[test]
fn modular_pow_matches_naive_reference() {
    for base in 0..7u64 {
        for e in 0..9u64 {
            for m in 1..9u64 {
                let got = modular_pow(&num(base), &num(e), &num(m)).unwrap();
                let want = naive_pow_mod(base, e, m);
                assert_eq!(got, num(want));
                assert!(got.to_u64().unwrap() < m);
            }
        }
    }
}

#[test]
fn modular_pow_rejects_zero_modulus() {
    let r = modular_pow(&num(5), &num(3), &num(0));
    assert_eq!(r, Err(NtError::InvalidInput));
}

#[test]
fn decimal_round_trip() {
    let big = "49675218696612399034240799519655205503986657506787162015105425670413948962864456158664793804627084299081036134562339483478437262146378569515417671690110863951848724044479367633926630234074394356492223";
    let v = Natural::from_decimal_str(big).unwrap();
    assert_eq!(v.to_decimal(), big);
    assert_eq!(num(0).to_decimal(), "0");
    assert_eq!(num(105).to_decimal(), "105");
    assert!(Natural::from_decimal_str("-5").is_none());
    assert!(Natural::from_decimal_str("12a").is_none());
}

#[test]
fn gcd_of_zero_pair() {
    assert_eq!(num(0).gcd_euclid(&num(0)), num(0));
    assert_eq!(num(0).gcd_euclid(&num(9)), num(9));
    assert_eq!(num(9).gcd_euclid(&num(0)), num(9));
}
