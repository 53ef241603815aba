use nt_tools::groups_modulo_n::{
    coprime_nums_less_than_n, divisors_of_n, euler_totient_phi, euler_totient_phi_counting_coprimes,
    is_integer_of_form_pk_2pk, multiplicative_order, primitive_roots_count_modulo_n,
    primitive_roots_trial_n_error, sort_dedup,
};
use nt_tools::natural::Natural;
use nt_tools::presets::search_nums_with_primitive_roots;

fn num(x: u64) -> Natural {
    Natural::from_u64(x)
}

fn numlist(xs: &[u64]) -> Vec<Natural> {
    let mut out = Vec::new();
    for x in xs.iter() {
        out.push(num(*x));
    }
    out
}

#[test]
fn test_divisors_of_n() {
    let result = divisors_of_n(&num(160)).unwrap();
    let d = numlist(&[1, 2, 4, 5, 8, 10, 16, 20, 32, 40, 80, 160]);
    assert_eq!(result, d);
}

#[test]
fn test_get_integers_coprime_n_1() {
    let result = coprime_nums_less_than_n(&num(10));
    assert_eq!(result, numlist(&[1, 3, 7, 9]));
}

#[test]
fn test_get_integers_coprime_n_2() {
    let result = coprime_nums_less_than_n(&num(17));
    let mut s = Vec::new();
    for x in 1..17u64 {
        s.push(num(x));
    }
    assert_eq!(result, s);
}

#[test]
fn test_euler_totient_phi_v1() {
    let result = euler_totient_phi_counting_coprimes(&num(378));
    assert_eq!(result, num(108));
    let result = euler_totient_phi_counting_coprimes(&num(601));
    assert_eq!(result, num(600));
}

#[test]
fn test_euler_totient() {
    let result = euler_totient_phi(&num(378)).unwrap();
    assert_eq!(result, num(108));
}

#[test]
fn test_primitive_roots_trial_n_error() {
    let result = primitive_roots_trial_n_error(&num(25)).unwrap();
    assert_eq!(result, numlist(&[2, 3, 8, 12, 13, 17, 22, 23]));
}

#[test]
fn test_primitive_roots_count_modulo_n() {
    let result = primitive_roots_count_modulo_n(&num(1250)).unwrap();
    assert_eq!(result, num(200));
    let result = primitive_roots_count_modulo_n(&num(59)).unwrap();
    assert_eq!(result, num(28));
    let result = primitive_roots_count_modulo_n(&num(20)).unwrap();
    assert_eq!(result, num(0));
    let result = primitive_roots_count_modulo_n(&num(30)).unwrap();
    assert_eq!(result, num(0));
    let result = primitive_roots_count_modulo_n(&num(10)).unwrap();
    assert_eq!(result, num(2));
    let result = primitive_roots_count_modulo_n(&num(40)).unwrap();
    assert_eq!(result, num(0));
}

#[test]
fn test_multiplicative_order() {
    assert_eq!(
        Some(num(50)),
        multiplicative_order(&num(45), &num(101)).unwrap()
    );
}

#[test]
fn test_multiplicative_order_none() {
    assert_eq!(None, multiplicative_order(&num(45), &num(100)).unwrap());
}

#[test]
fn test_is_integer_of_form_pk_2pk() {
    let result = is_integer_of_form_pk_2pk(&num(25)).unwrap();
    assert_eq!(result, vec![(num(5), 2u128)]);

    let result = is_integer_of_form_pk_2pk(&num(20)).unwrap();
    assert_eq!(result, vec![]);

    let result = is_integer_of_form_pk_2pk(&num(147)).unwrap();
    assert_eq!(result, vec![]);

    let result = is_integer_of_form_pk_2pk(&num(49)).unwrap();
    assert_eq!(result, vec![(num(7), 2u128)]);
}

#[test]
fn primitive_root_search_over_a_small_range() {
    let (with, without) = search_nums_with_primitive_roots(&num(2), &num(10)).unwrap();
    assert_eq!(with, vec!["3", "4", "5", "6", "7", "9", "10"]);
    assert_eq!(without, vec!["2", "8"]);
}

#[test]
fn sort_dedup_orders_and_deduplicates() {
    let input = numlist(&[9, 2, 7, 2, 9, 1]);
    let sorted = sort_dedup(&input);
    assert_eq!(sorted, numlist(&[1, 2, 7, 9]));
}
