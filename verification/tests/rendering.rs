use nt_tools::display::{
    format_prime_factors_print, superscript_text, GcdTestTable, MillerRabinTable, NumFactorTable,
};
use nt_tools::logarithms::{pollards_rho, RhoOutcome};
use nt_tools::natural::Natural;
use nt_tools::presets::{
    ass1_question3_miller_rabin, find_primes_in_range_trial_division,
    find_primes_in_range_trial_division_parallel, list_prime_factors_in_range, NumCategory,
};
use nt_tools::primality::{gcd_test, miller_rabin_test};
use nt_tools::quadratic_sieve::{prepare_matrix, zeros};

fn num(x: u64) -> Natural {
    Natural::from_u64(x)
}

fn numlist(xs: &[u64]) -> Vec<Natural> {
    let mut out = Vec::new();
    for x in xs.iter() {
        out.push(num(*x));
    }
    out
}

fn expected_primes_2800_3100() -> Vec<Natural> {
    numlist(&[
        2801, 2803, 2819, 2833, 2837, 2843, 2851, 2857, 2861, 2879, 2887, 2897, 2903, 2909, 2917,
        2927, 2939, 2953, 2957, 2963, 2969, 2971, 2999, 3001, 3011, 3019, 3023, 3037, 3041, 3049,
        3061, 3067, 3079, 3083, 3089,
    ])
}

#[test]
fn test_find_primes_in_range_trial_division_parallel() {
    let primes_in_range = expected_primes_2800_3100();
    assert_eq!(
        primes_in_range,
        find_primes_in_range_trial_division_parallel(&num(2800), &num(3100)).0
    );
}

#[test]
fn test_find_primes_in_range_trial_division() {
    let primes_in_range = expected_primes_2800_3100();
    assert_eq!(
        primes_in_range,
        find_primes_in_range_trial_division(&num(2800), &num(3100)).0
    );
}

#[test]
fn superscripts_render_with_superscript_digits() {
    assert_eq!(superscript_text(&num(23)), "\u{00b2}\u{00b3}");
    assert_eq!(superscript_text(&num(0)), "\u{2070}");
}

#[test]
fn factorisation_rows_render_number_and_form() {
    let factors = vec![(num(2), 2u128), (num(5), 2u128)];
    let mut form = String::new();
    let mut rows: Vec<NumFactorTable> = Vec::new();
    format_prime_factors_print(&num(100), &factors, &mut form, &mut rows);
    assert_eq!(rows.len(), 1);
    assert_eq!(rows[0].number, "100");
    assert_eq!(rows[0].factorisation, "2\u{00b2} x 5\u{00b2}");
    assert_eq!(form, "2\u{00b2} x 5\u{00b2}");
}

#[test]
fn miller_rabin_trace_records_the_round() {
    let (passes, trace) = miller_rabin_test(&num(409), &num(2));
    assert!(passes);
    assert!(trace.len() >= 1);
    assert_eq!(trace[0].n, "409");
    assert_eq!(trace[0].a, "2");
    assert_eq!(trace[0].s, "3");
    assert_eq!(trace[0].n_minus_one_form, "408 = 51.2\u{00b3}");
    let (passes, trace) = miller_rabin_test(&num(511), &num(2));
    assert!(!passes);
    assert!(trace.len() >= 1);
    let msg = trace[0].get_message();
    assert!(msg.len() > 0);
}

#[test]
fn non_witness_search_for_a_prime_lists_every_base() {
    let (form, non_witnesses) = ass1_question3_miller_rabin(&num(13));
    assert_eq!(non_witnesses.len(), 10);
    assert_eq!(non_witnesses[0], "2");
    assert_eq!(form, "12 = 3.2\u{00b2}");
}

#[test]
fn gcd_test_draws_the_requested_number_of_trials() {
    let rows = gcd_test(&num(15), 4);
    assert_eq!(rows.len(), 4);
    for (a, g) in rows.iter() {
        let av = a.to_u64().unwrap();
        assert!(2 <= av && av <= 13);
        let gv = g.to_u64().unwrap();
        assert!(15 % gv == 0 && av % gv == 0);
    }
}

#[test]
fn factor_listing_categories_filter_rows() {
    let (rows, data) = list_prime_factors_in_range(&num(26), &num(40), NumCategory::CompositesPQ)
        .unwrap();
    assert_eq!(rows.len(), data.len());
    let mut found = Vec::new();
    for (n, f) in data.iter() {
        assert_eq!(f.len(), 2);
        found.push(n.to_u64().unwrap());
    }
    assert_eq!(found, vec![26, 33, 34, 35, 38, 39]);
}

#[test]
fn rho_walk_terminates_with_a_verdict() {
    let (rows, outcome) = pollards_rho(&num(2), &num(5), &num(23));
    match outcome {
        RhoOutcome::Congruence(_, _, _) => {
            assert!(rows.len() >= 1);
            let last = &rows[rows.len() - 1];
            assert_eq!(last.1, last.4);
        },
        RhoOutcome::NoSolution => {
            assert!(rows.len() >= 1);
        },
        RhoOutcome::Exhausted => {},
    }
    assert!(rows.len() >= 1);
    assert_eq!(rows[0].0, num(1));
}

#[test]
fn zeros_fills_with_zeroes() {
    let z = zeros(5);
    assert_eq!(z, vec![0, 0, 0, 0, 0]);
}

#[test]
fn sieve_rows_have_one_column_per_base_prime() {
    let (base, rows) = prepare_matrix(&num(9109)).unwrap();
    assert!(base.len() >= 1);
    for row in rows.iter() {
        assert_eq!(row.len(), base.len() + 1);
        assert!(row[0] == 0 || row[0] == 1);
    }
}

#[test]
fn table_rows_keep_their_fields() {
    let g = GcdTestTable::new("15".to_string(), "a1 = 4".to_string(), "gcd1 = 1".to_string());
    assert_eq!(g.num, "15");
    let m = MillerRabinTable::new(
        "409".to_string(),
        "408 = 51.2\u{00b3}".to_string(),
        "3".to_string(),
        "2".to_string(),
        "0".to_string(),
        "51".to_string(),
        "143".to_string(),
        false,
        false,
        "probe".to_string(),
    );
    assert_eq!(m.get_message(), "probe");
}
