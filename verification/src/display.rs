//! Plain-data table rows for the diagnostic output of the tests, and the
//! formatting rules that fill them.  Rendering the rows into actual
//! tables is left to the binaries consuming this crate; the rows here are
//! ordinary strings and booleans with exactly specified content.

use crate::natural::{dec_of, Natural};
use vstd::prelude::*;
use vstd::string::StringExecFns;

verus! {

/// The superscript character for one decimal digit character.
pub open spec fn sup_digit(c: char) -> char {
    if c == '0' {
        '\u{2070}'
    } else if c == '1' {
        '\u{00b9}'
    } else if c == '2' {
        '\u{00b2}'
    } else if c == '3' {
        '\u{00b3}'
    } else if c == '4' {
        '\u{2074}'
    } else if c == '5' {
        '\u{2075}'
    } else if c == '6' {
        '\u{2076}'
    } else if c == '7' {
        '\u{2077}'
    } else if c == '8' {
        '\u{2078}'
    } else {
        '\u{2079}'
    }
}

/// The decimal digits of `n`, each turned into its superscript character.
pub open spec fn sup_of(n: nat) -> Seq<char> {
    dec_of(n).map_values(|c: char| sup_digit(c))
}

/// Relies on `fmtastic::Superscript`, whose `Display` implementation
/// prints the decimal digits of the number as the corresponding Unicode
/// superscript characters.
#[verifier::external_body]
fn superscript_u64(k: u64) -> (r: String)
    ensures
        r@ == sup_of(k as nat),
{
    format!("{}", fmtastic::Superscript(k))
}

/// What [`superscript_text`] produces: superscript digits whenever the
/// number fits the formatter's 64-bit input, plain digits otherwise.
pub open spec fn sup_text(n: nat) -> Seq<char> {
    if n <= u64::MAX {
        sup_of(n)
    } else {
        dec_of(n)
    }
}

/// The number printed with superscript digits (falling back to plain
/// digits for values beyond 64 bits).
pub fn superscript_text(n: &Natural) -> (r: String)
    ensures
        r@ == sup_text(n@),
{
    match n.to_u64() {
        Some(v) => superscript_u64(v),
        None => n.to_decimal(),
    }
}

/// One row of the random-gcd compositeness table: the number under test,
/// the drawn base, and their gcd, all pre-rendered.
pub struct GcdTestTable {
    pub num: String,
    pub a: String,
    pub gcd: String,
}

impl GcdTestTable {
    pub fn new(num: String, a: String, gcd: String) -> (r: Self)
        ensures
            r.num == num,
            r.a == a,
            r.gcd == gcd,
    {
        Self { num, a, gcd }
    }
}

/// One row of a factorisation listing: a number and its rendered
/// factorisation.
pub struct NumFactorTable {
    pub number: String,
    pub factorisation: String,
}

impl NumFactorTable {
    pub fn new(number: String, factorisation: String) -> (r: Self)
        ensures
            r.number == number,
            r.factorisation == factorisation,
    {
        Self { number, factorisation }
    }
}

/// One step of the Miller-Rabin witness search: the working values of the
/// round and the verdict message derived from them.
pub struct MillerRabinTable {
    pub n: String,
    pub n_minus_one_form: String,
    pub s: String,
    pub a: String,
    pub k: String,
    pub e: String,
    pub a_raised_e: String,
    pub x_congruent_1_mod_n: bool,
    pub x_congruent_minus_1_mod_n: bool,
    pub message: String,
}

impl MillerRabinTable {
    pub fn new(
        n: String,
        n_minus_one_form: String,
        s: String,
        a: String,
        k: String,
        e: String,
        a_raised_e: String,
        x_congruent_1_mod_n: bool,
        x_congruent_minus_1_mod_n: bool,
        message: String,
    ) -> (r: Self)
        ensures
            r.n == n,
            r.n_minus_one_form == n_minus_one_form,
            r.s == s,
            r.a == a,
            r.k == k,
            r.e == e,
            r.a_raised_e == a_raised_e,
            r.x_congruent_1_mod_n == x_congruent_1_mod_n,
            r.x_congruent_minus_1_mod_n == x_congruent_minus_1_mod_n,
            r.message == message,
    {
        Self {
            n,
            n_minus_one_form,
            s,
            a,
            k,
            e,
            a_raised_e,
            x_congruent_1_mod_n,
            x_congruent_minus_1_mod_n,
            message,
        }
    }

    pub fn get_message(&self) -> (r: String)
        ensures
            r == self.message,
    {
        self.message.clone()
    }
}

/// The verdict text attached to one Miller-Rabin step: the first step
/// reports ±1 hits as probable primality, later steps report -1 hits the
/// same way and a plain 1 as compositeness, and a search that exhausts
/// every squaring reports compositeness.
pub open spec fn mr_message(
    n: nat,
    x: nat,
    s: nat,
    k: nat,
    x1: bool,
    xm1: bool,
) -> Seq<char> {
    if k == 0 {
        if x1 || xm1 {
            dec_of(n) + " is Probably Prime"@
        } else {
            dec_of(x)
                + " is neither congruent to 1 (mod n) nor -1 (mod n). Search for sqaure roots of 1 (mod n)"@
        }
    } else if k < s {
        if xm1 {
            dec_of(n) + " is Probably Prime"@
        } else if x1 {
            dec_of(n) + " is composite"@
        } else {
            Seq::<char>::empty()
        }
    } else if k == s {
        dec_of(n) + " is composite"@
    } else {
        Seq::<char>::empty()
    }
}

/// Renders one Miller-Rabin step as a table row — every value in decimal,
/// the verdict text chosen by [`mr_message`] — and appends it to the
/// collected trace.
pub fn format_miller_rabin_steps_print(
    n: &Natural,
    n_minus_one_form: &String,
    s: &Natural,
    a: &Natural,
    k: &Natural,
    e: &Natural,
    a_raised_e: &Natural,
    x_congruent_1_mod_n: bool,
    x_congruent_minus_1_mod_n: bool,
    table_data: &mut Vec<MillerRabinTable>,
)
    ensures
        final(table_data)@.len() == old(table_data)@.len() + 1,
        forall|i: int|
            0 <= i < old(table_data)@.len() ==> final(table_data)@[i] == old(table_data)@[i],
        ({
            let row = final(table_data)@.last();
            &&& row.n@ == dec_of(n@)
            &&& row.n_minus_one_form@ == n_minus_one_form@
            &&& row.s@ == dec_of(s@)
            &&& row.a@ == dec_of(a@)
            &&& row.k@ == dec_of(k@)
            &&& row.e@ == dec_of(e@)
            &&& row.a_raised_e@ == dec_of(a_raised_e@)
            &&& row.x_congruent_1_mod_n == x_congruent_1_mod_n
            &&& row.x_congruent_minus_1_mod_n == x_congruent_minus_1_mod_n
            &&& row.message@ == mr_message(
                n@,
                a_raised_e@,
                s@,
                k@,
                x_congruent_1_mod_n,
                x_congruent_minus_1_mod_n,
            )
        }),
{
    let mut message = String::new();
    let is_first = k.is_zero();
    if is_first {
        if x_congruent_1_mod_n || x_congruent_minus_1_mod_n {
            message.append(n.to_decimal().as_str());
            message.append(" is Probably Prime");
        } else {
            message.append(a_raised_e.to_decimal().as_str());
            message.append(
                " is neither congruent to 1 (mod n) nor -1 (mod n). Search for sqaure roots of 1 (mod n)",
            );
        }
    } else if k.lt(s) {
        if x_congruent_minus_1_mod_n {
            message.append(n.to_decimal().as_str());
            message.append(" is Probably Prime");
        } else if x_congruent_1_mod_n {
            message.append(n.to_decimal().as_str());
            message.append(" is composite");
        }
    } else if k.cmp_with(s) == 0 {
        message.append(n.to_decimal().as_str());
        message.append(" is composite");
    }
    let row = MillerRabinTable::new(
        n.to_decimal(),
        n_minus_one_form.clone(),
        s.to_decimal(),
        a.to_decimal(),
        k.to_decimal(),
        e.to_decimal(),
        a_raised_e.to_decimal(),
        x_congruent_1_mod_n,
        x_congruent_minus_1_mod_n,
        message,
    );
    table_data.push(row);
}

/// One row of the quadratic-sieve matrix listing.
pub struct Matrix {
    pub number: String,
}

impl Matrix {
    pub fn new(number: String) -> (r: Self)
        ensures
            r.number == number,
    {
        Self { number }
    }
}

/// One rendered factor: the base in decimal with its multiplicity in
/// superscript.
pub open spec fn factor_piece(p: nat, e: nat) -> Seq<char> {
    dec_of(p) + sup_text(e)
}

/// The factors joined with " x " separators.
pub open spec fn factors_form(f: Seq<(Natural, u128)>, upto: int) -> Seq<char>
    decreases upto,
{
    if upto <= 0 {
        Seq::<char>::empty()
    } else if upto == 1 {
        factor_piece(f[0].0@, f[0].1 as nat)
    } else {
        factors_form(f, upto - 1) + " x "@ + factor_piece(f[upto - 1].0@, f[upto - 1].1 as nat)
    }
}

/// Renders a factorisation as "p₁^e₁ x p₂^e₂ x …", appends the text to
/// `form`, and records a row pairing the number with that text.
pub fn format_prime_factors_print(
    num: &Natural,
    p_factors: &Vec<(Natural, u128)>,
    form: &mut String,
    table_data: &mut Vec<NumFactorTable>,
)
    ensures
        final(form)@ == old(form)@ + factors_form(p_factors@, p_factors@.len() as int),
        final(table_data)@.len() == old(table_data)@.len() + 1,
        forall|i: int|
            0 <= i < old(table_data)@.len() ==> final(table_data)@[i] == old(table_data)@[i],
        final(table_data)@.last().number@ == dec_of(num@),
        final(table_data)@.last().factorisation@ == old(form)@ + factors_form(
            p_factors@,
            p_factors@.len() as int,
        ),
{
    let mut i: usize = 0;
    while i < p_factors.len()
        invariant
            i <= p_factors@.len(),
            form@ == old(form)@ + factors_form(p_factors@, i as int),
        decreases p_factors@.len() - i,
    {
        if i > 0 {
            form.append(" x ");
        }
        let piece_base = p_factors[i].0.to_decimal();
        let mult = Natural::from_u128(p_factors[i].1);
        let piece_sup = superscript_text(&mult);
        form.append(piece_base.as_str());
        form.append(piece_sup.as_str());
        proof {
            if i == 0 {
                assert(factors_form(p_factors@, 1) == factor_piece(
                    p_factors@[0].0@,
                    p_factors@[0].1 as nat,
                ));
                assert(form@ == old(form)@ + factors_form(p_factors@, i + 1));
            }
        }
        i = i + 1;
    }
    let row = NumFactorTable::new(num.to_decimal(), form.clone());
    table_data.push(row);
}

} // verus!
