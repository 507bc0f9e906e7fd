//! Numbers travel through the engine as their canonical JSON texts (the form
//! `serde_json` prints): integers as plain decimal digits, other doubles in
//! the shortest form that reads back to the same double. Arithmetic and
//! comparison on those texts happen in IEEE-754 double precision through a
//! small set of trusted wrappers; everything around them is verified.

use vstd::prelude::*;

verus! {

/// Whether the double written in `a` is strictly below the one written in
/// `b`; false when either text is not a JSON number.
pub uninterp spec fn num_below(a: Seq<char>, b: Seq<char>) -> bool;

/// Whether the double written in `a` is at most the one written in `b`;
/// false when either text is not a JSON number.
pub uninterp spec fn num_at_most(a: Seq<char>, b: Seq<char>) -> bool;

/// Whether the doubles written in `a` and `b` differ by less than the
/// machine epsilon of a double; false when either text is not a JSON number.
pub uninterp spec fn num_close(a: Seq<char>, b: Seq<char>) -> bool;

/// The canonical text of the sum of the doubles written in `a` and `b`;
/// `None` when a text is not a JSON number or the sum is not finite.
pub uninterp spec fn num_plus(a: Seq<char>, b: Seq<char>) -> Option<Seq<char>>;

/// The canonical text of the double written in `a` divided by `n`; `None`
/// when `a` is not a JSON number or the quotient is not finite.
pub uninterp spec fn num_over(a: Seq<char>, n: usize) -> Option<Seq<char>>;

/// The value of the double written in `a`, when that double is a whole
/// number of magnitude below `i64::MAX`; `None` otherwise.
pub uninterp spec fn num_whole(a: Seq<char>) -> Option<i64>;

/// The canonical text of the double that `a` parses to under Rust's float
/// grammar; `None` when `a` does not parse or parses to a non-finite value.
pub uninterp spec fn num_canon(a: Seq<char>) -> Option<Seq<char>>;

/// Relies on serde_json::Number parsing and f64 `<`: strict order of the
/// two numbers written in the texts.
#[verifier::external_body]
pub fn num_lt(a: &str, b: &str) -> (r: bool)
    ensures
        r == num_below(a@, b@),
{
    match (
        serde_json::from_str::<serde_json::Number>(a),
        serde_json::from_str::<serde_json::Number>(b),
    ) {
        (Ok(x), Ok(y)) => match (x.as_f64(), y.as_f64()) {
            (Some(x), Some(y)) => x < y,
            _ => false,
        },
        _ => false,
    }
}

/// Relies on serde_json::Number parsing and f64 `<=`.
#[verifier::external_body]
pub fn num_le(a: &str, b: &str) -> (r: bool)
    ensures
        r == num_at_most(a@, b@),
{
    match (
        serde_json::from_str::<serde_json::Number>(a),
        serde_json::from_str::<serde_json::Number>(b),
    ) {
        (Ok(x), Ok(y)) => match (x.as_f64(), y.as_f64()) {
            (Some(x), Some(y)) => x <= y,
            _ => false,
        },
        _ => false,
    }
}

/// The machine epsilon of a double, 2^-52, as the text its parse reads.
pub const EPSILON_TEXT: &'static str = "2.220446049250313e-16";

/// Relies on serde_json::Number parsing and f64 subtraction: equality
/// within `EPSILON_TEXT`, the machine epsilon of a double.
#[verifier::external_body]
pub fn num_eq_eps(a: &str, b: &str) -> (r: bool)
    ensures
        r == num_close(a@, b@),
{
    let pa = serde_json::from_str::<serde_json::Number>(a);
    let pb = serde_json::from_str::<serde_json::Number>(b);
    match (pa, pb) {
        (Ok(x), Ok(y)) => match (x.as_f64(), y.as_f64(), EPSILON_TEXT.parse()) {
            (Some(x), Some(y), Ok(eps)) => (x - y).abs() < eps,
            _ => false,
        },
        _ => false,
    }
}

/// Relies on serde_json::Number parsing, f64 addition, and serde_json's
/// number printing (shortest round-tripping form).
#[verifier::external_body]
pub fn num_add(a: &str, b: &str) -> (r: Option<String>)
    ensures
        r.deep_view() == num_plus(a@, b@),
{
    match (
        serde_json::from_str::<serde_json::Number>(a),
        serde_json::from_str::<serde_json::Number>(b),
    ) {
        (Ok(x), Ok(y)) => match (x.as_f64(), y.as_f64()) {
            (Some(x), Some(y)) => serde_json::Number::from_f64(x + y).map(|n| n.to_string()),
            _ => None,
        },
        _ => None,
    }
}

/// Relies on serde_json::Number parsing, f64 division, and serde_json's
/// number printing.
#[verifier::external_body]
pub fn num_div(a: &str, n: usize) -> (r: Option<String>)
    ensures
        r.deep_view() == num_over(a@, n),
{
    let d = serde_json::Number::from(n as u64);
    match (
        serde_json::from_str::<serde_json::Number>(a),
        d.as_f64(),
    ) {
        (Ok(x), Some(d)) => match x.as_f64() {
            Some(x) => serde_json::Number::from_f64(x / d).map(|n| n.to_string()),
            None => None,
        },
        _ => None,
    }
}

/// Relies on serde_json::Number parsing, f64 truncation and casting: the
/// number as an `i64` when it is whole and of magnitude below `i64::MAX`.
#[verifier::external_body]
pub fn num_whole_part(a: &str) -> (r: Option<i64>)
    ensures
        r == num_whole(a@),
{
    let n = match serde_json::from_str::<serde_json::Number>(a) {
        Ok(n) => n,
        Err(_) => return None,
    };
    match (n.as_f64(), serde_json::Number::from(i64::MAX).as_f64()) {
        (Some(x), Some(cap)) if x == x.trunc() && x.abs() < cap => Some(x as i64),
        _ => None,
    }
}

/// Relies on Rust's f64 parsing and serde_json's number printing: the
/// canonical text of what `a` parses to, for finite results.
#[verifier::external_body]
pub fn num_parse(a: &str) -> (r: Option<String>)
    ensures
        r.deep_view() == num_canon(a@),
{
    match a.parse() {
        Ok(x) => serde_json::Number::from_f64(x).map(|n| n.to_string()),
        Err(_) => None,
    }
}

/// The character for the decimal digit `d`.
pub open spec fn digit_char(d: int) -> char {
    ((d + 48) as u8) as char
}

/// The decimal digits of `n`, most significant first.
pub open spec fn dec_digits(n: nat) -> Seq<char>
    decreases n,
{
    if n < 10 {
        seq![digit_char(n as int)]
    } else {
        dec_digits(n / 10).push(digit_char((n % 10) as int))
    }
}

/// The decimal text of `i`: a minus sign for negative values, then digits.
pub open spec fn int_text(i: int) -> Seq<char> {
    if i < 0 {
        seq!['-'] + dec_digits((-i) as nat)
    } else {
        dec_digits(i as nat)
    }
}

/// The decimal text of an unsigned machine integer.
pub fn u64_text(n: u64) -> (r: String)
    ensures
        r@ == dec_digits(n as nat),
    decreases n,
{
    if n < 10 {
        let c = ((n as u8) + 48) as char;
        let mut s = String::new();
        crate::text::push_char(&mut s, c);
        proof {
            assert(s@ =~= dec_digits(n as nat));
        }
        s
    } else {
        let mut s = u64_text(n / 10);
        let c = (((n % 10) as u8) + 48) as char;
        crate::text::push_char(&mut s, c);
        s
    }
}

/// The decimal text of a length or count.
pub fn usize_text(n: usize) -> (r: String)
    ensures
        r@ == dec_digits(n as nat),
{
    u64_text(n as u64)
}

/// The decimal text of a signed machine integer.
pub fn i64_text(i: i64) -> (r: String)
    ensures
        r@ == int_text(i as int),
{
    if i >= 0 {
        u64_text(i as u64)
    } else {
        let mag: u64 = if i == i64::MIN {
            9223372036854775808u64
        } else {
            (-i) as u64
        };
        let mut s = String::new();
        crate::text::push_char(&mut s, '-');
        let digits = u64_text(mag);
        let s = s.concat(digits.as_str());
        proof {
            assert(s@ =~= int_text(i as int));
        }
        s
    }
}

} // verus!
