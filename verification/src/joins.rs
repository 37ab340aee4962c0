//! The join selector: given a domain and a candidate token, decides which
//! separators are legal when concatenating them, suppressing redundant or
//! nonsensical candidates.

use vstd::prelude::*;
use vstd::string::*;
use crate::tokenset::views;
use crate::strutil::{
    is_digit, strip_digits, first_label, label_count, starts_with, ends_with, char_is_digit,
    strip_digits_str, first_label_str, str_eq, str_starts_with, str_ends_with, count_char_str,
};

verus! {

/// The dot separator, as a character sequence.
pub open spec fn dot_sep() -> Seq<char> {
    seq!['.']
}

/// The dash separator, as a character sequence.
pub open spec fn dash_sep() -> Seq<char> {
    seq!['-']
}

/// The ordered list of separators legal for joining `token` onto `domain`.
///
/// Decision precedence:
/// 1. Domain starts with a digit and token ends with one: both separators,
///    unconditionally (avoids ambiguous digit-adjacent concatenation).
/// 2. Else, a two-label domain on the first recursion level: dot only.
/// 3. Else, by the domain's first label: equal to the token, no separator at
///    all; the token has at least four characters and prefixes the label,
///    both separators; digit-stripped label equal to the digit-stripped
///    token, none; digit-stripped label ending with the digit-stripped
///    token, dot only; otherwise both separators.
pub open spec fn joins_of(domain: Seq<char>, token: Seq<char>, first_time: bool) -> Seq<Seq<char>> {
    if domain.len() > 0 && is_digit(domain[0]) && token.len() > 0 && is_digit(token.last()) {
        seq![dot_sep(), dash_sep()]
    } else if label_count(domain) == 2 && first_time {
        seq![dot_sep()]
    } else {
        let fl = first_label(domain);
        if fl == token {
            Seq::empty()
        } else if token.len() >= 4 && starts_with(fl, token) {
            seq![dot_sep(), dash_sep()]
        } else if strip_digits(fl) == strip_digits(token) {
            Seq::empty()
        } else if ends_with(strip_digits(fl), strip_digits(token)) {
            seq![dot_sep()]
        } else {
            seq![dot_sep(), dash_sep()]
        }
    }
}

fn sep_dot() -> (r: String)
    ensures
        r@ == dot_sep(),
{
    proof {
        reveal_strlit(".");
    }
    String::from_str(".")
}

fn sep_dash() -> (r: String)
    ensures
        r@ == dash_sep(),
{
    proof {
        reveal_strlit("-");
    }
    String::from_str("-")
}

fn both_seps() -> (r: Vec<String>)
    ensures
        views(r@) == seq![dot_sep(), dash_sep()],
{
    let mut r: Vec<String> = Vec::new();
    r.push(sep_dot());
    r.push(sep_dash());
    proof {
        assert(views(r@) =~= seq![dot_sep(), dash_sep()]);
    }
    r
}

fn dot_only() -> (r: Vec<String>)
    ensures
        views(r@) == seq![dot_sep()],
{
    let mut r: Vec<String> = Vec::new();
    r.push(sep_dot());
    proof {
        assert(views(r@) =~= seq![dot_sep()]);
    }
    r
}

fn no_seps() -> (r: Vec<String>)
    ensures
        views(r@) == Seq::<Seq<char>>::empty(),
{
    let r: Vec<String> = Vec::new();
    proof {
        assert(views(r@) =~= Seq::<Seq<char>>::empty());
    }
    r
}

/// Computes the ordered, de-duplicated list of separators to try when
/// concatenating `permutation` and `domain`, per `joins_of`.
pub fn get_joins(domain: &str, permutation: &str, first_time: bool) -> (r: Vec<String>)
    ensures
        views(r@) == joins_of(domain@, permutation@, first_time),
{
    let nd: usize = domain.unicode_len();
    let np: usize = permutation.unicode_len();

    if nd > 0 && char_is_digit(domain.get_char(0)) && np > 0 && char_is_digit(
        permutation.get_char(np - 1),
    ) {
        return both_seps();
    }

    let dots = count_char_str(domain, '.');
    if dots == 1 && first_time {
        return dot_only();
    }

    let fl = first_label_str(domain);
    if str_eq(fl, permutation) {
        return no_seps();
    }
    if np >= 4 && str_starts_with(fl, permutation) {
        return both_seps();
    }
    let sfl = strip_digits_str(fl);
    let st = strip_digits_str(permutation);
    if str_eq(sfl.as_str(), st.as_str()) {
        return no_seps();
    }
    if str_ends_with(sfl.as_str(), st.as_str()) {
        return dot_only();
    }
    both_seps()
}

} // verus!
