//! Float tokens. The value tree carries a float as its canonical decimal
//! text, and this module holds the one trusted bridge that produces such
//! texts: `serde_json::Number`, which parses a JSON number token and
//! renders it back through `itoa`/`zmij` in a shortest round-tripping
//! form. Everything else in the crate reasons about these texts only
//! through the two named results below.

use vstd::prelude::*;

use crate::digits::is_digit;
use crate::digits::is_i64_literal;

verus! {

/// Names the truth value of `<serde_json::Number as FromStr>::from_str(s).is_ok()`:
/// whether a token is a well-formed JSON number. The result depends on
/// the characters alone.
pub uninterp spec fn number_parses(s: Seq<char>) -> bool;

/// Names the text of `Number::from_str(s).unwrap().to_string()`: the
/// canonical rendering of the number a token denotes. The result depends
/// on the characters alone.
pub uninterp spec fn number_canon(s: Seq<char>) -> Seq<char>;

/// Whether `c` can occur in a canonical number text: a digit, a minus,
/// a decimal point, an exponent mark, or the plus of an exponent (the
/// shortest-float formatter writes `1e+16` for large magnitudes).
pub open spec fn is_number_char(c: char) -> bool {
    is_digit(c) || c == '-' || c == '+' || c == '.' || c == 'e' || c == 'E'
}

/// The decoder's leading-zero guard: after an optional `-`, a `0`
/// followed directly by another digit. Such a token is always read as a
/// string, never as a number.
pub open spec fn leading_zero_numeric(s: Seq<char>) -> bool {
    let t = if s.len() >= 1 && s[0] == '-' {
        s.skip(1)
    } else {
        s
    };
    t.len() >= 2 && t[0] == '0' && is_digit(t[1])
}

/// A float text the tree may carry: a canonical number rendering. It
/// parses as a number, re-rendering it changes nothing, it is made of
/// number characters without a leading zero, and the integer path of the
/// decoder does not claim it.
pub open spec fn wf_float_text(t: Seq<char>) -> bool {
    &&& number_parses(t)
    &&& number_canon(t) == t
    &&& t.len() >= 1
    &&& forall|i: int| 0 <= i < t.len() ==> is_number_char(#[trigger] t[i])
    &&& !leading_zero_numeric(t)
    &&& !is_i64_literal(t)
}

/// Relies on `serde_json::Number` with its `float_roundtrip` feature
/// on: `from_str` accepts exactly the JSON number grammar over the
/// whole token (`de.rs`, `parse_any_signed_number`), parsing floats
/// with correct rounding and turning overflow into a range error
/// (`de.rs`, the `float_roundtrip` `f64_from_parts`); `Display`
/// renders integers through `itoa` and floats through the shortest
/// round-tripping float formatter (`zmij`, in `number.rs`), which
/// switches to exponent form with an explicit sign (`1e+16`) outside
/// decimal exponents -5..=15. Both are functions of the token alone.
/// The rendering is a valid JSON number itself, made of digits, `-`,
/// `+`, `.` and an exponent mark, without leading zeros; being the
/// shortest text that parses back to the same finite number, it
/// re-parses `Ok` and re-renders to itself.
#[verifier::external_body]
fn number_repr_str(s: &str) -> (r: Option<String>)
    ensures
        r is Some <==> number_parses(s@),
        r is Some ==> {
            let c = number_canon(s@);
            &&& r.unwrap()@ == c
            &&& number_parses(c)
            &&& number_canon(c) == c
            &&& c.len() >= 1
            &&& forall|i: int| 0 <= i < c.len() ==> is_number_char(#[trigger] c[i])
            &&& !leading_zero_numeric(c)
        },
{
    match s.parse::<serde_json::Number>() {
        Ok(n) => Some(n.to_string()),
        Err(_) => None,
    }
}

/// Canonicalizes a number token: `Some` exactly when the characters form
/// a JSON number, carrying its canonical rendering.
pub fn number_repr(s: &Vec<char>) -> (r: Option<Vec<char>>)
    ensures
        r is Some <==> number_parses(s@),
        r is Some ==> {
            let c = number_canon(s@);
            &&& r.unwrap()@ == c
            &&& number_parses(c)
            &&& number_canon(c) == c
            &&& c.len() >= 1
            &&& forall|i: int| 0 <= i < c.len() ==> is_number_char(#[trigger] c[i])
            &&& !leading_zero_numeric(c)
        },
{
    let text = crate::chars::chars_to_string(s);
    match number_repr_str(text.as_str()) {
        Some(c) => Some(crate::chars::string_to_chars(c.as_str())),
        None => None,
    }
}

/// Whether every float text in a sequence of values is well formed and
/// every integer fits its type.
pub open spec fn wf_model_seq(s: Seq<crate::value::Model>) -> bool
    decreases s, 0int,
{
    if s.len() == 0 {
        true
    } else {
        wf_model_seq(s.drop_last()) && wf_model(s.last())
    }
}

/// The same over an object's field list.
pub open spec fn wf_model_fields(s: Seq<(Seq<char>, crate::value::Model)>) -> bool
    decreases s, 0int,
{
    if s.len() == 0 {
        true
    } else {
        wf_model_fields(s.drop_last()) && wf_model(s.last().1)
    }
}

/// A well-formed value tree: every float text canonical, every integer
/// within `i64`. The decoder only builds such trees.
pub open spec fn wf_model(m: crate::value::Model) -> bool
    decreases m, 1int,
{
    match m {
        crate::value::Model::Null => true,
        crate::value::Model::Bool(_) => true,
        crate::value::Model::Int(i) => i64::MIN <= i <= i64::MAX,
        crate::value::Model::Float(t) => wf_float_text(t),
        crate::value::Model::Str(_) => true,
        crate::value::Model::Arr(elems) => wf_model_seq(elems),
        crate::value::Model::Obj(fields) => wf_model_fields(fields),
    }
}

/// `wf_model_seq` is the elementwise conjunction.
pub proof fn lemma_wf_model_seq_index(s: Seq<crate::value::Model>)
    ensures
        wf_model_seq(s) <==> (forall|i: int| 0 <= i < s.len() ==> wf_model(#[trigger] s[i])),
    decreases s,
{
    if s.len() > 0 {
        lemma_wf_model_seq_index(s.drop_last());
        if forall|i: int| 0 <= i < s.len() - 1 ==> wf_model(#[trigger] s.drop_last()[i]) {
            assert(forall|i: int|
                0 <= i < s.len() - 1 ==> wf_model(#[trigger] s[i]) == wf_model(s.drop_last()[i]));
        }
        if wf_model_seq(s) {
            assert(forall|i: int|
                0 <= i < s.len() - 1 ==> wf_model(#[trigger] s[i]) == wf_model(s.drop_last()[i]));
        }
    }
}

/// `wf_model_fields` is the elementwise conjunction over the values.
pub proof fn lemma_wf_model_fields_index(s: Seq<(Seq<char>, crate::value::Model)>)
    ensures
        wf_model_fields(s) <==> (forall|i: int|
            0 <= i < s.len() ==> wf_model(#[trigger] s[i].1)),
    decreases s,
{
    if s.len() > 0 {
        lemma_wf_model_fields_index(s.drop_last());
        if forall|i: int| 0 <= i < s.len() - 1 ==> wf_model(#[trigger] s.drop_last()[i].1) {
            assert(forall|i: int|
                0 <= i < s.len() - 1 ==> wf_model(#[trigger] s[i].1) == wf_model(
                    s.drop_last()[i].1,
                ));
        }
        if wf_model_fields(s) {
            assert(forall|i: int|
                0 <= i < s.len() - 1 ==> wf_model(#[trigger] s[i].1) == wf_model(
                    s.drop_last()[i].1,
                ));
        }
    }
}

/// Executable test for [`wf_float_text`].
pub fn check_float_text(t: &Vec<char>) -> (r: bool)
    ensures
        r == wf_float_text(t@),
{
    match number_repr(t) {
        None => false,
        Some(c) => {
            let same = crate::chars::chars_eq(&c, t);
            if !same {
                false
            } else {
                let int_claim = crate::digits::parse_i64(t);
                int_claim.is_none()
            }
        },
    }
}

} // verus!
