//! The lexical ruleset shared by both directions: whitespace trimming,
//! quoting and escaping, key validity, numeric-likeness, and the
//! classification and formatting of primitive tokens. Encoder and
//! decoder agree character for character through these definitions.

use vstd::prelude::*;

use crate::digits::dec_digits;
use crate::digits::digits_value;
use crate::digits::int_text;
use crate::digits::is_digit;
use crate::digits::is_i64_literal;
use crate::digits::i64_literal_value;
use crate::digits::lemma_dec_digits;
use crate::digits::lemma_int_text_roundtrip;
use crate::digits::sign_split;
use crate::number::is_number_char;
use crate::number::leading_zero_numeric;
use crate::number::number_canon;
use crate::number::number_parses;
use crate::number::wf_float_text;
use crate::value::Model;
use crate::value::ToonError;
use crate::value::Value;

verus! {

/// Whether `c` has Unicode's `White_Space` property: the set that
/// `char::is_whitespace` and `str::trim` go by.
pub open spec fn is_ws(c: char) -> bool {
    let u = c as int;
    ||| (9 <= u && u <= 13)
    ||| u == 32
    ||| u == 0x85
    ||| u == 0xA0
    ||| u == 0x1680
    ||| (0x2000 <= u && u <= 0x200A)
    ||| u == 0x2028
    ||| u == 0x2029
    ||| u == 0x202F
    ||| u == 0x205F
    ||| u == 0x3000
}

/// Executable counterpart of [`is_ws`].
pub fn ws_check(c: char) -> (r: bool)
    ensures
        r == is_ws(c),
{
    let u = c as u32;
    (9 <= u && u <= 13) || u == 32 || u == 0x85 || u == 0xA0 || u == 0x1680 || (0x2000 <= u && u
        <= 0x200A) || u == 0x2028 || u == 0x2029 || u == 0x202F || u == 0x205F || u == 0x3000
}

/// The length of the longest all-whitespace prefix of `s`.
pub open spec fn ws_prefix_len(s: Seq<char>) -> int
    decreases s.len(),
{
    if s.len() == 0 || !is_ws(s[0]) {
        0
    } else {
        1 + ws_prefix_len(s.skip(1))
    }
}

/// The length of the longest all-whitespace suffix of `s`.
pub open spec fn ws_suffix_len(s: Seq<char>) -> int
    decreases s.len(),
{
    if s.len() == 0 || !is_ws(s.last()) {
        0
    } else {
        1 + ws_suffix_len(s.drop_last())
    }
}

/// `s` without its leading whitespace.
pub open spec fn spec_trim_start(s: Seq<char>) -> Seq<char> {
    s.skip(ws_prefix_len(s))
}

/// `s` without its trailing whitespace.
pub open spec fn spec_trim_end(s: Seq<char>) -> Seq<char> {
    s.take(s.len() - ws_suffix_len(s))
}

/// `s` without leading and trailing whitespace: what `str::trim` keeps.
pub open spec fn spec_trim(s: Seq<char>) -> Seq<char> {
    spec_trim_start(spec_trim_end(s))
}

/// A scan that saw whitespace up to `i` and a non-whitespace character
/// (or the end) at `i` has found the whitespace prefix length.
pub proof fn lemma_ws_prefix_at(s: Seq<char>, i: int)
    requires
        0 <= i <= s.len(),
        forall|k: int| 0 <= k < i ==> is_ws(#[trigger] s[k]),
        i == s.len() || !is_ws(s[i]),
    ensures
        ws_prefix_len(s) == i,
    decreases i,
{
    if i == 0 {
    } else {
        assert(is_ws(s[0]));
        lemma_ws_prefix_at(s.skip(1), i - 1);
    }
}

/// The mirrored fact for the whitespace suffix.
pub proof fn lemma_ws_suffix_at(s: Seq<char>, i: int)
    requires
        0 <= i <= s.len(),
        forall|k: int| i <= k < s.len() ==> is_ws(#[trigger] s[k]),
        i == 0 || !is_ws(s[i - 1]),
    ensures
        ws_suffix_len(s) == s.len() - i,
    decreases s.len() - i,
{
    if i == s.len() {
    } else {
        assert(is_ws(s.last()));
        assert(forall|k: int|
            i <= k < s.len() - 1 ==> is_ws(#[trigger] s.drop_last()[k]) == is_ws(s[k]));
        lemma_ws_suffix_at(s.drop_last(), i);
    }
}

/// The whitespace prefix is never longer than the string.
pub proof fn lemma_ws_prefix_bounds(s: Seq<char>)
    ensures
        0 <= ws_prefix_len(s) <= s.len(),
        forall|k: int| 0 <= k < ws_prefix_len(s) ==> is_ws(#[trigger] s[k]),
        ws_prefix_len(s) < s.len() ==> !is_ws(s[ws_prefix_len(s)]),
    decreases s.len(),
{
    if s.len() > 0 && is_ws(s[0]) {
        lemma_ws_prefix_bounds(s.skip(1));
        assert forall|k: int| 0 <= k < ws_prefix_len(s) implies is_ws(#[trigger] s[k]) by {
            if k > 0 {
                assert(s.skip(1)[k - 1] == s[k]);
            }
        }
        if ws_prefix_len(s) < s.len() {
            assert(s.skip(1)[ws_prefix_len(s) - 1] == s[ws_prefix_len(s)]);
        }
    }
}

/// The whitespace suffix is never longer than the string.
pub proof fn lemma_ws_suffix_bounds(s: Seq<char>)
    ensures
        0 <= ws_suffix_len(s) <= s.len(),
        forall|k: int| s.len() - ws_suffix_len(s) <= k < s.len() ==> is_ws(#[trigger] s[k]),
        ws_suffix_len(s) < s.len() ==> !is_ws(s[s.len() - ws_suffix_len(s) - 1]),
    decreases s.len(),
{
    if s.len() > 0 && is_ws(s.last()) {
        lemma_ws_suffix_bounds(s.drop_last());
        assert forall|k: int| s.len() - ws_suffix_len(s) <= k < s.len() implies is_ws(
            #[trigger] s[k],
        ) by {
            if k < s.len() - 1 {
                assert(s.drop_last()[k] == s[k]);
            }
        }
        if ws_suffix_len(s) < s.len() {
            assert(s.drop_last()[s.len() - ws_suffix_len(s) - 1] == s[s.len() - ws_suffix_len(s)
                - 1]);
        }
    }
}

/// Counts the leading whitespace characters of a line: the depth
/// bookkeeping measures indentation this way.
pub fn count_leading_ws(s: &Vec<char>) -> (r: usize)
    ensures
        r == ws_prefix_len(s@),
{
    let mut i: usize = 0;
    while i < s.len()
        invariant
            0 <= i <= s@.len(),
            forall|k: int| 0 <= k < i ==> is_ws(#[trigger] s@[k]),
        decreases s@.len() - i,
    {
        if !ws_check(s[i]) {
            proof {
                lemma_ws_prefix_at(s@, i as int);
            }
            return i;
        }
        i = i + 1;
    }
    proof {
        lemma_ws_prefix_at(s@, s@.len() as int);
    }
    i
}

/// A copy of `s` without leading and trailing whitespace.
pub fn trim_chars(s: &Vec<char>) -> (r: Vec<char>)
    ensures
        r@ == spec_trim(s@),
{
    let mut end: usize = s.len();
    let mut hit = false;
    while end > 0 && !hit
        invariant
            0 <= end <= s@.len(),
            forall|k: int| end <= k < s@.len() ==> is_ws(#[trigger] s@[k]),
            hit ==> end > 0 && !is_ws(s@[end - 1]),
        decreases end, if hit { 0int } else { 1int },
    {
        if !ws_check(s[end - 1]) {
            hit = true;
        } else {
            end = end - 1;
        }
    }
    proof {
        lemma_ws_suffix_at(s@, end as int);
    }
    let ghost te = spec_trim_end(s@);
    proof {
        assert(te == s@.take(end as int));
        assert(forall|k: int| 0 <= k < end ==> te[k] == s@[k]);
    }
    let mut start: usize = 0;
    let mut stopped = false;
    while start < end && !stopped
        invariant
            0 <= start <= end <= s@.len(),
            te == s@.take(end as int),
            forall|k: int| 0 <= k < end ==> te[k] == s@[k],
            forall|k: int| 0 <= k < start ==> is_ws(#[trigger] te[k]),
            stopped ==> start < end && !is_ws(te[start as int]),
        decreases end - start, if stopped { 0int } else { 1int },
    {
        if !ws_check(s[start]) {
            stopped = true;
        } else {
            start = start + 1;
        }
    }
    proof {
        lemma_ws_prefix_at(te, start as int);
    }
    let r = crate::chars::subrange_chars(s, start, end);
    proof {
        assert(r@ =~= te.skip(start as int));
    }
    r
}

/// A non-empty string equal to its own trimming has no boundary
/// whitespace.
pub proof fn lemma_trim_fixpoint(l: Seq<char>)
    requires
        spec_trim(l) == l,
        l.len() > 0,
    ensures
        ws_prefix_len(l) == 0,
        ws_suffix_len(l) == 0,
{
    lemma_ws_suffix_bounds(l);
    let te = spec_trim_end(l);
    lemma_ws_prefix_bounds(te);
    assert(spec_trim(l).len() == te.len() - ws_prefix_len(te));
    assert(te.len() == l.len() - ws_suffix_len(l));
    assert(ws_suffix_len(l) == 0 && ws_prefix_len(te) == 0);
    assert(te =~= l);
}

/// Whether a line is blank: nothing but whitespace.
pub fn is_blank(s: &Vec<char>) -> (r: bool)
    ensures
        r == (spec_trim(s@).len() == 0),
{
    let t = trim_chars(s);
    t.len() == 0
}

/// The escaped form of one character inside a quoted string.
pub open spec fn esc_char(c: char) -> Seq<char> {
    if c == '\\' {
        seq!['\\', '\\']
    } else if c == '"' {
        seq!['\\', '"']
    } else if c == '\n' {
        seq!['\\', 'n']
    } else if c == '\r' {
        seq!['\\', 'r']
    } else if c == '\t' {
        seq!['\\', 't']
    } else {
        seq![c]
    }
}

/// The character an escape mark stands for, if the mark is known.
pub open spec fn unesc_char(c: char) -> Option<char> {
    if c == '\\' {
        Some('\\')
    } else if c == '"' {
        Some('"')
    } else if c == 'n' {
        Some('\n')
    } else if c == 'r' {
        Some('\r')
    } else if c == 't' {
        Some('\t')
    } else {
        None
    }
}

/// The body of a quoted string: every character escaped as needed.
pub open spec fn spec_escape(s: Seq<char>) -> Seq<char>
    decreases s.len(),
{
    if s.len() == 0 {
        Seq::empty()
    } else {
        esc_char(s[0]) + spec_escape(s.skip(1))
    }
}

/// Undoes [`spec_escape`]: `None` on a dangling backslash or an unknown
/// escape mark.
pub open spec fn spec_unescape(s: Seq<char>) -> Option<Seq<char>>
    decreases s.len(),
{
    if s.len() == 0 {
        Some(Seq::empty())
    } else if s[0] == '\\' {
        if s.len() < 2 {
            None
        } else {
            match unesc_char(s[1]) {
                None => None,
                Some(u) => match spec_unescape(s.skip(2)) {
                    None => None,
                    Some(rest) => Some(seq![u] + rest),
                },
            }
        }
    } else {
        match spec_unescape(s.skip(1)) {
            None => None,
            Some(rest) => Some(seq![s[0]] + rest),
        }
    }
}

/// Unescaping undoes escaping: the quoted-string ruleset is lossless.
pub proof fn lemma_escape_roundtrip(s: Seq<char>)
    ensures
        spec_unescape(spec_escape(s)) == Some(s),
    decreases s.len(),
{
    if s.len() == 0 {
        assert(spec_escape(s) =~= Seq::<char>::empty());
    } else {
        lemma_escape_roundtrip(s.skip(1));
        let c = s[0];
        let e = spec_escape(s);
        if c == '\\' || c == '"' || c == '\n' || c == '\r' || c == '\t' {
            assert(e == esc_char(c) + spec_escape(s.skip(1)));
            assert(e.len() >= 2);
            assert(e[0] == '\\');
            assert(e.skip(2) =~= spec_escape(s.skip(1)));
            assert(unesc_char(e[1]) == Some(c));
            assert(spec_unescape(e) == Some(seq![c] + s.skip(1)));
            assert(seq![c] + s.skip(1) =~= s);
        } else {
            assert(e == seq![c] + spec_escape(s.skip(1)));
            assert(e[0] == c);
            assert(e[0] != '\\');
            assert(e.skip(1) =~= spec_escape(s.skip(1)));
            assert(spec_unescape(e) == Some(seq![c] + s.skip(1)));
            assert(seq![c] + s.skip(1) =~= s);
        }
    }
}

/// Appends the escaped form of `s` to `out`.
pub fn push_escaped(out: &mut Vec<char>, s: &Vec<char>)
    ensures
        final(out)@ == old(out)@ + spec_escape(s@),
{
    let mut i: usize = 0;
    while i < s.len()
        invariant
            0 <= i <= s@.len(),
            out@ == old(out)@ + spec_escape(s@.take(i as int)),
        decreases s@.len() - i,
    {
        let c = s[i];
        proof {
            lemma_escape_take_step(s@, i as int);
        }
        if c == '\\' {
            out.push('\\');
            out.push('\\');
        } else if c == '"' {
            out.push('\\');
            out.push('"');
        } else if c == '\n' {
            out.push('\\');
            out.push('n');
        } else if c == '\r' {
            out.push('\\');
            out.push('r');
        } else if c == '\t' {
            out.push('\\');
            out.push('t');
        } else {
            out.push(c);
        }
        proof {
            assert(out@ =~= old(out)@ + spec_escape(s@.take(i + 1int)));
        }
        i = i + 1;
    }
    proof {
        assert(s@.take(s@.len() as int) =~= s@);
    }
}

/// Escaping a one-longer prefix appends the escape of the new character.
proof fn lemma_escape_take_step(s: Seq<char>, i: int)
    requires
        0 <= i < s.len(),
    ensures
        spec_escape(s.take(i + 1)) == spec_escape(s.take(i)) + esc_char(s[i]),
    decreases i,
{
    if i == 0 {
        reveal_with_fuel(spec_escape, 2);
        assert(s.take(1)[0] == s[0]);
        assert(s.take(1).skip(1) =~= Seq::<char>::empty());
        assert(s.take(0) =~= Seq::<char>::empty());
        assert(spec_escape(s.take(1)) =~= esc_char(s[0]));
        assert(spec_escape(s.take(0)) + esc_char(s[0]) =~= esc_char(s[0]));
    } else {
        lemma_escape_take_step(s.skip(1), i - 1);
        assert(s.take(i + 1)[0] == s[0]);
        assert(s.take(i + 1).skip(1) =~= s.skip(1).take(i));
        assert(s.take(i).skip(1) =~= s.skip(1).take(i - 1));
        assert(s.skip(1)[i - 1] == s[i]);
        assert(spec_escape(s.take(i + 1)) == esc_char(s[0]) + spec_escape(s.skip(1).take(i)));
        assert(spec_escape(s.take(i)) == esc_char(s[0]) + spec_escape(s.skip(1).take(i - 1)));
        assert(esc_char(s[0]) + (spec_escape(s.skip(1).take(i - 1)) + esc_char(s[i])) =~= (
        esc_char(s[0]) + spec_escape(s.skip(1).take(i - 1))) + esc_char(s[i]));
    }
}

/// Undoes the escapes of a quoted string's body: `None` on a dangling
/// backslash or an unknown escape mark.
pub fn unescape_chars(s: &Vec<char>) -> (r: Option<Vec<char>>)
    ensures
        match r {
            Some(u) => spec_unescape(s@) == Some(u@),
            None => spec_unescape(s@) is None,
        },
{
    let mut out: Vec<char> = Vec::new();
    let mut i: usize = 0;
    proof {
        assert(s@.skip(0int) =~= s@);
        assert(forall|rest: Seq<char>| #[trigger] (Seq::<char>::empty() + rest) =~= rest);
    }
    while i < s.len()
        invariant
            0 <= i <= s@.len(),
            spec_unescape(s@) == match spec_unescape(s@.skip(i as int)) {
                None => None::<Seq<char>>,
                Some(rest) => Some(out@ + rest),
            },
        decreases s@.len() - i,
    {
        let c = s[i];
        if c == '\\' {
            if i + 1 >= s.len() {
                proof {
                    assert(s@.skip(i as int).len() < 2);
                }
                return None;
            }
            let m = s[i + 1];
            let u: char = if m == '\\' {
                '\\'
            } else if m == '"' {
                '"'
            } else if m == 'n' {
                '\n'
            } else if m == 'r' {
                '\r'
            } else if m == 't' {
                '\t'
            } else {
                proof {
                    assert(s@.skip(i as int)[0] == '\\');
                    assert(s@.skip(i as int)[1] == m);
                    assert(unesc_char(m) is None);
                }
                return None;
            };
            let ghost out0 = out@;
            out.push(u);
            proof {
                assert(s@.skip(i as int)[0] == '\\');
                assert(s@.skip(i as int)[1] == m);
                assert(unesc_char(m) == Some(u));
                assert(s@.skip(i as int).skip(2) =~= s@.skip(i + 2int));
                assert(forall|rest: Seq<char>| #[trigger] (out0 + (seq![u] + rest)) =~= out@ + rest);
            }
            i = i + 2;
        } else {
            let ghost out0 = out@;
            out.push(c);
            proof {
                assert(s@.skip(i as int)[0] == c);
                assert(s@.skip(i as int).skip(1) =~= s@.skip(i + 1int));
                assert(forall|rest: Seq<char>| #[trigger] (out0 + (seq![c] + rest)) =~= out@ + rest);
            }
            i = i + 1;
        }
    }
    proof {
        assert(s@.skip(s@.len() as int).len() == 0);
        assert(out@ + Seq::<char>::empty() =~= out@);
    }
    Some(out)
}

/// The literal token `null`.
pub open spec fn lit_null() -> Seq<char> {
    seq!['n', 'u', 'l', 'l']
}

/// The literal token `true`.
pub open spec fn lit_true() -> Seq<char> {
    seq!['t', 'r', 'u', 'e']
}

/// The literal token `false`.
pub open spec fn lit_false() -> Seq<char> {
    seq!['f', 'a', 'l', 's', 'e']
}

/// Whether `c` is an ASCII letter.
pub open spec fn is_ascii_alpha(c: char) -> bool {
    (65 <= c as int && c as int <= 90) || (97 <= c as int && c as int <= 122)
}

/// Whether `c` is alphanumeric within the Latin-1 supplement block:
/// the feminine and masculine ordinals, the superscript digits, micro,
/// the vulgar fractions, and the accented letters (multiplication and
/// division signs excepted). Everything else of that block forces
/// quoting.
pub open spec fn is_latin1_alnum(c: char) -> bool {
    let u = c as int;
    ||| u == 0xAA
    ||| u == 0xB2
    ||| u == 0xB3
    ||| u == 0xB5
    ||| u == 0xB9
    ||| u == 0xBA
    ||| (0xBC <= u && u <= 0xBE)
    ||| (0xC0 <= u && u <= 0xD6)
    ||| (0xD8 <= u && u <= 0xF6)
    ||| (0xF8 <= u && u <= 0xFF)
}

/// Whether `c` forces a string to be quoted: the format's reserved
/// characters, control whitespace, the active delimiter, or a symbol
/// from the Latin-1 supplement block.
pub open spec fn is_special_char(c: char, delim: char) -> bool {
    ||| c == ':'
    ||| c == '"'
    ||| c == '\\'
    ||| c == '['
    ||| c == ']'
    ||| c == '{'
    ||| c == '}'
    ||| c == '\n'
    ||| c == '\r'
    ||| c == '\t'
    ||| c == delim
    ||| (0x80 <= c as int && c as int <= 0xFF && !is_latin1_alnum(c))
}

/// Executable counterpart of [`is_special_char`].
pub fn special_char_check(c: char, delim: char) -> (r: bool)
    ensures
        r == is_special_char(c, delim),
{
    if c == ':' || c == '"' || c == '\\' || c == '[' || c == ']' || c == '{' || c == '}' || c
        == '\n' || c == '\r' || c == '\t' || c == delim {
        return true;
    }
    let u = c as u32;
    if 0x80 <= u && u <= 0xFF {
        let alnum = u == 0xAA || u == 0xB2 || u == 0xB3 || u == 0xB5 || u == 0xB9 || u == 0xBA
            || (0xBC <= u && u <= 0xBE) || (0xC0 <= u && u <= 0xD6) || (0xD8 <= u && u <= 0xF6)
            || (0xF8 <= u && u <= 0xFF);
        !alnum
    } else {
        false
    }
}

/// Whether characters form one of the non-finite float words, in any
/// case: `inf`, `infinity` or `nan`.
pub open spec fn is_float_word(b: Seq<char>) -> bool {
    ||| word_matches(b, seq!['i', 'n', 'f'])
    ||| word_matches(b, seq!['i', 'n', 'f', 'i', 'n', 'i', 't', 'y'])
    ||| word_matches(b, seq!['n', 'a', 'n'])
}

/// Case-insensitive match of `b` against a lower-case word.
pub open spec fn word_matches(b: Seq<char>, w: Seq<char>) -> bool {
    b.len() == w.len() && forall|i: int|
        0 <= i < b.len() ==> #[trigger] b[i] == w[i] || b[i] as int == w[i] as int - 32
}

/// Whether a mantissa is digits around at most one dot, with at least
/// one digit.
pub open spec fn is_f64_mantissa(m: Seq<char>) -> bool {
    &&& m.len() >= 1
    &&& forall|i: int| 0 <= i < m.len() ==> is_digit(#[trigger] m[i]) || m[i] == '.'
    &&& (exists|i: int| 0 <= i < m.len() && is_digit(#[trigger] m[i]))
    &&& forall|i: int, j: int|
        0 <= i < j < m.len() && #[trigger] m[i] == '.' && #[trigger] m[j] == '.' ==> false
}

/// An exponent suffix's digit part: what follows its optional sign.
pub open spec fn exp_digits(x: Seq<char>) -> Seq<char> {
    if x.len() >= 1 && (x[0] == '+' || x[0] == '-') {
        x.skip(1)
    } else {
        x
    }
}

/// Whether an exponent suffix is an optional sign and then digits.
pub open spec fn is_f64_exponent(x: Seq<char>) -> bool {
    exp_digits(x).len() >= 1 && forall|i: int|
        0 <= i < exp_digits(x).len() ==> is_digit(#[trigger] exp_digits(x)[i])
}

/// The grammar of `str::parse::<f64>`, as std documents it: an
/// optional sign, then one of the non-finite words or a mantissa of
/// digits around at most one dot with an optional exponent.
pub open spec fn is_f64_literal(s: Seq<char>) -> bool {
    let b = if s.len() >= 1 && (s[0] == '+' || s[0] == '-') {
        s.skip(1)
    } else {
        s
    };
    ||| is_float_word(b)
    ||| {
        let e = crate::scan::first_at(b, 'e', 0);
        let cap = crate::scan::first_at(b, 'E', 0);
        let epos = if e < cap {
            e
        } else {
            cap
        };
        if epos >= b.len() {
            is_f64_mantissa(b)
        } else {
            is_f64_mantissa(b.take(epos)) && is_f64_exponent(b.skip(epos + 1))
        }
    }
}

/// Executable counterpart of [`is_f64_literal`].
pub fn f64_literal_check(s: &Vec<char>) -> (r: bool)
    ensures
        r == is_f64_literal(s@),
{
    let signed = s.len() >= 1 && (s[0] == '+' || s[0] == '-');
    let body: Vec<char> = if signed {
        crate::chars::subrange_chars(s, 1, s.len())
    } else {
        crate::chars::subrange_chars(s, 0, s.len())
    };
    proof {
        if signed {
            assert(body@ =~= s@.skip(1));
        } else {
            assert(body@ =~= s@);
        }
    }
    if float_word_check(&body) {
        return true;
    }
    let e = crate::scan::find_char_at(&body, 'e', 0);
    let cap = crate::scan::find_char_at(&body, 'E', 0);
    let epos = if e < cap {
        e
    } else {
        cap
    };
    if epos >= body.len() {
        let m = crate::chars::subrange_chars(&body, 0, body.len());
        proof {
            assert(m@ =~= body@);
        }
        mantissa_check(&m)
    } else {
        let m = crate::chars::subrange_chars(&body, 0, epos);
        let x = crate::chars::subrange_chars(&body, epos + 1, body.len());
        proof {
            assert(m@ =~= body@.take(epos as int));
            assert(x@ =~= body@.skip(epos + 1int));
        }
        mantissa_check(&m) && exponent_check(&x)
    }
}

/// Executable counterpart of [`is_float_word`].
fn float_word_check(b: &Vec<char>) -> (r: bool)
    ensures
        r == is_float_word(b@),
{
    let inf = word_check(b, &['i', 'n', 'f']);
    let infinity = word_check(b, &['i', 'n', 'f', 'i', 'n', 'i', 't', 'y']);
    let nan = word_check(b, &['n', 'a', 'n']);
    proof {
        assert(['i', 'n', 'f']@ =~= seq!['i', 'n', 'f']);
        assert(['i', 'n', 'f', 'i', 'n', 'i', 't', 'y']@ =~= seq![
            'i',
            'n',
            'f',
            'i',
            'n',
            'i',
            't',
            'y',
        ]);
        assert(['n', 'a', 'n']@ =~= seq!['n', 'a', 'n']);
    }
    inf || infinity || nan
}

/// Case-insensitive comparison against a lower-case word.
fn word_check(b: &Vec<char>, w: &[char]) -> (r: bool)
    ensures
        r == word_matches(b@, w@),
{
    if b.len() != w.len() {
        return false;
    }
    let mut i: usize = 0;
    while i < b.len()
        invariant
            0 <= i <= b@.len(),
            b@.len() == w@.len(),
            forall|j: int|
                0 <= j < i ==> #[trigger] b@[j] == w@[j] || b@[j] as int == w@[j] as int - 32,
        decreases b@.len() - i,
    {
        let bc = b[i];
        let wc = w[i];
        let same = lower_or_upper(bc, wc);
        if !same {
            return false;
        }
        i = i + 1;
    }
    true
}

/// Whether `bc` is `wc` or its upper-case form.
fn lower_or_upper(bc: char, wc: char) -> (r: bool)
    ensures
        r == (bc == wc || bc as int == wc as int - 32),
{
    let bu = bc as u32;
    let wu = wc as u32;
    bc == wc || (wu >= 32 && bu == wu - 32)
}

/// Executable counterpart of [`is_f64_mantissa`].
fn mantissa_check(m: &Vec<char>) -> (r: bool)
    ensures
        r == is_f64_mantissa(m@),
{
    if m.len() == 0 {
        return false;
    }
    let mut i: usize = 0;
    let mut saw_digit = false;
    let mut dots: usize = 0;
    while i < m.len()
        invariant
            0 <= i <= m@.len(),
            dots <= 1,
            forall|j: int| 0 <= j < i ==> is_digit(#[trigger] m@[j]) || m@[j] == '.',
            saw_digit == exists|j: int| 0 <= j < i && is_digit(#[trigger] m@[j]),
            dots == 0 ==> forall|j: int| 0 <= j < i ==> #[trigger] m@[j] != '.',
            dots == 1 ==> exists|j: int| 0 <= j < i && #[trigger] m@[j] == '.',
            forall|j: int, k: int|
                0 <= j < k < i ==> !(#[trigger] m@[j] == '.' && #[trigger] m@[k] == '.'),
        decreases m@.len() - i,
    {
        let c = m[i];
        if crate::digits::digit_check(c) {
            proof {
                assert(is_digit(m@[i as int]));
            }
            saw_digit = true;
        } else if c == '.' {
            if dots == 1 {
                proof {
                    let w = choose|j: int| 0 <= j < i && #[trigger] m@[j] == '.';
                    assert(m@[w] == '.' && m@[i as int] == '.' && 0 <= w < i as int);
                    assert(!is_f64_mantissa(m@));
                }
                return false;
            }
            dots = dots + 1;
        } else {
            proof {
                assert(!(is_digit(m@[i as int]) || m@[i as int] == '.'));
            }
            return false;
        }
        i = i + 1;
    }
    saw_digit
}

/// Executable counterpart of [`is_f64_exponent`].
fn exponent_check(x: &Vec<char>) -> (r: bool)
    ensures
        r == is_f64_exponent(x@),
{
    let signed = x.len() >= 1 && (x[0] == '+' || x[0] == '-');
    let from: usize = if signed {
        1
    } else {
        0
    };
    let d = crate::chars::subrange_chars(x, from, x.len());
    proof {
        if signed {
            assert(d@ =~= x@.skip(1));
        } else {
            assert(d@ =~= x@);
        }
    }
    if d.len() == 0 {
        return false;
    }
    let mut i: usize = 0;
    while i < d.len()
        invariant
            0 <= i <= d@.len(),
            d@ == exp_digits(x@),
            d@.len() >= 1,
            forall|j: int| 0 <= j < i ==> is_digit(#[trigger] d@[j]),
        decreases d@.len() - i,
    {
        if !crate::digits::digit_check(d[i]) {
            proof {
                assert(exp_digits(x@) == d@);
                assert(!is_digit(exp_digits(x@)[i as int]));
                assert(!is_f64_exponent(x@));
            }
            return false;
        }
        i = i + 1;
    }
    true
}

/// Whether a bare token would read back as a number, or is a float
/// literal under the 64-bit float grammar: a literal leading zero
/// followed by another digit, an integer literal, a float literal, or
/// a well-formed number token. Such strings must be quoted.
pub open spec fn is_numeric_like(s: Seq<char>) -> bool {
    ||| (s.len() >= 2 && s[0] == '0' && is_digit(s[1]))
    ||| is_i64_literal(s)
    ||| is_f64_literal(s)
    ||| number_parses(s)
}

/// Whether a string must be quoted when it stands as a value: empty,
/// boundary whitespace, a reserved literal, numeric-like, holding a
/// special character, or starting with a hyphen.
pub open spec fn spec_needs_quoting(s: Seq<char>, delim: char) -> bool {
    ||| s.len() == 0
    ||| is_ws(s[0])
    ||| is_ws(s[s.len() - 1])
    ||| s == lit_true()
    ||| s == lit_false()
    ||| s == lit_null()
    ||| is_numeric_like(s)
    ||| exists|i: int| 0 <= i < s.len() && is_special_char(#[trigger] s[i], delim)
    ||| s[0] == '-'
}

/// Executable keyword test for the three reserved literals.
fn keyword_check(s: &Vec<char>) -> (r: (bool, bool, bool))
    ensures
        r.0 == (s@ == lit_true()),
        r.1 == (s@ == lit_false()),
        r.2 == (s@ == lit_null()),
{
    let t = s.len() == 4 && s[0] == 't' && s[1] == 'r' && s[2] == 'u' && s[3] == 'e';
    let f = s.len() == 5 && s[0] == 'f' && s[1] == 'a' && s[2] == 'l' && s[3] == 's' && s[4]
        == 'e';
    let n = s.len() == 4 && s[0] == 'n' && s[1] == 'u' && s[2] == 'l' && s[3] == 'l';
    proof {
        if t {
            assert(s@ =~= lit_true());
        }
        if f {
            assert(s@ =~= lit_false());
        }
        if n {
            assert(s@ =~= lit_null());
        }
        if s@ == lit_true() {
            assert(s@.len() == 4 && s@[0] == 't' && s@[1] == 'r' && s@[2] == 'u' && s@[3] == 'e');
        }
        if s@ == lit_false() {
            assert(s@.len() == 5 && s@[0] == 'f' && s@[1] == 'a' && s@[2] == 'l' && s@[3] == 's'
                && s@[4] == 'e');
        }
        if s@ == lit_null() {
            assert(s@.len() == 4 && s@[0] == 'n' && s@[1] == 'u' && s@[2] == 'l' && s@[3] == 'l');
        }
    }
    (t, f, n)
}

/// Executable counterpart of [`is_numeric_like`].
pub fn numeric_like_check(s: &Vec<char>) -> (r: bool)
    ensures
        r == is_numeric_like(s@),
{
    if s.len() >= 2 && s[0] == '0' && crate::digits::digit_check(s[1]) {
        return true;
    }
    if crate::digits::parse_i64(s).is_some() {
        return true;
    }
    if f64_literal_check(s) {
        return true;
    }
    crate::number::number_repr(s).is_some()
}

/// Executable counterpart of [`spec_needs_quoting`].
pub fn needs_quoting(s: &Vec<char>, delim: char) -> (r: bool)
    ensures
        r == spec_needs_quoting(s@, delim),
{
    if s.len() == 0 {
        return true;
    }
    if ws_check(s[0]) || ws_check(s[s.len() - 1]) {
        return true;
    }
    let (t, f, n) = keyword_check(s);
    if t || f || n {
        return true;
    }
    if numeric_like_check(s) {
        return true;
    }
    let mut i: usize = 0;
    while i < s.len()
        invariant
            0 <= i <= s@.len(),
            forall|k: int| 0 <= k < i ==> !is_special_char(#[trigger] s@[k], delim),
        decreases s@.len() - i,
    {
        if special_char_check(s[i], delim) {
            return true;
        }
        i = i + 1;
    }
    s[0] == '-'
}

/// The quoted form of a string: its escaped body between double quotes.
pub open spec fn spec_quote(s: Seq<char>) -> Seq<char> {
    seq!['"'] + spec_escape(s) + seq!['"']
}

/// How a string is written as a value: quoted exactly when the quoting
/// rule demands it.
pub open spec fn spec_format_string(s: Seq<char>, delim: char) -> Seq<char> {
    if spec_needs_quoting(s, delim) {
        spec_quote(s)
    } else {
        s
    }
}

/// Appends a string value to `out`, quoting and escaping as needed.
pub fn serialize_string(out: &mut Vec<char>, s: &Vec<char>, delim: char)
    ensures
        final(out)@ == old(out)@ + spec_format_string(s@, delim),
{
    if needs_quoting(s, delim) {
        out.push('"');
        push_escaped(out, s);
        out.push('"');
        proof {
            assert(out@ =~= old(out)@ + spec_quote(s@));
        }
    } else {
        crate::chars::push_all(out, s);
    }
}

/// Whether a key may stand unquoted: a letter or underscore, then
/// letters, digits, underscores and dots.
pub open spec fn is_valid_unquoted_key_seq(k: Seq<char>) -> bool {
    &&& k.len() >= 1
    &&& (is_ascii_alpha(k[0]) || k[0] == '_')
    &&& forall|i: int|
        1 <= i < k.len() ==> is_ascii_alpha(#[trigger] k[i]) || is_digit(k[i]) || k[i] == '_'
            || k[i] == '.'
}

/// Executable test for a key's first character: a letter or underscore.
fn key_start_check(c: char) -> (r: bool)
    ensures
        r == (is_ascii_alpha(c) || c == '_'),
{
    let u = c as u32;
    (65 <= u && u <= 90) || (97 <= u && u <= 122) || c == '_'
}

/// Executable test for a key's later characters: letters, digits,
/// underscore or dot.
fn key_char_check(c: char) -> (r: bool)
    ensures
        r == (is_ascii_alpha(c) || is_digit(c) || c == '_' || c == '.'),
{
    let u = c as u32;
    (65 <= u && u <= 90) || (97 <= u && u <= 122) || (48 <= u && u <= 57) || c == '_' || c == '.'
}

/// Whether a key may appear without quotes.
pub fn is_valid_unquoted_key(k: &Vec<char>) -> (r: bool)
    ensures
        r == is_valid_unquoted_key_seq(k@),
{
    if k.len() == 0 {
        return false;
    }
    if !key_start_check(k[0]) {
        return false;
    }
    let mut i: usize = 1;
    while i < k.len()
        invariant
            1 <= i <= k@.len(),
            forall|j: int|
                1 <= j < i ==> is_ascii_alpha(#[trigger] k@[j]) || is_digit(k@[j]) || k@[j] == '_'
                    || k@[j] == '.',
        decreases k@.len() - i,
    {
        if !key_char_check(k[i]) {
            return false;
        }
        i = i + 1;
    }
    true
}

/// How a key is written: bare when the key grammar allows it, quoted
/// and escaped otherwise.
pub open spec fn spec_format_key(k: Seq<char>) -> Seq<char> {
    if is_valid_unquoted_key_seq(k) {
        k
    } else {
        spec_quote(k)
    }
}

/// Appends a key to `out`, quoting it when the key grammar demands it.
pub fn serialize_key(out: &mut Vec<char>, k: &Vec<char>)
    ensures
        final(out)@ == old(out)@ + spec_format_key(k@),
{
    if is_valid_unquoted_key(k) {
        crate::chars::push_all(out, k);
    } else {
        out.push('"');
        push_escaped(out, k);
        out.push('"');
        proof {
            assert(out@ =~= old(out)@ + spec_quote(k@));
        }
    }
}

/// How a bare or quoted token reads back as a primitive. The token is
/// assumed pre-trimmed. Quoted tokens unescape to strings; bare tokens
/// run through the literal keywords, the leading-zero guard, the
/// integer grammar and the number grammar, in that order, and fall back
/// to plain strings. The float step takes the JSON number grammar:
/// finite float spellings it rejects (a bare leading or trailing dot,
/// a leading plus) and the non-finite words read back as strings,
/// since the tree carries floats as finite canonical texts — though
/// the quoting rule protects every such spelling on the way out.
pub open spec fn spec_parse_token(s: Seq<char>) -> Result<Model, ToonError> {
    if s.len() >= 1 && s[0] == '"' {
        if s.len() < 2 || s[s.len() - 1] != '"' {
            Err(ToonError::UnterminatedString)
        } else {
            match spec_unescape(s.subrange(1, s.len() - 1)) {
                None => Err(ToonError::InvalidEscape),
                Some(u) => Ok(Model::Str(u)),
            }
        }
    } else if s == lit_null() {
        Ok(Model::Null)
    } else if s == lit_true() {
        Ok(Model::Bool(true))
    } else if s == lit_false() {
        Ok(Model::Bool(false))
    } else if leading_zero_numeric(s) {
        Ok(Model::Str(s))
    } else if is_i64_literal(s) {
        Ok(Model::Int(i64_literal_value(s)))
    } else if number_parses(s) {
        if is_i64_literal(number_canon(s)) {
            Ok(Model::Int(i64_literal_value(number_canon(s))))
        } else {
            Ok(Model::Float(number_canon(s)))
        }
    } else {
        Ok(Model::Str(s))
    }
}

/// A scalar model a token parse may produce, with its float text
/// well-formed.
pub open spec fn wf_scalar(m: Model) -> bool {
    match m {
        Model::Null => true,
        Model::Bool(_) => true,
        Model::Int(i) => i64::MIN <= i <= i64::MAX,
        Model::Float(t) => wf_float_text(t),
        Model::Str(_) => true,
        Model::Arr(_) => false,
        Model::Obj(_) => false,
    }
}

/// Reads one primitive token, pre-trimmed, as the decoder classifies
/// tokens.
pub fn parse_token(s: &Vec<char>) -> (r: Result<Value, ToonError>)
    ensures
        match r {
            Ok(v) => spec_parse_token(s@) == Ok::<Model, ToonError>(v@) && wf_scalar(v@),
            Err(e) => spec_parse_token(s@) == Err::<Model, ToonError>(e),
        },
{
    if s.len() >= 1 && s[0] == '"' {
        if s.len() < 2 || s[s.len() - 1] != '"' {
            return Err(ToonError::UnterminatedString);
        }
        let body = crate::chars::subrange_chars(s, 1, s.len() - 1);
        match unescape_chars(&body) {
            None => Err(ToonError::InvalidEscape),
            Some(u) => Ok(Value::Str(u)),
        }
    } else {
        let (t, f, n) = keyword_check(s);
        if n {
            return Ok(Value::Null);
        }
        if t {
            return Ok(Value::Bool(true));
        }
        if f {
            return Ok(Value::Bool(false));
        }
        let lz = if s.len() >= 1 && s[0] == '-' {
            s.len() >= 3 && s[1] == '0' && crate::digits::digit_check(s[2])
        } else {
            s.len() >= 2 && s[0] == '0' && crate::digits::digit_check(s[1])
        };
        proof {
            if s@.len() >= 1 && s@[0] == '-' {
                assert(s@.skip(1).len() == s@.len() - 1);
                if s@.len() >= 3 {
                    assert(s@.skip(1)[0] == s@[1]);
                    assert(s@.skip(1)[1] == s@[2]);
                }
            }
            assert(lz == leading_zero_numeric(s@));
        }
        if lz {
            let copy = crate::chars::subrange_chars(s, 0, s.len());
            proof {
                assert(s@.subrange(0, s@.len() as int) =~= s@);
            }
            return Ok(Value::Str(copy));
        }
        match crate::digits::parse_i64(s) {
            Some(i) => Ok(Value::Int(i)),
            None => {
                match crate::number::number_repr(s) {
                    Some(c) => {
                        match crate::digits::parse_i64(&c) {
                            Some(i) => Ok(Value::Int(i)),
                            None => Ok(Value::Float(c)),
                        }
                    },
                    None => {
                        let copy = crate::chars::subrange_chars(s, 0, s.len());
                        proof {
                            assert(s@.subrange(0, s@.len() as int) =~= s@);
                        }
                        Ok(Value::Str(copy))
                    },
                }
            },
        }
    }
}

/// A float text the encoder accepts as a number: a canonical
/// rendering, which re-renders to itself. Anything else falls outside
/// the closed model and degrades to `null`.
pub open spec fn canonical_number_text(t: Seq<char>) -> bool {
    &&& number_parses(t)
    &&& number_canon(t) == t
}

/// Whether a number text carries an exponent mark.
pub open spec fn spec_has_exponent(t: Seq<char>) -> bool {
    exists|i: int| 0 <= i < t.len() && (#[trigger] t[i] == 'e' || t[i] == 'E')
}

/// `n` zero digits.
pub open spec fn zero_digits(n: int) -> Seq<char> {
    Seq::new(if n < 0 {
        0
    } else {
        n as nat
    }, |i: int| '0')
}

/// A number text with its exponent expanded into decimal notation:
/// the digits shifted past the decimal point, zeros filling the gap.
/// A text without an exponent mark, or with an exponent the integer
/// grammar refuses or beyond a hundred thousand, stands as it is;
/// canonical renderings never carry such exponents.
pub open spec fn spec_expand_exponent(t: Seq<char>) -> Seq<char> {
    let neg = t.len() >= 1 && t[0] == '-';
    let body = if neg {
        t.skip(1)
    } else {
        t
    };
    let epos_e = crate::scan::first_at(body, 'e', 0);
    let epos_cap = crate::scan::first_at(body, 'E', 0);
    let epos = if epos_e < epos_cap {
        epos_e
    } else {
        epos_cap
    };
    if epos >= body.len() {
        t
    } else {
        let mant = body.take(epos);
        let esuf = body.skip(epos + 1);
        if !is_i64_literal(esuf) {
            t
        } else {
            let e = i64_literal_value(esuf);
            if e > 100000 || e < -100000 {
                t
            } else {
                let dpos = crate::scan::first_at(mant, '.', 0);
                let ip = if dpos < mant.len() {
                    mant.take(dpos)
                } else {
                    mant
                };
                let fp = if dpos < mant.len() {
                    mant.skip(dpos + 1)
                } else {
                    Seq::empty()
                };
                let digits = ip + fp;
                let point = ip.len() + e;
                let sign = if neg {
                    seq!['-']
                } else {
                    Seq::<char>::empty()
                };
                expand_with(sign, digits, point)
            }
        }
    }
}

/// The decimal placement of a digit string around a point position:
/// below the digits it pads with a leading zero run, past them with a
/// trailing one, and inside them it splits at the point.
pub open spec fn expand_with(sign: Seq<char>, digits: Seq<char>, point: int) -> Seq<char> {
    if point <= 0 {
        sign + seq!['0', '.'] + zero_digits(-point) + digits
    } else if point >= digits.len() {
        sign + digits + zero_digits(point - digits.len())
    } else {
        sign + digits.take(point) + seq!['.'] + digits.skip(point)
    }
}

/// A text without an exponent mark expands to itself.
pub proof fn lemma_expand_exponent_identity(t: Seq<char>)
    requires
        !spec_has_exponent(t),
    ensures
        spec_expand_exponent(t) == t,
{
    let neg = t.len() >= 1 && t[0] == '-';
    let body = if neg {
        t.skip(1)
    } else {
        t
    };
    assert(forall|i: int| 0 <= i < body.len() ==> #[trigger] body[i] != 'e' && body[i] != 'E')
        by {
        if neg {
            assert(forall|i: int|
                0 <= i < body.len() ==> #[trigger] body[i] == t[i + 1] && !(t[i + 1] == 'e' || t[i
                    + 1] == 'E'));
        } else {
            assert(forall|i: int|
                0 <= i < body.len() ==> !(#[trigger] t[i] == 'e' || t[i] == 'E'));
        }
    }
    crate::scan::lemma_first_at(body, 'e', 0);
    crate::scan::lemma_first_at(body, 'E', 0);
    if crate::scan::first_at(body, 'e', 0) < body.len() {
        assert(body[crate::scan::first_at(body, 'e', 0)] == 'e');
        assert(false);
    }
    if crate::scan::first_at(body, 'E', 0) < body.len() {
        assert(body[crate::scan::first_at(body, 'E', 0)] == 'E');
        assert(false);
    }
}

/// Appends `n` zero digits to `out`.
fn push_zeros(out: &mut Vec<char>, n: usize)
    ensures
        final(out)@ == old(out)@ + zero_digits(n as int),
{
    let mut k: usize = 0;
    while k < n
        invariant
            0 <= k <= n,
            out@ == old(out)@ + zero_digits(k as int),
        decreases n - k,
    {
        out.push('0');
        proof {
            assert(out@ =~= old(out)@ + zero_digits(k + 1int));
        }
        k = k + 1;
    }
}

/// Expands a number text's exponent into decimal notation.
#[verifier::rlimit(100)]
#[verifier::spinoff_prover]
pub fn expand_exponent(t: &Vec<char>) -> (r: Vec<char>)
    ensures
        r@ == spec_expand_exponent(t@),
{
    let neg = t.len() >= 1 && t[0] == '-';
    let body: Vec<char> = if neg {
        crate::chars::subrange_chars(t, 1, t.len())
    } else {
        crate::chars::subrange_chars(t, 0, t.len())
    };
    proof {
        if neg {
            assert(body@ =~= t@.skip(1));
        } else {
            assert(body@ =~= t@);
        }
    }
    let ghost spec_res = spec_expand_exponent(t@);
    let epos_e = crate::scan::find_char_at(&body, 'e', 0);
    let epos_cap = crate::scan::find_char_at(&body, 'E', 0);
    let epos = if epos_e < epos_cap {
        epos_e
    } else {
        epos_cap
    };
    if epos >= body.len() {
        return crate::chars::subrange_chars(t, 0, t.len());
    }
    let mant = crate::chars::subrange_chars(&body, 0, epos);
    let esuf = crate::chars::subrange_chars(&body, epos + 1, body.len());
    proof {
        assert(mant@ =~= body@.take(epos as int));
        assert(esuf@ =~= body@.skip(epos + 1int));
    }
    let e_parsed = crate::digits::parse_i64(&esuf);
    let e: i64 = match e_parsed {
        Some(v) => v,
        None => {
            return crate::chars::subrange_chars(t, 0, t.len());
        },
    };
    if e > 100000 || e < -100000 {
        return crate::chars::subrange_chars(t, 0, t.len());
    }
    let dpos = crate::scan::find_char_at(&mant, '.', 0);
    let ip: Vec<char> = if dpos < mant.len() {
        crate::chars::subrange_chars(&mant, 0, dpos)
    } else {
        crate::chars::subrange_chars(&mant, 0, mant.len())
    };
    let fp: Vec<char> = if dpos < mant.len() {
        crate::chars::subrange_chars(&mant, dpos + 1, mant.len())
    } else {
        Vec::new()
    };
    proof {
        if dpos < mant@.len() {
            assert(ip@ =~= mant@.take(dpos as int));
            assert(fp@ =~= mant@.skip(dpos + 1int));
        } else {
            assert(ip@ =~= mant@);
            assert(fp@ =~= Seq::<char>::empty());
        }
    }
    let mut digits: Vec<char> = Vec::new();
    crate::chars::push_all(&mut digits, &ip);
    crate::chars::push_all(&mut digits, &fp);
    proof {
        assert(digits@ == ip@ + fp@);
    }
    proof {
        assert(digits@ == ip@ + fp@);
        assert(spec_res == expand_with(
            if neg {
                seq!['-']
            } else {
                Seq::<char>::empty()
            },
            ip@ + fp@,
            ip@.len() + e as int,
        ));
    }
    assemble_expansion(neg, &ip, &fp, &digits, e)
}

/// Places a digit string around its decimal point and prepends the
/// sign: the body of exponent expansion.
#[verifier::rlimit(100)]
#[verifier::spinoff_prover]
fn assemble_expansion(
    neg: bool,
    ip: &Vec<char>,
    fp: &Vec<char>,
    digits: &Vec<char>,
    e: i64,
) -> (r: Vec<char>)
    requires
        -100000 <= e <= 100000,
        digits@ == ip@ + fp@,
    ensures
        r@ == expand_with(
            if neg {
                seq!['-']
            } else {
                Seq::<char>::empty()
            },
            ip@ + fp@,
            ip@.len() + e as int,
        ),
{
    let ghost point = ip@.len() + e as int;
    let ghost sgn: Seq<char> = if neg {
        seq!['-']
    } else {
        Seq::empty()
    };
    proof {
        assert(digits@.len() == ip@.len() + fp@.len());
    }
    let mut out: Vec<char> = Vec::new();
    if neg {
        out.push('-');
    }
    proof {
        assert(out@ =~= sgn);
    }
    if e <= 0 && (-e) as usize >= ip.len() {
        proof {
            assert((-e) as usize as int == -(e as int));
            assert(point <= 0);
        }
        let gap = (-e) as usize - ip.len();
        out.push('0');
        out.push('.');
        push_zeros(&mut out, gap);
        crate::chars::push_all(&mut out, digits);
        proof {
            assert(gap as int == -point);
            assert(out@ =~= expand_with(sgn, digits@, point));
        }
    } else if e >= 0 && e as usize >= fp.len() {
        proof {
            assert(point >= digits@.len());
        }
        proof {
            assert(e as usize as int == e as int);
        }
        let pad = e as usize - fp.len();
        crate::chars::push_all(&mut out, digits);
        push_zeros(&mut out, pad);
        proof {
            assert(pad as int == point - digits@.len());
            assert(out@ =~= expand_with(sgn, digits@, point));
        }
    } else {
        proof {
            if e >= 0 {
                assert(e as usize as int == e as int);
                assert((e as int) < fp@.len());
            } else {
                assert((-e) as usize as int == -(e as int));
                assert(((-e) as int) < ip@.len());
            }
            assert(0 < point < digits@.len());
            assert(digits@.len() == digits.len());
        }
        let cut: usize = if e >= 0 {
            ip.len() + e as usize
        } else {
            ip.len() - (-e) as usize
        };
        proof {
            assert(cut as int == point);
        }
        let head = crate::chars::subrange_chars(digits, 0, cut);
        let tail = crate::chars::subrange_chars(digits, cut, digits.len());
        crate::chars::push_all(&mut out, &head);
        out.push('.');
        crate::chars::push_all(&mut out, &tail);
        proof {
            assert(head@ =~= digits@.take(point));
            assert(tail@ =~= digits@.skip(point));
            assert(out@ =~= expand_with(sgn, digits@, point));
        }
    }
    out
}

/// How a scalar is written as a token: `null`, the boolean literals,
/// decimal integer text, the float's canonical text with the two zero
/// renderings normalized to `0` and exponent forms expanded into
/// decimal notation, or a string under the quoting rule. A float text
/// that is not a canonical number rendering falls outside the closed
/// model and degrades to `null`.
pub open spec fn spec_format_scalar(m: Model, delim: char) -> Seq<char> {
    match m {
        Model::Null => lit_null(),
        Model::Bool(b) => if b {
            lit_true()
        } else {
            lit_false()
        },
        Model::Int(i) => int_text(i),
        Model::Float(t) => if !canonical_number_text(t) {
            lit_null()
        } else if t == seq!['0', '.', '0'] || t == seq!['-', '0', '.', '0'] {
            seq!['0']
        } else {
            spec_expand_exponent(t)
        },
        Model::Str(s) => spec_format_string(s, delim),
        Model::Arr(_) => lit_null(),
        Model::Obj(_) => lit_null(),
    }
}

/// The two directions of the shared ruleset agree: reading back the
/// token written for a scalar yields that scalar, whatever the active
/// delimiter. Floats are excluded only where the encoder normalizes
/// them away: the two renderings of zero, which come back as the
/// integer `0`.
pub proof fn lemma_scalar_roundtrip(m: Model, delim: char)
    requires
        wf_scalar(m),
        m matches Model::Float(t) ==> t != seq!['0', '.', '0'] && t != seq!['-', '0', '.', '0']
            && !spec_has_exponent(t),
    ensures
        spec_parse_token(spec_format_scalar(m, delim)) == Ok::<Model, ToonError>(m),
{
    match m {
        Model::Null => {
            assert(lit_null()[0] == 'n');
        },
        Model::Bool(b) => {
            if b {
                assert(lit_true()[0] == 't');
                assert(lit_true()[0] != lit_null()[0]);
            } else {
                assert(lit_false()[0] == 'f');
                assert(lit_false().len() != lit_null().len());
                assert(lit_false().len() != lit_true().len());
            }
        },
        Model::Int(i) => {
            lemma_int_text_roundtrip(i);
            let s = int_text(i);
            if i >= 0 {
                lemma_dec_digits(i as nat);
                assert(is_digit(s[0]));
                assert(s[0] != '"' && s[0] != '-' && s[0] != 'n' && s[0] != 't' && s[0] != 'f');
                if s == lit_null() {
                    assert(s[0] == 'n');
                    assert(false);
                }
                if s == lit_true() {
                    assert(false);
                }
                if s == lit_false() {
                    assert(false);
                }
                if i == 0 {
                    assert(s.len() == 1);
                    assert(!leading_zero_numeric(s));
                } else {
                    assert(s[0] != '0');
                    assert(!leading_zero_numeric(s));
                }
            } else {
                lemma_dec_digits((-i) as nat);
                assert(s[0] == '-');
                assert(s[0] != '"' && s[0] != 'n' && s[0] != 't' && s[0] != 'f');
                if s == lit_null() {
                    assert(false);
                }
                if s == lit_true() {
                    assert(false);
                }
                if s == lit_false() {
                    assert(false);
                }
                assert(s.skip(1) =~= dec_digits((-i) as nat));
                assert(s.skip(1)[0] != '0');
                assert(!leading_zero_numeric(s));
            }
        },
        Model::Float(t) => {
            lemma_expand_exponent_identity(t);
            assert(spec_format_scalar(m, delim) == t);
            assert(is_number_char(t[0]));
            assert(t[0] != '"');
            if t == lit_null() {
                assert(is_number_char('n'));
                assert(false);
            }
            if t == lit_true() {
                assert(is_number_char('t'));
                assert(false);
            }
            if t == lit_false() {
                assert(is_number_char('f'));
                assert(false);
            }
        },
        Model::Str(s) => {
            if spec_needs_quoting(s, delim) {
                let q = spec_quote(s);
                assert(q.len() == spec_escape(s).len() + 2);
                assert(q[0] == '"');
                assert(q[q.len() - 1] == '"');
                assert(q.subrange(1, q.len() - 1) =~= spec_escape(s));
                lemma_escape_roundtrip(s);
            } else {
                assert(s.len() >= 1);
                assert(!is_special_char(s[0], delim));
                assert(s[0] != '"');
                assert(s[0] != '-');
                if leading_zero_numeric(s) {
                    assert(s.len() >= 2 && s[0] == '0' && is_digit(s[1]));
                    assert(is_numeric_like(s));
                    assert(false);
                }
                assert(!is_i64_literal(s));
                assert(!number_parses(s));
            }
        },
        Model::Arr(_) => {
            assert(false);
        },
        Model::Obj(_) => {
            assert(false);
        },
    }
}

/// Appends a scalar value's token to `out`.
pub fn push_scalar(out: &mut Vec<char>, v: &Value, delim: char)
    requires
        !(v matches Value::Array(_)),
        !(v matches Value::Object(_)),
    ensures
        final(out)@ == old(out)@ + spec_format_scalar(v@, delim),
{
    match v {
        Value::Null => {
            out.push('n');
            out.push('u');
            out.push('l');
            out.push('l');
            proof {
                assert(out@ =~= old(out)@ + lit_null());
            }
        },
        Value::Bool(b) => {
            if *b {
                out.push('t');
                out.push('r');
                out.push('u');
                out.push('e');
                proof {
                    assert(out@ =~= old(out)@ + lit_true());
                }
            } else {
                out.push('f');
                out.push('a');
                out.push('l');
                out.push('s');
                out.push('e');
                proof {
                    assert(out@ =~= old(out)@ + lit_false());
                }
            }
        },
        Value::Int(i) => {
            let txt = crate::digits::format_i64(*i);
            crate::chars::push_all(out, &txt);
        },
        Value::Float(t) => {
            let canonical = match crate::number::number_repr(t) {
                Some(c) => crate::chars::chars_eq(&c, t),
                None => false,
            };
            if !canonical {
                out.push('n');
                out.push('u');
                out.push('l');
                out.push('l');
                proof {
                    assert(out@ =~= old(out)@ + lit_null());
                }
                return ;
            }
            let zero = (t.len() == 3 && t[0] == '0' && t[1] == '.' && t[2] == '0') || (t.len() == 4
                && t[0] == '-' && t[1] == '0' && t[2] == '.' && t[3] == '0');
            proof {
                if t@.len() == 3 && t@[0] == '0' && t@[1] == '.' && t@[2] == '0' {
                    assert(t@ =~= seq!['0', '.', '0']);
                }
                if t@.len() == 4 && t@[0] == '-' && t@[1] == '0' && t@[2] == '.' && t@[3] == '0' {
                    assert(t@ =~= seq!['-', '0', '.', '0']);
                }
            }
            if zero {
                out.push('0');
                proof {
                    assert(out@ =~= old(out)@ + seq!['0']);
                }
            } else {
                let expanded = expand_exponent(t);
                crate::chars::push_all(out, &expanded);
            }
        },
        Value::Str(s) => {
            serialize_string(out, s, delim);
        },
        Value::Array(_) => {
            proof {
                assert(false);
            }
        },
        Value::Object(_) => {
            proof {
                assert(false);
            }
        },
    }
}

} // verus!
