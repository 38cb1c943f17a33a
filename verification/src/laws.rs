//! Cross-cutting guarantees relating the encoder and the decoder: the
//! scanning behaviour of written tokens, and document round trips.

use vstd::prelude::*;

use crate::decode::Parser;
use crate::decode::lines_state;
use crate::decode::spec_lines;
use crate::digits::dec_digits;
use crate::digits::int_text;
use crate::digits::is_digit;
use crate::digits::lemma_dec_digits;
use crate::digits::lemma_int_text_roundtrip;
use crate::encode::lookup_or_null;
use crate::encode::spec_row_body;
use crate::encode::spec_serialize;
use crate::lexical::esc_char;
use crate::lexical::is_special_char;
use crate::lexical::is_valid_unquoted_key_seq;
use crate::lexical::spec_format_key;
use crate::lexical::is_ws;
use crate::lexical::lemma_scalar_roundtrip;
use crate::lexical::lit_false;
use crate::lexical::lit_null;
use crate::lexical::lit_true;
use crate::lexical::spec_escape;
use crate::lexical::spec_format_scalar;
use crate::lexical::spec_needs_quoting;
use crate::lexical::spec_parse_token;
use crate::lexical::spec_quote;
use crate::lexical::spec_trim;
use crate::lexical::lemma_ws_prefix_at;
use crate::lexical::lemma_ws_suffix_at;
use crate::lexical::wf_scalar;
use crate::number::is_number_char;
use crate::scan::find_unq;
use crate::scan::spec_find_unquoted;
use crate::value::Model;
use crate::value::SerializationContext;
use crate::value::ToonError;

verus! {

/// A string without boundary whitespace is its own trimming.
pub proof fn lemma_trim_of_nonws(s: Seq<char>)
    requires
        s.len() > 0,
        !is_ws(s[0]),
        !is_ws(s[s.len() - 1]),
    ensures
        spec_trim(s) == s,
{
    lemma_ws_suffix_at(s, s.len() as int);
    let te = crate::lexical::spec_trim_end(s);
    assert(te =~= s);
    lemma_ws_prefix_at(s, 0);
    assert(spec_trim(s) =~= s);
}

/// An unquoted scan for an absent character finds nothing, whatever
/// state it starts in.
proof fn lemma_find_unq_absent(s: Seq<char>, t: char, i: int, q: bool, e: bool)
    requires
        0 <= i,
        forall|k: int| 0 <= k < s.len() ==> s[k] != t,
    ensures
        find_unq(s, t, i, q, e) is None,
    decreases s.len() - i,
{
    if i < s.len() {
        if e {
            lemma_find_unq_absent(s, t, i + 1, q, false);
        } else if s[i] == '\\' {
            lemma_find_unq_absent(s, t, i + 1, q, true);
        } else if s[i] == '"' {
            lemma_find_unq_absent(s, t, i + 1, !q, false);
        } else {
            lemma_find_unq_absent(s, t, i + 1, q, false);
        }
    }
}

/// A scan from `k + j` over `s` is the scan from `j` over the suffix
/// at `k`, shifted back.
proof fn lemma_find_unq_shift(s: Seq<char>, t: char, k: int, j: int, q: bool, e: bool)
    requires
        0 <= k <= s.len(),
        0 <= j,
    ensures
        find_unq(s, t, k + j, q, e) == match find_unq(s.skip(k), t, j, q, e) {
            Some(i) => Some(i + k),
            None => None::<int>,
        },
    decreases s.len() - (k + j),
{
    if k + j >= s.len() {
        assert(s.skip(k).len() == s.len() - k);
    } else {
        assert(s.skip(k)[j] == s[k + j]);
        if e {
            lemma_find_unq_shift(s, t, k, j + 1, q, false);
        } else if s[k + j] == '\\' {
            lemma_find_unq_shift(s, t, k, j + 1, q, true);
        } else if s[k + j] == '"' {
            lemma_find_unq_shift(s, t, k, j + 1, !q, false);
        } else if s[k + j] == t && !q {
        } else {
            lemma_find_unq_shift(s, t, k, j + 1, q, false);
        }
    }
}

/// Scanning an escaped body inside quotes reaches its end still inside
/// quotes: the scan's outcome is the tail's outcome, shifted past the
/// body.
proof fn lemma_scan_escape(s: Seq<char>, tail: Seq<char>, t: char)
    requires
        t != '"',
        t != '\\',
    ensures
        find_unq(spec_escape(s) + tail, t, 0, true, false) == match find_unq(
            tail,
            t,
            0,
            true,
            false,
        ) {
            Some(i) => Some(i + spec_escape(s).len()),
            None => None::<int>,
        },
    decreases s.len(),
{
    if s.len() == 0 {
        assert(spec_escape(s) + tail =~= tail);
    } else {
        lemma_scan_escape(s.skip(1), tail, t);
        let c = s[0];
        let x = spec_escape(s) + tail;
        let rest = spec_escape(s.skip(1)) + tail;
        if c == '\\' || c == '"' || c == '\n' || c == '\r' || c == '\t' {
            assert(spec_escape(s) == esc_char(c) + spec_escape(s.skip(1)));
            assert(esc_char(c).len() == 2);
            assert(esc_char(c)[0] == '\\');
            assert(spec_escape(s)[0] == esc_char(c)[0]);
            assert(x.len() >= 2);
            assert(x[0] == spec_escape(s)[0]);
            assert(x[0] == '\\');
            assert(x.skip(2) =~= rest);
            assert(find_unq(x, t, 0, true, false) == find_unq(x, t, 2, true, false)) by {
                reveal_with_fuel(find_unq, 3);
            }
            lemma_find_unq_shift(x, t, 2, 0, true, false);
        } else {
            assert(spec_escape(s) == esc_char(c) + spec_escape(s.skip(1)));
            assert(esc_char(c) =~= seq![c]);
            assert(spec_escape(s)[0] == esc_char(c)[0]);
            assert(x[0] == spec_escape(s)[0]);
            assert(x[0] == c);
            assert(c != '\\' && c != '"');
            assert(x.skip(1) =~= rest);
            assert(find_unq(x, t, 0, true, false) == find_unq(x, t, 1, true, false));
            lemma_find_unq_shift(x, t, 1, 0, true, false);
        }
    }
}

/// A quoted token never shows an unquoted occurrence of anything but
/// its own delimiters: in particular, no unquoted colon.
proof fn lemma_quote_scan(s: Seq<char>, t: char)
    requires
        t != '"',
        t != '\\',
    ensures
        spec_find_unquoted(spec_quote(s), t) is None,
{
    let q = spec_quote(s);
    assert(q[0] == '"');
    assert(find_unq(q, t, 0, false, false) == find_unq(q, t, 1, true, false));
    lemma_find_unq_shift(q, t, 1, 0, true, false);
    assert(q.skip(1) =~= spec_escape(s) + seq!['"']);
    lemma_scan_escape(s, seq!['"'], t);
    assert(find_unq(seq!['"'], t, 0, true, false) == find_unq(seq!['"'], t, 1, false, false));
}

/// The escaped body of a string holds no newline: every escaped
/// character renders without one.
proof fn lemma_escape_no_newline(s: Seq<char>)
    ensures
        forall|k: int| 0 <= k < spec_escape(s).len() ==> #[trigger] spec_escape(s)[k] != '\n',
    decreases s.len(),
{
    if s.len() > 0 {
        lemma_escape_no_newline(s.skip(1));
        assert(spec_escape(s) == esc_char(s[0]) + spec_escape(s.skip(1)));
        assert forall|k: int| 0 <= k < spec_escape(s).len() implies #[trigger] spec_escape(
            s,
        )[k] != '\n' by {
            if k < esc_char(s[0]).len() {
                assert(spec_escape(s)[k] == esc_char(s[0])[k]);
            } else {
                assert(spec_escape(s)[k] == spec_escape(s.skip(1))[k - esc_char(s[0]).len()]);
            }
        }
    }
}

/// What a scalar's token looks like as a line: non-empty, free of
/// newlines, no boundary whitespace, not opening a bracket, and with
/// no unquoted colon. Exactly the single-primitive root form.
pub proof fn lemma_scalar_token_line(m: Model, delim: char)
    requires
        wf_scalar(m),
        m matches Model::Float(t) ==> t != seq!['0', '.', '0'] && t != seq!['-', '0', '.', '0']
            && !crate::lexical::spec_has_exponent(t),
    ensures
        ({
            let tok = spec_format_scalar(m, delim);
            &&& tok.len() > 0
            &&& (forall|k: int| 0 <= k < tok.len() ==> #[trigger] tok[k] != '\n')
            &&& spec_trim(tok) == tok
            &&& tok[0] != '['
            &&& spec_find_unquoted(tok, ':') is None
        }),
{
    let tok = spec_format_scalar(m, delim);
    match m {
        Model::Null => {
            assert(forall|k: int| 0 <= k < tok.len() ==> #[trigger] tok[k] != '\n' && tok[k]
                != ':');
            lemma_find_unq_absent(tok, ':', 0, false, false);
            lemma_trim_of_nonws(tok);
        },
        Model::Bool(_) => {
            assert(forall|k: int| 0 <= k < tok.len() ==> #[trigger] tok[k] != '\n' && tok[k]
                != ':');
            lemma_find_unq_absent(tok, ':', 0, false, false);
            lemma_trim_of_nonws(tok);
        },
        Model::Int(i) => {
            lemma_int_text_roundtrip(i);
            if i >= 0 {
                lemma_dec_digits(i as nat);
                assert(forall|k: int|
                    0 <= k < tok.len() ==> is_digit(#[trigger] tok[k]));
            } else {
                lemma_dec_digits((-i) as nat);
                assert(tok.skip(1) =~= dec_digits((-i) as nat));
                assert(forall|k: int|
                    1 <= k < tok.len() ==> is_digit(#[trigger] tok.skip(1)[k - 1]));
                assert(forall|k: int|
                    0 <= k < tok.len() ==> is_digit(#[trigger] tok[k]) || tok[k] == '-');
            }
            assert(forall|k: int| 0 <= k < tok.len() ==> #[trigger] tok[k] != '\n' && tok[k]
                != ':');
            lemma_find_unq_absent(tok, ':', 0, false, false);
            lemma_trim_of_nonws(tok);
        },
        Model::Float(t) => {
            crate::lexical::lemma_expand_exponent_identity(t);
            assert(tok == t);
            assert(forall|k: int| 0 <= k < t.len() ==> is_number_char(#[trigger] t[k]));
            assert(forall|k: int| 0 <= k < tok.len() ==> #[trigger] tok[k] != '\n' && tok[k]
                != ':');
            lemma_find_unq_absent(tok, ':', 0, false, false);
            lemma_trim_of_nonws(tok);
        },
        Model::Str(s) => {
            if spec_needs_quoting(s, delim) {
                assert(tok == spec_quote(s));
                assert(tok[0] == '"');
                assert(tok[tok.len() - 1] == '"');
                lemma_escape_no_newline(s);
                assert forall|k: int| 0 <= k < tok.len() implies #[trigger] tok[k] != '\n' by {
                    if 1 <= k < tok.len() - 1 {
                        assert(tok[k] == spec_escape(s)[k - 1]);
                    }
                }
                lemma_quote_scan(s, ':');
                lemma_trim_of_nonws(tok);
            } else {
                assert(tok == s);
                assert(s.len() > 0);
                assert forall|k: int| 0 <= k < s.len() implies #[trigger] s[k] != '\n' && s[k]
                    != ':' && s[k] != '[' by {
                    assert(!is_special_char(s[k], delim));
                }
                lemma_find_unq_absent(tok, ':', 0, false, false);
                assert(!is_ws(s[0]));
                assert(!is_ws(s[s.len() - 1]));
                lemma_trim_of_nonws(tok);
                assert(!is_special_char(s[0], delim));
            }
        },
        Model::Arr(_) => {
            assert(false);
        },
        Model::Obj(_) => {
            assert(false);
        },
    }
}

/// A non-empty text without newlines is one line, itself.
proof fn lemma_lines_single(s: Seq<char>)
    requires
        s.len() > 0,
        forall|k: int| 0 <= k < s.len() ==> #[trigger] s[k] != '\n',
    ensures
        spec_lines(s) == seq![s],
{
    lemma_lines_state_no_newline(s, 0, 0, Seq::empty());
    assert(s.subrange(0, s.len() as int) =~= s);
    assert(Seq::<Seq<char>>::empty().push(s) =~= seq![s]);
}

/// A scan that meets no further newline closes with one final segment.
proof fn lemma_lines_state_no_newline(s: Seq<char>, i: int, start: int, acc: Seq<Seq<char>>)
    requires
        0 <= start <= i <= s.len(),
        start < s.len(),
        forall|k: int| i <= k < s.len() ==> #[trigger] s[k] != '\n',
    ensures
        lines_state(s, i, start, acc) == acc.push(s.subrange(start, s.len() as int)),
    decreases s.len() - i,
{
    if i < s.len() {
        lemma_lines_state_no_newline(s, i + 1, start, acc);
    }
}

/// Round trip for primitive documents. Encoding a scalar yields a
/// one-line document in the single-primitive root form, and reading
/// that token back yields the same scalar — so decoding the encoding
/// of a scalar returns it exactly, under every delimiter, indent and
/// folding configuration. The two renderings of a zero float are the
/// only exception: the encoder normalizes them to the integer `0`.
pub proof fn lemma_roundtrip_scalar_document(
    m: Model,
    delim: char,
    indent: int,
    ctx: SerializationContext,
)
    requires
        wf_scalar(m),
        m matches Model::Float(t) ==> t != seq!['0', '.', '0'] && t != seq!['-', '0', '.', '0']
            && !crate::lexical::spec_has_exponent(t),
    ensures
        ({
            let text = spec_serialize(m, delim, indent, ctx);
            &&& spec_lines(text) == seq![text]
            &&& Parser::spec_primitive_root(spec_lines(text))
            &&& spec_parse_token(text) == Ok::<Model, ToonError>(m)
        }),
{
    let text = spec_serialize(m, delim, indent, ctx);
    assert(text == spec_format_scalar(m, delim));
    lemma_scalar_token_line(m, delim);
    lemma_lines_single(text);
    assert(spec_lines(text)[0] == text);
    lemma_scalar_roundtrip(m, delim);
}

/// Encoding a non-empty array of uniform flat objects takes the
/// tabular layout: the whole document is the tabular header followed
/// by the rows, one per element, at depth one.
pub proof fn lemma_tabular_encoding(
    elems: Seq<Model>,
    keys: Seq<Seq<char>>,
    delim: char,
    indent: int,
    ctx: SerializationContext,
)
    requires
        crate::encode::spec_tabular_fields(elems) == Some(keys),
    ensures
        spec_serialize(Model::Arr(elems), delim, indent, ctx) == crate::encode::spec_tabular_header(
            elems.len(),
            delim,
            keys,
        ) + crate::encode::spec_rows(elems, keys, 1, delim, indent),
{
    assert(elems.len() > 0);
    assert(elems[0] matches Model::Obj(_));
    assert(!crate::encode::spec_is_primitive(elems[0]));
    assert(!crate::encode::all_primitives(elems));
    assert(crate::encode::step_depth(0) == 1);
    let pre = Seq::<char>::empty();
    assert(pre + (crate::encode::spec_tabular_header(elems.len(), delim, keys)
        + crate::encode::spec_rows(elems, keys, 1, delim, indent)) =~= crate::encode::spec_tabular_header(
        elems.len(),
        delim,
        keys,
    ) + crate::encode::spec_rows(elems, keys, 1, delim, indent));
    assert(pre + crate::encode::spec_tabular_header(elems.len(), delim, keys)
        + crate::encode::spec_rows(elems, keys, 1, delim, indent)
        =~= crate::encode::spec_tabular_header(elems.len(), delim, keys)
        + crate::encode::spec_rows(elems, keys, 1, delim, indent));
}

/// A cell value whose token splits cleanly: a scalar that renders with
/// no quote, no backslash and no delimiter in its token. Every scalar
/// but a string in need of quoting qualifies.
pub open spec fn plain_cell(m: Model, delim: char) -> bool {
    &&& wf_scalar(m)
    &&& (m matches Model::Float(t) ==> t != seq!['0', '.', '0'] && t != seq!['-', '0', '.', '0']
        && !crate::lexical::spec_has_exponent(t))
    &&& (m matches Model::Str(s) ==> !spec_needs_quoting(s, delim))
}

/// A plain cell's token is non-empty, its own trimming, and free of
/// quotes, backslashes and the delimiter.
proof fn lemma_plain_cell_token(m: Model, delim: char)
    requires
        plain_cell(m, delim),
        delim == ',' || delim == '\t' || delim == '|',
    ensures
        ({
            let tok = spec_format_scalar(m, delim);
            &&& tok.len() > 0
            &&& spec_trim(tok) == tok
            &&& forall|k: int|
                0 <= k < tok.len() ==> #[trigger] tok[k] != '"' && tok[k] != '\\' && tok[k]
                    != delim
        }),
{
    lemma_scalar_token_line(m, delim);
    let tok = spec_format_scalar(m, delim);
    match m {
        Model::Null => {
            assert(forall|k: int|
                0 <= k < tok.len() ==> #[trigger] tok[k] != '"' && tok[k] != '\\' && tok[k]
                    != delim);
        },
        Model::Bool(_) => {
            assert(forall|k: int|
                0 <= k < tok.len() ==> #[trigger] tok[k] != '"' && tok[k] != '\\' && tok[k]
                    != delim);
        },
        Model::Int(i) => {
            lemma_int_text_roundtrip(i);
            if i >= 0 {
                lemma_dec_digits(i as nat);
                assert(forall|k: int| 0 <= k < tok.len() ==> is_digit(#[trigger] tok[k]));
            } else {
                lemma_dec_digits((-i) as nat);
                assert(tok.skip(1) =~= dec_digits((-i) as nat));
                assert(forall|k: int|
                    1 <= k < tok.len() ==> is_digit(#[trigger] tok.skip(1)[k - 1]));
                assert(forall|k: int|
                    0 <= k < tok.len() ==> is_digit(#[trigger] tok[k]) || tok[k] == '-');
            }
            assert(forall|k: int|
                0 <= k < tok.len() ==> #[trigger] tok[k] != '"' && tok[k] != '\\' && tok[k]
                    != delim);
        },
        Model::Float(t) => {
            crate::lexical::lemma_expand_exponent_identity(t);
            assert(tok == t);
            assert(forall|k: int| 0 <= k < t.len() ==> is_number_char(#[trigger] t[k]));
            assert(forall|k: int|
                0 <= k < tok.len() ==> #[trigger] tok[k] != '"' && tok[k] != '\\' && tok[k]
                    != delim);
        },
        Model::Str(s) => {
            assert(tok == s);
            assert forall|k: int|
                0 <= k < tok.len() implies #[trigger] tok[k] != '"' && tok[k] != '\\' && tok[k]
                != delim by {
                assert(!is_special_char(s[k], delim));
            }
        },
        Model::Arr(_) => {
            assert(false);
        },
        Model::Obj(_) => {
            assert(false);
        },
    }
}

/// Characters that neither quote nor delimit pass under the splitter
/// without effect.
proof fn lemma_split_skip_plain(
    x: Seq<char>,
    d: char,
    i: int,
    j: int,
    start: int,
    q: bool,
    acc: Seq<Seq<char>>,
)
    requires
        0 <= start <= i <= j <= x.len(),
        forall|k: int| i <= k < j ==> #[trigger] x[k] != '"' && x[k] != d,
    ensures
        crate::scan::split_state(x, d, i, start, q, acc) == crate::scan::split_state(
            x,
            d,
            j,
            start,
            q,
            acc,
        ),
    decreases j - i,
{
    if i < j {
        lemma_split_skip_plain(x, d, i + 1, j, start, q, acc);
    }
}

/// The tokens a row of plain cells is made of, in field order.
pub open spec fn row_tokens(
    fields: Seq<(Seq<char>, Model)>,
    keys: Seq<Seq<char>>,
    delim: char,
) -> Seq<Seq<char>> {
    Seq::new(keys.len(), |j: int| spec_format_scalar(lookup_or_null(fields, keys[j]), delim))
}

/// A row reads from its head: the first cell's token, then the
/// delimiter and the rest.
proof fn lemma_row_body_head(fields: Seq<(Seq<char>, Model)>, keys: Seq<Seq<char>>, delim: char)
    requires
        keys.len() >= 1,
    ensures
        spec_row_body(fields, keys, delim) == spec_format_scalar(
            lookup_or_null(fields, keys[0]),
            delim,
        ) + if keys.len() == 1 {
            Seq::<char>::empty()
        } else {
            seq![delim] + spec_row_body(fields, keys.skip(1), delim)
        },
    decreases keys.len(),
{
    let tok0 = spec_format_scalar(lookup_or_null(fields, keys[0]), delim);
    if keys.len() == 1 {
        assert(spec_row_body(fields, keys, delim) =~= tok0 + Seq::<char>::empty());
    } else {
        lemma_row_body_head(fields, keys.drop_last(), delim);
        let dl = keys.drop_last();
        assert(dl[0] == keys[0]);
        assert(keys.skip(1).drop_last() =~= dl.skip(1));
        assert(keys.skip(1).last() == keys.last());
        if dl.len() == 1 {
            assert(keys.len() == 2);
            assert(spec_row_body(fields, dl, delim) =~= tok0);
            assert(keys.skip(1).len() == 1);
            assert(keys.skip(1)[0] == keys[1]);
            assert(spec_row_body(fields, keys.skip(1), delim) =~= spec_format_scalar(
                lookup_or_null(fields, keys[1]),
                delim,
            ));
            assert(spec_row_body(fields, keys, delim) =~= tok0 + (seq![delim] + spec_row_body(
                fields,
                keys.skip(1),
                delim,
            )));
        } else {
            assert(spec_row_body(fields, keys, delim) == spec_row_body(fields, dl, delim) + seq![
                delim,
            ] + spec_format_scalar(lookup_or_null(fields, keys.last()), delim));
            assert(spec_row_body(fields, keys.skip(1), delim) == spec_row_body(
                fields,
                dl.skip(1),
                delim,
            ) + seq![delim] + spec_format_scalar(lookup_or_null(fields, keys.last()), delim));
            assert(spec_row_body(fields, dl, delim) == tok0 + (seq![delim] + spec_row_body(
                fields,
                dl.skip(1),
                delim,
            )));
            assert(spec_row_body(fields, keys, delim) =~= tok0 + (seq![delim] + spec_row_body(
                fields,
                keys.skip(1),
                delim,
            )));
        }
    }
}

/// The splitter walks a row of plain cells token by token: from any
/// position opening a fresh segment, it yields exactly the remaining
/// tokens.
proof fn lemma_split_row_from(
    x: Seq<char>,
    d: char,
    start: int,
    fields: Seq<(Seq<char>, Model)>,
    keys: Seq<Seq<char>>,
    acc: Seq<Seq<char>>,
)
    requires
        d == ',' || d == '\t' || d == '|',
        0 <= start <= x.len(),
        keys.len() >= 1,
        x.skip(start) == spec_row_body(fields, keys, d),
        forall|j: int| 0 <= j < keys.len() ==> plain_cell(lookup_or_null(fields, #[trigger] keys[j]), d),
    ensures
        crate::scan::split_state(x, d, start, start, false, acc) == acc + row_tokens(
            fields,
            keys,
            d,
        ),
    decreases keys.len(),
{
    lemma_row_body_head(fields, keys, d);
    let m0 = lookup_or_null(fields, keys[0]);
    let tok0 = spec_format_scalar(m0, d);
    lemma_plain_cell_token(m0, d);
    let p = start + tok0.len();
    assert(x.skip(start).len() == x.len() - start);
    assert forall|k: int| start <= k < p implies #[trigger] x[k] != '"' && x[k] != d by {
        assert(x[k] == x.skip(start)[k - start]);
        assert(x.skip(start)[k - start] == tok0[k - start]);
    }
    lemma_split_skip_plain(x, d, start, p, start, false, acc);
    if keys.len() == 1 {
        assert(x.len() == p);
        assert(x.subrange(start, x.len() as int) =~= tok0);
        assert(crate::scan::split_state(x, d, p, start, false, acc) == acc.push(
            spec_trim(x.skip(start)),
        ));
        assert(x.skip(start) =~= tok0);
        assert(acc.push(tok0) =~= acc + row_tokens(fields, keys, d));
    } else {
        assert(x[p] == x.skip(start)[tok0.len() as int]);
        assert(x.skip(start)[tok0.len() as int] == d);
        assert(x[p] != '"');
        assert(x.subrange(start, p) =~= tok0);
        assert(crate::scan::split_state(x, d, p, start, false, acc) == crate::scan::split_state(
            x,
            d,
            p + 1,
            p + 1,
            false,
            acc.push(spec_trim(x.subrange(start, p))),
        ));
        let rb1 = spec_row_body(fields, keys.skip(1), d);
        let suffix = x.skip(start);
        assert(suffix == tok0 + (seq![d] + rb1));
        assert(suffix.len() == tok0.len() + 1 + rb1.len());
        assert(x.len() == start + suffix.len());
        assert forall|u: int| 0 <= u < rb1.len() implies x.skip(p + 1)[u] == rb1[u] by {
            assert(x.skip(p + 1)[u] == x[p + 1 + u]);
            assert(x[p + 1 + u] == suffix[p + 1 + u - start]);
            assert(suffix[tok0.len() + 1 + u] == (seq![d] + rb1)[1 + u]);
        }
        assert(x.skip(p + 1) =~= spec_row_body(fields, keys.skip(1), d));
        assert(forall|j: int|
            0 <= j < keys.skip(1).len() ==> plain_cell(
                lookup_or_null(fields, #[trigger] keys.skip(1)[j]),
                d,
            ));
        lemma_split_row_from(x, d, p + 1, fields, keys.skip(1), acc.push(tok0));
        assert(acc.push(tok0) + row_tokens(fields, keys.skip(1), d) =~= acc + row_tokens(
            fields,
            keys,
            d,
        ));
    }
}

/// The tabular inverse at row level: a row written for plain cells
/// splits back into one token per field, each its own trimming, and
/// each token reads back as exactly the field's value.
pub proof fn lemma_row_splits_back(
    fields: Seq<(Seq<char>, Model)>,
    keys: Seq<Seq<char>>,
    delim: char,
)
    requires
        delim == ',' || delim == '\t' || delim == '|',
        keys.len() >= 1,
        forall|j: int|
            0 <= j < keys.len() ==> plain_cell(lookup_or_null(fields, #[trigger] keys[j]), delim),
    ensures
        ({
            let parts = crate::scan::spec_split(spec_row_body(fields, keys, delim), delim);
            &&& parts.len() == keys.len()
            &&& forall|j: int|
                0 <= j < keys.len() ==> spec_parse_token(
                    spec_trim(#[trigger] parts[j]),
                ) == Ok::<Model, ToonError>(lookup_or_null(fields, keys[j]))
        }),
{
    let row = spec_row_body(fields, keys, delim);
    assert(row.skip(0) =~= row);
    lemma_split_row_from(row, delim, 0, fields, keys, Seq::empty());
    let parts = crate::scan::spec_split(row, delim);
    assert(Seq::<Seq<char>>::empty() + row_tokens(fields, keys, delim) =~= row_tokens(
        fields,
        keys,
        delim,
    ));
    assert forall|j: int| 0 <= j < keys.len() implies spec_parse_token(
        spec_trim(#[trigger] parts[j]),
    ) == Ok::<Model, ToonError>(lookup_or_null(fields, keys[j])) by {
        let m = lookup_or_null(fields, keys[j]);
        lemma_plain_cell_token(m, delim);
        assert(parts[j] == spec_format_scalar(m, delim));
        lemma_scalar_roundtrip(m, delim);
    }
}

/// The leading-zero guard, both ways: a token that starts with a
/// literal leading zero (after an optional minus) always reads back as
/// a string, never as a number; and a string of that shape is always
/// quoted when written, so it never appears as a bare numeric token.
pub proof fn lemma_leading_zero_never_numeric(s: Seq<char>, delim: char)
    requires
        crate::number::leading_zero_numeric(s),
    ensures
        spec_parse_token(s) == Ok::<Model, ToonError>(Model::Str(s)),
        spec_needs_quoting(s, delim),
{
    assert(s.len() >= 2);
    assert(s[0] == '-' || s[0] == '0');
    assert(s[0] != '"');
    assert(lit_null()[0] == 'n');
    assert(lit_true()[0] == 't');
    assert(lit_false()[0] == 'f');
    assert(s != lit_null() && s != lit_true() && s != lit_false());
    if s[0] == '0' {
        assert(is_digit(s[1]));
        assert(crate::lexical::is_numeric_like(s));
    }
}

/// Keys round-trip like tokens: reading back the written form of any
/// key, bare or quoted, yields the key itself.
pub proof fn lemma_key_roundtrip(k: Seq<char>)
    ensures
        Parser::spec_parse_key(spec_format_key(k)) == Ok::<Seq<char>, ToonError>(k),
{
    if is_valid_unquoted_key_seq(k) {
        assert(crate::lexical::is_ascii_alpha(k[0]) || k[0] == '_');
        assert(!is_ws(k[0]));
        let last = k[k.len() - 1];
        assert(crate::lexical::is_ascii_alpha(last) || is_digit(last) || last == '_' || last
            == '.');
        assert(!is_ws(last));
        lemma_trim_of_nonws(k);
        assert(k[0] != '"');
    } else {
        let q = spec_quote(k);
        assert(q[0] == '"');
        assert(q[q.len() - 1] == '"');
        assert(!is_ws('"'));
        lemma_trim_of_nonws(q);
        assert(q.subrange(1, q.len() - 1) =~= spec_escape(k));
        crate::lexical::lemma_escape_roundtrip(k);
    }
}

/// The tokens of a written row, zipped back by the decoder's own row
/// reading, rebuild the remaining fields exactly: the induction behind
/// the tabular inverse.
proof fn lemma_rezip_from(
    fields: Seq<(Seq<char>, Model)>,
    keys: Seq<Seq<char>>,
    delim: char,
    j: int,
)
    requires
        delim == ',' || delim == '\t' || delim == '|',
        fields.len() == keys.len(),
        0 <= j <= keys.len(),
        forall|i: int| 0 <= i < fields.len() ==> #[trigger] fields[i].0 == keys[i],
        forall|i: int, k: int| 0 <= i < k < keys.len() ==> #[trigger] keys[i] != #[trigger] keys[k],
        forall|i: int|
            0 <= i < keys.len() ==> plain_cell(lookup_or_null(fields, #[trigger] keys[i]), delim),
    ensures
        crate::decode::sp_row_zip(
            row_tokens(fields, keys, delim),
            keys,
            j,
            fields.take(j),
        ) == Ok::<Seq<(Seq<char>, Model)>, ToonError>(fields),
    decreases keys.len() - j,
{
    if j >= keys.len() {
        assert(fields.take(j) =~= fields);
    } else {
        assert(forall|i: int| 0 <= i < j ==> #[trigger] fields[i].0 == keys[i] && keys[i] != keys[j]);
        crate::expand::lemma_lookup_at(fields, keys[j], j);
        assert(lookup_or_null(fields, keys[j]) == fields[j].1);
        let m = fields[j].1;
        let tok = spec_format_scalar(m, delim);
        assert(row_tokens(fields, keys, delim)[j] == tok);
        lemma_plain_cell_token(m, delim);
        lemma_scalar_roundtrip(m, delim);
        assert(forall|i: int| 0 <= i < j ==> #[trigger] fields.take(j)[i].0 != keys[j]);
        crate::expand::lemma_set_item_index(fields.take(j), keys[j], m, j);
        assert((keys[j], m) == fields[j]);
        assert(crate::expand::spec_set_item(fields.take(j), keys[j], m) =~= fields.take(j + 1));
        lemma_rezip_from(fields, keys, delim, j + 1);
    }
}

/// The tabular inverse, tied to the decoder's own row reading: a row
/// the encoder writes for an object of plain cells splits on the
/// delimiter and zips — exactly as the tabular parser's specification
/// reads rows — back into that object, field for field.
pub proof fn lemma_row_rezips(fields: Seq<(Seq<char>, Model)>, keys: Seq<Seq<char>>, delim: char)
    requires
        delim == ',' || delim == '\t' || delim == '|',
        keys.len() >= 1,
        fields.len() == keys.len(),
        forall|i: int| 0 <= i < fields.len() ==> #[trigger] fields[i].0 == keys[i],
        forall|i: int, k: int| 0 <= i < k < keys.len() ==> #[trigger] keys[i] != #[trigger] keys[k],
        forall|i: int|
            0 <= i < keys.len() ==> plain_cell(lookup_or_null(fields, #[trigger] keys[i]), delim),
    ensures
        crate::decode::sp_row_zip(
            crate::scan::spec_split(spec_row_body(fields, keys, delim), delim),
            keys,
            0,
            Seq::empty(),
        ) == Ok::<Seq<(Seq<char>, Model)>, ToonError>(fields),
{
    let row = spec_row_body(fields, keys, delim);
    assert(row.skip(0) =~= row);
    lemma_split_row_from(row, delim, 0, fields, keys, Seq::empty());
    assert(Seq::<Seq<char>>::empty() + row_tokens(fields, keys, delim) =~= row_tokens(
        fields,
        keys,
        delim,
    ));
    assert(fields.take(0) =~= Seq::<(Seq<char>, Model)>::empty());
    lemma_rezip_from(fields, keys, delim, 0);
}

/// A chain of single-key objects along `segs[from..]`, ending in `v`:
/// the shape key folding collapses and path expansion rebuilds.
pub open spec fn chain_fields(segs: Seq<Seq<char>>, from: int, v: Model) -> Seq<
    (Seq<char>, Model),
>
    decreases segs.len() - from,
    when 0 <= from < segs.len()
{
    if from == segs.len() - 1 {
        seq![(segs[from], v)]
    } else {
        seq![(segs[from], Model::Obj(chain_fields(segs, from + 1, v)))]
    }
}

/// Deep-merging into an empty object builds exactly the chain.
proof fn lemma_deep_merge_chain(segs: Seq<Seq<char>>, from: int, v: Model, strict: bool)
    requires
        0 <= from < segs.len(),
    ensures
        crate::expand::spec_deep_merge(Seq::empty(), segs, from, v, strict) == Ok::<
            Seq<(Seq<char>, Model)>,
            ToonError,
        >(chain_fields(segs, from, v)),
    decreases segs.len() - from,
{
    let empty_fields = Seq::<(Seq<char>, Model)>::empty();
    if from == segs.len() - 1 {
        assert(crate::expand::spec_set_item(empty_fields, segs[from], v) =~= seq![
            (segs[from], v),
        ]);
    } else {
        lemma_deep_merge_chain(segs, from + 1, v, strict);
        let m = chain_fields(segs, from + 1, v);
        assert(crate::expand::spec_set_item(empty_fields, segs[from], Model::Obj(m)) =~= seq![
            (segs[from], Model::Obj(m)),
        ]);
    }
}

/// Dot-free characters pass under the dot splitter without effect.
proof fn lemma_split_dots_skip(x: Seq<char>, i: int, j: int, start: int, acc: Seq<Seq<char>>)
    requires
        0 <= start <= i <= j <= x.len(),
        forall|k: int| i <= k < j ==> #[trigger] x[k] != '.',
    ensures
        crate::expand::split_dots_state(x, i, start, acc) == crate::expand::split_dots_state(
            x,
            j,
            start,
            acc,
        ),
    decreases j - i,
{
    if i < j {
        lemma_split_dots_skip(x, i + 1, j, start, acc);
    }
}

/// A dotted key reads from its head: the first segment, then a dot and
/// the rest.
proof fn lemma_join_dotted_head(segs: Seq<Seq<char>>)
    requires
        segs.len() >= 1,
    ensures
        crate::encode::join_dotted(segs) == segs[0] + if segs.len() == 1 {
            Seq::<char>::empty()
        } else {
            seq!['.'] + crate::encode::join_dotted(segs.skip(1))
        },
    decreases segs.len(),
{
    if segs.len() == 1 {
        assert(crate::encode::join_dotted(segs) =~= segs[0] + Seq::<char>::empty());
    } else {
        lemma_join_dotted_head(segs.drop_last());
        let dl = segs.drop_last();
        assert(dl[0] == segs[0]);
        assert(segs.skip(1).drop_last() =~= dl.skip(1));
        assert(segs.skip(1).last() == segs.last());
        if dl.len() == 1 {
            assert(crate::encode::join_dotted(dl) =~= segs[0]);
            assert(segs.skip(1).len() == 1);
            assert(segs.skip(1)[0] == segs[1]);
            assert(crate::encode::join_dotted(segs.skip(1)) =~= segs[1]);
            assert(crate::encode::join_dotted(segs) =~= segs[0] + (seq!['.']
                + crate::encode::join_dotted(segs.skip(1))));
        } else {
            assert(crate::encode::join_dotted(segs) == crate::encode::join_dotted(dl) + seq!['.']
                + segs.last());
            assert(crate::encode::join_dotted(segs.skip(1)) == crate::encode::join_dotted(
                dl.skip(1),
            ) + seq!['.'] + segs.last());
            assert(crate::encode::join_dotted(dl) == segs[0] + (seq!['.']
                + crate::encode::join_dotted(dl.skip(1))));
            assert(crate::encode::join_dotted(segs) =~= segs[0] + (seq!['.']
                + crate::encode::join_dotted(segs.skip(1))));
        }
    }
}

/// The dot splitter recovers the joined segments, when no segment
/// holds a dot of its own.
proof fn lemma_split_dots_from(
    x: Seq<char>,
    start: int,
    segs: Seq<Seq<char>>,
    acc: Seq<Seq<char>>,
)
    requires
        0 <= start <= x.len(),
        segs.len() >= 1,
        x.skip(start) == crate::encode::join_dotted(segs),
        forall|j: int, k: int|
            0 <= j < segs.len() && 0 <= k < segs[j].len() ==> #[trigger] segs[j][k] != '.',
    ensures
        crate::expand::split_dots_state(x, start, start, acc) == acc + segs,
    decreases segs.len(),
{
    lemma_join_dotted_head(segs);
    let seg0 = segs[0];
    let p = start + seg0.len();
    assert(x.skip(start).len() == x.len() - start);
    assert forall|k: int| start <= k < p implies #[trigger] x[k] != '.' by {
        assert(x[k] == x.skip(start)[k - start]);
        assert(x.skip(start)[k - start] == seg0[k - start]);
    }
    lemma_split_dots_skip(x, start, p, start, acc);
    if segs.len() == 1 {
        assert(x.len() == p);
        assert(x.subrange(start, x.len() as int) =~= seg0);
        assert(acc.push(seg0) =~= acc + segs);
    } else {
        let rest = crate::encode::join_dotted(segs.skip(1));
        let suffix = x.skip(start);
        assert(suffix == seg0 + (seq!['.'] + rest));
        assert(x[p] == suffix[seg0.len() as int]);
        assert(x[p] == '.');
        assert(x.subrange(start, p) =~= seg0);
        assert forall|u: int| 0 <= u < rest.len() implies x.skip(p + 1)[u] == rest[u] by {
            assert(x.skip(p + 1)[u] == x[p + 1 + u]);
            assert(x[p + 1 + u] == suffix[p + 1 + u - start]);
            assert(suffix[seg0.len() + 1 + u] == (seq!['.'] + rest)[1 + u]);
        }
        assert(x.skip(p + 1) =~= rest);
        assert(forall|j: int, k: int|
            0 <= j < segs.skip(1).len() && 0 <= k < segs.skip(1)[j].len()
                ==> #[trigger] segs.skip(1)[j][k] != '.');
        lemma_split_dots_from(x, p + 1, segs.skip(1), acc.push(seg0));
        assert(acc.push(seg0) + segs.skip(1) =~= acc + segs);
    }
}

/// Following a chain of single-key objects folds to the full dotted
/// key and the terminal value's token, when every segment is a plain
/// key, the depth bound allows the chain, and the dotted key collides
/// with no sibling.
proof fn lemma_fold_renders_chain(
    pre: Seq<Seq<char>>,
    segs: Seq<Seq<char>>,
    from: int,
    v: Model,
    all_keys: Set<Seq<char>>,
    depth: int,
    delim: char,
    indent: int,
    ctx: SerializationContext,
)
    requires
        0 <= from < segs.len(),
        forall|j: int| from <= j < segs.len() ==> is_valid_unquoted_key_seq(#[trigger] segs[j]),
        crate::encode::spec_is_primitive(v),
        pre.len() + (segs.len() - from) <= ctx.flatten_depth,
        !all_keys.contains(crate::encode::join_dotted(pre + segs.skip(from))),
    ensures
        crate::encode::spec_fold_attempt(
            pre,
            Model::Obj(chain_fields(segs, from, v)),
            all_keys,
            depth,
            delim,
            indent,
            ctx,
        ) == Some(
            spec_format_key(crate::encode::join_dotted(pre + segs.skip(from)))
                + seq![':', ' '] + spec_format_scalar(v, delim),
        ),
    decreases segs.len() - from,
{
    let fields = chain_fields(segs, from, v);
    assert(fields.len() == 1);
    assert(fields[0].0 == segs[from]);
    let chain2 = pre.push(segs[from]);
    if from == segs.len() - 1 {
        assert(fields[0].1 == v);
        assert(!(v matches Model::Obj(_)));
        assert(chain2 =~= pre + segs.skip(from));
        let fk = spec_format_key(crate::encode::join_dotted(chain2));
        assert(fk + (seq![':', ' '] + spec_format_scalar(v, delim)) =~= fk + seq![':', ' ']
            + spec_format_scalar(v, delim));
        assert(crate::encode::spec_fold_attempt(
            pre,
            Model::Obj(fields),
            all_keys,
            depth,
            delim,
            indent,
            ctx,
        ) == crate::encode::spec_fold_terminal(chain2, v, all_keys, depth, delim, indent, ctx));
        assert(!all_keys.contains(crate::encode::join_dotted(chain2)));
        assert(crate::encode::spec_fold_terminal(chain2, v, all_keys, depth, delim, indent, ctx)
            == Some(fk + (seq![':', ' '] + spec_format_scalar(v, delim))));
    } else {
        let inner = chain_fields(segs, from + 1, v);
        assert(fields[0].1 == Model::Obj(inner));
        assert(inner.len() == 1);
        assert(chain2.len() < ctx.flatten_depth);
        assert(chain2 + segs.skip(from + 1) =~= pre + segs.skip(from));
        lemma_fold_renders_chain(
            chain2,
            segs,
            from + 1,
            v,
            all_keys,
            depth,
            delim,
            indent,
            ctx,
        );
    }
}

/// The folding and expansion inverse for a chain of plain, dot-free
/// keys ending in a primitive. Folding the chain renders the dotted
/// key and the terminal's token; splitting that dotted key recovers
/// the segments; and deep-merging the value along them into an empty
/// object rebuilds the chain exactly.
pub proof fn lemma_fold_expand_inverse(
    segs: Seq<Seq<char>>,
    v: Model,
    all_keys: Set<Seq<char>>,
    depth: int,
    delim: char,
    indent: int,
    ctx: SerializationContext,
    strict: bool,
)
    requires
        2 <= segs.len() <= ctx.flatten_depth,
        forall|j: int| 0 <= j < segs.len() ==> is_valid_unquoted_key_seq(#[trigger] segs[j]),
        forall|j: int, k: int|
            0 <= j < segs.len() && 0 <= k < segs[j].len() ==> #[trigger] segs[j][k] != '.',
        crate::encode::spec_is_primitive(v),
        !all_keys.contains(crate::encode::join_dotted(segs)),
    ensures
        crate::encode::spec_try_fold(
            segs[0],
            Model::Obj(chain_fields(segs, 1, v)),
            all_keys,
            depth,
            delim,
            indent,
            ctx,
        ) == Some(
            spec_format_key(crate::encode::join_dotted(segs)) + seq![':', ' ']
                + spec_format_scalar(v, delim),
        ),
        crate::expand::spec_split_dotted_key(crate::encode::join_dotted(segs)) == Some(segs),
        crate::expand::spec_deep_merge(Seq::empty(), segs, 0, v, strict) == Ok::<
            Seq<(Seq<char>, Model)>,
            ToonError,
        >(chain_fields(segs, 0, v)),
{
    let joined = crate::encode::join_dotted(segs);
    assert(seq![segs[0]] + segs.skip(1) =~= segs);
    lemma_fold_renders_chain(
        seq![segs[0]],
        segs,
        1,
        v,
        all_keys,
        depth,
        delim,
        indent,
        ctx,
    );
    assert(joined.skip(0) =~= joined);
    lemma_split_dots_from(joined, 0, segs, Seq::empty());
    assert(Seq::<Seq<char>>::empty() + segs =~= segs);
    lemma_join_dotted_head(segs);
    assert(joined[segs[0].len() as int] == (seq!['.'] + crate::encode::join_dotted(
        segs.skip(1),
    ))[0]);
    assert(joined[segs[0].len() as int] == '.');
    assert(exists|i: int| 0 <= i < joined.len() && joined[i] == '.');
    lemma_deep_merge_chain(segs, 0, v, strict);
}

} // verus!
