//! The decoder: a line-oriented recursive-descent parser. It detects
//! the root form, tracks depth through indentation, reads the three
//! array layouts, and applies dotted-key path expansion.

use vstd::prelude::*;

use crate::digits::digits_value;
use crate::digits::is_u64_literal;
use crate::digits::sign_split;
use crate::lexical::spec_trim;
use crate::lexical::spec_trim_start;
use crate::lexical::spec_unescape;
use crate::lexical::spec_parse_token;
use crate::lexical::trim_chars;
use crate::lexical::unescape_chars;
use crate::lexical::parse_token;
use crate::lexical::wf_scalar;
use crate::lexical::ws_prefix_len;
use crate::number::wf_model;
use crate::number::wf_model_seq;
use crate::number::wf_model_fields;
use crate::number::lemma_wf_model_seq_index;
use crate::number::lemma_wf_model_fields_index;
use crate::scan::bracket_colon_at;
use crate::scan::first_at;
use crate::scan::last_at;
use crate::scan::views_of;
use crate::expand::spec_check_conflict;
use crate::expand::spec_deep_merge;
use crate::expand::spec_set_item;
use crate::expand::spec_split_dotted_key;
use crate::encode::step_depth;
use crate::scan::spec_find_unquoted;
use crate::scan::find_unquoted;
use crate::scan::spec_is_tabular_row;
use crate::scan::spec_split;
use crate::scan::split_by_delimiter;
use crate::value::ExpandPaths;
use crate::value::Model;
use crate::value::ToonError;
use crate::value::Value;
use crate::value::model_fields;
use crate::value::model_seq;
use crate::value::model_of;
use crate::value::lemma_model_seq_index;
use crate::value::lemma_model_fields_index;

verus! {

broadcast use vstd::std_specs::vec::axiom_spec_len;

/// One line before the '\n' at `i`: the segment with a single trailing
/// carriage return stripped, as `str::lines` hands lines out.
pub open spec fn strip_cr(l: Seq<char>) -> Seq<char> {
    if l.len() > 0 && l[l.len() - 1] == '\r' {
        l.drop_last()
    } else {
        l
    }
}

/// The lines of `s`: split at every newline, each segment before a
/// newline stripped of one trailing carriage return, and no final
/// empty segment after a trailing newline.
pub open spec fn lines_state(s: Seq<char>, i: int, start: int, acc: Seq<Seq<char>>) -> Seq<
    Seq<char>,
>
    decreases s.len() - i,
    when 0 <= start <= i
{
    if i >= s.len() {
        if start < s.len() {
            acc.push(s.subrange(start, s.len() as int))
        } else {
            acc
        }
    } else if s[i] == '\n' {
        lines_state(s, i + 1, i + 1, acc.push(strip_cr(s.subrange(start, i))))
    } else {
        lines_state(s, i + 1, start, acc)
    }
}

/// The lines of a document.
pub open spec fn spec_lines(s: Seq<char>) -> Seq<Seq<char>> {
    lines_state(s, 0, 0, Seq::empty())
}

/// Splits a document into its lines.
pub fn split_lines(s: &Vec<char>) -> (r: Vec<Vec<char>>)
    ensures
        views_of(r@) == spec_lines(s@),
{
    let mut out: Vec<Vec<char>> = Vec::new();
    let mut start: usize = 0;
    let mut i: usize = 0;
    proof {
        assert(views_of(out@) =~= Seq::<Seq<char>>::empty());
    }
    while i < s.len()
        invariant
            0 <= start <= i <= s@.len(),
            spec_lines(s@) == lines_state(s@, i as int, start as int, views_of(out@)),
        decreases s@.len() - i,
    {
        if s[i] == '\n' {
            let stop: usize = if i > start && s[i - 1] == '\r' {
                i - 1
            } else {
                i
            };
            let seg = crate::chars::subrange_chars(s, start, stop);
            let ghost out0 = out@;
            out.push(seg);
            proof {
                assert(strip_cr(s@.subrange(start as int, i as int)) =~= s@.subrange(
                    start as int,
                    stop as int,
                ));
                assert(views_of(out@) =~= views_of(out0).push(
                    strip_cr(s@.subrange(start as int, i as int)),
                ));
            }
            start = i + 1;
        }
        i = i + 1;
    }
    if start < s.len() {
        let seg = crate::chars::subrange_chars(s, start, s.len());
        let ghost out0 = out@;
        out.push(seg);
        proof {
            assert(views_of(out@) =~= views_of(out0).push(
                s@.subrange(start as int, s@.len() as int),
            ));
        }
    }
    out
}

/// The decoder's state: the source lines, a cursor, the indent unit
/// (auto-detected or supplied), and the configuration.
pub struct Parser {
    pub lines: Vec<Vec<char>>,
    pub pos: usize,
    pub indent_size: usize,
    pub explicit_indent: Option<usize>,
    pub strict: bool,
    pub expand_paths: ExpandPaths,
}

/// The indent unit the first indented non-blank line shows, or two.
pub open spec fn spec_detected_indent(lines: Seq<Seq<char>>) -> int
    decreases lines.len(),
{
    if lines.len() == 0 {
        2
    } else {
        let l = lines[0];
        if spec_trim(l).len() > 0 && l.len() > 0 && l[0] == ' ' && space_prefix(l) > 0 {
            space_prefix(l)
        } else {
            spec_detected_indent(lines.skip(1))
        }
    }
}

/// The number of leading space characters (spaces proper, not all
/// whitespace).
pub open spec fn space_prefix(l: Seq<char>) -> int
    decreases l.len(),
{
    if l.len() == 0 || l[0] != ' ' {
        0
    } else {
        1 + space_prefix(l.skip(1))
    }
}

/// Counts the leading spaces of a line.
fn count_spaces(l: &Vec<char>) -> (r: usize)
    ensures
        r == space_prefix(l@),
{
    let mut i: usize = 0;
    proof {
        assert(l@.skip(0int) =~= l@);
    }
    while i < l.len()
        invariant
            0 <= i <= l@.len(),
            forall|k: int| 0 <= k < i ==> l@[k] == ' ',
            space_prefix(l@) == i + space_prefix(l@.skip(i as int)),
        decreases l@.len() - i,
    {
        if l[i] != ' ' {
            proof {
                assert(l@.skip(i as int)[0] == l@[i as int]);
            }
            return i;
        }
        proof {
            assert(l@.skip(i as int)[0] == l@[i as int]);
            assert(l@.skip(i as int).skip(1) =~= l@.skip(i + 1int));
        }
        i = i + 1;
    }
    proof {
        assert(l@.skip(l@.len() as int).len() == 0);
    }
    i
}

/// A declared field name: a quoted one unescapes; on any malformed
/// quoting the trimmed text stands as the name.
pub open spec fn spec_field_name_of(p: Seq<char>) -> Seq<char> {
    match Parser::spec_parse_key(p) {
        Ok(k) => k,
        Err(_) => spec_trim(p),
    }
}

/// The declared field names of a tabular header's brace group.
pub open spec fn spec_field_names(parts: Seq<Seq<char>>) -> Seq<Seq<char>> {
    Seq::new(parts.len(), |i: int| spec_field_name_of(parts[i]))
}

/// The primitives a token list denotes, in order; the first malformed
/// token's error wins.
pub open spec fn spec_parse_tokens(parts: Seq<Seq<char>>) -> Result<Seq<Model>, ToonError>
    decreases parts.len(),
{
    if parts.len() == 0 {
        Ok(Seq::empty())
    } else {
        match spec_parse_tokens(parts.drop_last()) {
            Err(e) => Err(e),
            Ok(ms) => match spec_parse_token(spec_trim(parts.last())) {
                Err(e2) => Err(e2),
                Ok(m) => Ok(ms.push(m)),
            },
        }
    }
}

/// One more token extends the list, or contributes the first error.
proof fn lemma_parse_tokens_step(parts: Seq<Seq<char>>, i: int)
    requires
        0 <= i < parts.len(),
    ensures
        spec_parse_tokens(parts.take(i + 1)) == match spec_parse_tokens(parts.take(i)) {
            Err(e) => Err::<Seq<Model>, ToonError>(e),
            Ok(ms) => match spec_parse_token(spec_trim(parts[i])) {
                Err(e2) => Err::<Seq<Model>, ToonError>(e2),
                Ok(m) => Ok::<Seq<Model>, ToonError>(ms.push(m)),
            },
        },
{
    let t = parts.take(i + 1);
    assert(t.last() == parts[i]);
    assert(t.drop_last() =~= parts.take(i));
}

/// Once a prefix errs, every longer prefix errs the same way.
proof fn lemma_parse_tokens_err(parts: Seq<Seq<char>>, j: int, k: int)
    requires
        0 <= j <= k <= parts.len(),
        spec_parse_tokens(parts.take(j)) is Err,
    ensures
        spec_parse_tokens(parts.take(k)) == spec_parse_tokens(parts.take(j)),
    decreases k - j,
{
    if k > j {
        lemma_parse_tokens_err(parts, j, k - 1);
        assert(parts.take(k).drop_last() =~= parts.take(k - 1));
    }
}

/// A cursor position that moved: `p2` where the step advanced within
/// the `n` lines, the next line otherwise. Every parsing step does
/// advance and stays within the lines; the bound keeps the recursion
/// below well founded.
pub open spec fn moved(pos: int, p2: int, n: int) -> int {
    if pos < p2 <= n {
        p2
    } else {
        pos + 1
    }
}

/// A cursor position that did not run backwards and stays within the
/// `n` lines.
pub open spec fn held(pos: int, p2: int, n: int) -> int {
    if pos <= p2 <= n {
        p2
    } else {
        pos
    }
}

/// The primitives of one tabular row, zipped positionally with the
/// declared field names into an object; the first malformed cell's
/// error wins.
pub open spec fn sp_row_zip(
    values: Seq<Seq<char>>,
    fields: Seq<Seq<char>>,
    i: int,
    acc: Seq<(Seq<char>, Model)>,
) -> Result<Seq<(Seq<char>, Model)>, ToonError>
    decreases fields.len() - i,
    when 0 <= i
{
    if i >= fields.len() {
        Ok(acc)
    } else if i >= values.len() {
        sp_row_zip(values, fields, i + 1, acc)
    } else {
        match spec_parse_token(spec_trim(values[i])) {
            Err(e) => Err(e),
            Ok(m) => sp_row_zip(values, fields, i + 1, spec_set_item(acc, fields[i], m)),
        }
    }
}

/// The declared-length check that closes every array body.
pub open spec fn sp_finish_array(acc: Seq<Model>, length: int, pos: int) -> (
    Result<Seq<Model>, ToonError>,
    int,
) {
    if length > 0 && acc.len() != length {
        (Err(ToonError::LengthMismatch), pos)
    } else {
        (Ok(acc), pos)
    }
}

/// How the executable field map reads: under expansion a dotted key
/// deep-merges, otherwise the strict conflict check and a plain
/// insertion.
pub open spec fn sp_insert_field(
    fields: Seq<(Seq<char>, Model)>,
    key: Seq<char>,
    v: Model,
    expand: bool,
    strict: bool,
) -> Result<Seq<(Seq<char>, Model)>, ToonError> {
    if expand {
        match spec_split_dotted_key(key) {
            Some(segs) => spec_deep_merge(fields, segs, 0, v, strict),
            None => sp_insert_plain(fields, key, v, strict),
        }
    } else {
        sp_insert_plain(fields, key, v, strict)
    }
}

/// A plain insertion under the strict conflict check.
pub open spec fn sp_insert_plain(
    fields: Seq<(Seq<char>, Model)>,
    key: Seq<char>,
    v: Model,
    strict: bool,
) -> Result<Seq<(Seq<char>, Model)>, ToonError> {
    match spec_check_conflict(fields, key, v, strict) {
        Ok(u) => Ok(spec_set_item(fields, key, v)),
        Err(e) => Err(e),
    }
}

/// Whether a field line's key part carries array syntax: a bracket
/// pair, looked for after the last quote when the key is quoted.
pub open spec fn sp_has_array_syntax(kp: Seq<char>) -> bool {
    let qe = last_at(kp, '"');
    if qe >= 0 {
        first_at(kp, '[', qe + 1) < kp.len() && first_at(kp, ']', qe + 1) < kp.len()
    } else {
        first_at(kp, '[', 0) < kp.len() && first_at(kp, ']', 0) < kp.len()
    }
}

/// The key name before the bracket suffix of a field-array line: a
/// quoted key keeps its quotes, a bare one is cut at the bracket.
pub open spec fn sp_li_key_name(kp: Seq<char>) -> Seq<char> {
    let qe = last_at(kp, '"');
    if qe >= 0 {
        kp.subrange(0, qe + 1)
    } else {
        kp.subrange(0, first_at(kp, '[', 0))
    }
}

/// How the rows of a tabular array read from `pos`: blank lines end
/// the body or are skipped per mode, deeper lines are skipped, a line
/// above ends it, and each row splits on the delimiter and zips
/// positionally with the field list. A row width differing from the
/// field count is an error in strict mode only; lenient mode fills
/// the fields the row has.
pub open spec fn sp_tabular(
    lines: Seq<Seq<char>>,
    cfg: DecodeCfg,
    pos: int,
    length: int,
    delim: char,
    fields: Seq<Seq<char>>,
    expected: int,
    acc: Seq<Model>,
) -> (Result<Seq<Model>, ToonError>, int)
    decreases lines.len() - pos, 1int,
    when 0 <= pos
{
    if pos >= lines.len() {
        sp_finish_array(acc, length, pos)
    } else {
        let l = lines[pos];
        let lt = spec_trim(l);
        if lt.len() != 0 {
            match cfg_validate_indent(l, cfg) {
                Err(e) => (Err(e), pos),
                Ok(u) => {
                    let d = cfg_depth(l, cfg);
                    if d < expected {
                        sp_finish_array(acc, length, pos)
                    } else if d > expected {
                        sp_tabular(lines, cfg, pos + 1, length, delim, fields, expected, acc)
                    } else if !spec_is_tabular_row(lt, delim) {
                        sp_finish_array(acc, length, pos)
                    } else {
                        let values = spec_split(lt, delim);
                        if cfg.strict && values.len() != fields.len() {
                            (Err(ToonError::RowWidthMismatch), pos)
                        } else {
                            match sp_row_zip(values, fields, 0, Seq::empty()) {
                                Err(e) => (Err(e), pos),
                                Ok(obj) => sp_tabular(
                                    lines,
                                    cfg,
                                    pos + 1,
                                    length,
                                    delim,
                                    fields,
                                    expected,
                                    acc.push(Model::Obj(obj)),
                                ),
                            }
                        }
                    }
                },
            }
        } else {
            let la = sp_lookahead(lines, pos + 1);
            if la < lines.len() && cfg_depth(lines[la], cfg) < expected {
                sp_finish_array(acc, length, pos)
            } else if cfg.strict {
                (Err(ToonError::BlankLineInArray), pos)
            } else {
                sp_tabular(lines, cfg, pos + 1, length, delim, fields, expected, acc)
            }
        }
    }
}

/// How the hyphen items of an expanded array read from `pos`.
pub open spec fn sp_expanded(
    lines: Seq<Seq<char>>,
    cfg: DecodeCfg,
    pos: int,
    length: int,
    expected: int,
    acc: Seq<Model>,
) -> (Result<Seq<Model>, ToonError>, int)
    decreases lines.len() - pos, 6int,
    when 0 <= pos
{
    if pos >= lines.len() {
        sp_finish_array(acc, length, pos)
    } else {
        let l = lines[pos];
        let lt = spec_trim(l);
        if lt.len() != 0 {
            match cfg_validate_indent(l, cfg) {
                Err(e) => (Err(e), pos),
                Ok(u) => {
                    let d = cfg_depth(l, cfg);
                    if d < expected {
                        sp_finish_array(acc, length, pos)
                    } else if d > expected {
                        sp_expanded(lines, cfg, pos + 1, length, expected, acc)
                    } else if !(lt.len() >= 1 && lt[0] == '-') {
                        sp_finish_array(acc, length, pos)
                    } else {
                        let item = if lt.len() > 1 && lt[1] == ' ' {
                            lt.subrange(2, lt.len() as int)
                        } else if lt.len() == 1 {
                            Seq::empty()
                        } else {
                            lt.subrange(1, lt.len() as int)
                        };
                        if item.len() == 0 {
                            sp_expanded(
                                lines,
                                cfg,
                                pos + 1,
                                length,
                                expected,
                                acc.push(Model::Obj(Seq::empty())),
                            )
                        } else if item[0] == '[' && bracket_colon_at(item, 0) < item.len() {
                            let bp = bracket_colon_at(item, 0);
                            let hwb = item.subrange(0, bp).push(']');
                            match Parser::spec_parse_header(hwb) {
                                Err(e) => (Err(e), pos + 1),
                                Ok(h) => {
                                    let q = bracket_colon_at(item, bp + 2);
                                    let after = spec_trim(item.subrange(bp + 2, q));
                                    if after.len() == 0 {
                                        let inner = sp_expanded(
                                            lines,
                                            cfg,
                                            pos + 1,
                                            h.0,
                                            step_depth(expected),
                                            Seq::empty(),
                                        );
                                        match inner.0 {
                                            Err(e) => (Err(e), inner.1),
                                            Ok(ms) => sp_expanded(
                                                lines,
                                                cfg,
                                                moved(pos, inner.1, lines.len() as int),
                                                length,
                                                expected,
                                                acc.push(Model::Arr(ms)),
                                            ),
                                        }
                                    } else {
                                        match Parser::spec_parse_inline(after, h.1, h.0) {
                                            Err(e) => (Err(e), pos + 1),
                                            Ok(ms) => sp_expanded(
                                                lines,
                                                cfg,
                                                pos + 1,
                                                length,
                                                expected,
                                                acc.push(Model::Arr(ms)),
                                            ),
                                        }
                                    }
                                },
                            }
                        } else if first_at(item, ':', 0) < item.len() {
                            let li = sp_list_item(lines, cfg, pos, expected);
                            match li.0 {
                                Err(e) => (Err(e), li.1),
                                Ok(m) => sp_expanded(
                                    lines,
                                    cfg,
                                    moved(pos, li.1, lines.len() as int),
                                    length,
                                    expected,
                                    acc.push(m),
                                ),
                            }
                        } else {
                            match spec_parse_token(spec_trim(item)) {
                                Err(e) => (Err(e), pos + 1),
                                Ok(m) => sp_expanded(
                                    lines,
                                    cfg,
                                    pos + 1,
                                    length,
                                    expected,
                                    acc.push(m),
                                ),
                            }
                        }
                    }
                },
            }
        } else {
            let la = sp_lookahead(lines, pos + 1);
            if la < lines.len() && cfg_depth(lines[la], cfg) < expected {
                sp_finish_array(acc, length, pos)
            } else if cfg.strict {
                (Err(ToonError::BlankLineInArray), pos)
            } else {
                sp_expanded(lines, cfg, pos + 1, length, expected, acc)
            }
        }
    }
}

/// How the later fields of a list-item object read: each on a line one
/// level below the hyphen, ended by a line at or above the list depth.
pub open spec fn sp_li_rest(
    lines: Seq<Seq<char>>,
    cfg: DecodeCfg,
    pos: int,
    list_depth: int,
    acc: Seq<(Seq<char>, Model)>,
) -> (Result<Seq<(Seq<char>, Model)>, ToonError>, int)
    decreases lines.len() - pos, 3int,
    when 0 <= pos
{
    if pos >= lines.len() {
        (Ok(acc), pos)
    } else {
        match cfg_validate_indent(lines[pos], cfg) {
            Err(e) => (Err(e), pos),
            Ok(u) => {
                let d = cfg_depth(lines[pos], cfg);
                if d <= list_depth {
                    (Ok(acc), pos)
                } else if d != step_depth(list_depth) {
                    sp_li_rest(lines, cfg, pos + 1, list_depth, acc)
                } else {
                    let lt = spec_trim(lines[pos]);
                    let cp = first_at(lt, ':', 0);
                    if cp >= lt.len() {
                        sp_li_rest(lines, cfg, pos + 1, list_depth, acc)
                    } else {
                        let kp = lt.subrange(0, cp);
                        let vp = spec_trim(lt.subrange(cp + 1, lt.len() as int));
                        if sp_has_array_syntax(kp) {
                            let fa = sp_field_array(lines, cfg, pos, lt, step_depth(list_depth));
                            match fa.0 {
                                Err(e) => (Err(e), fa.1),
                                Ok(v2) => match Parser::spec_parse_key(sp_li_key_name(kp)) {
                                    Err(e) => (Err(e), fa.1),
                                    Ok(k) => sp_li_rest(
                                        lines,
                                        cfg,
                                        moved(pos, fa.1, lines.len() as int),
                                        list_depth,
                                        spec_set_item(acc, k, v2),
                                    ),
                                },
                            }
                        } else {
                            match Parser::spec_parse_key(kp) {
                                Err(e) => (Err(e), pos),
                                Ok(k) => {
                                    if vp.len() == 0 {
                                        let ob = sp_object(
                                            lines,
                                            cfg,
                                            pos + 1,
                                            step_depth(d),
                                            Seq::empty(),
                                        );
                                        match ob.0 {
                                            Err(e) => (Err(e), ob.1),
                                            Ok(f2) => sp_li_rest(
                                                lines,
                                                cfg,
                                                moved(pos, ob.1, lines.len() as int),
                                                list_depth,
                                                spec_set_item(acc, k, Model::Obj(f2)),
                                            ),
                                        }
                                    } else {
                                        match spec_parse_token(spec_trim(vp)) {
                                            Err(e) => (Err(e), pos + 1),
                                            Ok(m) => sp_li_rest(
                                                lines,
                                                cfg,
                                                pos + 1,
                                                list_depth,
                                                spec_set_item(acc, k, m),
                                            ),
                                        }
                                    }
                                },
                            }
                        }
                    }
                }
            },
        }
    }
}

/// How an object standing as a list item reads: the first field on the
/// hyphen's line, the remaining fields one level below it.
pub open spec fn sp_list_item(lines: Seq<Seq<char>>, cfg: DecodeCfg, pos: int, list_depth: int) -> (
    Result<Model, ToonError>,
    int,
)
    decreases lines.len() - pos, 5int,
    when 0 <= pos < lines.len()
{
    let lt = spec_trim(lines[pos]);
    let content = if lt.len() > 1 && lt[1] == ' ' {
        lt.subrange(2, lt.len() as int)
    } else if lt.len() >= 1 && lt[0] == '-' {
        lt.subrange(1, lt.len() as int)
    } else {
        lt.subrange(0, lt.len() as int)
    };
    let cp = first_at(content, ':', 0);
    if cp < content.len() {
        let kp = content.subrange(0, cp);
        let vp = spec_trim(content.subrange(cp + 1, content.len() as int));
        if sp_has_array_syntax(kp) {
            let fa = sp_field_array(lines, cfg, pos, content, step_depth(list_depth));
            match fa.0 {
                Err(e) => (Err(e), fa.1),
                Ok(v2) => match Parser::spec_parse_key(sp_li_key_name(kp)) {
                    Err(e) => (Err(e), fa.1),
                    Ok(k) => sp_li_close(
                        lines,
                        cfg,
                        pos,
                        moved(pos, fa.1, lines.len() as int),
                        list_depth,
                        spec_set_item(Seq::empty(), k, v2),
                    ),
                },
            }
        } else {
            match Parser::spec_parse_key(kp) {
                Err(e) => (Err(e), pos),
                Ok(k) => {
                    if vp.len() == 0 {
                        if pos + 1 < lines.len() && cfg_depth(lines[pos + 1], cfg) > step_depth(
                            list_depth,
                        ) {
                            let ob = sp_object(
                                lines,
                                cfg,
                                pos + 1,
                                step_depth(step_depth(list_depth)),
                                Seq::empty(),
                            );
                            match ob.0 {
                                Err(e) => (Err(e), ob.1),
                                Ok(f2) => sp_li_close(
                                    lines,
                                    cfg,
                                    pos,
                                    moved(pos, ob.1, lines.len() as int),
                                    list_depth,
                                    spec_set_item(Seq::empty(), k, Model::Obj(f2)),
                                ),
                            }
                        } else {
                            sp_li_close(lines, cfg, pos, pos + 1, list_depth, Seq::empty())
                        }
                    } else {
                        match spec_parse_token(spec_trim(vp)) {
                            Err(e) => (Err(e), pos + 1),
                            Ok(m) => sp_li_close(
                                lines,
                                cfg,
                                pos,
                                pos + 1,
                                list_depth,
                                spec_set_item(Seq::empty(), k, m),
                            ),
                        }
                    }
                },
            }
        }
    } else {
        sp_li_close(lines, cfg, pos, pos + 1, list_depth, Seq::empty())
    }
}

/// Closes a list item: reads its remaining fields and wraps them.
pub open spec fn sp_li_close(
    lines: Seq<Seq<char>>,
    cfg: DecodeCfg,
    pos: int,
    p2: int,
    list_depth: int,
    fields0: Seq<(Seq<char>, Model)>,
) -> (Result<Model, ToonError>, int)
    decreases lines.len() - pos, 4int,
    when 0 <= pos
{
    let rest = sp_li_rest(lines, cfg, held(pos, p2, lines.len() as int), list_depth, fields0);
    match rest.0 {
        Err(e) => (Err(e), rest.1),
        Ok(f) => (Ok(Model::Obj(f)), rest.1),
    }
}

/// How the fields of an object at `depth` read from `pos`.
pub open spec fn sp_object(
    lines: Seq<Seq<char>>,
    cfg: DecodeCfg,
    pos: int,
    depth: int,
    acc: Seq<(Seq<char>, Model)>,
) -> (Result<Seq<(Seq<char>, Model)>, ToonError>, int)
    decreases lines.len() - pos, 8int,
    when 0 <= pos
{
    if pos >= lines.len() {
        (Ok(acc), pos)
    } else {
        match cfg_validate_indent(lines[pos], cfg) {
            Err(e) => (Err(e), pos),
            Ok(u) => {
                let lt = spec_trim(lines[pos]);
                if lt.len() == 0 {
                    let la = sp_lookahead(lines, pos + 1);
                    if la < lines.len() && cfg_depth(lines[la], cfg) >= depth {
                        sp_object(lines, cfg, pos + 1, depth, acc)
                    } else {
                        (Ok(acc), pos)
                    }
                } else {
                    let d = cfg_depth(lines[pos], cfg);
                    if d < depth {
                        (Ok(acc), pos)
                    } else if d > depth {
                        sp_object(lines, cfg, pos + 1, depth, acc)
                    } else {
                        match spec_find_unquoted(lt, ':') {
                            None => (Err(ToonError::MissingColon), pos),
                            Some(cu) => {
                                let kp = lt.subrange(0, cu);
                                let vp = spec_trim(lt.subrange(cu + 1, lt.len() as int));
                                if sp_obj_array_syntax(kp) {
                                    let fa = sp_field_array(lines, cfg, pos, lt, depth);
                                    match fa.0 {
                                        Err(e) => (Err(e), fa.1),
                                        Ok(v2) => {
                                            let kn = sp_obj_key_name(kp);
                                            let se = cfg_should_expand(kn, cfg);
                                            if se.0 {
                                                match spec_split_dotted_key(kn) {
                                                    Some(segs) => match spec_deep_merge(
                                                        acc,
                                                        segs,
                                                        0,
                                                        v2,
                                                        cfg.strict,
                                                    ) {
                                                        Err(e) => (Err(e), fa.1),
                                                        Ok(f2) => sp_object(
                                                            lines,
                                                            cfg,
                                                            moved(pos, fa.1, lines.len() as int),
                                                            depth,
                                                            f2,
                                                        ),
                                                    },
                                                    None => match spec_check_conflict(
                                                        acc,
                                                        kn,
                                                        v2,
                                                        cfg.strict,
                                                    ) {
                                                        Err(e) => (Err(e), fa.1),
                                                        Ok(u2) => match Parser::spec_parse_key(
                                                            kn,
                                                        ) {
                                                            Err(e) => (Err(e), fa.1),
                                                            Ok(k) => sp_object(
                                                                lines,
                                                                cfg,
                                                                moved(pos, fa.1, lines.len() as int),
                                                                depth,
                                                                spec_set_item(acc, k, v2),
                                                            ),
                                                        },
                                                    },
                                                }
                                            } else {
                                                if se.1 {
                                                    match Parser::spec_parse_key(kn) {
                                                        Err(e) => (Err(e), fa.1),
                                                        Ok(k) => match spec_check_conflict(
                                                            acc,
                                                            k,
                                                            v2,
                                                            cfg.strict,
                                                        ) {
                                                            Err(e) => (Err(e), fa.1),
                                                            Ok(u2) => sp_object(
                                                                lines,
                                                                cfg,
                                                                moved(pos, fa.1, lines.len() as int),
                                                                depth,
                                                                spec_set_item(acc, k, v2),
                                                            ),
                                                        },
                                                    }
                                                } else {
                                                    match spec_check_conflict(
                                                        acc,
                                                        kn,
                                                        v2,
                                                        cfg.strict,
                                                    ) {
                                                        Err(e) => (Err(e), fa.1),
                                                        Ok(u2) => sp_object(
                                                            lines,
                                                            cfg,
                                                            moved(pos, fa.1, lines.len() as int),
                                                            depth,
                                                            spec_set_item(acc, kn, v2),
                                                        ),
                                                    }
                                                }
                                            }
                                        },
                                    }
                                } else {
                                    let se = cfg_should_expand(kp, cfg);
                                    match Parser::spec_parse_key(kp) {
                                        Err(e) => (Err(e), pos),
                                        Ok(pk) => {
                                            if vp.len() == 0 {
                                                if pos + 1 < lines.len() {
                                                    let nd = cfg_depth(lines[pos + 1], cfg);
                                                    let nested = if !cfg.strict
                                                        && cfg.auto_indent {
                                                        ws_prefix_len(lines[pos + 1])
                                                            > ws_prefix_len(lines[pos])
                                                            && spec_trim(lines[pos + 1]).len() > 0
                                                            && spec_trim(lines[pos + 1])[0] != '-'
                                                    } else {
                                                        nd > depth
                                                    };
                                                    if nested {
                                                        let ndepth = if !cfg.strict
                                                            && cfg.auto_indent {
                                                            nd
                                                        } else {
                                                            step_depth(depth)
                                                        };
                                                        let ob = sp_object(
                                                            lines,
                                                            cfg,
                                                            pos + 1,
                                                            ndepth,
                                                            Seq::empty(),
                                                        );
                                                        match ob.0 {
                                                            Err(e) => (Err(e), ob.1),
                                                            Ok(f2) => sp_obj_insert(
                                                                lines,
                                                                cfg,
                                                                pos,
                                                                moved(pos, ob.1, lines.len() as int),
                                                                depth,
                                                                acc,
                                                                pk,
                                                                Model::Obj(f2),
                                                                se.0,
                                                            ),
                                                        }
                                                    } else {
                                                        sp_obj_insert(
                                                            lines,
                                                            cfg,
                                                            pos,
                                                            pos + 1,
                                                            depth,
                                                            acc,
                                                            pk,
                                                            Model::Obj(Seq::empty()),
                                                            se.0,
                                                        )
                                                    }
                                                } else {
                                                    sp_obj_insert(
                                                        lines,
                                                        cfg,
                                                        pos,
                                                        pos + 1,
                                                        depth,
                                                        acc,
                                                        pk,
                                                        Model::Obj(Seq::empty()),
                                                        se.0,
                                                    )
                                                }
                                            } else {
                                                match spec_parse_token(spec_trim(vp)) {
                                                    Err(e) => (Err(e), pos + 1),
                                                    Ok(m) => sp_obj_insert(
                                                        lines,
                                                        cfg,
                                                        pos,
                                                        pos + 1,
                                                        depth,
                                                        acc,
                                                        pk,
                                                        m,
                                                        se.0,
                                                    ),
                                                }
                                            }
                                        },
                                    }
                                }
                            },
                        }
                    }
                }
            },
        }
    }
}

/// Inserts one parsed field and reads the rest of the object.
pub open spec fn sp_obj_insert(
    lines: Seq<Seq<char>>,
    cfg: DecodeCfg,
    pos: int,
    posv: int,
    depth: int,
    acc: Seq<(Seq<char>, Model)>,
    key: Seq<char>,
    v: Model,
    expand: bool,
) -> (Result<Seq<(Seq<char>, Model)>, ToonError>, int)
    decreases lines.len() - pos, 7int,
    when 0 <= pos < lines.len()
{
    match sp_insert_field(acc, key, v, expand, cfg.strict) {
        Err(e) => (Err(e), posv),
        Ok(f2) => sp_object(lines, cfg, moved(pos, posv, lines.len() as int), depth, f2),
    }
}

/// The key-part array-syntax test of an object field line: driven by
/// the first quote and the first bracket.
pub open spec fn sp_obj_array_syntax(kp: Seq<char>) -> bool {
    let fq = first_at(kp, '"', 0);
    let fb = first_at(kp, '[', 0);
    if fb >= kp.len() {
        false
    } else if fq >= kp.len() {
        first_at(kp, ']', 0) < kp.len()
    } else if fb < fq {
        first_at(kp, ']', 0) < kp.len()
    } else {
        let lq = last_at(kp, '"');
        if lq >= 0 {
            first_at(kp, '[', lq + 1) < kp.len() && first_at(kp, ']', lq + 1) < kp.len()
        } else {
            false
        }
    }
}

/// The key name of an object field-array line: a quoted key up to its
/// closing quote, a bare one cut at the first bracket.
pub open spec fn sp_obj_key_name(kp: Seq<char>) -> Seq<char> {
    if kp.len() >= 1 && kp[0] == '"' {
        let close = if kp.len() >= 2 {
            first_at(kp, '"', 1)
        } else {
            kp.len() as int
        };
        if close < kp.len() {
            kp.subrange(0, close + 1)
        } else {
            kp.subrange(0, first_at(kp, '[', 0))
        }
    } else {
        kp.subrange(0, first_at(kp, '[', 0))
    }
}

/// How an array under a field's key reads: the header decides the
/// layout, and the body follows one level deeper.
pub open spec fn sp_field_array(
    lines: Seq<Seq<char>>,
    cfg: DecodeCfg,
    pos: int,
    header_line: Seq<char>,
    depth: int,
) -> (Result<Model, ToonError>, int)
    decreases lines.len() - pos, 2int,
    when 0 <= pos < lines.len()
{
    match Parser::spec_parse_header(header_line) {
        Err(e) => (Err(e), pos),
        Ok(h) => {
            match h.2 {
                Some(fnames) => {
                    let tb = sp_tabular(
                        lines,
                        cfg,
                        pos + 1,
                        h.0,
                        h.1,
                        fnames,
                        step_depth(depth),
                        Seq::empty(),
                    );
                    match tb.0 {
                        Err(e) => (Err(e), tb.1),
                        Ok(ms) => (Ok(Model::Arr(ms)), tb.1),
                    }
                },
                None => {
                    let ht = spec_trim(header_line);
                    let bc = bracket_colon_at(ht, 0);
                    if bc >= ht.len() {
                        (Err(ToonError::InvalidHeader), pos + 1)
                    } else {
                        let after = spec_trim(ht.subrange(bc + 2, ht.len() as int));
                        if after.len() > 0 {
                            match Parser::spec_parse_inline(after, h.1, h.0) {
                                Err(e) => (Err(e), pos + 1),
                                Ok(ms) => (Ok(Model::Arr(ms)), pos + 1),
                            }
                        } else {
                            let ex = sp_expanded(
                                lines,
                                cfg,
                                pos + 1,
                                h.0,
                                step_depth(depth),
                                Seq::empty(),
                            );
                            match ex.0 {
                                Err(e) => (Err(e), ex.1),
                                Ok(ms) => (Ok(Model::Arr(ms)), ex.1),
                            }
                        }
                    }
                },
            }
        },
    }
}

/// How a root-form array reads: like a field array, with its body at
/// depth one.
pub open spec fn sp_root_array(lines: Seq<Seq<char>>, cfg: DecodeCfg, pos: int) -> (
    Result<Model, ToonError>,
    int,
)
    decreases lines.len() - pos, 9int,
    when 0 <= pos < lines.len()
{
    match Parser::spec_parse_header(lines[pos]) {
        Err(e) => (Err(e), pos),
        Ok(h) => {
            match h.2 {
                Some(fnames) => {
                    let tb = sp_tabular(lines, cfg, pos + 1, h.0, h.1, fnames, 1, Seq::empty());
                    match tb.0 {
                        Err(e) => (Err(e), tb.1),
                        Ok(ms) => (Ok(Model::Arr(ms)), tb.1),
                    }
                },
                None => {
                    let ht = spec_trim(lines[pos]);
                    let bc = bracket_colon_at(ht, 0);
                    if bc >= ht.len() {
                        (Err(ToonError::InvalidHeader), pos + 1)
                    } else {
                        let after = spec_trim(ht.subrange(bc + 2, ht.len() as int));
                        if after.len() > 0 {
                            match Parser::spec_parse_inline(after, h.1, h.0) {
                                Err(e) => (Err(e), pos + 1),
                                Ok(ms) => (Ok(Model::Arr(ms)), pos + 1),
                            }
                        } else {
                            let ex = sp_expanded(lines, cfg, pos + 1, h.0, 1, Seq::empty());
                            match ex.0 {
                                Err(e) => (Err(e), ex.1),
                                Ok(ms) => (Ok(Model::Arr(ms)), ex.1),
                            }
                        }
                    }
                },
            }
        },
    }
}

/// The configuration a fresh decode runs under: the supplied indent
/// width, or the detected one.
pub open spec fn sp_cfg(
    lines: Seq<Seq<char>>,
    strict: bool,
    expand: ExpandPaths,
    explicit: Option<usize>,
) -> DecodeCfg {
    DecodeCfg {
        unit: match explicit {
            Some(e) => e as int,
            None => spec_detected_indent(lines),
        },
        strict,
        expand,
        auto_indent: explicit is None,
    }
}

/// How a whole document reads from `pos0`: leading blanks are skipped;
/// an empty remainder is an empty object; a bare bracket header with a
/// colon is a root array; a one-line document without an unquoted
/// colon is one primitive; anything else is a root object at depth
/// zero.
pub open spec fn sp_parse(
    lines: Seq<Seq<char>>,
    strict: bool,
    expand: ExpandPaths,
    explicit: Option<usize>,
    pos0: int,
) -> (Result<Model, ToonError>, int)
    decreases lines.len() - pos0, 10int,
    when 0 <= pos0
{
    let cfg = sp_cfg(lines, strict, expand, explicit);
    let p = held(pos0, sp_lookahead(lines, pos0), lines.len() as int);
    if p >= lines.len() {
        (Ok(Model::Obj(Seq::empty())), p)
    } else {
        match cfg_validate_indent(lines[p], cfg) {
            Err(e) => (Err(e), p),
            Ok(u) => {
                let flt = spec_trim(lines[p]);
                if flt.len() > 0 && flt[0] == '[' && first_at(flt, ':', 0) < flt.len()
                    && lines[p].len() == flt.len() {
                    sp_root_array(lines, cfg, p)
                } else if lines.len() == 1 && spec_find_unquoted(flt, ':') is None {
                    match spec_parse_token(spec_trim(flt)) {
                        Err(e) => (Err(e), p),
                        Ok(m) => (Ok(m), p),
                    }
                } else {
                    let ob = sp_object(lines, cfg, p, 0, Seq::empty());
                    match ob.0 {
                        Err(e) => (Err(e), ob.1),
                        Ok(f) => (Ok(Model::Obj(f)), ob.1),
                    }
                }
            },
        }
    }
}

/// The decoder's fixed configuration, as the parsing rules see it:
/// the active indent unit, strictness, the path-expansion mode, and
/// whether the unit was auto-detected (which loosens nested-object
/// depth inference in lenient mode).
pub struct DecodeCfg {
    pub unit: int,
    pub strict: bool,
    pub expand: ExpandPaths,
    pub auto_indent: bool,
}

/// The depth of a line under a configuration: its leading whitespace
/// width divided by the indent unit.
pub open spec fn cfg_depth(l: Seq<char>, cfg: DecodeCfg) -> int {
    if cfg.unit > 0 {
        ws_prefix_len(l) / cfg.unit
    } else {
        0
    }
}

/// Strict mode's indentation checks under a configuration.
pub open spec fn cfg_validate_indent(l: Seq<char>, cfg: DecodeCfg) -> Result<(), ToonError> {
    if !cfg.strict || spec_trim(l).len() == 0 {
        Ok(())
    } else if exists|i: int| 0 <= i < ws_prefix_len(l) && (#[trigger] l[i]) == '\t' {
        Err(ToonError::TabInIndent)
    } else if cfg.unit > 0 && ws_prefix_len(l) % cfg.unit != 0 {
        Err(ToonError::IndentNotMultiple)
    } else {
        Ok(())
    }
}

/// Whether a key expands under a configuration, and whether it was
/// quoted in the source.
pub open spec fn cfg_should_expand(key: Seq<char>, cfg: DecodeCfg) -> (bool, bool) {
    let t = spec_trim(key);
    let wq = t.len() >= 1 && t[0] == '"' && t[t.len() - 1] == '"';
    match cfg.expand {
        ExpandPaths::Off => (false, wq),
        ExpandPaths::Safe => (!wq, wq),
        ExpandPaths::Always => (true, wq),
    }
}

/// The first non-blank line at or after `from`, or the line count.
pub open spec fn sp_lookahead(lines: Seq<Seq<char>>, from: int) -> int
    decreases lines.len() - from,
    when 0 <= from
{
    if from >= lines.len() {
        lines.len() as int
    } else if spec_trim(lines[from]).len() == 0 {
        sp_lookahead(lines, from + 1)
    } else {
        from
    }
}

/// The looked-ahead position never runs backwards and stays within
/// the line count.
pub proof fn lemma_sp_lookahead(lines: Seq<Seq<char>>, from: int)
    requires
        0 <= from <= lines.len(),
    ensures
        from <= sp_lookahead(lines, from) <= lines.len(),
        sp_lookahead(lines, from) < lines.len() ==> spec_trim(
            lines[sp_lookahead(lines, from)],
        ).len() > 0,
    decreases lines.len() - from,
{
    if from < lines.len() && spec_trim(lines[from]).len() == 0 {
        lemma_sp_lookahead(lines, from + 1);
    }
}

impl Parser {
    /// The cursor never leaves the line list.
    pub open spec fn wf(self) -> bool {
        self.pos <= self.lines@.len()
    }

    /// The fields a parse step never changes.
    pub open spec fn same_config(self, other: Parser) -> bool {
        &&& self.lines@ == other.lines@
        &&& self.indent_size == other.indent_size
        &&& self.explicit_indent == other.explicit_indent
        &&& self.strict == other.strict
        &&& self.expand_paths == other.expand_paths
    }

    /// A fresh parser over the lines of `input`, with the cursor at the
    /// start and the indent unit still to be detected.
    pub fn new(
        input: &str,
        strict: bool,
        expand_paths: ExpandPaths,
        explicit_indent: Option<usize>,
    ) -> (r: Parser)
        ensures
            views_of(r.lines@) == spec_lines(input@),
            r.pos == 0,
            r.indent_size == 0,
            r.explicit_indent == explicit_indent,
            r.strict == strict,
            r.expand_paths == expand_paths,
            r.wf(),
    {
        let chars = crate::chars::string_to_chars(input);
        let lines = split_lines(&chars);
        Parser { lines, pos: 0, indent_size: 0, explicit_indent, strict, expand_paths }
    }

    /// Detects the indent unit: the leading-space count of the first
    /// indented non-blank line, defaulting to two.
    pub fn detect_indent_size(&mut self)
        ensures
            final(self).lines@ == old(self).lines@,
            final(self).pos == old(self).pos,
            final(self).explicit_indent == old(self).explicit_indent,
            final(self).strict == old(self).strict,
            final(self).expand_paths == old(self).expand_paths,
            final(self).indent_size as int == spec_detected_indent(views_of(old(self).lines@)),
    {
        let ghost lv = views_of(self.lines@);
        let n = self.lines.len();
        let mut i: usize = 0;
        proof {
            assert(lv.skip(0int) =~= lv);
        }
        while i < n
            invariant
                0 <= i <= n,
                n == self.lines@.len(),
                lv == views_of(self.lines@),
                spec_detected_indent(lv) == spec_detected_indent(lv.skip(i as int)),
                self == old(self),
            decreases n - i,
        {
            proof {
                assert(lv.skip(i as int)[0] == lv[i as int]);
                assert(lv.skip(i as int).skip(1) =~= lv.skip(i + 1int));
            }
            let blank = crate::lexical::is_blank(&self.lines[i]);
            if !blank && self.lines[i].len() > 0 && self.lines[i][0] == ' ' {
                let spaces = count_spaces(&self.lines[i]);
                if spaces > 0 {
                    self.indent_size = spaces;
                    return ;
                }
            }
            i = i + 1;
        }
        proof {
            assert(lv.skip(n as int).len() == 0);
        }
        self.indent_size = 2;
    }

    /// The active indent unit: the supplied width, or the detected one.
    pub open spec fn spec_unit(self) -> int {
        match self.explicit_indent {
            Some(e) => e as int,
            None => self.indent_size as int,
        }
    }

    /// The configuration the parsing rules see.
    pub open spec fn cfg(self) -> DecodeCfg {
        DecodeCfg {
            unit: self.spec_unit(),
            strict: self.strict,
            expand: self.expand_paths,
            auto_indent: self.explicit_indent is None,
        }
    }

    /// The depth of a line: its leading whitespace width divided by the
    /// active indent unit.
    pub open spec fn spec_depth(self, l: Seq<char>) -> int {
        cfg_depth(l, self.cfg())
    }

    /// Computes a line's depth.
    pub fn get_depth(&self, l: &Vec<char>) -> (r: usize)
        ensures
            r as int == self.spec_depth(l@),
    {
        let leading = crate::lexical::count_leading_ws(l);
        let unit = match self.explicit_indent {
            Some(e) => e,
            None => self.indent_size,
        };
        if unit > 0 {
            leading / unit
        } else {
            0
        }
    }

    /// A line's raw leading whitespace width.
    pub fn get_indent_spaces(&self, l: &Vec<char>) -> (r: usize)
        ensures
            r == ws_prefix_len(l@),
    {
        crate::lexical::count_leading_ws(l)
    }

    /// Strict mode's indentation checks: no tab among the leading
    /// whitespace, and a width that is a whole number of units.
    pub open spec fn spec_validate_indent(self, l: Seq<char>) -> Result<(), ToonError> {
        cfg_validate_indent(l, self.cfg())
    }

    /// Executable counterpart of [`Parser::spec_validate_indent`].
    pub fn validate_indentation(&self, l: &Vec<char>) -> (r: Result<(), ToonError>)
        ensures
            r == self.spec_validate_indent(l@),
    {
        if !self.strict {
            return Ok(());
        }
        if crate::lexical::is_blank(l) {
            return Ok(());
        }
        let indent_len = crate::lexical::count_leading_ws(l);
        proof {
            crate::lexical::lemma_ws_prefix_bounds(l@);
        }
        let mut i: usize = 0;
        while i < indent_len
            invariant
                0 <= i <= indent_len <= l@.len(),
                indent_len == ws_prefix_len(l@),
                self.strict,
                spec_trim(l@).len() != 0,
                forall|k: int| 0 <= k < i ==> l@[k] != '\t',
            decreases indent_len - i,
        {
            if l[i] == '\t' {
                proof {
                    assert(0 <= i < ws_prefix_len(l@) && l@[i as int] == '\t');
                    assert(exists|k: int|
                        0 <= k < ws_prefix_len(l@) && (#[trigger] l@[k]) == '\t');
                }
                return Err(ToonError::TabInIndent);
            }
            i = i + 1;
        }
        let unit = match self.explicit_indent {
            Some(e) => e,
            None => self.indent_size,
        };
        if unit > 0 && indent_len % unit != 0 {
            return Err(ToonError::IndentNotMultiple);
        }
        Ok(())
    }

    /// How a key token reads: a quoted key unescapes; a bare key is
    /// taken literally, trimmed.
    pub open spec fn spec_parse_key(s: Seq<char>) -> Result<Seq<char>, ToonError> {
        let t = spec_trim(s);
        if t.len() >= 2 && t[0] == '"' && t[t.len() - 1] == '"' {
            match spec_unescape(t.subrange(1, t.len() - 1)) {
                None => Err(ToonError::InvalidEscape),
                Some(u) => Ok(u),
            }
        } else {
            Ok(t)
        }
    }

    /// Reads a key token.
    pub fn parse_key(&self, s: &Vec<char>) -> (r: Result<Vec<char>, ToonError>)
        ensures
            match r {
                Ok(k) => Self::spec_parse_key(s@) == Ok::<Seq<char>, ToonError>(k@),
                Err(e) => Self::spec_parse_key(s@) == Err::<Seq<char>, ToonError>(e),
            },
    {
        let t = trim_chars(s);
        if t.len() >= 2 && t[0] == '"' && t[t.len() - 1] == '"' {
            let body = crate::chars::subrange_chars(&t, 1, t.len() - 1);
            match unescape_chars(&body) {
                None => Err(ToonError::InvalidEscape),
                Some(u) => Ok(u),
            }
        } else {
            Ok(t)
        }
    }

    /// Whether a key is expanded under the configured mode, and whether
    /// it was quoted in the source.
    pub open spec fn spec_should_expand(self, key: Seq<char>) -> (bool, bool) {
        cfg_should_expand(key, self.cfg())
    }

    /// Executable counterpart of [`Parser::spec_should_expand`].
    pub fn should_expand_key(&self, key: &Vec<char>) -> (r: (bool, bool))
        ensures
            r == self.spec_should_expand(key@),
    {
        let t = trim_chars(key);
        let wq = t.len() >= 1 && t[0] == '"' && t[t.len() - 1] == '"';
        match self.expand_paths {
            ExpandPaths::Off => (false, wq),
            ExpandPaths::Safe => (!wq, wq),
            ExpandPaths::Always => (true, wq),
        }
    }

    /// How an array header reads. After the first unquoted `[`: the
    /// bracket interior gives the declared length and, before it ends,
    /// may name tab or pipe as the delimiter; a `#` opening the
    /// interior is the withdrawn legacy form; a brace group between
    /// the bracket and the colon declares the tabular field list.
    pub open spec fn spec_parse_header(header: Seq<char>) -> Result<
        (int, char, Option<Seq<Seq<char>>>),
        ToonError,
    > {
        let t = spec_trim(header);
        match spec_find_unquoted(t, '[') {
            None => Err(ToonError::InvalidHeader),
            Some(bs) => {
                let be = crate::scan::first_at(t, ']', bs);
                if be >= t.len() {
                    Err(ToonError::InvalidHeader)
                } else {
                    let content = t.subrange(bs + 1, be);
                    if spec_trim_start(content).len() > 0 && spec_trim_start(content)[0] == '#' {
                        Err(ToonError::LegacyHeader)
                    } else {
                        let tab = crate::scan::first_at(content, '\t', 0);
                        let pipe = crate::scan::first_at(content, '|', 0);
                        let len_str = if tab < content.len() {
                            content.take(tab)
                        } else if pipe < content.len() {
                            content.take(pipe)
                        } else {
                            content
                        };
                        let delim = if tab < content.len() {
                            '\t'
                        } else if pipe < content.len() {
                            '|'
                        } else {
                            ','
                        };
                        if !is_u64_literal(len_str) {
                            Err(ToonError::InvalidHeader)
                        } else {
                            let length = digits_value(sign_split(len_str).1);
                            let sub = t.skip(be);
                            let colon = match spec_find_unquoted(sub, ':') {
                                Some(c) => c,
                                None => sub.len() as int,
                            };
                            let head = sub.take(colon);
                            let brace_start = crate::scan::first_at(head, '{', 0);
                            if brace_start < head.len() {
                                let brace_end = crate::scan::first_at(head, '}', 0);
                                if brace_end >= head.len() {
                                    Err(ToonError::InvalidHeader)
                                } else if brace_end < brace_start + 1 {
                                    Err(ToonError::InvalidHeader)
                                } else {
                                    let inner = sub.subrange(brace_start + 1, brace_end);
                                    let parts = spec_split(inner, delim);
                                    Ok((length, delim, Some(spec_field_names(parts))))
                                }
                            } else {
                                Ok((length, delim, None))
                            }
                        }
                    }
                }
            },
        }
    }

    /// Reads an array header line.
    pub fn parse_header(&self, header: &Vec<char>) -> (r: Result<
        (u64, char, Option<Vec<Vec<char>>>),
        ToonError,
    >)
        ensures
            match r {
                Ok(h) => Self::spec_parse_header(header@) == Ok::<
                    (int, char, Option<Seq<Seq<char>>>),
                    ToonError,
                >(
                    (
                        h.0 as int,
                        h.1,
                        match h.2 {
                            Some(fs) => Some(views_of(fs@)),
                            None => None,
                        },
                    ),
                ),
                Err(e) => Self::spec_parse_header(header@) == Err::<
                    (int, char, Option<Seq<Seq<char>>>),
                    ToonError,
                >(e),
            },
    {
        let t = trim_chars(header);
        let bs = match find_unquoted(&t, '[') {
            Some(b) => b,
            None => {
                return Err(ToonError::InvalidHeader);
            },
        };
        proof {
            crate::scan::lemma_find_unq_in_range(t@, '[', 0, false, false);
        }
        let be = crate::scan::find_char_at(&t, ']', bs);
        if be >= t.len() {
            return Err(ToonError::InvalidHeader);
        }
        let content = crate::chars::subrange_chars(&t, bs + 1, be);
        let content_ts = crate::lexical::count_leading_ws(&content);
        proof {
            crate::lexical::lemma_ws_prefix_bounds(content@);
        }
        if content_ts < content.len() && content[content_ts] == '#' {
            proof {
                assert(spec_trim_start(content@)[0] == content@[content_ts as int]);
            }
            return Err(ToonError::LegacyHeader);
        }
        proof {
            if spec_trim_start(content@).len() > 0 {
                assert(spec_trim_start(content@)[0] == content@[ws_prefix_len(content@)]);
            }
        }
        let tab = crate::scan::find_char_at(&content, '\t', 0);
        let pipe = crate::scan::find_char_at(&content, '|', 0);
        let len_vec: Vec<char> = if tab < content.len() {
            crate::chars::subrange_chars(&content, 0, tab)
        } else if pipe < content.len() {
            crate::chars::subrange_chars(&content, 0, pipe)
        } else {
            crate::chars::subrange_chars(&content, 0, content.len())
        };
        proof {
            assert(content@.subrange(0, content@.len() as int) =~= content@);
            assert(content@.subrange(0, crate::scan::first_at(content@, '\t', 0)) =~= content@.take(
                crate::scan::first_at(content@, '\t', 0),
            ));
            assert(content@.subrange(0, crate::scan::first_at(content@, '|', 0)) =~= content@.take(
                crate::scan::first_at(content@, '|', 0),
            ));
        }
        let delim: char = if tab < content.len() {
            '\t'
        } else if pipe < content.len() {
            '|'
        } else {
            ','
        };
        let length = match crate::digits::parse_u64(&len_vec) {
            Some(n) => n,
            None => {
                return Err(ToonError::InvalidHeader);
            },
        };
        let sub = crate::chars::subrange_chars(&t, be, t.len());
        proof {
            assert(sub@ =~= t@.skip(be as int));
        }
        let colon = match find_unquoted(&sub, ':') {
            Some(c) => c,
            None => sub.len(),
        };
        proof {
            if spec_find_unquoted(sub@, ':') is Some {
                crate::scan::lemma_find_unq_in_range(sub@, ':', 0, false, false);
            }
        }
        let head = crate::chars::subrange_chars(&sub, 0, colon);
        proof {
            assert(head@ =~= sub@.take(colon as int));
        }
        let brace_start = crate::scan::find_char_at(&head, '{', 0);
        if brace_start < head.len() {
            let brace_end = crate::scan::find_char_at(&head, '}', 0);
            if brace_end >= head.len() {
                return Err(ToonError::InvalidHeader);
            }
            if brace_end < brace_start + 1 {
                return Err(ToonError::InvalidHeader);
            }
            let inner = crate::chars::subrange_chars(&sub, brace_start + 1, brace_end);
            let parts = split_by_delimiter(&inner, delim);
            let mut names: Vec<Vec<char>> = Vec::new();
            let ghost pv = spec_split(inner@, delim);
            let mut i: usize = 0;
            proof {
                assert(pv == views_of(parts@));
                assert(views_of(names@) =~= spec_field_names(pv).take(0int));
                assert(views_of(names@) == spec_field_names(pv).take(0int));
            }
            while i < parts.len()
                invariant
                    0 <= i <= parts@.len(),
                    pv == views_of(parts@),
                    pv.len() == parts@.len(),
                    forall|j: int| 0 <= j < parts@.len() ==> #[trigger] parts@[j]@ == pv[j],
                    views_of(names@) == spec_field_names(pv).take(i as int),
                decreases parts@.len() - i,
            {
                let name = match self.parse_key(&parts[i]) {
                    Ok(k) => k,
                    Err(_) => trim_chars(&parts[i]),
                };
                proof {
                    assert(parts@[i as int]@ == pv[i as int]);
                    assert(name@ == spec_field_name_of(pv[i as int]));
                }
                let ghost n0 = names@;
                names.push(name);
                proof {
                    assert(spec_field_names(pv)[i as int] == spec_field_name_of(pv[i as int]));
                    assert(views_of(n0).len() == n0.len());
                    assert(spec_field_names(pv).len() == pv.len());
                    assert(spec_field_names(pv).take(i as int).len() == i);
                    assert(n0.len() == i);
                    assert(names@.len() == i + 1);
                    assert forall|j: int| 0 <= j < i + 1 implies views_of(names@)[j]
                        == spec_field_names(pv).take(i + 1int)[j] by {
                        if j < i {
                            assert(views_of(n0)[j] == spec_field_names(pv).take(i as int)[j]);
                            assert(names@[j] == n0[j]);
                        } else {
                            assert(names@[j] == name);
                        }
                    }
                    assert(views_of(names@) =~= spec_field_names(pv).take(i + 1int));
                }
                i = i + 1;
            }
            proof {
                assert(spec_field_names(pv).take(pv.len() as int) =~= spec_field_names(pv));
            }
            Ok((length, delim, Some(names)))
        } else {
            Ok((length, delim, None))
        }
    }

    /// A parse step: the configuration and lines stand, the cursor
    /// only moves forward and stays within the lines.
    pub open spec fn steps_from(self, older: Parser) -> bool {
        &&& self.lines@ == older.lines@
        &&& self.indent_size == older.indent_size
        &&& self.explicit_indent == older.explicit_indent
        &&& self.strict == older.strict
        &&& self.expand_paths == older.expand_paths
        &&& older.pos <= self.pos <= self.lines@.len()
    }

    /// The first non-blank line at or after `from`, or the line count.
    fn lookahead_nonblank(&self, from: usize) -> (r: usize)
        requires
            from <= self.lines@.len(),
        ensures
            r as int == sp_lookahead(views_of(self.lines@), from as int),
            from <= r <= self.lines@.len(),
            r < self.lines@.len() ==> spec_trim(self.lines@[r as int]@).len() > 0,
    {
        let ghost lv = views_of(self.lines@);
        let mut i: usize = from;
        while i < self.lines.len()
            invariant
                from <= i <= self.lines@.len(),
                lv == views_of(self.lines@),
                sp_lookahead(lv, from as int) == sp_lookahead(lv, i as int),
            decreases self.lines@.len() - i,
        {
            proof {
                assert(lv[i as int] == self.lines@[i as int]@);
            }
            if !crate::lexical::is_blank(&self.lines[i]) {
                return i;
            }
            i = i + 1;
        }
        i
    }

    /// How inline array text reads: split on the delimiter, each
    /// segment a primitive token, with the declared length enforced
    /// when it is not zero.
    pub open spec fn spec_parse_inline(values: Seq<char>, delim: char, length: int) -> Result<
        Seq<Model>,
        ToonError,
    > {
        if values.len() == 0 {
            if length > 0 {
                Err(ToonError::LengthMismatch)
            } else {
                Ok(Seq::empty())
            }
        } else {
            let parts = spec_split(values, delim);
            if length > 0 && parts.len() != length {
                Err(ToonError::LengthMismatch)
            } else {
                spec_parse_tokens(parts)
            }
        }
    }

    /// Reads an inline array body.
    pub fn parse_inline_array(&self, values: &Vec<char>, delim: char, length: u64) -> (r: Result<
        Value,
        ToonError,
    >)
        ensures
            match r {
                Ok(v) => Self::spec_parse_inline(values@, delim, length as int) == Ok::<
                    Seq<Model>,
                    ToonError,
                >(v@->Arr_0) && (v@ matches Model::Arr(_)) && wf_model(v@),
                Err(e) => Self::spec_parse_inline(values@, delim, length as int) == Err::<
                    Seq<Model>,
                    ToonError,
                >(e),
            },
    {
        if values.len() == 0 {
            if length > 0 {
                return Err(ToonError::LengthMismatch);
            }
            let empty_list: Vec<Value> = Vec::new();
            proof {
                assert(model_seq(empty_list@) =~= Seq::<Model>::empty());
            }
            return Ok(Value::Array(empty_list));
        }
        let parts = split_by_delimiter(values, delim);
        let ghost pv = spec_split(values@, delim);
        if length > 0 && !(parts.len() as u64 == length) {
            return Err(ToonError::LengthMismatch);
        }
        let mut list: Vec<Value> = Vec::new();
        let mut i: usize = 0;
        proof {
            assert(model_seq(list@) =~= Seq::<Model>::empty());
            assert(spec_parse_tokens(pv.take(0int)) == Ok::<Seq<Model>, ToonError>(
                model_seq(list@),
            ));
        }
        while i < parts.len()
            invariant
                0 <= i <= parts@.len(),
                pv == views_of(parts@),
                pv.len() == parts@.len(),
                values@.len() != 0,
                pv == spec_split(values@, delim),
                !(length > 0 && pv.len() != length as int),
                forall|j: int| 0 <= j < parts@.len() ==> #[trigger] parts@[j]@ == pv[j],
                spec_parse_tokens(pv.take(i as int)) == Ok::<Seq<Model>, ToonError>(
                    model_seq(list@),
                ),
                model_seq(list@).len() == i,
                wf_model_seq(model_seq(list@)),
            decreases parts@.len() - i,
        {
            let ghost l0 = model_seq(list@);
            match self.parse_primitive(&parts[i]) {
                Ok(v) => {
                    proof {
                        lemma_model_seq_index(list@);
                    }
                    list.push(v);
                    proof {
                        lemma_model_seq_index(list@);
                        assert(model_seq(list@) =~= l0.push(v@));
                        lemma_parse_tokens_step(pv, i as int);
                        lemma_wf_model_seq_index(l0);
                        lemma_wf_model_seq_index(model_seq(list@));
                    }
                },
                Err(e) => {
                    proof {
                        lemma_parse_tokens_step(pv, i as int);
                        lemma_parse_tokens_err(pv, i + 1, pv.len() as int);
                        assert(pv.take(pv.len() as int) =~= pv);
                    }
                    return Err(e);
                },
            }
            i = i + 1;
        }
        proof {
            assert(pv.take(pv.len() as int) =~= pv);
        }
        Ok(Value::Array(list))
    }

    /// Reads the rows of a tabular array at `expected_depth`: each row
    /// splits on the delimiter and zips positionally with the declared
    /// field list into an object. Strict mode rejects a row whose
    /// width differs from the field count; lenient mode takes the
    /// cells that are there.
    pub fn parse_tabular_array(
        &mut self,
        length: u64,
        delim: char,
        fields: &Vec<Vec<char>>,
        expected_depth: usize,
    ) -> (r: Result<Value, ToonError>)
        requires
            old(self).wf(),
        ensures
            final(self).steps_from(*old(self)),
            r matches Ok(v) ==> (v@ matches Model::Arr(_)) && wf_model(v@),
            r matches Ok(v) ==> (length > 0 ==> v@->Arr_0.len() == length as int),
            ({
                let m = sp_tabular(
                    views_of(old(self).lines@),
                    old(self).cfg(),
                    old(self).pos as int,
                    length as int,
                    delim,
                    views_of(fields@),
                    expected_depth as int,
                    Seq::empty(),
                );
                &&& final(self).pos == m.1
                &&& match r {
                    Ok(v) => m.0 == Ok::<Seq<Model>, ToonError>(v@->Arr_0),
                    Err(e) => m.0 == Err::<Seq<Model>, ToonError>(e),
                }
            }),
    {
        let ghost lv = views_of(self.lines@);
        let ghost cfg = self.cfg();
        let ghost fv = views_of(fields@);
        let ghost pos0 = self.pos as int;
        let mut list: Vec<Value> = Vec::new();
        proof {
            assert(model_seq(list@) =~= Seq::<Model>::empty());
        }
        while self.pos < self.lines.len()
            invariant
                self.wf(),
                self.steps_from(*old(self)),
                wf_model_seq(model_seq(list@)),
                lv == views_of(self.lines@),
                cfg == self.cfg(),
                fv == views_of(fields@),
                pos0 == old(self).pos as int,
                sp_tabular(lv, cfg, pos0, length as int, delim, fv, expected_depth as int, Seq::empty())
                    == sp_tabular(
                    lv,
                    cfg,
                    self.pos as int,
                    length as int,
                    delim,
                    fv,
                    expected_depth as int,
                    model_seq(list@),
                ),
            ensures
                self.wf(),
                self.steps_from(*old(self)),
                wf_model_seq(model_seq(list@)),
                sp_tabular(lv, cfg, pos0, length as int, delim, fv, expected_depth as int, Seq::empty())
                    == sp_finish_array(model_seq(list@), length as int, self.pos as int),
            decreases self.lines@.len() - self.pos,
        {
            let ghost acc0 = model_seq(list@);
            proof {
                assert(lv[self.pos as int] == self.lines@[self.pos as int]@);
            }
            let line_trimmed = trim_chars(&self.lines[self.pos]);
            if line_trimmed.len() != 0 {
                match self.validate_indentation(&self.lines[self.pos]) {
                    Ok(()) => {},
                    Err(e) => {
                        return Err(e);
                    },
                }
                let line_depth = self.get_depth(&self.lines[self.pos]);
                if line_depth < expected_depth {
                    break ;
                }
                if line_depth > expected_depth {
                    self.pos = self.pos + 1;
                    continue ;
                }
            } else {
                let lookahead = self.lookahead_nonblank(self.pos + 1);
                proof {
                    if lookahead < self.lines.len() {
                        assert(lv[lookahead as int] == self.lines@[lookahead as int]@);
                    }
                }
                if lookahead < self.lines.len() {
                    let next_depth = self.get_depth(&self.lines[lookahead]);
                    if next_depth < expected_depth {
                        break ;
                    }
                }
                if self.strict {
                    return Err(ToonError::BlankLineInArray);
                }
                self.pos = self.pos + 1;
                continue ;
            }
            if !crate::scan::is_tabular_row(&line_trimmed, delim) {
                break ;
            }
            let values = split_by_delimiter(&line_trimmed, delim);
            let ghost pv = spec_split(line_trimmed@, delim);
            if self.strict && values.len() != fields.len() {
                return Err(ToonError::RowWidthMismatch);
            }
            let ghost row_eq = sp_tabular(
                lv,
                cfg,
                self.pos as int,
                length as int,
                delim,
                fv,
                expected_depth as int,
                acc0,
            );
            proof {
                assert(row_eq == match sp_row_zip(pv, fv, 0, Seq::<(Seq<char>, Model)>::empty()) {
                    Err(e) => (Err::<Seq<Model>, ToonError>(e), self.pos as int),
                    Ok(obj) => sp_tabular(
                        lv,
                        cfg,
                        self.pos + 1int,
                        length as int,
                        delim,
                        fv,
                        expected_depth as int,
                        acc0.push(Model::Obj(obj)),
                    ),
                });
            }
            let mut dict: Vec<(Vec<char>, Value)> = Vec::new();
            proof {
                assert(model_fields(dict@) =~= Seq::<(Seq<char>, Model)>::empty());
            }
            let mut i: usize = 0;
            while i < fields.len()
                invariant
                    0 <= i <= fields@.len(),
                    self.wf(),
                    self.steps_from(*old(self)),
                    wf_model_fields(model_fields(dict@)),
                    lv == views_of(self.lines@),
                    cfg == self.cfg(),
                    fv == views_of(fields@),
                    pos0 == old(self).pos as int,
                    pv == views_of(values@),
                    sp_tabular(lv, cfg, pos0, length as int, delim, fv, expected_depth as int, Seq::empty())
                        == row_eq,
                    row_eq == match sp_row_zip(pv, fv, i as int, model_fields(dict@)) {
                        Err(e) => (Err::<Seq<Model>, ToonError>(e), self.pos as int),
                        Ok(obj) => sp_tabular(
                            lv,
                            cfg,
                            self.pos + 1int,
                            length as int,
                            delim,
                            fv,
                            expected_depth as int,
                            acc0.push(Model::Obj(obj)),
                        ),
                    },
                decreases fields@.len() - i,
            {
                proof {
                    assert(fv[i as int] == fields@[i as int]@);
                }
                if i < values.len() {
                    proof {
                        assert(pv[i as int] == values@[i as int]@);
                    }
                    let value = match self.parse_primitive(&values[i]) {
                        Ok(v) => v,
                        Err(e) => {
                            return Err(e);
                        },
                    };
                    let fname = crate::chars::subrange_chars(&fields[i], 0, fields[i].len());
                    proof {
                        assert(fields@[i as int]@.subrange(0, fields@[i as int]@.len() as int)
                            =~= fields@[i as int]@);
                    }
                    let ghost d0 = model_fields(dict@);
                    crate::expand::set_item(&mut dict, fname, value);
                    proof {
                        crate::expand::lemma_set_item_wf_any(d0, fields@[i as int]@, value@);
                    }
                }
                i = i + 1;
            }
            let ghost l0 = model_seq(list@);
            proof {
                lemma_model_seq_index(list@);
            }
            list.push(Value::Object(dict));
            proof {
                lemma_model_seq_index(list@);
                assert(model_seq(list@) =~= l0.push(model_of(Value::Object(dict))));
                lemma_wf_model_seq_index(l0);
                lemma_wf_model_seq_index(model_seq(list@));
            }
            self.pos = self.pos + 1;
        }
        proof {
            lemma_model_seq_index(list@);
        }
        if length > 0 && !(list.len() as u64 == length) {
            return Err(ToonError::LengthMismatch);
        }
        Ok(Value::Array(list))
    }

    /// Reads an array standing in an object field whose key carries
    /// the header, dispatching on the header's layout.
    pub fn parse_field_array(&mut self, header_line: &Vec<char>, depth: usize) -> (r: Result<
        Value,
        ToonError,
    >)
        requires
            old(self).wf(),
            old(self).pos < old(self).lines@.len(),
        ensures
            final(self).steps_from(*old(self)),
            r matches Ok(_) ==> final(self).pos > old(self).pos,
            r matches Ok(v) ==> wf_model(v@),
            ({
                let m = sp_field_array(
                    views_of(old(self).lines@),
                    old(self).cfg(),
                    old(self).pos as int,
                    header_line@,
                    depth as int,
                );
                &&& final(self).pos == m.1
                &&& match r {
                    Ok(v) => m.0 == Ok::<Model, ToonError>(v@),
                    Err(e) => m.0 == Err::<Model, ToonError>(e),
                }
            }),
        decreases old(self).lines@.len() - old(self).pos, 2int,
    {
        let ghost lv = views_of(self.lines@);
        let ghost cfg = self.cfg();
        let ghost pos0 = self.pos as int;
        let header = match self.parse_header(header_line) {
            Ok(h) => h,
            Err(e) => {
                return Err(e);
            },
        };
        let (length, delim, fields_opt) = header;
        proof {
            assert(self.lines@.len() == self.lines.len());
        }
        self.pos = self.pos + 1;
        match fields_opt {
            Some(field_names) => {
                let d2 = crate::encode::deeper(depth);
                let r = self.parse_tabular_array(length, delim, &field_names, d2);
                proof {
                    assert(self.cfg() == cfg);
                }
                match r {
                    Ok(v) => Ok(v),
                    Err(e) => Err(e),
                }
            },
            None => {
                let header_trimmed = trim_chars(header_line);
                let bc = crate::scan::find_bracket_colon_from(&header_trimmed, 0);
                if bc >= header_trimmed.len() {
                    return Err(ToonError::InvalidHeader);
                }
                let after = crate::chars::subrange_chars(
                    &header_trimmed,
                    bc + 2,
                    header_trimmed.len(),
                );
                let after_trimmed = trim_chars(&after);
                if after_trimmed.len() > 0 {
                    self.parse_inline_array(&after_trimmed, delim, length)
                } else {
                    let d2 = crate::encode::deeper(depth);
                    let r = self.parse_expanded_array(length, d2);
                    proof {
                        assert(self.cfg() == cfg);
                    }
                    match r {
                        Ok(v) => Ok(v),
                        Err(e) => Err(e),
                    }
                }
            },
        }
    }

    /// Reads the hyphen-prefixed items of an expanded array at
    /// `expected_depth`: empty items are empty objects, nested headers
    /// recurse, items with a colon start list-item objects, and
    /// anything else is a primitive.
    #[verifier::rlimit(100)]
    pub fn parse_expanded_array(&mut self, length: u64, expected_depth: usize) -> (r: Result<
        Value,
        ToonError,
    >)
        requires
            old(self).wf(),
        ensures
            final(self).steps_from(*old(self)),
            r matches Ok(v) ==> (v@ matches Model::Arr(_)) && wf_model(v@),
            r matches Ok(v) ==> (length > 0 ==> v@->Arr_0.len() == length as int),
            ({
                let m = sp_expanded(
                    views_of(old(self).lines@),
                    old(self).cfg(),
                    old(self).pos as int,
                    length as int,
                    expected_depth as int,
                    Seq::empty(),
                );
                &&& final(self).pos == m.1
                &&& match r {
                    Ok(v) => m.0 == Ok::<Seq<Model>, ToonError>(v@->Arr_0),
                    Err(e) => m.0 == Err::<Seq<Model>, ToonError>(e),
                }
            }),
        decreases old(self).lines@.len() - old(self).pos, 6int,
    {
        let ghost lv = views_of(self.lines@);
        let ghost cfg = self.cfg();
        let ghost pos0 = self.pos as int;
        let ghost n = self.lines@.len() as int;
        let mut list: Vec<Value> = Vec::new();
        proof {
            assert(model_seq(list@) =~= Seq::<Model>::empty());
        }
        while self.pos < self.lines.len()
            invariant
                self.wf(),
                self.steps_from(*old(self)),
                wf_model_seq(model_seq(list@)),
                lv == views_of(self.lines@),
                cfg == self.cfg(),
                n == self.lines@.len() as int,
                pos0 == old(self).pos as int,
                sp_expanded(lv, cfg, pos0, length as int, expected_depth as int, Seq::empty())
                    == sp_expanded(
                    lv,
                    cfg,
                    self.pos as int,
                    length as int,
                    expected_depth as int,
                    model_seq(list@),
                ),
            ensures
                self.wf(),
                self.steps_from(*old(self)),
                wf_model_seq(model_seq(list@)),
                sp_expanded(lv, cfg, pos0, length as int, expected_depth as int, Seq::empty())
                    == sp_finish_array(model_seq(list@), length as int, self.pos as int),
            decreases self.lines@.len() - self.pos,
        {
            let ghost iter_pos = self.pos;
            let ghost acc0 = model_seq(list@);
            proof {
                assert(lv[self.pos as int] == self.lines@[self.pos as int]@);
            }
            let line_trimmed = trim_chars(&self.lines[self.pos]);
            if line_trimmed.len() != 0 {
                match self.validate_indentation(&self.lines[self.pos]) {
                    Ok(()) => {},
                    Err(e) => {
                        return Err(e);
                    },
                }
                let line_depth = self.get_depth(&self.lines[self.pos]);
                if line_depth < expected_depth {
                    break ;
                }
                if line_depth > expected_depth {
                    self.pos = self.pos + 1;
                    continue ;
                }
            } else {
                let lookahead = self.lookahead_nonblank(self.pos + 1);
                proof {
                    if lookahead < self.lines.len() {
                        assert(lv[lookahead as int] == self.lines@[lookahead as int]@);
                    }
                }
                if lookahead < self.lines.len() {
                    let next_depth = self.get_depth(&self.lines[lookahead]);
                    if next_depth < expected_depth {
                        break ;
                    }
                }
                if self.strict {
                    return Err(ToonError::BlankLineInArray);
                }
                self.pos = self.pos + 1;
                continue ;
            }
            if !(line_trimmed.len() >= 1 && line_trimmed[0] == '-') {
                break ;
            }
            let item_str: Vec<char> = if line_trimmed.len() > 1 && line_trimmed[1] == ' ' {
                crate::chars::subrange_chars(&line_trimmed, 2, line_trimmed.len())
            } else if line_trimmed.len() == 1 {
                Vec::new()
            } else {
                crate::chars::subrange_chars(&line_trimmed, 1, line_trimmed.len())
            };
            proof {
                if line_trimmed@.len() == 1 {
                    assert(item_str@ =~= Seq::<char>::empty());
                }
            }
            self.pos = self.pos + 1;
            let ghost l0 = model_seq(list@);
            proof {
                lemma_model_seq_index(list@);
            }
            if item_str.len() == 0 {
                proof {
                    assert(sp_expanded(lv, cfg, iter_pos as int, length as int, expected_depth as int, acc0)
                        == sp_expanded(
                        lv,
                        cfg,
                        self.pos as int,
                        length as int,
                        expected_depth as int,
                        acc0.push(Model::Obj(Seq::empty())),
                    ));
                }
                let empty_fields: Vec<(Vec<char>, Value)> = Vec::new();
                list.push(Value::Object(empty_fields));
                proof {
                    lemma_model_seq_index(list@);
                    assert(model_fields(Seq::<(Vec<char>, Value)>::empty()) =~= Seq::<
                        (Seq<char>, Model),
                    >::empty());
                    assert(model_seq(list@) =~= l0.push(
                        Model::Obj(Seq::<(Seq<char>, Model)>::empty()),
                    ));
                    lemma_wf_model_seq_index(l0);
                    lemma_wf_model_seq_index(model_seq(list@));
                }
                continue ;
            }
            let has_nested_header = item_str[0] == '[' && {
                let p = crate::scan::find_bracket_colon_from(&item_str, 0);
                p < item_str.len()
            };
            let ghost it = item_str@;
            proof {
                let l_g = lv[iter_pos as int];
                let lt_g = spec_trim(l_g);
                assert(lt_g == line_trimmed@);
                let item_g = if lt_g.len() > 1 && lt_g[1] == ' ' {
                    lt_g.subrange(2, lt_g.len() as int)
                } else if lt_g.len() == 1 {
                    Seq::<char>::empty()
                } else {
                    lt_g.subrange(1, lt_g.len() as int)
                };
                assert(item_g == it);
                assert(cfg_validate_indent(l_g, cfg) is Ok);
                assert(cfg_depth(l_g, cfg) == expected_depth as int);
            }
            let value: Value = if has_nested_header {
                let p = crate::scan::find_bracket_colon_from(&item_str, 0);
                proof {
                    assert(p < item_str@.len());
                }
                let mut header_with_bracket = crate::chars::subrange_chars(&item_str, 0, p);
                header_with_bracket.push(']');
                proof {
                    assert(header_with_bracket@ == it.subrange(0, p as int).push(']'));
                }
                let inner_header = match self.parse_header(&header_with_bracket) {
                    Ok(h) => h,
                    Err(e) => {
                        return Err(e);
                    },
                };
                let (inner_len, inner_delim, _inner_fields) = inner_header;
                let q = crate::scan::find_bracket_colon_from(&item_str, p + 2);
                let after = crate::chars::subrange_chars(&item_str, p + 2, q);
                let after_trimmed = trim_chars(&after);
                if after_trimmed.len() == 0 {
                    let d2 = crate::encode::deeper(expected_depth);
                    match self.parse_expanded_array(inner_len, d2) {
                        Ok(v) => {
                            proof {
                                assert(self.pos as int > iter_pos as int);
                                assert(moved(iter_pos as int, self.pos as int, n) == self.pos as int);
                                assert(sp_expanded(lv, cfg, iter_pos as int, length as int, expected_depth as int, acc0)
                                    == sp_expanded(
                                    lv,
                                    cfg,
                                    self.pos as int,
                                    length as int,
                                    expected_depth as int,
                                    acc0.push(v@),
                                ));
                            }
                            v
                        },
                        Err(e) => {
                            return Err(e);
                        },
                    }
                } else {
                    match self.parse_inline_array(&after_trimmed, inner_delim, inner_len) {
                        Ok(v) => {
                            proof {
                                assert(sp_expanded(lv, cfg, iter_pos as int, length as int, expected_depth as int, acc0)
                                    == sp_expanded(
                                    lv,
                                    cfg,
                                    self.pos as int,
                                    length as int,
                                    expected_depth as int,
                                    acc0.push(v@),
                                ));
                            }
                            v
                        },
                        Err(e) => {
                            return Err(e);
                        },
                    }
                }
            } else if crate::scan::find_char_at(&item_str, ':', 0) < item_str.len() {
                self.pos = self.pos - 1;
                proof {
                    assert(self.pos == iter_pos);
                }
                match self.parse_list_item_object(expected_depth) {
                    Ok(v) => {
                        proof {
                            assert(self.pos as int > iter_pos as int);
                            assert(moved(iter_pos as int, self.pos as int, n) == self.pos as int);
                            assert(sp_expanded(lv, cfg, iter_pos as int, length as int, expected_depth as int, acc0)
                                    == sp_expanded(
                                    lv,
                                    cfg,
                                    self.pos as int,
                                    length as int,
                                    expected_depth as int,
                                    acc0.push(v@),
                                ));
                        }
                        v
                    },
                    Err(e) => {
                        return Err(e);
                    },
                }
            } else {
                match self.parse_primitive(&item_str) {
                    Ok(v) => {
                        proof {
                            assert(sp_expanded(lv, cfg, iter_pos as int, length as int, expected_depth as int, acc0)
                                    == sp_expanded(
                                    lv,
                                    cfg,
                                    self.pos as int,
                                    length as int,
                                    expected_depth as int,
                                    acc0.push(v@),
                                ));
                        }
                        v
                    },
                    Err(e) => {
                        return Err(e);
                    },
                }
            };
            proof {
                lemma_model_seq_index(list@);
            }
            list.push(value);
            proof {
                lemma_model_seq_index(list@);
                assert(model_seq(list@) =~= l0.push(value@));
                lemma_wf_model_seq_index(l0);
                lemma_wf_model_seq_index(model_seq(list@));
            }
        }
        proof {
            lemma_model_seq_index(list@);
        }
        if length > 0 && !(list.len() as u64 == length) {
            return Err(ToonError::LengthMismatch);
        }
        Ok(Value::Array(list))
    }

    /// Reads a list item's first field, beside the hyphen: the seed of
    /// the item's object, with the cursor moved past what it consumed.
    #[verifier::rlimit(100)]
    #[verifier::spinoff_prover]
    fn li_first_field(&mut self, list_depth: usize) -> (r: Result<Vec<(Vec<char>, Value)>, ToonError>)
        requires
            old(self).wf(),
            old(self).pos < old(self).lines@.len(),
        ensures
            final(self).steps_from(*old(self)),
            match r {
                Ok(d) => {
                    &&& wf_model_fields(model_fields(d@))
                    &&& final(self).pos > old(self).pos
                    &&& sp_list_item(
                        views_of(old(self).lines@),
                        old(self).cfg(),
                        old(self).pos as int,
                        list_depth as int,
                    ) == sp_li_close(
                        views_of(old(self).lines@),
                        old(self).cfg(),
                        old(self).pos as int,
                        final(self).pos as int,
                        list_depth as int,
                        model_fields(d@),
                    )
                },
                Err(e) => sp_list_item(
                    views_of(old(self).lines@),
                    old(self).cfg(),
                    old(self).pos as int,
                    list_depth as int,
                ) == (Err::<Model, ToonError>(e), final(self).pos as int),
            },
        decreases old(self).lines@.len() - old(self).pos, 3int,
    {
        let ghost lv = views_of(self.lines@);
        let ghost cfg = self.cfg();
        let ghost pos0 = self.pos as int;
        let ghost n = self.lines@.len() as int;
        let mut dict: Vec<(Vec<char>, Value)> = Vec::new();
        proof {
            assert(model_fields(dict@) =~= Seq::<(Seq<char>, Model)>::empty());
            assert(lv[pos0] == self.lines@[pos0]@);
        }
        let line_trimmed = trim_chars(&self.lines[self.pos]);
        let content: Vec<char> = if line_trimmed.len() > 1 && line_trimmed[1] == ' ' {
            crate::chars::subrange_chars(&line_trimmed, 2, line_trimmed.len())
        } else if line_trimmed.len() >= 1 && line_trimmed[0] == '-' {
            crate::chars::subrange_chars(&line_trimmed, 1, line_trimmed.len())
        } else {
            crate::chars::subrange_chars(&line_trimmed, 0, line_trimmed.len())
        };
        let ghost ct = content@;
        proof {
            let lt_g = spec_trim(lv[pos0]);
            assert(lt_g == line_trimmed@);
            assert(lt_g.subrange(0, lt_g.len() as int) =~= lt_g);
        }
        let colon_pos = crate::scan::find_char_at(&content, ':', 0);
        if colon_pos < content.len() {
            let key_part = crate::chars::subrange_chars(&content, 0, colon_pos);
            let value_part_raw = crate::chars::subrange_chars(
                &content,
                colon_pos + 1,
                content.len(),
            );
            let value_part = trim_chars(&value_part_raw);
            let quote_end = crate::scan::rfind_char(&key_part, '"');
            proof {
                crate::scan::lemma_last_at(key_part@, '"');
            }
            let has_array_syntax = match quote_end {
                Some(q) => crate::scan::find_char_at(&key_part, '[', q + 1) < key_part.len()
                    && crate::scan::find_char_at(&key_part, ']', q + 1) < key_part.len(),
                None => crate::scan::find_char_at(&key_part, '[', 0) < key_part.len()
                    && crate::scan::find_char_at(&key_part, ']', 0) < key_part.len(),
            };
            proof {
                assert(has_array_syntax == sp_has_array_syntax(key_part@));
            }
            if has_array_syntax {
                let d1 = crate::encode::deeper(list_depth);
                let value = match self.parse_field_array(&content, d1) {
                    Ok(v) => v,
                    Err(e) => {
                        return Err(e);
                    },
                };
                let key_name: Vec<char> = match quote_end {
                    Some(q) => crate::chars::subrange_chars(&key_part, 0, q + 1),
                    None => {
                        let b = crate::scan::find_char_at(&key_part, '[', 0);
                        crate::chars::subrange_chars(&key_part, 0, b)
                    },
                };
                proof {
                    assert(key_name@ == sp_li_key_name(key_part@));
                }
                let key = match self.parse_key(&key_name) {
                    Ok(k) => k,
                    Err(e) => {
                        return Err(e);
                    },
                };
                let ghost d0 = model_fields(dict@);
                let ghost kv = key@;
                let ghost vv = value@;
                crate::expand::set_item(&mut dict, key, value);
                proof {
                    crate::expand::lemma_set_item_wf_any(d0, kv, vv);
                    assert(self.pos as int > pos0);
                    assert(sp_list_item(lv, cfg, pos0, list_depth as int) == sp_li_close(
                        lv,
                        cfg,
                        pos0,
                        self.pos as int,
                        list_depth as int,
                        model_fields(dict@),
                    ));
                }
            } else {
                let key = match self.parse_key(&key_part) {
                    Ok(k) => k,
                    Err(e) => {
                        return Err(e);
                    },
                };
                proof {
                    assert(self.lines@.len() == self.lines.len());
                }
                self.pos = self.pos + 1;
                if value_part.len() == 0 {
                    let mut nested_done = false;
                    if self.pos < self.lines.len() {
                        proof {
                            assert(lv[self.pos as int] == self.lines@[self.pos as int]@);
                        }
                        let next_depth = self.get_depth(&self.lines[self.pos]);
                        let d1 = crate::encode::deeper(list_depth);
                        if next_depth > d1 {
                            let d2 = crate::encode::deeper(d1);
                            let value = match self.parse_object(d2) {
                                Ok(v) => v,
                                Err(e) => {
                                    return Err(e);
                                },
                            };
                            let ghost d0 = model_fields(dict@);
                            let ghost kv = key@;
                            let ghost vv = value@;
                            crate::expand::set_item(&mut dict, key, value);
                            proof {
                                crate::expand::lemma_set_item_wf_any(d0, kv, vv);
                                assert(self.pos as int > pos0);
                                assert(sp_list_item(lv, cfg, pos0, list_depth as int)
                                    == sp_li_close(
                                    lv,
                                    cfg,
                                    pos0,
                                    self.pos as int,
                                    list_depth as int,
                                    model_fields(dict@),
                                ));
                            }
                            nested_done = true;
                        }
                    }
                    if !nested_done {
                        proof {
                            assert(sp_list_item(lv, cfg, pos0, list_depth as int) == sp_li_close(
                                lv,
                                cfg,
                                pos0,
                                self.pos as int,
                                list_depth as int,
                                model_fields(dict@),
                            ));
                        }
                    }
                } else {
                    let value = match self.parse_primitive(&value_part) {
                        Ok(v) => v,
                        Err(e) => {
                            return Err(e);
                        },
                    };
                    let ghost d0 = model_fields(dict@);
                    let ghost kv = key@;
                    let ghost vv = value@;
                    crate::expand::set_item(&mut dict, key, value);
                    proof {
                        crate::expand::lemma_set_item_wf_any(d0, kv, vv);
                        assert(sp_list_item(lv, cfg, pos0, list_depth as int) == sp_li_close(
                            lv,
                            cfg,
                            pos0,
                            self.pos as int,
                            list_depth as int,
                            model_fields(dict@),
                        ));
                    }
                }
            }
        } else {
            proof {
                assert(self.lines@.len() == self.lines.len());
            }
            self.pos = self.pos + 1;
            proof {
                assert(sp_list_item(lv, cfg, pos0, list_depth as int) == sp_li_close(
                    lv,
                    cfg,
                    pos0,
                    self.pos as int,
                    list_depth as int,
                    model_fields(dict@),
                ));
            }
        }
        Ok(dict)
    }

    /// Reads an object standing as a list item: the first field beside
    /// the hyphen, the remaining fields one level below it.
    #[verifier::rlimit(100)]
    #[verifier::spinoff_prover]
    pub fn parse_list_item_object(&mut self, list_depth: usize) -> (r: Result<Value, ToonError>)
        requires
            old(self).wf(),
            old(self).pos < old(self).lines@.len(),
        ensures
            final(self).steps_from(*old(self)),
            r matches Ok(_) ==> final(self).pos > old(self).pos,
            r matches Ok(v) ==> wf_model(v@),
            ({
                let m = sp_list_item(
                    views_of(old(self).lines@),
                    old(self).cfg(),
                    old(self).pos as int,
                    list_depth as int,
                );
                &&& final(self).pos == m.1
                &&& match r {
                    Ok(v) => m.0 == Ok::<Model, ToonError>(v@),
                    Err(e) => m.0 == Err::<Model, ToonError>(e),
                }
            }),
        decreases old(self).lines@.len() - old(self).pos, 4int,
    {
        let ghost lv = views_of(self.lines@);
        let ghost cfg = self.cfg();
        let ghost pos0 = self.pos as int;
        let ghost n = self.lines@.len() as int;
        let mut dict: Vec<(Vec<char>, Value)> = match self.li_first_field(list_depth) {
            Ok(d) => d,
            Err(e) => {
                return Err(e);
            },
        };
                proof {
            assert(held(pos0, self.pos as int, n) == self.pos as int);
        }
        while self.pos < self.lines.len()
            invariant
                self.wf(),
                self.steps_from(*old(self)),
                self.pos > old(self).pos,
                wf_model_fields(model_fields(dict@)),
                lv == views_of(self.lines@),
                cfg == self.cfg(),
                n == self.lines@.len() as int,
                pos0 == old(self).pos as int,
                ({
                    let rest = sp_li_rest(
                        lv,
                        cfg,
                        self.pos as int,
                        list_depth as int,
                        model_fields(dict@),
                    );
                    sp_list_item(lv, cfg, pos0, list_depth as int) == (match rest.0 {
                        Err(e) => (Err::<Model, ToonError>(e), rest.1),
                        Ok(f) => (Ok::<Model, ToonError>(Model::Obj(f)), rest.1),
                    })
                }),
            ensures
                self.wf(),
                self.steps_from(*old(self)),
                self.pos > old(self).pos,
                wf_model_fields(model_fields(dict@)),
                sp_list_item(lv, cfg, pos0, list_depth as int) == (
                Ok::<Model, ToonError>(Model::Obj(model_fields(dict@))),
                self.pos as int,
                ),
            decreases self.lines@.len() - self.pos,
        {
            let ghost iter_pos = self.pos as int;
            let ghost acc0 = model_fields(dict@);
            proof {
                assert(lv[iter_pos] == self.lines@[iter_pos]@);
            }
            match self.validate_indentation(&self.lines[self.pos]) {
                Ok(()) => {},
                Err(e) => {
                    return Err(e);
                },
            }
            let line_depth = self.get_depth(&self.lines[self.pos]);
            if line_depth <= list_depth {
                break ;
            }
            let d1 = crate::encode::deeper(list_depth);
            if line_depth != d1 {
                self.pos = self.pos + 1;
                continue ;
            }
            let line_trimmed2 = trim_chars(&self.lines[self.pos]);
            let colon2 = crate::scan::find_char_at(&line_trimmed2, ':', 0);
            if colon2 >= line_trimmed2.len() {
                self.pos = self.pos + 1;
                continue ;
            }
            let key_part = crate::chars::subrange_chars(&line_trimmed2, 0, colon2);
            let value_part_raw = crate::chars::subrange_chars(
                &line_trimmed2,
                colon2 + 1,
                line_trimmed2.len(),
            );
            let value_part = trim_chars(&value_part_raw);
            let quote_end = crate::scan::rfind_char(&key_part, '"');
            proof {
                crate::scan::lemma_last_at(key_part@, '"');
            }
            let has_array_syntax = match quote_end {
                Some(q) => crate::scan::find_char_at(&key_part, '[', q + 1) < key_part.len()
                    && crate::scan::find_char_at(&key_part, ']', q + 1) < key_part.len(),
                None => crate::scan::find_char_at(&key_part, '[', 0) < key_part.len()
                    && crate::scan::find_char_at(&key_part, ']', 0) < key_part.len(),
            };
            proof {
                assert(has_array_syntax == sp_has_array_syntax(key_part@));
            }
            if has_array_syntax {
                let value = match self.parse_field_array(&line_trimmed2, d1) {
                    Ok(v) => v,
                    Err(e) => {
                        return Err(e);
                    },
                };
                let key_name: Vec<char> = match quote_end {
                    Some(q) => crate::chars::subrange_chars(&key_part, 0, q + 1),
                    None => {
                        let b = crate::scan::find_char_at(&key_part, '[', 0);
                        crate::chars::subrange_chars(&key_part, 0, b)
                    },
                };
                proof {
                    assert(key_name@ == sp_li_key_name(key_part@));
                }
                let key = match self.parse_key(&key_name) {
                    Ok(k) => k,
                    Err(e) => {
                        return Err(e);
                    },
                };
                let ghost d0 = model_fields(dict@);
                let ghost kv = key@;
                let ghost vv = value@;
                crate::expand::set_item(&mut dict, key, value);
                proof {
                    crate::expand::lemma_set_item_wf_any(d0, kv, vv);
                    assert(self.pos as int > iter_pos);
                    assert(moved(iter_pos, self.pos as int, n) == self.pos as int);
                    assert(sp_li_rest(lv, cfg, iter_pos, list_depth as int, acc0) == sp_li_rest(
                        lv,
                        cfg,
                        self.pos as int,
                        list_depth as int,
                        model_fields(dict@),
                    ));
                }
                continue ;
            }
            let key = match self.parse_key(&key_part) {
                Ok(k) => k,
                Err(e) => {
                    return Err(e);
                },
            };
            self.pos = self.pos + 1;
            if value_part.len() == 0 {
                let d2 = crate::encode::deeper(line_depth);
                let value = match self.parse_object(d2) {
                    Ok(v) => v,
                    Err(e) => {
                        return Err(e);
                    },
                };
                let ghost d0 = model_fields(dict@);
                let ghost kv = key@;
                let ghost vv = value@;
                crate::expand::set_item(&mut dict, key, value);
                proof {
                    crate::expand::lemma_set_item_wf_any(d0, kv, vv);
                    assert(self.pos as int > iter_pos);
                    assert(moved(iter_pos, self.pos as int, n) == self.pos as int);
                    assert(sp_li_rest(lv, cfg, iter_pos, list_depth as int, acc0) == sp_li_rest(
                        lv,
                        cfg,
                        self.pos as int,
                        list_depth as int,
                        model_fields(dict@),
                    ));
                }
            } else {
                let value = match self.parse_primitive(&value_part) {
                    Ok(v) => v,
                    Err(e) => {
                        return Err(e);
                    },
                };
                let ghost d0 = model_fields(dict@);
                let ghost kv = key@;
                let ghost vv = value@;
                crate::expand::set_item(&mut dict, key, value);
                proof {
                    crate::expand::lemma_set_item_wf_any(d0, kv, vv);
                    assert(sp_li_rest(lv, cfg, iter_pos, list_depth as int, acc0) == sp_li_rest(
                        lv,
                        cfg,
                        self.pos as int,
                        list_depth as int,
                        model_fields(dict@),
                    ));
                }
            }
        }
        Ok(Value::Object(dict))
    }

    /// Inserts a parsed field into an object under the configured
    /// path-expansion rules.
    fn insert_field(
        &self,
        dict: &mut Vec<(Vec<char>, Value)>,
        key: Vec<char>,
        value: Value,
        expand: bool,
    ) -> (r: Result<(), ToonError>)
        requires
            wf_model_fields(model_fields(old(dict)@)),
            wf_model(value@),
        ensures
            r matches Ok(_) ==> wf_model_fields(model_fields(final(dict)@)),
            match r {
                Ok(u) => sp_insert_field(
                    model_fields(old(dict)@),
                    key@,
                    value@,
                    expand,
                    self.strict,
                ) == Ok::<Seq<(Seq<char>, Model)>, ToonError>(model_fields(final(dict)@)),
                Err(e) => sp_insert_field(
                    model_fields(old(dict)@),
                    key@,
                    value@,
                    expand,
                    self.strict,
                ) == Err::<Seq<(Seq<char>, Model)>, ToonError>(e),
            },
    {
        let ghost d0 = model_fields(dict@);
        let ghost kv = key@;
        let ghost vv = value@;
        if expand {
            match crate::expand::split_dotted_key(&key) {
                Some(segments) => {
                    let r = crate::expand::deep_merge_path(dict, &segments, 0, value, self.strict);
                    proof {
                        if r is Ok {
                            crate::expand::lemma_deep_merge_wf(
                                d0,
                                views_of(segments@),
                                0,
                                vv,
                                self.strict,
                            );
                        }
                    }
                    r
                },
                None => {
                    match crate::expand::check_key_conflict(dict, &key, &value, self.strict) {
                        Ok(()) => {
                            crate::expand::set_item(dict, key, value);
                            proof {
                                crate::expand::lemma_set_item_wf_any(d0, kv, vv);
                            }
                            Ok(())
                        },
                        Err(e) => Err(e),
                    }
                },
            }
        } else {
            match crate::expand::check_key_conflict(dict, &key, &value, self.strict) {
                Ok(()) => {
                    crate::expand::set_item(dict, key, value);
                    proof {
                        crate::expand::lemma_set_item_wf_any(d0, kv, vv);
                    }
                    Ok(())
                },
                Err(e) => Err(e),
            }
        }
    }

    /// Reads the fields of an object at `depth`, until a line above
    /// ends it or the input runs out.
    #[verifier::rlimit(100)]
    #[verifier::spinoff_prover]
    pub fn parse_object(&mut self, depth: usize) -> (r: Result<Value, ToonError>)
        requires
            old(self).wf(),
        ensures
            final(self).steps_from(*old(self)),
            r matches Ok(v) ==> (v@ matches Model::Obj(_)) && wf_model(v@),
            ({
                let m = sp_object(
                    views_of(old(self).lines@),
                    old(self).cfg(),
                    old(self).pos as int,
                    depth as int,
                    Seq::empty(),
                );
                &&& final(self).pos == m.1
                &&& match r {
                    Ok(v) => m.0 == Ok::<Seq<(Seq<char>, Model)>, ToonError>(v@->Obj_0),
                    Err(e) => m.0 == Err::<Seq<(Seq<char>, Model)>, ToonError>(e),
                }
            }),
        decreases old(self).lines@.len() - old(self).pos, 8int,
    {
        let ghost lv = views_of(self.lines@);
        let ghost cfg = self.cfg();
        let ghost pos0 = self.pos as int;
        let ghost n = self.lines@.len() as int;
        let mut dict: Vec<(Vec<char>, Value)> = Vec::new();
        proof {
            assert(model_fields(dict@) =~= Seq::<(Seq<char>, Model)>::empty());
        }
        while self.pos < self.lines.len()
            invariant
                self.wf(),
                self.steps_from(*old(self)),
                wf_model_fields(model_fields(dict@)),
                lv == views_of(self.lines@),
                cfg == self.cfg(),
                n == self.lines@.len() as int,
                pos0 == old(self).pos as int,
                sp_object(lv, cfg, pos0, depth as int, Seq::empty()) == sp_object(
                    lv,
                    cfg,
                    self.pos as int,
                    depth as int,
                    model_fields(dict@),
                ),
            ensures
                self.wf(),
                self.steps_from(*old(self)),
                wf_model_fields(model_fields(dict@)),
                sp_object(lv, cfg, pos0, depth as int, Seq::empty()) == (
                Ok::<Seq<(Seq<char>, Model)>, ToonError>(model_fields(dict@)),
                self.pos as int,
                ),
            decreases self.lines@.len() - self.pos,
        {
            let ghost iter_pos = self.pos as int;
            let ghost acc0 = model_fields(dict@);
            proof {
                assert(lv[iter_pos] == self.lines@[iter_pos]@);
            }
            match self.validate_indentation(&self.lines[self.pos]) {
                Ok(()) => {},
                Err(e) => {
                    return Err(e);
                },
            }
            let line_trimmed = trim_chars(&self.lines[self.pos]);
            if line_trimmed.len() == 0 {
                let lookahead = self.lookahead_nonblank(self.pos + 1);
                proof {
                    if lookahead < self.lines.len() {
                        assert(lv[lookahead as int] == self.lines@[lookahead as int]@);
                    }
                }
                if lookahead < self.lines.len() {
                    let next_depth = self.get_depth(&self.lines[lookahead]);
                    if next_depth >= depth {
                        self.pos = self.pos + 1;
                        continue ;
                    }
                }
                break ;
            }
            let line_depth = self.get_depth(&self.lines[self.pos]);
            if line_depth < depth {
                break ;
            }
            if line_depth > depth {
                self.pos = self.pos + 1;
                continue ;
            }
            let colon_u = match find_unquoted(&line_trimmed, ':') {
                Some(c) => c,
                None => {
                    return Err(ToonError::MissingColon);
                },
            };
            proof {
                crate::scan::lemma_find_unq_in_range(line_trimmed@, ':', 0, false, false);
            }
            let key_part = crate::chars::subrange_chars(&line_trimmed, 0, colon_u);
            let value_part_raw = crate::chars::subrange_chars(
                &line_trimmed,
                colon_u + 1,
                line_trimmed.len(),
            );
            let value_part = trim_chars(&value_part_raw);
            let first_quote = crate::scan::find_char_at(&key_part, '"', 0);
            let first_bracket = crate::scan::find_char_at(&key_part, '[', 0);
            let has_array_syntax: bool = if first_bracket >= key_part.len() {
                false
            } else if first_quote >= key_part.len() {
                crate::scan::find_char_at(&key_part, ']', 0) < key_part.len()
            } else if first_bracket < first_quote {
                crate::scan::find_char_at(&key_part, ']', 0) < key_part.len()
            } else {
                match crate::scan::rfind_char(&key_part, '"') {
                    Some(last_quote) => {
                        proof {
                            crate::scan::lemma_last_at(key_part@, '"');
                        }
                        crate::scan::find_char_at(&key_part, '[', last_quote + 1)
                            < key_part.len() && crate::scan::find_char_at(
                            &key_part,
                            ']',
                            last_quote + 1,
                        ) < key_part.len()
                    },
                    None => false,
                }
            };
            proof {
                assert(has_array_syntax == sp_obj_array_syntax(key_part@));
            }
            if has_array_syntax {
                let value = match self.parse_field_array(&line_trimmed, depth) {
                    Ok(v) => v,
                    Err(e) => {
                        return Err(e);
                    },
                };
                let key_name: Vec<char> = if key_part.len() >= 1 && key_part[0] == '"' {
                    let close = if key_part.len() >= 2 {
                        crate::scan::find_char_at(&key_part, '"', 1)
                    } else {
                        key_part.len()
                    };
                    if close < key_part.len() {
                        crate::chars::subrange_chars(&key_part, 0, close + 1)
                    } else {
                        let b = crate::scan::find_char_at(&key_part, '[', 0);
                        crate::chars::subrange_chars(&key_part, 0, b)
                    }
                } else {
                    let b = crate::scan::find_char_at(&key_part, '[', 0);
                    crate::chars::subrange_chars(&key_part, 0, b)
                };
                proof {
                    assert(key_name@ == sp_obj_key_name(key_part@));
                }
                let (should_expand, was_quoted) = self.should_expand_key(&key_name);
                if should_expand {
                    match crate::expand::split_dotted_key(&key_name) {
                        Some(segments) => {
                            let ghost d0 = model_fields(dict@);
                            let ghost vv = value@;
                            let rm = crate::expand::deep_merge_path(
                                &mut dict,
                                &segments,
                                0,
                                value,
                                self.strict,
                            );
                            match rm {
                                Ok(()) => {
                                    proof {
                                        crate::expand::lemma_deep_merge_wf(
                                            d0,
                                            views_of(segments@),
                                            0,
                                            vv,
                                            self.strict,
                                        );
                                        assert(self.pos as int > iter_pos);
                                        assert(moved(iter_pos, self.pos as int, n)
                                            == self.pos as int);
                                        assert(sp_object(lv, cfg, iter_pos, depth as int, acc0) == sp_object(
                        lv,
                        cfg,
                        self.pos as int,
                        depth as int,
                        model_fields(dict@),
                    ));
                                    }
                                },
                                Err(e) => {
                                    return Err(e);
                                },
                            }
                        },
                        None => {
                            match crate::expand::check_key_conflict(
                                &dict,
                                &key_name,
                                &value,
                                self.strict,
                            ) {
                                Ok(()) => {},
                                Err(e) => {
                                    return Err(e);
                                },
                            }
                            let key = match self.parse_key(&key_name) {
                                Ok(k) => k,
                                Err(e) => {
                                    return Err(e);
                                },
                            };
                            let ghost d0 = model_fields(dict@);
                            let ghost kv = key@;
                            let ghost vv = value@;
                            crate::expand::set_item(&mut dict, key, value);
                            proof {
                                crate::expand::lemma_set_item_wf_any(d0, kv, vv);
                                assert(self.pos as int > iter_pos);
                                assert(moved(iter_pos, self.pos as int, n) == self.pos as int);
                                assert(sp_object(lv, cfg, iter_pos, depth as int, acc0) == sp_object(
                        lv,
                        cfg,
                        self.pos as int,
                        depth as int,
                        model_fields(dict@),
                    ));
                            }
                        },
                    }
                } else {
                    let key: Vec<char> = if was_quoted {
                        match self.parse_key(&key_name) {
                            Ok(k) => k,
                            Err(e) => {
                                return Err(e);
                            },
                        }
                    } else {
                        key_name
                    };
                    match crate::expand::check_key_conflict(&dict, &key, &value, self.strict) {
                        Ok(()) => {},
                        Err(e) => {
                            return Err(e);
                        },
                    }
                    let ghost d0 = model_fields(dict@);
                    let ghost kv = key@;
                    let ghost vv = value@;
                    crate::expand::set_item(&mut dict, key, value);
                    proof {
                        crate::expand::lemma_set_item_wf_any(d0, kv, vv);
                        assert(self.pos as int > iter_pos);
                        assert(moved(iter_pos, self.pos as int, n) == self.pos as int);
                        assert(sp_object(lv, cfg, iter_pos, depth as int, acc0) == sp_object(
                        lv,
                        cfg,
                        self.pos as int,
                        depth as int,
                        model_fields(dict@),
                    ));
                    }
                }
                continue ;
            }
            let (should_expand, _was_quoted) = self.should_expand_key(&key_part);
            let parsed_key = match self.parse_key(&key_part) {
                Ok(k) => k,
                Err(e) => {
                    return Err(e);
                },
            };
            let ghost line0 = self.lines@[self.pos as int];
            let current_line_indent = self.get_indent_spaces(&self.lines[self.pos]);
            self.pos = self.pos + 1;
            let value: Value = if value_part.len() == 0 {
                if self.pos < self.lines.len() {
                    let next_depth = self.get_depth(&self.lines[self.pos]);
                    let is_nested: bool = if !self.strict && self.explicit_indent.is_none() {
                        let next_indent = self.get_indent_spaces(&self.lines[self.pos]);
                        let next_trimmed = trim_chars(&self.lines[self.pos]);
                        next_indent > current_line_indent && next_trimmed.len() > 0
                            && next_trimmed[0] != '-'
                    } else {
                        next_depth > depth
                    };
                    if is_nested {
                        let nested_depth: usize = if !self.strict
                            && self.explicit_indent.is_none() {
                            next_depth
                        } else {
                            crate::encode::deeper(depth)
                        };
                        match self.parse_object(nested_depth) {
                            Ok(v) => {
                                proof {
                                    assert(self.pos as int > iter_pos);
                                    assert(moved(iter_pos, self.pos as int, n)
                                        == self.pos as int);
                                    assert(sp_object(lv, cfg, iter_pos, depth as int, acc0) == sp_obj_insert(
                                lv,
                                cfg,
                                iter_pos,
                                self.pos as int,
                                depth as int,
                                acc0,
                                parsed_key@,
                                v@,
                                should_expand,
                            ));
                                }
                                v
                            },
                            Err(e) => {
                                return Err(e);
                            },
                        }
                    } else {
                        let empty_fields: Vec<(Vec<char>, Value)> = Vec::new();
                        proof {
                            assert(model_fields(empty_fields@) =~= Seq::<
                                (Seq<char>, Model),
                            >::empty());
                            assert(sp_object(lv, cfg, iter_pos, depth as int, acc0) == sp_obj_insert(
                                lv,
                                cfg,
                                iter_pos,
                                self.pos as int,
                                depth as int,
                                acc0,
                                parsed_key@,
                                Model::Obj(Seq::empty()),
                                should_expand,
                            ));
                        }
                        Value::Object(empty_fields)
                    }
                } else {
                    let empty_fields: Vec<(Vec<char>, Value)> = Vec::new();
                    proof {
                        assert(model_fields(empty_fields@) =~= Seq::<(Seq<char>, Model)>::empty());
                        assert(sp_object(lv, cfg, iter_pos, depth as int, acc0) == sp_obj_insert(
                                lv,
                                cfg,
                                iter_pos,
                                self.pos as int,
                                depth as int,
                                acc0,
                                parsed_key@,
                            Model::Obj(Seq::empty()),
                            should_expand,
                        ));
                    }
                    Value::Object(empty_fields)
                }
            } else {
                match self.parse_primitive(&value_part) {
                    Ok(v) => {
                        proof {
                            assert(sp_object(lv, cfg, iter_pos, depth as int, acc0) == sp_obj_insert(
                                lv,
                                cfg,
                                iter_pos,
                                self.pos as int,
                                depth as int,
                                acc0,
                                parsed_key@,
                                v@,
                                should_expand,
                            ));
                        }
                        v
                    },
                    Err(e) => {
                        return Err(e);
                    },
                }
            };
            let ghost posv = self.pos as int;
            let expand_now = should_expand;
            match self.insert_field(&mut dict, parsed_key, value, expand_now) {
                Ok(()) => {
                    proof {
                        assert(posv > iter_pos);
                        assert(moved(iter_pos, posv, n) == posv);
                        assert(sp_object(lv, cfg, iter_pos, depth as int, acc0) == sp_object(
                        lv,
                        cfg,
                        self.pos as int,
                        depth as int,
                        model_fields(dict@),
                    ));
                    }
                },
                Err(e) => {
                    return Err(e);
                },
            }
        }
        Ok(Value::Object(dict))
    }

    /// Reads a root-form array: the header stands alone on the first
    /// line of the document.
    pub fn parse_root_array(&mut self) -> (r: Result<Value, ToonError>)
        requires
            old(self).wf(),
            old(self).pos < old(self).lines@.len(),
        ensures
            final(self).steps_from(*old(self)),
            r matches Ok(v) ==> wf_model(v@),
            ({
                let m = sp_root_array(
                    views_of(old(self).lines@),
                    old(self).cfg(),
                    old(self).pos as int,
                );
                &&& final(self).pos == m.1
                &&& match r {
                    Ok(v) => m.0 == Ok::<Model, ToonError>(v@),
                    Err(e) => m.0 == Err::<Model, ToonError>(e),
                }
            }),
        decreases old(self).lines@.len() - old(self).pos, 9int,
    {
        let ghost lv = views_of(self.lines@);
        let ghost cfg = self.cfg();
        let ghost pos0 = self.pos as int;
        proof {
            assert(lv[pos0] == self.lines@[pos0]@);
        }
        let header = crate::chars::subrange_chars(
            &self.lines[self.pos],
            0,
            self.lines[self.pos].len(),
        );
        proof {
            assert(header@ =~= lv[pos0]);
        }
        let parsed = match self.parse_header(&header) {
            Ok(h) => h,
            Err(e) => {
                return Err(e);
            },
        };
        let (length, delim, fields_opt) = parsed;
        proof {
            assert(self.lines@.len() == self.lines.len());
        }
        self.pos = self.pos + 1;
        match fields_opt {
            Some(field_names) => {
                let r = self.parse_tabular_array(length, delim, &field_names, 1);
                proof {
                    assert(self.cfg() == cfg);
                }
                r
            },
            None => {
                let header_trimmed = trim_chars(&header);
                let bc = crate::scan::find_bracket_colon_from(&header_trimmed, 0);
                if bc >= header_trimmed.len() {
                    return Err(ToonError::InvalidHeader);
                }
                let after = crate::chars::subrange_chars(
                    &header_trimmed,
                    bc + 2,
                    header_trimmed.len(),
                );
                let after_trimmed = trim_chars(&after);
                if after_trimmed.len() > 0 {
                    self.parse_inline_array(&after_trimmed, delim, length)
                } else {
                    let r = self.parse_expanded_array(length, 1);
                    proof {
                        assert(self.cfg() == cfg);
                    }
                    r
                }
            },
        }
    }

    /// Whether a document is a single primitive line: one line holding
    /// its token with no surrounding whitespace, not opening a bracket,
    /// and with no unquoted colon.
    pub open spec fn spec_primitive_root(lines: Seq<Seq<char>>) -> bool {
        &&& lines.len() == 1
        &&& lines[0].len() > 0
        &&& lines[0] == spec_trim(lines[0])
        &&& lines[0][0] != '['
        &&& spec_find_unquoted(lines[0], ':') is None
    }

    /// Detects the root form and reads the document: an empty input is
    /// an empty object, a bare bracket header is a root array, a
    /// single line without an unquoted colon is one primitive, and
    /// anything else is a root object. On a single-primitive document
    /// the result is exactly the token's reading.
    pub fn parse(&mut self) -> (r: Result<Value, ToonError>)
        requires
            old(self).wf(),
        ensures
            final(self).lines@ == old(self).lines@,
            r matches Ok(v) ==> wf_model(v@),
            (old(self).pos == 0 && Self::spec_primitive_root(views_of(old(self).lines@)))
                ==> match spec_parse_token(views_of(old(self).lines@)[0]) {
                Ok(m) => r matches Ok(v) && v@ == m,
                Err(e) => r == Err::<Value, ToonError>(e),
            },
            ({
                let m = sp_parse(
                    views_of(old(self).lines@),
                    old(self).strict,
                    old(self).expand_paths,
                    old(self).explicit_indent,
                    old(self).pos as int,
                );
                &&& final(self).pos == m.1
                &&& match r {
                    Ok(v) => m.0 == Ok::<Model, ToonError>(v@),
                    Err(e) => m.0 == Err::<Model, ToonError>(e),
                }
            }),
        decreases old(self).lines@.len() - old(self).pos, 10int,
    {
        self.detect_indent_size();
        let ghost lv = views_of(self.lines@);
        let ghost pos0 = self.pos as int;
        let ghost n = self.lines@.len() as int;
        proof {
            assert(self.cfg() == sp_cfg(lv, old(self).strict, old(self).expand_paths, old(self).explicit_indent));
        }
        let ghost cfg = self.cfg();
        while self.pos < self.lines.len()
            invariant
                self.wf(),
                self.lines@ == old(self).lines@,
                self.strict == old(self).strict,
                self.explicit_indent == old(self).explicit_indent,
                self.expand_paths == old(self).expand_paths,
                self.indent_size == final(self).indent_size || true,
                cfg == self.cfg(),
                old(self).pos <= self.pos,
                pos0 == old(self).pos as int,
                lv == views_of(self.lines@),
                sp_lookahead(lv, pos0) == sp_lookahead(lv, self.pos as int),
                forall|k: int|
                    old(self).pos <= k < self.pos ==> spec_trim(#[trigger] lv[k]).len() == 0,
            ensures
                self.wf(),
                self.lines@ == old(self).lines@,
                cfg == self.cfg(),
                old(self).pos <= self.pos,
                lv == views_of(self.lines@),
                sp_lookahead(lv, pos0) == sp_lookahead(lv, self.pos as int),
                self.pos < self.lines@.len() ==> spec_trim(lv[self.pos as int]).len() != 0,
            decreases self.lines@.len() - self.pos,
        {
            proof {
                assert(lv[self.pos as int] == self.lines@[self.pos as int]@);
            }
            if !crate::lexical::is_blank(&self.lines[self.pos]) {
                break ;
            }
            self.pos = self.pos + 1;
        }
        if self.pos >= self.lines.len() {
            let empty_fields: Vec<(Vec<char>, Value)> = Vec::new();
            proof {
                assert(model_fields(empty_fields@) =~= Seq::<(Seq<char>, Model)>::empty());
            }
            return Ok(Value::Object(empty_fields));
        }
        match self.validate_indentation(&self.lines[self.pos]) {
            Ok(()) => {},
            Err(e) => {
                proof {
                    if old(self).pos == 0 && Self::spec_primitive_root(lv) {
                        if self.pos > 0 {
                            assert(spec_trim(lv[0]).len() == 0);
                        }
                        crate::lexical::lemma_trim_fixpoint(lv[0]);
                        assert(false);
                    }
                }
                return Err(e);
            },
        }
        let first_line_trimmed = trim_chars(&self.lines[self.pos]);
        proof {
            if old(self).pos == 0 && Self::spec_primitive_root(lv) {
                if self.pos > 0 {
                    assert(spec_trim(lv[0]).len() == 0);
                }
                assert(self.pos == 0);
                assert(first_line_trimmed@ == lv[0]);
            }
        }
        proof {
            lemma_sp_lookahead(lv, pos0);
            assert(held(pos0, sp_lookahead(lv, pos0), n) == self.pos as int);
            assert(lv[self.pos as int] == self.lines@[self.pos as int]@);
        }
        if first_line_trimmed.len() > 0 && first_line_trimmed[0] == '['
            && crate::scan::find_char_at(&first_line_trimmed, ':', 0) < first_line_trimmed.len() {
            if self.lines[self.pos].len() == first_line_trimmed.len() {
                return self.parse_root_array();
            }
        }
        if self.lines.len() == 1 {
            match find_unquoted(&first_line_trimmed, ':') {
                Some(_) => {},
                None => {
                    return self.parse_primitive(&first_line_trimmed);
                },
            }
        }
        proof {
            if old(self).pos == 0 && Self::spec_primitive_root(lv) {
                assert(false);
            }
        }
        let r = self.parse_object(0);
        proof {
            assert(self.cfg() == cfg);
        }
        match r {
            Ok(v) => Ok(v),
            Err(e) => Err(e),
        }
    }

    /// Reads one primitive token, trimming it first.
    pub fn parse_primitive(&self, s: &Vec<char>) -> (r: Result<Value, ToonError>)
        ensures
            match r {
                Ok(v) => spec_parse_token(spec_trim(s@)) == Ok::<Model, ToonError>(v@)
                    && wf_scalar(v@) && wf_model(v@),
                Err(e) => spec_parse_token(spec_trim(s@)) == Err::<Model, ToonError>(e),
            },
    {
        let t = trim_chars(s);
        let r = parse_token(&t);
        proof {
            match &r {
                Ok(v) => {
                    assert(wf_model(v@));
                },
                Err(_) => {},
            }
        }
        r
    }
}

/// Decodes a whole document: parses the text under the given
/// strictness, path-expansion mode and optional indent width. Every
/// value that comes back is well formed; a document that is one bare
/// primitive line reads as exactly that token.
pub fn deserialize(
    input: &str,
    strict: bool,
    expand_paths: ExpandPaths,
    indent: Option<usize>,
) -> (r: Result<Value, ToonError>)
    ensures
        r matches Ok(v) ==> wf_model(v@),
        Parser::spec_primitive_root(spec_lines(input@)) ==> match spec_parse_token(
            spec_lines(input@)[0],
        ) {
            Ok(m) => r matches Ok(v) && v@ == m,
            Err(e) => r == Err::<Value, ToonError>(e),
        },
        match r {
            Ok(v) => sp_parse(spec_lines(input@), strict, expand_paths, indent, 0).0 == Ok::<
                Model,
                ToonError,
            >(v@),
            Err(e) => sp_parse(spec_lines(input@), strict, expand_paths, indent, 0).0 == Err::<
                Model,
                ToonError,
            >(e),
        },
{
    let mut parser = Parser::new(input, strict, expand_paths, indent);
    parser.parse()
}

} // verus!
