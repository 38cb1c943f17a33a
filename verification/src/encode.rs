//! The encoder: walks a value tree depth-first and renders text,
//! choosing for every array between the inline, tabular and expanded
//! layouts, and optionally folding chains of single-key objects at the
//! root into dotted keys. Every writer's output equals its spec
//! function, so the whole document text is pinned down by
//! [`spec_serialize`].

use vstd::prelude::*;

use crate::chars::push_all;
use crate::digits::dec_digits;
use crate::lexical::spec_format_key;
use crate::lexical::spec_format_scalar;
use crate::lexical::is_valid_unquoted_key_seq;
use crate::lexical::serialize_key;
use crate::lexical::push_scalar;
use crate::lexical::is_valid_unquoted_key;
use crate::value::Model;
use crate::value::SerializationContext;
use crate::value::Value;
use crate::value::model_fields;
use crate::value::model_seq;
use crate::value::lemma_model_fields_index;
use crate::value::lemma_model_seq_index;

verus! {

broadcast use vstd::std_specs::vec::axiom_vec_index_decreases;

/// `n` space characters.
pub open spec fn spaces(n: nat) -> Seq<char> {
    Seq::new(n, |i: int| ' ')
}

/// The indentation of a line at `depth` levels.
pub open spec fn spec_indent(depth: int, indent: int) -> Seq<char>
    recommends
        depth >= 0,
        indent >= 0,
{
    spaces((depth * indent) as nat)
}

/// A line break followed by the indentation of the next line.
pub open spec fn nl_indent(depth: int, indent: int) -> Seq<char> {
    seq!['\n'] + spec_indent(depth, indent)
}

/// Appends `depth * indent` spaces to `out`.
pub fn write_indent(out: &mut Vec<char>, depth: usize, indent: usize)
    ensures
        final(out)@ == old(out)@ + spec_indent(depth as int, indent as int),
{
    let mut d: usize = 0;
    while d < depth
        invariant
            0 <= d <= depth,
            out@ == old(out)@ + spaces((d * indent) as nat),
        decreases depth - d,
    {
        let mut k: usize = 0;
        while k < indent
            invariant
                0 <= k <= indent,
                out@ == old(out)@ + spaces((d * indent + k) as nat),
            decreases indent - k,
        {
            out.push(' ');
            proof {
                assert(out@ =~= old(out)@ + spaces((d * indent + k + 1) as nat));
            }
            k = k + 1;
        }
        proof {
            assert((d + 1) * indent == d * indent + indent) by (nonlinear_arith);
        }
        d = d + 1;
    }
}

/// Appends a line break and the indentation of depth `depth`.
pub fn write_newline_indent(out: &mut Vec<char>, depth: usize, indent: usize)
    ensures
        final(out)@ == old(out)@ + nl_indent(depth as int, indent as int),
{
    out.push('\n');
    write_indent(out, depth, indent);
    proof {
        assert(out@ =~= old(out)@ + nl_indent(depth as int, indent as int));
    }
}

/// A plain array header: the length in brackets, the delimiter inside
/// the brackets when it is not the comma, the terminating colon, and a
/// space after it for a non-empty inline body.
pub open spec fn spec_array_header(len: nat, delim: char, inline: bool) -> Seq<char> {
    seq!['['] + dec_digits(len) + (if delim != ',' {
        seq![delim]
    } else {
        Seq::empty()
    }) + seq![']', ':'] + (if inline && len > 0 {
        seq![' ']
    } else {
        Seq::empty()
    })
}

/// Appends an array header to `out`.
pub fn write_array_header(out: &mut Vec<char>, len: usize, delim: char, inline: bool)
    ensures
        final(out)@ == old(out)@ + spec_array_header(len as nat, delim, inline),
{
    out.push('[');
    let digits = crate::digits::format_u64(len as u64);
    push_all(out, &digits);
    if delim != ',' {
        out.push(delim);
    }
    out.push(']');
    out.push(':');
    if inline && len > 0 {
        out.push(' ');
    }
    proof {
        assert(out@ =~= old(out)@ + spec_array_header(len as nat, delim, inline));
    }
}

/// Field names joined by the delimiter, each written under the key rule.
pub open spec fn spec_fields_joined(fields: Seq<Seq<char>>, delim: char) -> Seq<char>
    decreases fields.len(),
{
    if fields.len() == 0 {
        Seq::empty()
    } else if fields.len() == 1 {
        spec_format_key(fields[0])
    } else {
        spec_fields_joined(fields.drop_last(), delim) + seq![delim] + spec_format_key(
            fields.last(),
        )
    }
}

/// A tabular header: the length in brackets, then the field list in
/// braces, then the colon.
pub open spec fn spec_tabular_header(len: nat, delim: char, fields: Seq<Seq<char>>) -> Seq<char> {
    seq!['['] + dec_digits(len) + (if delim != ',' {
        seq![delim]
    } else {
        Seq::empty()
    }) + seq![']', '{'] + spec_fields_joined(fields, delim) + seq!['}', ':']
}

/// Growing the field list by one name appends a delimiter (except for
/// the first) and that name.
proof fn lemma_fields_joined_step(fields: Seq<Seq<char>>, i: int, delim: char)
    requires
        0 <= i < fields.len(),
    ensures
        spec_fields_joined(fields.take(i + 1), delim) == if i == 0 {
            spec_format_key(fields[0])
        } else {
            spec_fields_joined(fields.take(i), delim) + seq![delim] + spec_format_key(fields[i])
        },
{
    let t = fields.take(i + 1);
    assert(t.last() == fields[i]);
    if i == 0 {
        assert(t.len() == 1);
        assert(t[0] == fields[0]);
    } else {
        assert(t.drop_last() =~= fields.take(i));
    }
}

/// Appends a tabular header to `out`.
pub fn write_tabular_header(out: &mut Vec<char>, len: usize, delim: char, fields: &Vec<Vec<char>>)
    ensures
        final(out)@ == old(out)@ + spec_tabular_header(
            len as nat,
            delim,
            crate::scan::views_of(fields@),
        ),
{
    let ghost fv = crate::scan::views_of(fields@);
    out.push('[');
    let digits = crate::digits::format_u64(len as u64);
    push_all(out, &digits);
    if delim != ',' {
        out.push(delim);
    }
    out.push(']');
    out.push('{');
    let ghost mid = out@;
    let mut i: usize = 0;
    while i < fields.len()
        invariant
            0 <= i <= fields@.len(),
            fv == crate::scan::views_of(fields@),
            fv.len() == fields@.len(),
            forall|j: int| 0 <= j < fields@.len() ==> fv[j] == #[trigger] fields@[j]@,
            out@ == mid + spec_fields_joined(fv.take(i as int), delim),
        decreases fields@.len() - i,
    {
        proof {
            lemma_fields_joined_step(fv, i as int, delim);
        }
        if i > 0 {
            out.push(delim);
        }
        serialize_key(out, &fields[i]);
        proof {
            if i > 0 {
                assert(out@ =~= mid + spec_fields_joined(fv.take(i + 1int), delim));
            } else {
                assert(fv.take(0int) =~= Seq::<Seq<char>>::empty());
                assert(out@ =~= mid + spec_fields_joined(fv.take(1int), delim));
            }
        }
        i = i + 1;
    }
    out.push('}');
    out.push(':');
    proof {
        assert(fv.take(fv.len() as int) =~= fv);
        assert(out@ =~= old(out)@ + spec_tabular_header(len as nat, delim, fv));
    }
}

/// Whether a model is a primitive: neither an array nor an object.
pub open spec fn spec_is_primitive(m: Model) -> bool {
    !(m matches Model::Arr(_)) && !(m matches Model::Obj(_))
}

/// Whether every element of `elems` is a primitive.
pub open spec fn all_primitives(elems: Seq<Model>) -> bool {
    forall|i: int| 0 <= i < elems.len() ==> spec_is_primitive(#[trigger] elems[i])
}

/// Whether the value `v` is a primitive.
pub fn is_primitive(v: &Value) -> (r: bool)
    ensures
        r == spec_is_primitive(v@),
{
    match v {
        Value::Array(_) => false,
        Value::Object(_) => false,
        _ => true,
    }
}

/// The body of an inline array: the elements' tokens joined by the
/// delimiter.
pub open spec fn spec_inline_body(elems: Seq<Model>, delim: char) -> Seq<char>
    decreases elems.len(),
{
    if elems.len() == 0 {
        Seq::empty()
    } else if elems.len() == 1 {
        spec_format_scalar(elems[0], delim)
    } else {
        spec_inline_body(elems.drop_last(), delim) + seq![delim] + spec_format_scalar(
            elems.last(),
            delim,
        )
    }
}

/// Growing an inline body by one element appends a delimiter (except
/// for the first) and that element's token.
proof fn lemma_inline_body_step(elems: Seq<Model>, i: int, delim: char)
    requires
        0 <= i < elems.len(),
    ensures
        spec_inline_body(elems.take(i + 1), delim) == if i == 0 {
            spec_format_scalar(elems[0], delim)
        } else {
            spec_inline_body(elems.take(i), delim) + seq![delim] + spec_format_scalar(
                elems[i],
                delim,
            )
        },
{
    let t = elems.take(i + 1);
    assert(t.last() == elems[i]);
    if i == 0 {
        assert(t.len() == 1);
        assert(t[0] == elems[0]);
    } else {
        assert(t.drop_last() =~= elems.take(i));
    }
}

/// Appends the inline body of a primitive array to `out`.
pub fn write_inline_body(out: &mut Vec<char>, elems: &Vec<Value>, delim: char)
    requires
        all_primitives(model_seq(elems@)),
    ensures
        final(out)@ == old(out)@ + spec_inline_body(model_seq(elems@), delim),
{
    let ghost ms = model_seq(elems@);
    proof {
        lemma_model_seq_index(elems@);
    }
    let mut i: usize = 0;
    while i < elems.len()
        invariant
            0 <= i <= elems@.len(),
            ms == model_seq(elems@),
            ms.len() == elems@.len(),
            all_primitives(ms),
            forall|j: int| 0 <= j < elems@.len() ==> ms[j] == crate::value::model_of(
                #[trigger] elems@[j],
            ),
            out@ == old(out)@ + spec_inline_body(ms.take(i as int), delim),
        decreases elems@.len() - i,
    {
        proof {
            lemma_inline_body_step(ms, i as int, delim);
            assert(spec_is_primitive(ms[i as int]));
        }
        if i > 0 {
            out.push(delim);
        }
        push_scalar(out, &elems[i], delim);
        proof {
            if i > 0 {
                assert(out@ =~= old(out)@ + spec_inline_body(ms.take(i + 1int), delim));
            } else {
                assert(out@ =~= old(out)@ + spec_inline_body(ms.take(1int), delim));
            }
        }
        i = i + 1;
    }
    proof {
        assert(ms.take(ms.len() as int) =~= ms);
    }
}

/// The first value under `k` in a field list, as `get` on an ordered
/// mapping finds it.
pub open spec fn spec_obj_lookup(fields: Seq<(Seq<char>, Model)>, k: Seq<char>) -> Option<Model>
    decreases fields.len(),
{
    if fields.len() == 0 {
        None
    } else if fields[0].0 == k {
        Some(fields[0].1)
    } else {
        spec_obj_lookup(fields.skip(1), k)
    }
}

/// The keys of a field list, in order.
pub open spec fn keys_of(fields: Seq<(Seq<char>, Model)>) -> Seq<Seq<char>> {
    fields.map_values(|f: (Seq<char>, Model)| f.0)
}

/// The set of keys of a field list.
pub open spec fn key_set(fields: Seq<(Seq<char>, Model)>) -> Set<Seq<char>> {
    Set::new(|k: Seq<char>| exists|i: int| 0 <= i < fields.len() && fields[i].0 == k)
}

/// Whether an object fits a tabular row over `keys`: as many fields as
/// keys, and a primitive value under every key.
pub open spec fn row_matches(m: Model, keys: Seq<Seq<char>>) -> bool {
    match m {
        Model::Obj(fields) => {
            &&& fields.len() == keys.len()
            &&& forall|j: int|
                0 <= j < keys.len() ==> match spec_obj_lookup(fields, #[trigger] keys[j]) {
                    Some(v) => spec_is_primitive(v),
                    None => false,
                }
        },
        _ => false,
    }
}

/// The field list of the tabular layout, when the array qualifies: a
/// non-empty array of objects, each carrying exactly the first
/// element's keys with primitive values.
pub open spec fn spec_tabular_fields(elems: Seq<Model>) -> Option<Seq<Seq<char>>> {
    if elems.len() == 0 {
        None
    } else if !(forall|i: int| 0 <= i < elems.len() ==> #[trigger] elems[i] matches Model::Obj(_)) {
        None
    } else {
        let keys = keys_of(elems[0]->Obj_0);
        if keys.len() == 0 {
            None
        } else if forall|i: int| 0 <= i < elems.len() ==> row_matches(#[trigger] elems[i], keys) {
            Some(keys)
        } else {
            None
        }
    }
}

/// Finds the first value under `k` in a field list.
pub fn obj_get<'a>(fields: &'a Vec<(Vec<char>, Value)>, k: &Vec<char>) -> (r: Option<&'a Value>)
    ensures
        match r {
            Some(v) => spec_obj_lookup(model_fields(fields@), k@) == Some(v@),
            None => spec_obj_lookup(model_fields(fields@), k@) is None,
        },
{
    proof {
        lemma_model_fields_index(fields@);
        assert(model_fields(fields@).skip(0int) =~= model_fields(fields@));
    }
    let ghost mf = model_fields(fields@);
    let mut i: usize = 0;
    while i < fields.len()
        invariant
            0 <= i <= fields@.len(),
            mf == model_fields(fields@),
            mf.len() == fields@.len(),
            forall|j: int| 0 <= j < fields@.len() ==> #[trigger] mf[j] == (
                fields@[j].0@,
                crate::value::model_of(fields@[j].1),
            ),
            spec_obj_lookup(mf, k@) == spec_obj_lookup(mf.skip(i as int), k@),
        decreases fields@.len() - i,
    {
        proof {
            assert(mf.skip(i as int)[0] == mf[i as int]);
            assert(mf.skip(i as int).skip(1) =~= mf.skip(i + 1int));
        }
        if crate::chars::chars_eq(&fields[i].0, k) {
            return Some(&fields[i].1);
        }
        i = i + 1;
    }
    None
}

/// Whether `k` occurs among the keys of a field list.
pub fn has_key(fields: &Vec<(Vec<char>, Value)>, k: &Vec<char>) -> (r: bool)
    ensures
        r == key_set(model_fields(fields@)).contains(k@),
{
    proof {
        lemma_model_fields_index(fields@);
    }
    let ghost mf = model_fields(fields@);
    let mut i: usize = 0;
    while i < fields.len()
        invariant
            0 <= i <= fields@.len(),
            mf == model_fields(fields@),
            mf.len() == fields@.len(),
            forall|j: int| 0 <= j < fields@.len() ==> #[trigger] mf[j] == (
                fields@[j].0@,
                crate::value::model_of(fields@[j].1),
            ),
            forall|j: int| 0 <= j < i ==> #[trigger] mf[j].0 != k@,
        decreases fields@.len() - i,
    {
        if crate::chars::chars_eq(&fields[i].0, k) {
            proof {
                assert(mf[i as int].0 == k@);
            }
            return true;
        }
        i = i + 1;
    }
    proof {
        if key_set(mf).contains(k@) {
            let w = choose|j: int| 0 <= j < mf.len() && mf[j].0 == k@;
            assert(mf[w].0 != k@);
        }
    }
    false
}

/// Detects the tabular layout: the first element's keys, when every
/// element is a uniform flat object over them.
pub fn detect_tabular(elems: &Vec<Value>) -> (r: Option<Vec<Vec<char>>>)
    ensures
        match r {
            Some(keys) => spec_tabular_fields(model_seq(elems@)) == Some(
                crate::scan::views_of(keys@),
            ),
            None => spec_tabular_fields(model_seq(elems@)) is None,
        },
{
    proof {
        lemma_model_seq_index(elems@);
    }
    let ghost ms = model_seq(elems@);
    if elems.len() == 0 {
        return None;
    }
    let mut i: usize = 0;
    while i < elems.len()
        invariant
            0 <= i <= elems@.len(),
            ms == model_seq(elems@),
            ms.len() == elems@.len(),
            forall|j: int| 0 <= j < elems@.len() ==> ms[j] == crate::value::model_of(
                #[trigger] elems@[j],
            ),
            forall|j: int| 0 <= j < i ==> #[trigger] ms[j] matches Model::Obj(_),
        decreases elems@.len() - i,
    {
        match &elems[i] {
            Value::Object(_) => {},
            _ => {
                return None;
            },
        }
        i = i + 1;
    }
    let first_fields = match &elems[0] {
        Value::Object(f) => f,
        _ => {
            proof {
                assert(false);
            }
            return None;
        },
    };
    let mut keys: Vec<Vec<char>> = Vec::new();
    let mut j: usize = 0;
    proof {
        lemma_model_fields_index(first_fields@);
    }
    while j < first_fields.len()
        invariant
            0 <= j <= first_fields@.len(),
            crate::scan::views_of(keys@) =~= keys_of(model_fields(first_fields@)).take(j as int),
            keys@.len() == j,
            model_fields(first_fields@).len() == first_fields@.len(),
            forall|t: int| 0 <= t < first_fields@.len() ==> #[trigger] model_fields(
                first_fields@,
            )[t] == (first_fields@[t].0@, crate::value::model_of(first_fields@[t].1)),
        decreases first_fields@.len() - j,
    {
        let kcopy = crate::chars::subrange_chars(&first_fields[j].0, 0, first_fields[j].0.len());
        proof {
            assert(first_fields@[j as int].0@.subrange(
                0,
                first_fields@[j as int].0@.len() as int,
            ) =~= first_fields@[j as int].0@);
        }
        keys.push(kcopy);
        proof {
            assert(crate::scan::views_of(keys@) =~= keys_of(model_fields(first_fields@)).take(
                j + 1int,
            ));
        }
        j = j + 1;
    }
    let ghost mkeys = keys_of(model_fields(first_fields@));
    proof {
        assert(ms[0] == crate::value::model_of(elems@[0]));
        assert(ms[0]->Obj_0 == model_fields(first_fields@));
        assert(mkeys.take(mkeys.len() as int) =~= mkeys);
        assert(crate::scan::views_of(keys@) == mkeys);
    }
    if keys.len() == 0 {
        return None;
    }
    let mut i2: usize = 0;
    while i2 < elems.len()
        invariant
            0 <= i2 <= elems@.len(),
            ms == model_seq(elems@),
            ms.len() == elems@.len(),
            forall|j2: int| 0 <= j2 < elems@.len() ==> ms[j2] == crate::value::model_of(
                #[trigger] elems@[j2],
            ),
            forall|j2: int| 0 <= j2 < elems@.len() ==> #[trigger] ms[j2] matches Model::Obj(_),
            crate::scan::views_of(keys@) == mkeys,
            keys@.len() == mkeys.len(),
            forall|t: int| 0 <= t < keys@.len() ==> #[trigger] keys@[t]@ == mkeys[t],
            mkeys.len() >= 1,
            mkeys == keys_of(ms[0]->Obj_0),
            forall|j2: int| 0 <= j2 < i2 ==> row_matches(#[trigger] ms[j2], mkeys),
        decreases elems@.len() - i2,
    {
        let ef = match &elems[i2] {
            Value::Object(f) => f,
            _ => {
                proof {
                    assert(false);
                }
                return None;
            },
        };
        proof {
            lemma_model_fields_index(ef@);
            assert(ms[i2 as int] == crate::value::model_of(elems@[i2 as int]));
            assert(ms[i2 as int]->Obj_0 == model_fields(ef@));
        }
        if ef.len() != keys.len() {
            proof {
                assert(!row_matches(ms[i2 as int], mkeys));
            }
            return None;
        }
        let mut t: usize = 0;
        while t < keys.len()
            invariant
                0 <= t <= keys@.len(),
                keys@.len() == mkeys.len(),
                0 <= i2 < ms.len(),
                ms[i2 as int] matches Model::Obj(_),
                ms[i2 as int]->Obj_0 == model_fields(ef@),
                model_fields(ef@).len() == ef@.len(),
                ef@.len() == keys@.len(),
                ms == model_seq(elems@),
                ms.len() == elems@.len() >= 1,
                forall|j2: int| 0 <= j2 < ms.len() ==> #[trigger] ms[j2] matches Model::Obj(_),
                mkeys == keys_of(ms[0]->Obj_0),
                mkeys.len() >= 1,
                forall|u: int| 0 <= u < keys@.len() ==> #[trigger] keys@[u]@ == mkeys[u],
                forall|u: int|
                    0 <= u < t ==> match spec_obj_lookup(
                        model_fields(ef@),
                        #[trigger] mkeys[u],
                    ) {
                        Some(v) => spec_is_primitive(v),
                        None => false,
                    },
            decreases keys@.len() - t,
        {
            match obj_get(ef, &keys[t]) {
                Some(v) => {
                    if !is_primitive(v) {
                        proof {
                            assert(ms[i2 as int]->Obj_0 == model_fields(ef@));
                            assert(!row_matches(ms[i2 as int], mkeys));
                        }
                        return None;
                    }
                },
                None => {
                    proof {
                        assert(ms[i2 as int]->Obj_0 == model_fields(ef@));
                        assert(!row_matches(ms[i2 as int], mkeys));
                    }
                    return None;
                },
            }
            t = t + 1;
        }
        proof {
            assert(ms[i2 as int]->Obj_0 == model_fields(ef@));
            assert(model_fields(ef@).len() == ef@.len());
            assert(row_matches(ms[i2 as int], mkeys));
        }
        i2 = i2 + 1;
    }
    proof {
        assert(spec_tabular_fields(ms) == Some(mkeys));
    }
    Some(keys)
}

/// One tabular row's text: the values under the field names, formatted
/// as tokens and joined by the delimiter. A missing field reads as
/// `null`; the layout test rules that out.
pub open spec fn spec_row_body(
    obj_fields: Seq<(Seq<char>, Model)>,
    keys: Seq<Seq<char>>,
    delim: char,
) -> Seq<char>
    decreases keys.len(),
{
    if keys.len() == 0 {
        Seq::empty()
    } else if keys.len() == 1 {
        spec_format_scalar(lookup_or_null(obj_fields, keys[0]), delim)
    } else {
        spec_row_body(obj_fields, keys.drop_last(), delim) + seq![delim] + spec_format_scalar(
            lookup_or_null(obj_fields, keys.last()),
            delim,
        )
    }
}

/// The value under `k`, or `Null` where there is none.
pub open spec fn lookup_or_null(fields: Seq<(Seq<char>, Model)>, k: Seq<char>) -> Model {
    match spec_obj_lookup(fields, k) {
        Some(v) => v,
        None => Model::Null,
    }
}

/// Growing a row by one field appends a delimiter (except for the
/// first) and that field's token.
proof fn lemma_row_body_step(
    obj_fields: Seq<(Seq<char>, Model)>,
    keys: Seq<Seq<char>>,
    i: int,
    delim: char,
)
    requires
        0 <= i < keys.len(),
    ensures
        spec_row_body(obj_fields, keys.take(i + 1), delim) == if i == 0 {
            spec_format_scalar(lookup_or_null(obj_fields, keys[0]), delim)
        } else {
            spec_row_body(obj_fields, keys.take(i), delim) + seq![delim] + spec_format_scalar(
                lookup_or_null(obj_fields, keys[i]),
                delim,
            )
        },
{
    let t = keys.take(i + 1);
    assert(t.last() == keys[i]);
    if i == 0 {
        assert(t.len() == 1);
        assert(t[0] == keys[0]);
    } else {
        assert(t.drop_last() =~= keys.take(i));
    }
}

/// Appends one tabular row's body to `out`.
pub fn write_row_body(
    out: &mut Vec<char>,
    obj_fields: &Vec<(Vec<char>, Value)>,
    keys: &Vec<Vec<char>>,
    delim: char,
)
    requires
        forall|u: int|
            0 <= u < keys@.len() ==> spec_is_primitive(
                lookup_or_null(model_fields(obj_fields@), #[trigger] keys@[u]@),
            ),
    ensures
        final(out)@ == old(out)@ + spec_row_body(
            model_fields(obj_fields@),
            crate::scan::views_of(keys@),
            delim,
        ),
{
    let ghost mf = model_fields(obj_fields@);
    let ghost kv = crate::scan::views_of(keys@);
    let mut i: usize = 0;
    while i < keys.len()
        invariant
            0 <= i <= keys@.len(),
            mf == model_fields(obj_fields@),
            kv == crate::scan::views_of(keys@),
            kv.len() == keys@.len(),
            forall|u: int| 0 <= u < keys@.len() ==> #[trigger] keys@[u]@ == kv[u],
            forall|u: int|
                0 <= u < keys@.len() ==> spec_is_primitive(
                    lookup_or_null(mf, #[trigger] keys@[u]@),
                ),
            out@ == old(out)@ + spec_row_body(mf, kv.take(i as int), delim),
        decreases keys@.len() - i,
    {
        proof {
            lemma_row_body_step(mf, kv, i as int, delim);
        }
        if i > 0 {
            out.push(delim);
        }
        match obj_get(obj_fields, &keys[i]) {
            Some(v) => {
                proof {
                    assert(lookup_or_null(mf, kv[i as int]) == v@);
                }
                push_scalar(out, v, delim);
            },
            None => {
                let null_value = Value::Null;
                push_scalar(out, &null_value, delim);
            },
        }
        proof {
            if i > 0 {
                assert(out@ =~= old(out)@ + spec_row_body(mf, kv.take(i + 1int), delim));
            } else {
                assert(out@ =~= old(out)@ + spec_row_body(mf, kv.take(1int), delim));
            }
        }
        i = i + 1;
    }
    proof {
        assert(kv.take(kv.len() as int) =~= kv);
    }
}

/// A chain of key segments joined by dots.
pub open spec fn join_dotted(chain: Seq<Seq<char>>) -> Seq<char>
    decreases chain.len(),
{
    if chain.len() == 0 {
        Seq::empty()
    } else if chain.len() == 1 {
        chain[0]
    } else {
        join_dotted(chain.drop_last()) + seq!['.'] + chain.last()
    }
}

/// The context used under a folded key: folding off, so a folded
/// subtree is never folded again.
pub open spec fn no_fold_ctx() -> SerializationContext {
    SerializationContext { key_folding: false, flatten_depth: 0 }
}

/// One nesting level deeper. The counter saturates at the machine
/// limit instead of wrapping; no real tree comes near it.
pub open spec fn step_depth(d: int) -> int {
    if d >= usize::MAX {
        d
    } else {
        d + 1
    }
}

/// Executable counterpart of [`step_depth`].
pub fn deeper(d: usize) -> (r: usize)
    ensures
        r as int == step_depth(d as int),
{
    if d == usize::MAX {
        d
    } else {
        d + 1
    }
}

/// The rows of a tabular body: each on its own line at `row_depth`.
pub open spec fn spec_rows(
    elems: Seq<Model>,
    keys: Seq<Seq<char>>,
    row_depth: int,
    delim: char,
    indent: int,
) -> Seq<char>
    decreases elems.len(),
{
    if elems.len() == 0 {
        Seq::empty()
    } else {
        spec_rows(elems.drop_last(), keys, row_depth, delim, indent) + nl_indent(
            row_depth,
            indent,
        ) + spec_row_body(fields_or_empty(elems.last()), keys, delim)
    }
}

/// An object's field list, or nothing for any other shape.
pub open spec fn fields_or_empty(m: Model) -> Seq<(Seq<char>, Model)> {
    match m {
        Model::Obj(fields) => fields,
        _ => Seq::empty(),
    }
}

/// The text a whole value renders to, starting at `depth`. At the root
/// nothing precedes the first line.
pub open spec fn spec_value(
    m: Model,
    depth: int,
    delim: char,
    is_root: bool,
    indent: int,
    ctx: SerializationContext,
) -> Seq<char>
    decreases m, 4int,
{
    match m {
        Model::Arr(elems) => spec_array(elems, depth, delim, is_root, indent, ctx),
        Model::Obj(fields) => spec_obj(fields, depth, delim, is_root, indent, ctx),
        _ => spec_format_scalar(m, delim),
    }
}

/// The text of an array without a key: its layout is inline when all
/// elements are primitive, tabular when the elements are uniform flat
/// objects, expanded otherwise. Off the root the array starts on a
/// fresh line at `depth`.
pub open spec fn spec_array(
    elems: Seq<Model>,
    depth: int,
    delim: char,
    is_root: bool,
    indent: int,
    ctx: SerializationContext,
) -> Seq<char>
    decreases elems, 3int,
{
    let pre = if is_root {
        Seq::empty()
    } else {
        nl_indent(depth, indent)
    };
    if all_primitives(elems) {
        pre + spec_array_header(elems.len(), delim, true) + spec_inline_body(elems, delim)
    } else {
        match spec_tabular_fields(elems) {
            Some(keys) => pre + spec_tabular_header(elems.len(), delim, keys) + spec_rows(
                elems,
                keys,
                step_depth(depth),
                delim,
                indent,
            ),
            None => pre + spec_array_header(elems.len(), delim, false) + spec_expanded_items(
                elems,
                step_depth(depth),
                delim,
                indent,
                ctx,
                true,
            ),
        }
    }
}

/// The text of an array standing as an object field: the key, the
/// header on the key's line, and the body.
pub open spec fn spec_array_with_key(
    key: Seq<char>,
    elems: Seq<Model>,
    depth: int,
    delim: char,
    indent: int,
    ctx: SerializationContext,
) -> Seq<char>
    decreases elems, 3int,
{
    if all_primitives(elems) {
        spec_format_key(key) + spec_array_header(elems.len(), delim, true) + spec_inline_body(
            elems,
            delim,
        )
    } else {
        match spec_tabular_fields(elems) {
            Some(keys) => spec_format_key(key) + spec_tabular_header(elems.len(), delim, keys)
                + spec_rows(elems, keys, step_depth(depth), delim, indent),
            None => spec_format_key(key) + spec_array_header(elems.len(), delim, false)
                + spec_expanded_items(elems, step_depth(depth), delim, indent, ctx, false),
        }
    }
}

/// The hyphen-prefixed items of an expanded array, one per line at
/// `item_depth`. With `nested_inline`, a complex nested array's header
/// shares the hyphen's line; without it, the nested value starts a
/// fresh line (the behaviour of an expanded array under a key).
pub open spec fn spec_expanded_items(
    elems: Seq<Model>,
    item_depth: int,
    delim: char,
    indent: int,
    ctx: SerializationContext,
    nested_inline: bool,
) -> Seq<char>
    decreases elems, 2int,
{
    if elems.len() == 0 {
        Seq::empty()
    } else {
        spec_expanded_items(elems.drop_last(), item_depth, delim, indent, ctx, nested_inline)
            + nl_indent(item_depth, indent) + spec_expanded_item(
            elems.last(),
            item_depth,
            delim,
            indent,
            ctx,
            nested_inline,
        )
    }
}

/// One expanded item: an empty object is a bare hyphen; otherwise the
/// hyphen and a space, then the item's body.
pub open spec fn spec_expanded_item(
    m: Model,
    item_depth: int,
    delim: char,
    indent: int,
    ctx: SerializationContext,
    nested_inline: bool,
) -> Seq<char>
    decreases m, 5int,
{
    if m matches Model::Obj(fields) && fields.len() == 0 {
        seq!['-']
    } else {
        seq!['-', ' '] + match m {
            Model::Arr(elems) => if all_primitives(elems) {
                spec_array_header(elems.len(), delim, true) + spec_inline_body(elems, delim)
            } else if nested_inline {
                match spec_tabular_fields(elems) {
                    Some(keys) => spec_tabular_header(elems.len(), delim, keys) + spec_rows(
                        elems,
                        keys,
                        step_depth(item_depth),
                        delim,
                        indent,
                    ),
                    None => spec_array_header(elems.len(), delim, false) + spec_inner_items(
                        elems,
                        step_depth(item_depth),
                        delim,
                        indent,
                        ctx,
                    ),
                }
            } else {
                spec_value(m, item_depth, delim, false, indent, ctx)
            },
            Model::Obj(fields) => spec_list_item_obj(fields, item_depth, delim, indent, ctx),
            _ => spec_format_scalar(m, delim),
        }
    }
}

/// The items of an expanded array nested right behind a hyphen: each
/// again hyphen-prefixed, objects as list items, everything else
/// rendered as a value.
pub open spec fn spec_inner_items(
    elems: Seq<Model>,
    d: int,
    delim: char,
    indent: int,
    ctx: SerializationContext,
) -> Seq<char>
    decreases elems, 2int,
{
    if elems.len() == 0 {
        Seq::empty()
    } else {
        spec_inner_items(elems.drop_last(), d, delim, indent, ctx) + nl_indent(d, indent) + seq![
            '-',
            ' ',
        ] + match elems.last() {
            Model::Obj(fields) => spec_list_item_obj(fields, d, delim, indent, ctx),
            _ => spec_value(elems.last(), d, delim, false, indent, ctx),
        }
    }
}

/// An object as a list item: the first field on the hyphen's line, the
/// remaining fields one level deeper.
pub open spec fn spec_list_item_obj(
    fields: Seq<(Seq<char>, Model)>,
    depth: int,
    delim: char,
    indent: int,
    ctx: SerializationContext,
) -> Seq<char>
    decreases fields, 4int,
{
    if fields.len() == 0 {
        Seq::empty()
    } else {
        (match fields[0].1 {
            Model::Arr(elems) => spec_array_with_key(
                fields[0].0,
                elems,
                step_depth(depth),
                delim,
                indent,
                ctx,
            ),
            Model::Obj(inner) => spec_format_key(fields[0].0) + seq![':'] + spec_obj(
                inner,
                step_depth(step_depth(depth)),
                delim,
                false,
                indent,
                ctx,
            ),
            _ => spec_format_key(fields[0].0) + seq![':', ' '] + spec_format_scalar(
                fields[0].1,
                delim,
            ),
        }) + spec_li_rest(fields.skip(1), depth, delim, indent, ctx)
    }
}

/// The later fields of a list-item object, each on a line one level
/// below the hyphen.
pub open spec fn spec_li_rest(
    fields: Seq<(Seq<char>, Model)>,
    depth: int,
    delim: char,
    indent: int,
    ctx: SerializationContext,
) -> Seq<char>
    decreases fields, 2int,
{
    if fields.len() == 0 {
        Seq::empty()
    } else {
        spec_li_rest(fields.drop_last(), depth, delim, indent, ctx) + nl_indent(step_depth(depth), indent)
            + match fields.last().1 {
            Model::Arr(elems) => spec_array_with_key(
                fields.last().0,
                elems,
                step_depth(depth),
                delim,
                indent,
                ctx,
            ),
            Model::Obj(inner) => spec_format_key(fields.last().0) + seq![':'] + spec_obj(
                inner,
                step_depth(step_depth(depth)),
                delim,
                false,
                indent,
                ctx,
            ),
            _ => spec_format_key(fields.last().0) + seq![':', ' '] + spec_format_scalar(
                fields.last().1,
                delim,
            ),
        }
    }
}

/// An object's text: its fields in order, separated by fresh lines at
/// `depth`; at the root nothing precedes the first field.
pub open spec fn spec_obj(
    fields: Seq<(Seq<char>, Model)>,
    depth: int,
    delim: char,
    is_root: bool,
    indent: int,
    ctx: SerializationContext,
) -> Seq<char>
    decreases fields, 5int,
{
    spec_obj_items(fields, key_set(fields), depth, delim, is_root, indent, ctx)
}

/// The fields of an object rendered in order; `all_keys` is the whole
/// object's key set, against which folded keys are checked.
pub open spec fn spec_obj_items(
    items: Seq<(Seq<char>, Model)>,
    all_keys: Set<Seq<char>>,
    depth: int,
    delim: char,
    is_root: bool,
    indent: int,
    ctx: SerializationContext,
) -> Seq<char>
    decreases items, 3int,
{
    if items.len() == 0 {
        Seq::empty()
    } else {
        spec_obj_items(items.drop_last(), all_keys, depth, delim, is_root, indent, ctx) + (if items.len() - 1 == 0 && is_root {
            Seq::empty()
        } else {
            nl_indent(depth, indent)
        }) + spec_obj_field(items.last(), all_keys, depth, delim, indent, ctx)
    }
}

/// One object field's text: an array shares the key's line with its
/// header; at the root with folding on, a chain of single-key objects
/// may fold into a dotted key; otherwise the key, the colon and the
/// value.
pub open spec fn spec_obj_field(
    field: (Seq<char>, Model),
    all_keys: Set<Seq<char>>,
    depth: int,
    delim: char,
    indent: int,
    ctx: SerializationContext,
) -> Seq<char>
    decreases field, 12int,
{
    match field.1 {
        Model::Arr(elems) => spec_array_with_key(field.0, elems, depth, delim, indent, ctx),
        Model::Obj(inner) => {
            if ctx.key_folding && depth == 0 {
                match spec_try_fold(field.0, field.1, all_keys, depth, delim, indent, ctx) {
                    Some(txt) => txt,
                    None => spec_plain_field(field, depth, delim, indent, ctx),
                }
            } else {
                spec_plain_field(field, depth, delim, indent, ctx)
            }
        },
        _ => spec_plain_field(field, depth, delim, indent, ctx),
    }
}

/// A field without folding: the key, the colon, and a nested object or
/// a primitive token.
pub open spec fn spec_plain_field(
    field: (Seq<char>, Model),
    depth: int,
    delim: char,
    indent: int,
    ctx: SerializationContext,
) -> Seq<char>
    decreases field, 11int,
{
    match field.1 {
        Model::Obj(inner) => spec_format_key(field.0) + seq![':'] + spec_obj(
            inner,
            step_depth(depth),
            delim,
            false,
            indent,
            ctx,
        ),
        _ => spec_format_key(field.0) + seq![':', ' '] + spec_format_scalar(field.1, delim),
    }
}

/// The rendered text of a folded field, when the chain starting at
/// `key` folds: `None` when folding is off by depth bound, the key is
/// not unquotable, the chain stops at a multi-key object, or the dotted
/// key collides with a literal sibling.
pub open spec fn spec_try_fold(
    key: Seq<char>,
    m: Model,
    all_keys: Set<Seq<char>>,
    depth: int,
    delim: char,
    indent: int,
    ctx: SerializationContext,
) -> Option<Seq<char>>
    decreases m, 9int,
{
    if ctx.flatten_depth < 2 || !is_valid_unquoted_key_seq(key) {
        None
    } else {
        spec_fold_attempt(seq![key], m, all_keys, depth, delim, indent, ctx)
    }
}

/// Follows a chain of single-key objects, accumulating key segments,
/// and renders the folded field at the chain's end.
pub open spec fn spec_fold_attempt(
    chain: Seq<Seq<char>>,
    m: Model,
    all_keys: Set<Seq<char>>,
    depth: int,
    delim: char,
    indent: int,
    ctx: SerializationContext,
) -> Option<Seq<char>>
    decreases m, 8int,
{
    match m {
        Model::Obj(fields) => {
            if fields.len() != 1 {
                None
            } else if !is_valid_unquoted_key_seq(fields[0].0) {
                None
            } else {
                let chain2 = chain.push(fields[0].0);
                let v = fields[0].1;
                if chain2.len() >= ctx.flatten_depth {
                    spec_fold_terminal(chain2, v, all_keys, depth, delim, indent, ctx)
                } else {
                    match v {
                        Model::Obj(inner) => if inner.len() == 0 {
                            spec_fold_terminal(chain2, v, all_keys, depth, delim, indent, ctx)
                        } else {
                            spec_fold_attempt(chain2, v, all_keys, depth, delim, indent, ctx)
                        },
                        _ => spec_fold_terminal(chain2, v, all_keys, depth, delim, indent, ctx),
                    }
                }
            }
        },
        _ => None,
    }
}

/// The folded field's text at the end of a chain: the dotted key, then
/// the terminal value, re-serialized with folding disabled. `None` when
/// the dotted key collides with a sibling key.
pub open spec fn spec_fold_terminal(
    chain: Seq<Seq<char>>,
    v: Model,
    all_keys: Set<Seq<char>>,
    depth: int,
    delim: char,
    indent: int,
    ctx: SerializationContext,
) -> Option<Seq<char>>
    decreases v, 8int,
{
    if all_keys.contains(join_dotted(chain)) {
        None
    } else {
        Some(
            spec_format_key(join_dotted(chain)) + match v {
                Model::Arr(elems) => spec_write_array_inline(elems, depth, delim, indent, ctx),
                Model::Obj(inner) => seq![':'] + spec_obj(
                    inner,
                    step_depth(depth),
                    delim,
                    false,
                    indent,
                    no_fold_ctx(),
                ),
                _ => seq![':', ' '] + spec_format_scalar(v, delim),
            },
        )
    }
}

/// An array rendered right after a folded key: the header on the same
/// line, and a body whose expanded items are plain values.
pub open spec fn spec_write_array_inline(
    elems: Seq<Model>,
    depth: int,
    delim: char,
    indent: int,
    ctx: SerializationContext,
) -> Seq<char>
    decreases elems, 3int,
{
    if all_primitives(elems) {
        spec_array_header(elems.len(), delim, true) + spec_inline_body(elems, delim)
    } else {
        match spec_tabular_fields(elems) {
            Some(keys) => spec_tabular_header(elems.len(), delim, keys) + spec_rows(
                elems,
                keys,
                step_depth(depth),
                delim,
                indent,
            ),
            None => spec_array_header(elems.len(), delim, false) + spec_wai_items(
                elems,
                step_depth(depth),
                delim,
                indent,
                ctx,
            ),
        }
    }
}

/// The hyphen items of an array behind a folded key: every item,
/// including an empty object, gets a hyphen and a space before its
/// value.
pub open spec fn spec_wai_items(
    elems: Seq<Model>,
    d: int,
    delim: char,
    indent: int,
    ctx: SerializationContext,
) -> Seq<char>
    decreases elems, 2int,
{
    if elems.len() == 0 {
        Seq::empty()
    } else {
        spec_wai_items(elems.drop_last(), d, delim, indent, ctx) + nl_indent(d, indent) + seq![
            '-',
            ' ',
        ] + spec_value(elems.last(), d, delim, false, indent, ctx)
    }
}

/// The whole document text of a value under a configuration: the
/// rendering of the root value at depth zero.
pub open spec fn spec_serialize(
    m: Model,
    delim: char,
    indent: int,
    ctx: SerializationContext,
) -> Seq<char> {
    spec_value(m, 0, delim, true, indent, ctx)
}

/// One more row extends the rows' text by a fresh line and that row.
proof fn lemma_rows_step(
    elems: Seq<Model>,
    keys: Seq<Seq<char>>,
    i: int,
    row_depth: int,
    delim: char,
    indent: int,
)
    requires
        0 <= i < elems.len(),
    ensures
        spec_rows(elems.take(i + 1), keys, row_depth, delim, indent) == spec_rows(
            elems.take(i),
            keys,
            row_depth,
            delim,
            indent,
        ) + nl_indent(row_depth, indent) + spec_row_body(fields_or_empty(elems[i]), keys, delim),
{
    let t = elems.take(i + 1);
    assert(t.last() == elems[i]);
    assert(t.drop_last() =~= elems.take(i));
}

/// One more item extends an expanded body by a fresh line and that
/// item.
proof fn lemma_expanded_items_step(
    elems: Seq<Model>,
    i: int,
    item_depth: int,
    delim: char,
    indent: int,
    ctx: SerializationContext,
    nested_inline: bool,
)
    requires
        0 <= i < elems.len(),
    ensures
        spec_expanded_items(elems.take(i + 1), item_depth, delim, indent, ctx, nested_inline)
            == spec_expanded_items(elems.take(i), item_depth, delim, indent, ctx, nested_inline)
            + nl_indent(item_depth, indent) + spec_expanded_item(
            elems[i],
            item_depth,
            delim,
            indent,
            ctx,
            nested_inline,
        ),
{
    let t = elems.take(i + 1);
    assert(t.last() == elems[i]);
    assert(t.drop_last() =~= elems.take(i));
}

/// One more inner item extends the nested expanded body likewise.
proof fn lemma_inner_items_step(
    elems: Seq<Model>,
    i: int,
    d: int,
    delim: char,
    indent: int,
    ctx: SerializationContext,
)
    requires
        0 <= i < elems.len(),
    ensures
        spec_inner_items(elems.take(i + 1), d, delim, indent, ctx) == spec_inner_items(
            elems.take(i),
            d,
            delim,
            indent,
            ctx,
        ) + nl_indent(d, indent) + seq!['-', ' '] + match elems[i] {
            Model::Obj(fields) => spec_list_item_obj(fields, d, delim, indent, ctx),
            _ => spec_value(elems[i], d, delim, false, indent, ctx),
        },
{
    let t = elems.take(i + 1);
    assert(t.last() == elems[i]);
    assert(t.drop_last() =~= elems.take(i));
}

/// One more item extends a folded array's hyphen list likewise.
proof fn lemma_wai_items_step(
    elems: Seq<Model>,
    i: int,
    d: int,
    delim: char,
    indent: int,
    ctx: SerializationContext,
)
    requires
        0 <= i < elems.len(),
    ensures
        spec_wai_items(elems.take(i + 1), d, delim, indent, ctx) == spec_wai_items(
            elems.take(i),
            d,
            delim,
            indent,
            ctx,
        ) + nl_indent(d, indent) + seq!['-', ' '] + spec_value(elems[i], d, delim, false, indent, ctx),
{
    let t = elems.take(i + 1);
    assert(t.last() == elems[i]);
    assert(t.drop_last() =~= elems.take(i));
}

/// One more field extends a list-item object's tail likewise.
proof fn lemma_li_rest_step(
    fields: Seq<(Seq<char>, Model)>,
    i: int,
    depth: int,
    delim: char,
    indent: int,
    ctx: SerializationContext,
)
    requires
        0 <= i < fields.len(),
    ensures
        spec_li_rest(fields.take(i + 1), depth, delim, indent, ctx) == spec_li_rest(
            fields.take(i),
            depth,
            delim,
            indent,
            ctx,
        ) + nl_indent(step_depth(depth), indent) + match fields[i].1 {
            Model::Arr(elems) => spec_array_with_key(
                fields[i].0,
                elems,
                step_depth(depth),
                delim,
                indent,
                ctx,
            ),
            Model::Obj(inner) => spec_format_key(fields[i].0) + seq![':'] + spec_obj(
                inner,
                step_depth(step_depth(depth)),
                delim,
                false,
                indent,
                ctx,
            ),
            _ => spec_format_key(fields[i].0) + seq![':', ' '] + spec_format_scalar(
                fields[i].1,
                delim,
            ),
        },
{
    let t = fields.take(i + 1);
    assert(t.last() == fields[i]);
    assert(t.drop_last() =~= fields.take(i));
}

/// One more field extends an object's text by its separator and that
/// field.
proof fn lemma_obj_items_step(
    items: Seq<(Seq<char>, Model)>,
    all_keys: Set<Seq<char>>,
    i: int,
    depth: int,
    delim: char,
    is_root: bool,
    indent: int,
    ctx: SerializationContext,
)
    requires
        0 <= i < items.len(),
    ensures
        spec_obj_items(items.take(i + 1), all_keys, depth, delim, is_root, indent, ctx)
            == spec_obj_items(items.take(i), all_keys, depth, delim, is_root, indent, ctx) + (if i
            == 0 && is_root {
            Seq::empty()
        } else {
            nl_indent(depth, indent)
        }) + spec_obj_field(items[i], all_keys, depth, delim, indent, ctx),
{
    let t = items.take(i + 1);
    assert(t.last() == items[i]);
    assert(t.drop_last() =~= items.take(i));
}

/// One more segment extends a dotted key by a dot and that segment.
proof fn lemma_join_dotted_step(chain: Seq<Seq<char>>, i: int)
    requires
        0 <= i < chain.len(),
    ensures
        join_dotted(chain.take(i + 1)) == if i == 0 {
            chain[0]
        } else {
            join_dotted(chain.take(i)) + seq!['.'] + chain[i]
        },
{
    let t = chain.take(i + 1);
    assert(t.last() == chain[i]);
    if i == 0 {
        assert(t.len() == 1);
        assert(t[0] == chain[0]);
    } else {
        assert(t.drop_last() =~= chain.take(i));
    }
}

/// Whether every element of `elems` is a primitive.
fn all_prims_check(elems: &Vec<Value>) -> (r: bool)
    ensures
        r == all_primitives(model_seq(elems@)),
{
    proof {
        lemma_model_seq_index(elems@);
    }
    let ghost ms = model_seq(elems@);
    let mut i: usize = 0;
    while i < elems.len()
        invariant
            0 <= i <= elems@.len(),
            ms == model_seq(elems@),
            ms.len() == elems@.len(),
            forall|j: int| 0 <= j < elems@.len() ==> ms[j] == crate::value::model_of(
                #[trigger] elems@[j],
            ),
            forall|j: int| 0 <= j < i ==> spec_is_primitive(#[trigger] ms[j]),
        decreases elems@.len() - i,
    {
        if !is_primitive(&elems[i]) {
            return false;
        }
        i = i + 1;
    }
    true
}

/// The dotted key a segment chain folds to.
fn join_chain(chain: &Vec<Vec<char>>) -> (r: Vec<char>)
    ensures
        r@ == join_dotted(crate::scan::views_of(chain@)),
{
    let ghost cv = crate::scan::views_of(chain@);
    let mut out: Vec<char> = Vec::new();
    let mut i: usize = 0;
    while i < chain.len()
        invariant
            0 <= i <= chain@.len(),
            cv == crate::scan::views_of(chain@),
            cv.len() == chain@.len(),
            forall|j: int| 0 <= j < chain@.len() ==> #[trigger] chain@[j]@ == cv[j],
            out@ == join_dotted(cv.take(i as int)),
        decreases chain@.len() - i,
    {
        proof {
            lemma_join_dotted_step(cv, i as int);
        }
        if i > 0 {
            out.push('.');
        }
        push_all(&mut out, &chain[i]);
        proof {
            if i > 0 {
                assert(out@ =~= join_dotted(cv.take(i + 1int)));
            } else {
                assert(join_dotted(cv.take(0int)) =~= Seq::<char>::empty());
                assert(out@ =~= join_dotted(cv.take(1int)));
            }
        }
        i = i + 1;
    }
    proof {
        assert(cv.take(cv.len() as int) =~= cv);
    }
    out
}

/// Appends the rows of a tabular body to `out`.
fn write_rows(
    out: &mut Vec<char>,
    elems: &Vec<Value>,
    keys: &Vec<Vec<char>>,
    row_depth: usize,
    delim: char,
    indent: usize,
)
    requires
        spec_tabular_fields(model_seq(elems@)) == Some(crate::scan::views_of(keys@)),
    ensures
        final(out)@ == old(out)@ + spec_rows(
            model_seq(elems@),
            crate::scan::views_of(keys@),
            row_depth as int,
            delim,
            indent as int,
        ),
{
    proof {
        lemma_model_seq_index(elems@);
    }
    let ghost ms = model_seq(elems@);
    let ghost kv = crate::scan::views_of(keys@);
    let mut i: usize = 0;
    while i < elems.len()
        invariant
            0 <= i <= elems@.len(),
            ms == model_seq(elems@),
            ms.len() == elems@.len(),
            kv == crate::scan::views_of(keys@),
            spec_tabular_fields(ms) == Some(kv),
            forall|j: int| 0 <= j < elems@.len() ==> ms[j] == crate::value::model_of(
                #[trigger] elems@[j],
            ),
            out@ == old(out)@ + spec_rows(ms.take(i as int), kv, row_depth as int, delim, indent as int),
        decreases elems@.len() - i,
    {
        proof {
            lemma_rows_step(ms, kv, i as int, row_depth as int, delim, indent as int);
            assert(ms[i as int] matches Model::Obj(_));
            assert(row_matches(ms[i as int], kv));
        }
        write_newline_indent(out, row_depth, indent);
        match &elems[i] {
            Value::Object(ef) => {
                proof {
                    assert(ms[i as int]->Obj_0 == model_fields(ef@));
                    assert(fields_or_empty(ms[i as int]) == model_fields(ef@));
                    assert forall|u: int| 0 <= u < kv.len() implies spec_is_primitive(
                        lookup_or_null(model_fields(ef@), #[trigger] kv[u]),
                    ) by {
                        assert(row_matches(ms[i as int], kv));
                    }
                    assert(forall|u: int| 0 <= u < keys@.len() ==> #[trigger] keys@[u]@ == kv[u]);
                }
                write_row_body(out, ef, keys, delim);
            },
            _ => {
                proof {
                    assert(false);
                }
            },
        }
        i = i + 1;
    }
    proof {
        assert(ms.take(ms.len() as int) =~= ms);
    }
}

/// A copy of `chain` with one more segment.
fn chain_push(chain: &Vec<Vec<char>>, seg: &Vec<char>) -> (r: Vec<Vec<char>>)
    ensures
        crate::scan::views_of(r@) == crate::scan::views_of(chain@).push(seg@),
{
    let mut out: Vec<Vec<char>> = Vec::new();
    let mut i: usize = 0;
    while i < chain.len()
        invariant
            0 <= i <= chain@.len(),
            out@.len() == i,
            forall|j: int| 0 <= j < i ==> #[trigger] out@[j]@ == chain@[j]@,
        decreases chain@.len() - i,
    {
        let c = crate::chars::subrange_chars(&chain[i], 0, chain[i].len());
        proof {
            assert(chain@[i as int]@.subrange(0, chain@[i as int]@.len() as int) =~= chain@[i as int]@);
        }
        out.push(c);
        i = i + 1;
    }
    let s = crate::chars::subrange_chars(seg, 0, seg.len());
    proof {
        assert(seg@.subrange(0, seg@.len() as int) =~= seg@);
    }
    out.push(s);
    proof {
        assert(crate::scan::views_of(out@) =~= crate::scan::views_of(chain@).push(seg@));
    }
    out
}

/// Renders an array standing right behind a folded key.
fn write_array_inline(
    out: &mut Vec<char>,
    elems: &Vec<Value>,
    depth: usize,
    delim: char,
    indent: usize,
    ctx: SerializationContext,
)
    ensures
        final(out)@ == old(out)@ + spec_write_array_inline(
            model_seq(elems@),
            depth as int,
            delim,
            indent as int,
            ctx,
        ),
    decreases elems, 3int,
{
    proof {
        lemma_model_seq_index(elems@);
    }
    let ghost ms = model_seq(elems@);
    if all_prims_check(elems) {
        write_array_header(out, elems.len(), delim, true);
        write_inline_body(out, elems, delim);
        proof {
            assert(out@ =~= old(out)@ + spec_write_array_inline(
                ms,
                depth as int,
                delim,
                indent as int,
                ctx,
            ));
        }
        return ;
    }
    match detect_tabular(elems) {
        Some(ks) => {
            write_tabular_header(out, elems.len(), delim, &ks);
            write_rows(out, elems, &ks, deeper(depth), delim, indent);
            proof {
                assert(out@ =~= old(out)@ + spec_write_array_inline(
                    ms,
                    depth as int,
                    delim,
                    indent as int,
                    ctx,
                ));
            }
        },
        None => {
            write_array_header(out, elems.len(), delim, false);
            let ghost mid = out@;
            let d1 = deeper(depth);
            let mut i: usize = 0;
            while i < elems.len()
                invariant
                    0 <= i <= elems@.len(),
                    ms == model_seq(elems@),
                    ms.len() == elems@.len(),
                    forall|j: int| 0 <= j < elems@.len() ==> ms[j] == crate::value::model_of(
                        #[trigger] elems@[j],
                    ),
                    d1 as int == step_depth(depth as int),
                    out@ == mid + spec_wai_items(
                        ms.take(i as int),
                        d1 as int,
                        delim,
                        indent as int,
                        ctx,
                    ),
                decreases elems@.len() - i,
            {
                proof {
                    lemma_wai_items_step(ms, i as int, d1 as int, delim, indent as int, ctx);
                }
                write_newline_indent(out, d1, indent);
                out.push('-');
                out.push(' ');
                serialize_value(&elems[i], out, d1, delim, false, indent, ctx);
                proof {
                    assert(out@ =~= mid + spec_wai_items(
                        ms.take(i + 1int),
                        d1 as int,
                        delim,
                        indent as int,
                        ctx,
                    ));
                }
                i = i + 1;
            }
            proof {
                assert(ms.take(ms.len() as int) =~= ms);
                assert(out@ =~= old(out)@ + spec_write_array_inline(
                    ms,
                    depth as int,
                    delim,
                    indent as int,
                    ctx,
                ));
            }
        },
    }
}

/// Writes the folded field's tail: the joined dotted key and the
/// terminal value, unless the key collides with a sibling.
fn write_fold_terminal(
    chain: &Vec<Vec<char>>,
    v: &Value,
    root: &Vec<(Vec<char>, Value)>,
    out: &mut Vec<char>,
    depth: usize,
    delim: char,
    indent: usize,
    ctx: SerializationContext,
) -> (r: bool)
    ensures
        match spec_fold_terminal(
            crate::scan::views_of(chain@),
            v@,
            key_set(model_fields(root@)),
            depth as int,
            delim,
            indent as int,
            ctx,
        ) {
            Some(txt) => r && final(out)@ == old(out)@ + txt,
            None => !r && final(out)@ == old(out)@,
        },
    decreases v, 7int,
{
    let joined = join_chain(chain);
    if has_key(root, &joined) {
        return false;
    }
    serialize_key(out, &joined);
    match v {
        Value::Array(elems) => {
            write_array_inline(out, elems, depth, delim, indent, ctx);
        },
        Value::Object(inner) => {
            out.push(':');
            let nf = SerializationContext { key_folding: false, flatten_depth: 0 };
            proof {
                assert(nf == no_fold_ctx());
            }
            serialize_object(inner, out, deeper(depth), delim, false, indent, nf);
        },
        _ => {
            out.push(':');
            out.push(' ');
            push_scalar(out, v, delim);
        },
    }
    true
}

/// Follows a chain of single-key objects from `m`, and writes the
/// folded field when the chain folds; on `false`, nothing was written.
fn write_fold_attempt(
    chain: &Vec<Vec<char>>,
    m: &Value,
    root: &Vec<(Vec<char>, Value)>,
    out: &mut Vec<char>,
    depth: usize,
    delim: char,
    indent: usize,
    ctx: SerializationContext,
) -> (r: bool)
    ensures
        match spec_fold_attempt(
            crate::scan::views_of(chain@),
            m@,
            key_set(model_fields(root@)),
            depth as int,
            delim,
            indent as int,
            ctx,
        ) {
            Some(txt) => r && final(out)@ == old(out)@ + txt,
            None => !r && final(out)@ == old(out)@,
        },
    decreases m, 8int,
{
    match m {
        Value::Object(fields) => {
            proof {
                lemma_model_fields_index(fields@);
            }
            if fields.len() != 1 {
                return false;
            }
            if !is_valid_unquoted_key(&fields[0].0) {
                return false;
            }
            let chain2 = chain_push(chain, &fields[0].0);
            let v = &fields[0].1;
            proof {
                assert(model_fields(fields@)[0] == (fields@[0].0@, crate::value::model_of(
                    fields@[0].1,
                )));
            }
            if chain2.len() >= ctx.flatten_depth {
                write_fold_terminal(&chain2, v, root, out, depth, delim, indent, ctx)
            } else {
                match v {
                    Value::Object(inner) => {
                        if inner.len() == 0 {
                            write_fold_terminal(&chain2, v, root, out, depth, delim, indent, ctx)
                        } else {
                            proof {
                                lemma_model_fields_index(inner@);
                            }
                            write_fold_attempt(&chain2, v, root, out, depth, delim, indent, ctx)
                        }
                    },
                    _ => write_fold_terminal(&chain2, v, root, out, depth, delim, indent, ctx),
                }
            }
        },
        _ => false,
    }
}

/// Writes the hyphen items of an expanded array, one per line at
/// `item_depth`.
#[verifier::rlimit(100)]
fn write_expanded_items(
    elems: &Vec<Value>,
    out: &mut Vec<char>,
    item_depth: usize,
    delim: char,
    indent: usize,
    ctx: SerializationContext,
    nested_inline: bool,
)
    ensures
        final(out)@ == old(out)@ + spec_expanded_items(
            model_seq(elems@),
            item_depth as int,
            delim,
            indent as int,
            ctx,
            nested_inline,
        ),
    decreases elems, 2int,
{
    proof {
        lemma_model_seq_index(elems@);
    }
    let ghost ms = model_seq(elems@);
    let mut i: usize = 0;
    while i < elems.len()
        invariant
            0 <= i <= elems@.len(),
            ms == model_seq(elems@),
            ms.len() == elems@.len(),
            forall|j: int| 0 <= j < elems@.len() ==> ms[j] == crate::value::model_of(
                #[trigger] elems@[j],
            ),
            out@ == old(out)@ + spec_expanded_items(
                ms.take(i as int),
                item_depth as int,
                delim,
                indent as int,
                ctx,
                nested_inline,
            ),
        decreases elems@.len() - i,
    {
        proof {
            lemma_expanded_items_step(
                ms,
                i as int,
                item_depth as int,
                delim,
                indent as int,
                ctx,
                nested_inline,
            );
        }
        write_newline_indent(out, item_depth, indent);
        let ghost item_start = out@;
        let mut empty_obj = false;
        match &elems[i] {
            Value::Object(f) => {
                if f.len() == 0 {
                    empty_obj = true;
                }
            },
            _ => {},
        }
        if empty_obj {
            out.push('-');
            proof {
                assert(ms[i as int] matches Model::Obj(fs) && fs.len() == 0);
                assert(out@ =~= item_start + spec_expanded_item(
                    ms[i as int],
                    item_depth as int,
                    delim,
                    indent as int,
                    ctx,
                    nested_inline,
                ));
            }
        } else {
            out.push('-');
            out.push(' ');
            let ghost body_start = out@;
            proof {
                assert(body_start =~= item_start + seq!['-', ' ']);
            }
            match &elems[i] {
                Value::Array(inner) => {
                    proof {
                        lemma_model_seq_index(inner@);
                        assert(ms[i as int]->Arr_0 == model_seq(inner@));
                    }
                    if all_prims_check(inner) {
                        write_array_header(out, inner.len(), delim, true);
                        write_inline_body(out, inner, delim);
                    } else if nested_inline {
                        match detect_tabular(inner) {
                            Some(ks) => {
                                write_tabular_header(out, inner.len(), delim, &ks);
                                write_rows(out, inner, &ks, deeper(item_depth), delim, indent);
                            },
                            None => {
                                write_array_header(out, inner.len(), delim, false);
                                write_inner_items(
                                    inner,
                                    out,
                                    deeper(item_depth),
                                    delim,
                                    indent,
                                    ctx,
                                );
                            },
                        }
                    } else {
                        serialize_value(&elems[i], out, item_depth, delim, false, indent, ctx);
                    }
                },
                Value::Object(f) => {
                    proof {
                        assert(ms[i as int]->Obj_0 == model_fields(f@));
                    }
                    write_list_item_object(f, out, item_depth, delim, indent, ctx);
                },
                _ => {
                    push_scalar(out, &elems[i], delim);
                },
            }
            proof {
                assert(out@ =~= item_start + spec_expanded_item(
                    ms[i as int],
                    item_depth as int,
                    delim,
                    indent as int,
                    ctx,
                    nested_inline,
                ));
            }
        }
        proof {
            assert(out@ =~= old(out)@ + spec_expanded_items(
                ms.take(i + 1int),
                item_depth as int,
                delim,
                indent as int,
                ctx,
                nested_inline,
            ));
        }
        i = i + 1;
    }
    proof {
        assert(ms.take(ms.len() as int) =~= ms);
    }
}

/// Writes the items of an expanded array nested right behind a hyphen.
fn write_inner_items(
    elems: &Vec<Value>,
    out: &mut Vec<char>,
    d: usize,
    delim: char,
    indent: usize,
    ctx: SerializationContext,
)
    ensures
        final(out)@ == old(out)@ + spec_inner_items(
            model_seq(elems@),
            d as int,
            delim,
            indent as int,
            ctx,
        ),
    decreases elems, 2int,
{
    proof {
        lemma_model_seq_index(elems@);
    }
    let ghost ms = model_seq(elems@);
    let mut i: usize = 0;
    while i < elems.len()
        invariant
            0 <= i <= elems@.len(),
            ms == model_seq(elems@),
            ms.len() == elems@.len(),
            forall|j: int| 0 <= j < elems@.len() ==> ms[j] == crate::value::model_of(
                #[trigger] elems@[j],
            ),
            out@ == old(out)@ + spec_inner_items(
                ms.take(i as int),
                d as int,
                delim,
                indent as int,
                ctx,
            ),
        decreases elems@.len() - i,
    {
        proof {
            lemma_inner_items_step(ms, i as int, d as int, delim, indent as int, ctx);
        }
        write_newline_indent(out, d, indent);
        out.push('-');
        out.push(' ');
        match &elems[i] {
            Value::Object(f) => {
                proof {
                    assert(ms[i as int]->Obj_0 == model_fields(f@));
                }
                write_list_item_object(f, out, d, delim, indent, ctx);
            },
            _ => {
                serialize_value(&elems[i], out, d, delim, false, indent, ctx);
            },
        }
        proof {
            assert(out@ =~= old(out)@ + spec_inner_items(
                ms.take(i + 1int),
                d as int,
                delim,
                indent as int,
                ctx,
            ));
        }
        i = i + 1;
    }
    proof {
        assert(ms.take(ms.len() as int) =~= ms);
    }
}

/// Writes an object as a list item: its first field beside the hyphen,
/// the rest one level deeper.
fn write_list_item_object(
    fields: &Vec<(Vec<char>, Value)>,
    out: &mut Vec<char>,
    depth: usize,
    delim: char,
    indent: usize,
    ctx: SerializationContext,
)
    ensures
        final(out)@ == old(out)@ + spec_list_item_obj(
            model_fields(fields@),
            depth as int,
            delim,
            indent as int,
            ctx,
        ),
    decreases fields, 4int,
{
    proof {
        lemma_model_fields_index(fields@);
    }
    let ghost mf = model_fields(fields@);
    if fields.len() == 0 {
        return ;
    }
    match &fields[0].1 {
        Value::Array(elems) => {
            proof {
                assert(mf[0].1->Arr_0 == model_seq(elems@));
            }
            serialize_array_with_key(&fields[0].0, elems, out, deeper(depth), delim, indent, ctx);
        },
        Value::Object(inner) => {
            serialize_key(out, &fields[0].0);
            out.push(':');
            serialize_object(inner, out, deeper(deeper(depth)), delim, false, indent, ctx);
        },
        _ => {
            serialize_key(out, &fields[0].0);
            out.push(':');
            out.push(' ');
            push_scalar(out, &fields[0].1, delim);
        },
    }
    let ghost first_done = out@;
    let ghost rest = mf.skip(1);
    let ghost first_part = match mf[0].1 {
        Model::Arr(e) => spec_array_with_key(
            mf[0].0,
            e,
            step_depth(depth as int),
            delim,
            indent as int,
            ctx,
        ),
        Model::Obj(inner) => spec_format_key(mf[0].0) + seq![':'] + spec_obj(
            inner,
            step_depth(step_depth(depth as int)),
            delim,
            false,
            indent as int,
            ctx,
        ),
        _ => spec_format_key(mf[0].0) + seq![':', ' '] + spec_format_scalar(mf[0].1, delim),
    };
    proof {
        assert(first_done =~= old(out)@ + first_part);
        assert(spec_list_item_obj(mf, depth as int, delim, indent as int, ctx) == first_part
            + spec_li_rest(rest, depth as int, delim, indent as int, ctx));
    }
    let mut i: usize = 1;
    while i < fields.len()
        invariant
            1 <= i <= fields@.len(),
            mf == model_fields(fields@),
            mf.len() == fields@.len(),
            rest == mf.skip(1),
            spec_list_item_obj(mf, depth as int, delim, indent as int, ctx) == first_part
                + spec_li_rest(rest, depth as int, delim, indent as int, ctx),
            first_done == old(out)@ + first_part,
            forall|j: int| 0 <= j < fields@.len() ==> #[trigger] mf[j] == (
                fields@[j].0@,
                crate::value::model_of(fields@[j].1),
            ),
            out@ == first_done + spec_li_rest(
                rest.take(i - 1),
                depth as int,
                delim,
                indent as int,
                ctx,
            ),
        decreases fields@.len() - i,
    {
        proof {
            lemma_li_rest_step(rest, i - 1, depth as int, delim, indent as int, ctx);
            assert(rest[i - 1] == mf[i as int]);
        }
        write_newline_indent(out, deeper(depth), indent);
        match &fields[i].1 {
            Value::Array(elems) => {
                proof {
                    assert(mf[i as int].1->Arr_0 == model_seq(elems@));
                }
                serialize_array_with_key(
                    &fields[i].0,
                    elems,
                    out,
                    deeper(depth),
                    delim,
                    indent,
                    ctx,
                );
            },
            Value::Object(inner) => {
                serialize_key(out, &fields[i].0);
                out.push(':');
                serialize_object(inner, out, deeper(deeper(depth)), delim, false, indent, ctx);
            },
            _ => {
                serialize_key(out, &fields[i].0);
                out.push(':');
                out.push(' ');
                push_scalar(out, &fields[i].1, delim);
            },
        }
        proof {
            assert(out@ =~= first_done + spec_li_rest(
                rest.take(i as int),
                depth as int,
                delim,
                indent as int,
                ctx,
            ));
        }
        i = i + 1;
    }
    proof {
        assert(rest.take(rest.len() as int) =~= rest);
        assert(out@ =~= old(out)@ + spec_list_item_obj(
            mf,
            depth as int,
            delim,
            indent as int,
            ctx,
        ));
    }
}

/// Writes an array standing as an object field: the key, the header on
/// the key's line, and the body in the fitting layout.
fn serialize_array_with_key(
    key: &Vec<char>,
    elems: &Vec<Value>,
    out: &mut Vec<char>,
    depth: usize,
    delim: char,
    indent: usize,
    ctx: SerializationContext,
)
    ensures
        final(out)@ == old(out)@ + spec_array_with_key(
            key@,
            model_seq(elems@),
            depth as int,
            delim,
            indent as int,
            ctx,
        ),
    decreases elems, 3int,
{
    proof {
        lemma_model_seq_index(elems@);
    }
    let ghost ms = model_seq(elems@);
    serialize_key(out, key);
    if all_prims_check(elems) {
        write_array_header(out, elems.len(), delim, true);
        write_inline_body(out, elems, delim);
        proof {
            assert(out@ =~= old(out)@ + spec_array_with_key(
                key@,
                ms,
                depth as int,
                delim,
                indent as int,
                ctx,
            ));
        }
        return ;
    }
    match detect_tabular(elems) {
        Some(ks) => {
            write_tabular_header(out, elems.len(), delim, &ks);
            write_rows(out, elems, &ks, deeper(depth), delim, indent);
        },
        None => {
            write_array_header(out, elems.len(), delim, false);
            write_expanded_items(elems, out, deeper(depth), delim, indent, ctx, false);
        },
    }
    proof {
        assert(out@ =~= old(out)@ + spec_array_with_key(
            key@,
            ms,
            depth as int,
            delim,
            indent as int,
            ctx,
        ));
    }
}

/// Serializes an array without a key, on a fresh line unless at the
/// root.
pub fn serialize_array(
    elems: &Vec<Value>,
    out: &mut Vec<char>,
    depth: usize,
    delim: char,
    is_root: bool,
    indent: usize,
    ctx: SerializationContext,
)
    ensures
        final(out)@ == old(out)@ + spec_array(
            model_seq(elems@),
            depth as int,
            delim,
            is_root,
            indent as int,
            ctx,
        ),
    decreases elems, 3int,
{
    proof {
        lemma_model_seq_index(elems@);
    }
    let ghost ms = model_seq(elems@);
    if !is_root {
        write_newline_indent(out, depth, indent);
    }
    if all_prims_check(elems) {
        write_array_header(out, elems.len(), delim, true);
        write_inline_body(out, elems, delim);
        proof {
            assert(out@ =~= old(out)@ + spec_array(
                ms,
                depth as int,
                delim,
                is_root,
                indent as int,
                ctx,
            ));
        }
        return ;
    }
    match detect_tabular(elems) {
        Some(ks) => {
            write_tabular_header(out, elems.len(), delim, &ks);
            write_rows(out, elems, &ks, deeper(depth), delim, indent);
        },
        None => {
            write_array_header(out, elems.len(), delim, false);
            write_expanded_items(elems, out, deeper(depth), delim, indent, ctx, true);
        },
    }
    proof {
        assert(out@ =~= old(out)@ + spec_array(
            ms,
            depth as int,
            delim,
            is_root,
            indent as int,
            ctx,
        ));
    }
}

/// Serializes an object: every field in order, each on its own line,
/// with root-level key folding when the context asks for it.
#[verifier::rlimit(100)]
pub fn serialize_object(
    fields: &Vec<(Vec<char>, Value)>,
    out: &mut Vec<char>,
    depth: usize,
    delim: char,
    is_root: bool,
    indent: usize,
    ctx: SerializationContext,
)
    ensures
        final(out)@ == old(out)@ + spec_obj(
            model_fields(fields@),
            depth as int,
            delim,
            is_root,
            indent as int,
            ctx,
        ),
    decreases fields, 5int,
{
    proof {
        lemma_model_fields_index(fields@);
    }
    let ghost mf = model_fields(fields@);
    let ghost all_keys = key_set(mf);
    let mut i: usize = 0;
    while i < fields.len()
        invariant
            0 <= i <= fields@.len(),
            mf == model_fields(fields@),
            mf.len() == fields@.len(),
            all_keys == key_set(mf),
            forall|j: int| 0 <= j < fields@.len() ==> #[trigger] mf[j] == (
                fields@[j].0@,
                crate::value::model_of(fields@[j].1),
            ),
            out@ == old(out)@ + spec_obj_items(
                mf.take(i as int),
                all_keys,
                depth as int,
                delim,
                is_root,
                indent as int,
                ctx,
            ),
        decreases fields@.len() - i,
    {
        proof {
            lemma_obj_items_step(
                mf,
                all_keys,
                i as int,
                depth as int,
                delim,
                is_root,
                indent as int,
                ctx,
            );
        }
        if i > 0 || !is_root {
            write_newline_indent(out, depth, indent);
        }
        let ghost field_start = out@;
        match &fields[i].1 {
            Value::Array(elems) => {
                proof {
                    assert(mf[i as int].1->Arr_0 == model_seq(elems@));
                }
                serialize_array_with_key(&fields[i].0, elems, out, depth, delim, indent, ctx);
            },
            Value::Object(_) => {
                let mut folded = false;
                if ctx.key_folding && depth == 0 {
                    if ctx.flatten_depth >= 2 && is_valid_unquoted_key(&fields[i].0) {
                        let mut chain0: Vec<Vec<char>> = Vec::new();
                        let seg = crate::chars::subrange_chars(&fields[i].0, 0, fields[i].0.len());
                        proof {
                            assert(fields@[i as int].0@.subrange(
                                0,
                                fields@[i as int].0@.len() as int,
                            ) =~= fields@[i as int].0@);
                        }
                        chain0.push(seg);
                        proof {
                            assert(crate::scan::views_of(chain0@) =~= seq![fields@[i as int].0@]);
                        }
                        folded = write_fold_attempt(
                            &chain0,
                            &fields[i].1,
                            fields,
                            out,
                            depth,
                            delim,
                            indent,
                            ctx,
                        );
                    }
                }
                if !folded {
                    match &fields[i].1 {
                        Value::Object(inner) => {
                            serialize_key(out, &fields[i].0);
                            out.push(':');
                            serialize_object(
                                inner,
                                out,
                                deeper(depth),
                                delim,
                                false,
                                indent,
                                ctx,
                            );
                        },
                        _ => {
                            proof {
                                assert(false);
                            }
                        },
                    }
                }
            },
            _ => {
                serialize_key(out, &fields[i].0);
                out.push(':');
                out.push(' ');
                push_scalar(out, &fields[i].1, delim);
            },
        }
        proof {
            assert(out@ =~= field_start + spec_obj_field(
                mf[i as int],
                all_keys,
                depth as int,
                delim,
                indent as int,
                ctx,
            ));
            assert(out@ =~= old(out)@ + spec_obj_items(
                mf.take(i + 1int),
                all_keys,
                depth as int,
                delim,
                is_root,
                indent as int,
                ctx,
            ));
        }
        i = i + 1;
    }
    proof {
        assert(mf.take(mf.len() as int) =~= mf);
    }
}

/// Serializes one value at `depth`: primitives as tokens, arrays and
/// objects through their layouts.
pub fn serialize_value(
    v: &Value,
    out: &mut Vec<char>,
    depth: usize,
    delim: char,
    is_root: bool,
    indent: usize,
    ctx: SerializationContext,
)
    ensures
        final(out)@ == old(out)@ + spec_value(
            v@,
            depth as int,
            delim,
            is_root,
            indent as int,
            ctx,
        ),
    decreases v, 4int,
{
    match v {
        Value::Array(elems) => {
            serialize_array(elems, out, depth, delim, is_root, indent, ctx);
        },
        Value::Object(fields) => {
            serialize_object(fields, out, depth, delim, is_root, indent, ctx);
        },
        _ => {
            push_scalar(out, v, delim);
        },
    }
}

/// Serializes a whole value tree to text. The one refusable input is an
/// indent below two spaces; any value renders, and the text is exactly
/// [`spec_serialize`] of the value's model.
pub fn serialize(
    v: &Value,
    delimiter: crate::value::Delimiter,
    indent_size: usize,
    key_folding: bool,
    flatten_depth: Option<usize>,
) -> (r: Result<String, crate::value::ToonError>)
    ensures
        indent_size < 2 ==> r == Err::<String, crate::value::ToonError>(
            crate::value::ToonError::IndentTooSmall,
        ),
        indent_size >= 2 ==> (match r {
            Ok(s) => s@ == spec_serialize(
                v@,
                delimiter.spec_char(),
                indent_size as int,
                SerializationContext {
                    key_folding,
                    flatten_depth: match flatten_depth {
                        Some(d) => d,
                        None => usize::MAX,
                    },
                },
            ),
            Err(_) => false,
        }),
{
    if indent_size < 2 {
        return Err(crate::value::ToonError::IndentTooSmall);
    }
    let ctx = SerializationContext::new(key_folding, flatten_depth);
    let mut out: Vec<char> = Vec::new();
    serialize_value(v, &mut out, 0, delimiter.to_char(), true, indent_size, ctx);
    proof {
        assert(out@ =~= spec_serialize(
            v@,
            delimiter.spec_char(),
            indent_size as int,
            ctx,
        ));
    }
    Ok(crate::chars::chars_to_string(&out))
}

} // verus!
