//! Dotted-key path expansion: splitting a dotted key into segments and
//! deep-merging the value into nested objects, with the strict-mode
//! conflict rules.

use vstd::prelude::*;

use crate::encode::spec_obj_lookup;
use crate::lexical::is_valid_unquoted_key_seq;
use crate::lexical::is_valid_unquoted_key;
use crate::number::wf_model;
use crate::number::wf_model_fields;
use crate::number::lemma_wf_model_fields_index;
use crate::scan::views_of;
use crate::value::Model;
use crate::value::ToonError;
use crate::value::Value;
use crate::value::model_fields;
use crate::value::model_of;
use crate::value::lemma_model_fields_index;

verus! {

/// Inserting under `k` updates the first field with that key in place,
/// or appends a new field: insertion order is kept.
pub open spec fn spec_set_item(
    fields: Seq<(Seq<char>, Model)>,
    k: Seq<char>,
    v: Model,
) -> Seq<(Seq<char>, Model)>
    decreases fields.len(),
{
    if fields.len() == 0 {
        seq![(k, v)]
    } else if fields[0].0 == k {
        seq![(fields[0].0, v)] + fields.skip(1)
    } else {
        seq![fields[0]] + spec_set_item(fields.skip(1), k, v)
    }
}

/// `spec_set_item` characterized by position: an update at the first
/// matching index, or a push.
pub proof fn lemma_set_item_index(fields: Seq<(Seq<char>, Model)>, k: Seq<char>, v: Model, i: int)
    requires
        0 <= i <= fields.len(),
        forall|j: int| 0 <= j < i ==> #[trigger] fields[j].0 != k,
        i == fields.len() || fields[i].0 == k,
    ensures
        i == fields.len() ==> spec_set_item(fields, k, v) == fields.push((k, v)),
        i < fields.len() ==> spec_set_item(fields, k, v) == fields.update(i, (fields[i].0, v)),
    decreases i,
{
    if fields.len() == 0 {
        assert(spec_set_item(fields, k, v) =~= fields.push((k, v)));
    } else if i == 0 {
        if i < fields.len() {
            assert(spec_set_item(fields, k, v) =~= fields.update(0, (fields[0].0, v)));
        }
    } else {
        assert(fields[0].0 != k);
        assert(forall|j: int| 0 <= j < i - 1 ==> #[trigger] fields.skip(1)[j].0 == fields[j + 1].0);
        lemma_set_item_index(fields.skip(1), k, v, i - 1);
        if i == fields.len() {
            assert(spec_set_item(fields.skip(1), k, v) == fields.skip(1).push((k, v)));
            assert(spec_set_item(fields, k, v) =~= fields.push((k, v)));
        } else {
            assert(fields.skip(1)[i - 1] == fields[i]);
            assert(spec_set_item(fields.skip(1), k, v) == fields.skip(1).update(
                i - 1,
                (fields[i].0, v),
            ));
            assert(spec_set_item(fields, k, v) =~= fields.update(i, (fields[i].0, v)));
        }
    }
}

/// Insertion keeps a well-formed field list well formed.
pub proof fn lemma_set_item_wf(fields: Seq<(Seq<char>, Model)>, k: Seq<char>, v: Model, i: int)
    requires
        wf_model_fields(fields),
        wf_model(v),
        0 <= i <= fields.len(),
        forall|j: int| 0 <= j < i ==> #[trigger] fields[j].0 != k,
        i == fields.len() || fields[i].0 == k,
    ensures
        wf_model_fields(spec_set_item(fields, k, v)),
{
    lemma_set_item_index(fields, k, v, i);
    lemma_wf_model_fields_index(fields);
    lemma_wf_model_fields_index(spec_set_item(fields, k, v));
}

/// Insertion keeps well-formedness, whatever position the key takes.
pub proof fn lemma_set_item_wf_any(fields: Seq<(Seq<char>, Model)>, k: Seq<char>, v: Model)
    requires
        wf_model_fields(fields),
        wf_model(v),
    ensures
        wf_model_fields(spec_set_item(fields, k, v)),
{
    lemma_first_key_idx(fields, k);
    lemma_set_item_wf(fields, k, v, first_key_idx(fields, k));
}

/// The first index holding `k`, if any.
pub fn find_key_idx(fields: &Vec<(Vec<char>, Value)>, k: &Vec<char>) -> (r: Option<usize>)
    ensures
        match r {
            Some(i) => 0 <= i < fields@.len() && fields@[i as int].0@ == k@ && forall|j: int|
                0 <= j < i ==> #[trigger] fields@[j].0@ != k@,
            None => forall|j: int| 0 <= j < fields@.len() ==> #[trigger] fields@[j].0@ != k@,
        },
{
    let mut i: usize = 0;
    while i < fields.len()
        invariant
            0 <= i <= fields@.len(),
            forall|j: int| 0 <= j < i ==> #[trigger] fields@[j].0@ != k@,
        decreases fields@.len() - i,
    {
        if crate::chars::chars_eq(&fields[i].0, k) {
            return Some(i);
        }
        i = i + 1;
    }
    None
}

/// The lookup at a scan boundary: found at `i`, or absent.
pub proof fn lemma_lookup_at(mf: Seq<(Seq<char>, Model)>, k: Seq<char>, i: int)
    requires
        0 <= i <= mf.len(),
        forall|j: int| 0 <= j < i ==> #[trigger] mf[j].0 != k,
        i == mf.len() || mf[i].0 == k,
    ensures
        i == mf.len() ==> spec_obj_lookup(mf, k) is None,
        i < mf.len() ==> spec_obj_lookup(mf, k) == Some(mf[i].1),
    decreases i,
{
    if mf.len() == 0 {
    } else if i == 0 {
    } else {
        assert(forall|j: int| 0 <= j < i - 1 ==> #[trigger] mf.skip(1)[j].0 == mf[j + 1].0);
        if i < mf.len() {
            assert(mf.skip(1)[i - 1] == mf[i]);
        }
        lemma_lookup_at(mf.skip(1), k, i - 1);
    }
}

/// Whether two values' shapes conflict for path expansion: one an
/// object and the other not, or one an array and the other not.
pub open spec fn shapes_conflict(a: Model, b: Model) -> bool {
    ||| (a matches Model::Obj(_)) != (b matches Model::Obj(_))
    ||| (a matches Model::Arr(_)) != (b matches Model::Arr(_))
}

/// The strict-mode check before a plain insertion: an existing value
/// under `k` of conflicting shape is an error.
pub open spec fn spec_check_conflict(
    fields: Seq<(Seq<char>, Model)>,
    k: Seq<char>,
    v: Model,
    strict: bool,
) -> Result<(), ToonError> {
    if !strict {
        Ok(())
    } else {
        match spec_obj_lookup(fields, k) {
            Some(ex) => if shapes_conflict(ex, v) {
                Err(ToonError::PathConflict)
            } else {
                Ok(())
            },
            None => Ok(()),
        }
    }
}

/// Executable counterpart of [`spec_check_conflict`].
pub fn check_key_conflict(
    fields: &Vec<(Vec<char>, Value)>,
    k: &Vec<char>,
    v: &Value,
    strict: bool,
) -> (r: Result<(), ToonError>)
    ensures
        r == spec_check_conflict(model_fields(fields@), k@, v@, strict),
{
    if !strict {
        return Ok(());
    }
    proof {
        lemma_model_fields_index(fields@);
    }
    match crate::encode::obj_get(fields, k) {
        Some(ex) => {
            let ex_obj = matches!(ex, Value::Object(_));
            let ex_arr = matches!(ex, Value::Array(_));
            let v_obj = matches!(v, Value::Object(_));
            let v_arr = matches!(v, Value::Array(_));
            if (ex_obj != v_obj) || (ex_arr != v_arr) {
                Err(ToonError::PathConflict)
            } else {
                Ok(())
            }
        },
        None => Ok(()),
    }
}

/// `s` split on every dot, with no regard to quoting.
pub open spec fn split_dots_state(s: Seq<char>, i: int, start: int, acc: Seq<Seq<char>>) -> Seq<
    Seq<char>,
>
    decreases s.len() - i,
    when 0 <= start <= i
{
    if i >= s.len() {
        acc.push(s.subrange(start, s.len() as int))
    } else if s[i] == '.' {
        split_dots_state(s, i + 1, i + 1, acc.push(s.subrange(start, i)))
    } else {
        split_dots_state(s, i + 1, start, acc)
    }
}

/// The dot-separated segments of a key.
pub open spec fn spec_split_dots(s: Seq<char>) -> Seq<Seq<char>> {
    split_dots_state(s, 0, 0, Seq::empty())
}

/// The segments of a dotted key, when the key expands: it holds a dot
/// and every segment fits the identifier grammar. Otherwise the key
/// stays literal.
pub open spec fn spec_split_dotted_key(s: Seq<char>) -> Option<Seq<Seq<char>>> {
    if !(exists|i: int| 0 <= i < s.len() && s[i] == '.') {
        None
    } else {
        let segs = spec_split_dots(s);
        if forall|i: int| 0 <= i < segs.len() ==> is_valid_unquoted_key_seq(#[trigger] segs[i]) {
            Some(segs)
        } else {
            None
        }
    }
}

/// Splits a dotted key into its segments for path expansion; `None`
/// leaves the key literal.
pub fn split_dotted_key(s: &Vec<char>) -> (r: Option<Vec<Vec<char>>>)
    ensures
        match r {
            Some(segs) => spec_split_dotted_key(s@) == Some(views_of(segs@)),
            None => spec_split_dotted_key(s@) is None,
        },
{
    if !crate::scan::contains_char(s, '.') {
        return None;
    }
    let mut segs: Vec<Vec<char>> = Vec::new();
    let mut start: usize = 0;
    let mut i: usize = 0;
    proof {
        assert(views_of(segs@) =~= Seq::<Seq<char>>::empty());
    }
    while i < s.len()
        invariant
            0 <= start <= i <= s@.len(),
            spec_split_dots(s@) == split_dots_state(s@, i as int, start as int, views_of(segs@)),
        decreases s@.len() - i,
    {
        if s[i] == '.' {
            let seg = crate::chars::subrange_chars(s, start, i);
            let ghost segs0 = segs@;
            segs.push(seg);
            proof {
                assert(views_of(segs@) =~= views_of(segs0).push(
                    s@.subrange(start as int, i as int),
                ));
            }
            start = i + 1;
        }
        i = i + 1;
    }
    let last = crate::chars::subrange_chars(s, start, s.len());
    let ghost segs0 = segs@;
    segs.push(last);
    proof {
        assert(views_of(segs@) =~= views_of(segs0).push(
            s@.subrange(start as int, s@.len() as int),
        ));
        assert(spec_split_dots(s@) == views_of(segs@));
    }
    let mut t: usize = 0;
    while t < segs.len()
        invariant
            0 <= t <= segs@.len(),
            views_of(segs@) == spec_split_dots(s@),
            forall|j: int|
                0 <= j < t ==> is_valid_unquoted_key_seq(#[trigger] views_of(segs@)[j]),
        decreases segs@.len() - t,
    {
        if !is_valid_unquoted_key(&segs[t]) {
            proof {
                assert(views_of(segs@)[t as int] == segs@[t as int]@);
            }
            return None;
        }
        proof {
            assert(views_of(segs@)[t as int] == segs@[t as int]@);
        }
        t = t + 1;
    }
    Some(segs)
}

/// Deep-merging `v` under the path `segs[from..]`: walk or create
/// intermediate objects per segment; a conflicting shape on the way is
/// an error in strict mode and is overwritten in lenient mode.
pub open spec fn spec_deep_merge(
    fields: Seq<(Seq<char>, Model)>,
    segs: Seq<Seq<char>>,
    from: int,
    v: Model,
    strict: bool,
) -> Result<Seq<(Seq<char>, Model)>, ToonError>
    decreases segs.len() - from,
    when from >= 0
{
    if from >= segs.len() {
        Ok(fields)
    } else if from == segs.len() - 1 {
        let k = segs[from];
        if strict {
            match spec_obj_lookup(fields, k) {
                Some(ex) => if shapes_conflict(ex, v) {
                    Err(ToonError::PathConflict)
                } else {
                    Ok(spec_set_item(fields, k, v))
                },
                None => Ok(spec_set_item(fields, k, v)),
            }
        } else {
            Ok(spec_set_item(fields, k, v))
        }
    } else {
        let k = segs[from];
        match spec_obj_lookup(fields, k) {
            Some(ex) => match ex {
                Model::Obj(inner) => match spec_deep_merge(inner, segs, from + 1, v, strict) {
                    Ok(m) => Ok(spec_set_item(fields, k, Model::Obj(m))),
                    Err(e) => Err(e),
                },
                _ => if strict {
                    Err(ToonError::PathConflict)
                } else {
                    match spec_deep_merge(Seq::empty(), segs, from + 1, v, strict) {
                        Ok(m) => Ok(spec_set_item(fields, k, Model::Obj(m))),
                        Err(e) => Err(e),
                    }
                },
            },
            None => match spec_deep_merge(Seq::empty(), segs, from + 1, v, strict) {
                Ok(m) => Ok(spec_set_item(fields, k, Model::Obj(m))),
                Err(e) => Err(e),
            },
        }
    }
}

/// The first scan boundary of a key: the first matching index, or the
/// length when the key is absent.
pub open spec fn first_key_idx(fields: Seq<(Seq<char>, Model)>, k: Seq<char>) -> int
    decreases fields.len(),
{
    if fields.len() == 0 {
        0
    } else if fields[0].0 == k {
        0
    } else {
        1 + first_key_idx(fields.skip(1), k)
    }
}

/// The first scan boundary is a boundary: everything before it misses
/// the key, and it either holds the key or is the end.
pub proof fn lemma_first_key_idx(fields: Seq<(Seq<char>, Model)>, k: Seq<char>)
    ensures
        0 <= first_key_idx(fields, k) <= fields.len(),
        forall|j: int| 0 <= j < first_key_idx(fields, k) ==> #[trigger] fields[j].0 != k,
        first_key_idx(fields, k) == fields.len() || fields[first_key_idx(fields, k)].0 == k,
    decreases fields.len(),
{
    if fields.len() == 0 {
    } else if fields[0].0 == k {
    } else {
        lemma_first_key_idx(fields.skip(1), k);
        let i0 = first_key_idx(fields.skip(1), k);
        assert forall|j: int| 0 <= j < i0 + 1 implies #[trigger] fields[j].0 != k by {
            if j > 0 {
                assert(fields.skip(1)[j - 1] == fields[j]);
            }
        }
        if i0 < fields.skip(1).len() {
            assert(fields.skip(1)[i0] == fields[i0 + 1]);
        }
    }
}

/// Deep merge keeps the field list well formed.
pub proof fn lemma_deep_merge_wf(
    fields: Seq<(Seq<char>, Model)>,
    segs: Seq<Seq<char>>,
    from: int,
    v: Model,
    strict: bool,
)
    requires
        from >= 0,
        wf_model_fields(fields),
        wf_model(v),
        spec_deep_merge(fields, segs, from, v, strict) is Ok,
    ensures
        wf_model_fields(spec_deep_merge(fields, segs, from, v, strict).unwrap()),
    decreases segs.len() - from,
{
    lemma_wf_model_fields_index(fields);
    if from >= segs.len() {
    } else if from == segs.len() - 1 {
        let k = segs[from];
        lemma_first_key_idx(fields, k);
        lemma_set_item_wf(fields, k, v, first_key_idx(fields, k));
    } else {
        let k = segs[from];
        lemma_first_key_idx(fields, k);
        let i = first_key_idx(fields, k);
        lemma_lookup_at(fields, k, i);
        match spec_obj_lookup(fields, k) {
            Some(ex) => match ex {
                Model::Obj(inner) => {
                    assert(wf_model(ex));
                    assert(wf_model_fields(inner));
                    lemma_deep_merge_wf(inner, segs, from + 1, v, strict);
                    let m = spec_deep_merge(inner, segs, from + 1, v, strict).unwrap();
                    lemma_set_item_wf(fields, k, Model::Obj(m), i);
                },
                _ => {
                    if !strict {
                        lemma_deep_merge_wf(Seq::empty(), segs, from + 1, v, strict);
                        let m = spec_deep_merge(Seq::empty(), segs, from + 1, v, strict).unwrap();
                        lemma_set_item_wf(fields, k, Model::Obj(m), i);
                    }
                },
            },
            None => {
                lemma_deep_merge_wf(Seq::empty(), segs, from + 1, v, strict);
                let m = spec_deep_merge(Seq::empty(), segs, from + 1, v, strict).unwrap();
                lemma_set_item_wf(fields, k, Model::Obj(m), i);
            },
        }
    }
}

/// Inserts `(k, v)` into an object's field list, updating the first
/// field with that key in place or appending.
pub fn set_item(fields: &mut Vec<(Vec<char>, Value)>, k: Vec<char>, v: Value)
    ensures
        model_fields(final(fields)@) == spec_set_item(model_fields(old(fields)@), k@, model_of(v)),
{
    proof {
        lemma_model_fields_index(old(fields)@);
    }
    let ghost mf = model_fields(fields@);
    match find_key_idx(fields, &k) {
        Some(i) => {
            proof {
                assert(forall|j: int| 0 <= j < i ==> #[trigger] mf[j].0 != k@);
                assert(mf[i as int].0 == k@);
                lemma_set_item_index(mf, k@, model_of(v), i as int);
            }
            let (k_old, _old_v) = fields.remove(i);
            fields.insert(i, (k_old, v));
            proof {
                lemma_model_fields_index(fields@);
                assert(fields@ =~= old(fields)@.update(i as int, (old(fields)@[i as int].0, v)));
                assert(model_fields(fields@) =~= mf.update(i as int, (mf[i as int].0, model_of(v))));
            }
        },
        None => {
            proof {
                assert(forall|j: int| 0 <= j < mf.len() ==> #[trigger] mf[j].0 != k@);
                lemma_set_item_index(mf, k@, model_of(v), mf.len() as int);
            }
            fields.push((k, v));
            proof {
                lemma_model_fields_index(fields@);
                assert(model_fields(fields@) =~= mf.push((k@, model_of(v))));
            }
        },
    }
}

/// Executable counterpart of [`spec_deep_merge`]: walks or creates the
/// path and sets the value. On an error the decode aborts, so the
/// partially merged tree is dropped.
pub fn deep_merge_path(
    fields: &mut Vec<(Vec<char>, Value)>,
    segs: &Vec<Vec<char>>,
    from: usize,
    v: Value,
    strict: bool,
) -> (r: Result<(), ToonError>)
    ensures
        match r {
            Ok(()) => spec_deep_merge(
                model_fields(old(fields)@),
                views_of(segs@),
                from as int,
                model_of(v),
                strict,
            ) == Ok::<Seq<(Seq<char>, Model)>, ToonError>(model_fields(final(fields)@)),
            Err(e) => spec_deep_merge(
                model_fields(old(fields)@),
                views_of(segs@),
                from as int,
                model_of(v),
                strict,
            ) == Err::<Seq<(Seq<char>, Model)>, ToonError>(e),
        },
        r matches Err(_) ==> model_fields(final(fields)@) == model_fields(old(fields)@),
    decreases segs@.len() - from,
{
    proof {
        lemma_model_fields_index(old(fields)@);
    }
    let ghost mf = model_fields(fields@);
    let ghost sv = views_of(segs@);
    if from >= segs.len() {
        return Ok(());
    }
    if from == segs.len() - 1 {
        let k = crate::chars::subrange_chars(&segs[from], 0, segs[from].len());
        proof {
            assert(segs@[from as int]@.subrange(0, segs@[from as int]@.len() as int)
                =~= segs@[from as int]@);
        }
        if strict {
            match crate::encode::obj_get(fields, &k) {
                Some(ex) => {
                    let conflict = (matches!(ex, Value::Object(_)) != matches!(
                        &v,
                        Value::Object(_),
                    )) || (matches!(ex, Value::Array(_)) != matches!(&v, Value::Array(_)));
                    if conflict {
                        return Err(ToonError::PathConflict);
                    }
                },
                None => {},
            }
        }
        set_item(fields, k, v);
        return Ok(());
    }
    let k = crate::chars::subrange_chars(&segs[from], 0, segs[from].len());
    proof {
        assert(segs@[from as int]@.subrange(0, segs@[from as int]@.len() as int)
            =~= segs@[from as int]@);
    }
    match find_key_idx(fields, &k) {
        Some(i) => {
            proof {
                assert(forall|j: int| 0 <= j < i ==> #[trigger] mf[j].0 != k@);
                assert(mf[i as int].0 == k@);
                lemma_lookup_at(mf, k@, i as int);
            }
            let (k_old, ex) = fields.remove(i);
            match ex {
                Value::Object(mut inner) => {
                    let ghost inner0 = model_fields(inner@);
                    let sub = deep_merge_path(&mut inner, segs, from + 1, v, strict);
                    match sub {
                        Err(e) => {
                            fields.insert(i, (k_old, Value::Object(inner)));
                            proof {
                                lemma_model_fields_index(old(fields)@);
                                lemma_model_fields_index(fields@);
                                assert(fields@ =~= old(fields)@.update(
                                    i as int,
                                    (old(fields)@[i as int].0, Value::Object(inner)),
                                ));
                                assert(model_of(Value::Object(inner)) == model_of(
                                    old(fields)@[i as int].1,
                                ));
                                assert(model_fields(fields@) =~= model_fields(old(fields)@));
                            }
                            return Err(e);
                        },
                        Ok(()) => {
                            fields.insert(i, (k_old, Value::Object(inner)));
                            proof {
                                lemma_model_fields_index(fields@);
                                assert(fields@ =~= old(fields)@.update(
                                    i as int,
                                    (old(fields)@[i as int].0, Value::Object(inner)),
                                ));
                                lemma_set_item_index(
                                    mf,
                                    k@,
                                    model_of(Value::Object(inner)),
                                    i as int,
                                );
                                assert(model_fields(fields@) =~= mf.update(
                                    i as int,
                                    (mf[i as int].0, model_of(Value::Object(inner))),
                                ));
                            }
                            Ok(())
                        },
                    }
                },
                other => {
                    if strict {
                        fields.insert(i, (k_old, other));
                        proof {
                            assert(fields@ =~= old(fields)@);
                        }
                        return Err(ToonError::PathConflict);
                    }
                    let mut fresh: Vec<(Vec<char>, Value)> = Vec::new();
                    let sub = deep_merge_path(&mut fresh, segs, from + 1, v, strict);
                    match sub {
                        Ok(()) => {
                            fields.insert(i, (k_old, Value::Object(fresh)));
                            proof {
                                lemma_model_fields_index(fields@);
                                assert(model_fields(Seq::<(Vec<char>, Value)>::empty())
                                    =~= Seq::<(Seq<char>, Model)>::empty());
                                assert(fields@ =~= old(fields)@.update(
                                    i as int,
                                    (old(fields)@[i as int].0, Value::Object(fresh)),
                                ));
                                lemma_set_item_index(
                                    mf,
                                    k@,
                                    model_of(Value::Object(fresh)),
                                    i as int,
                                );
                                assert(model_fields(fields@) =~= mf.update(
                                    i as int,
                                    (mf[i as int].0, model_of(Value::Object(fresh))),
                                ));
                            }
                            Ok(())
                        },
                        Err(e) => {
                            fields.insert(i, (k_old, other));
                            proof {
                                assert(fields@ =~= old(fields)@);
                            }
                            Err(e)
                        },
                    }
                },
            }
        },
        None => {
            proof {
                assert(forall|j: int| 0 <= j < mf.len() ==> #[trigger] mf[j].0 != k@);
                lemma_lookup_at(mf, k@, mf.len() as int);
            }
            let mut fresh: Vec<(Vec<char>, Value)> = Vec::new();
            let sub = deep_merge_path(&mut fresh, segs, from + 1, v, strict);
            match sub {
                Ok(()) => {
                    let ghost pre = fields@;
                    fields.push((k, Value::Object(fresh)));
                    proof {
                        lemma_model_fields_index(fields@);
                        assert(model_fields(Seq::<(Vec<char>, Value)>::empty())
                            =~= Seq::<(Seq<char>, Model)>::empty());
                        lemma_set_item_index(mf, k@, model_of(Value::Object(fresh)), mf.len() as int);
                        assert(model_fields(fields@) =~= mf.push(
                            (k@, model_of(Value::Object(fresh))),
                        ));
                    }
                    Ok(())
                },
                Err(e) => Err(e),
            }
        },
    }
}

} // verus!
