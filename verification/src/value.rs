//! The value tree that the codec reads and writes, and the configuration
//! types shared by both directions.

use vstd::prelude::*;

verus! {

broadcast use vstd::std_specs::vec::axiom_vec_index_decreases;

/// A document value: the closed variant set of the data model.
///
/// Numbers split into `Int` (a signed 64-bit integer) and `Float`. A float
/// is carried as its canonical decimal text (the rendering of
/// `serde_json::Number`), so that the tree itself stays free of machine
/// floating point; [`crate::number`] holds the trusted bridge that parses
/// and renders such texts.
///
/// `Str` payloads and object keys are sequences of characters. An object
/// keeps its fields in insertion order.
#[derive(Debug, PartialEq)]
pub enum Value {
    Null,
    Bool(bool),
    Int(i64),
    Float(Vec<char>),
    Str(Vec<char>),
    Array(Vec<Value>),
    Object(Vec<(Vec<char>, Value)>),
}

/// The mathematical shape of a [`Value`]: the same tree over `Seq` and
/// `int`, used by every contract in the crate.
pub enum Model {
    Null,
    Bool(bool),
    Int(int),
    Float(Seq<char>),
    Str(Seq<char>),
    Arr(Seq<Model>),
    Obj(Seq<(Seq<char>, Model)>),
}

/// The model of a sequence of values: each element's [`Model`], in order.
pub open spec fn model_seq(s: Seq<Value>) -> Seq<Model>
    decreases s, 0int,
{
    if s.len() == 0 {
        Seq::empty()
    } else {
        model_seq(s.drop_last()).push(model_of(s.last()))
    }
}

/// The model of an object's field list: each key as a sequence of
/// characters beside its value's [`Model`], in order.
pub open spec fn model_fields(s: Seq<(Vec<char>, Value)>) -> Seq<(Seq<char>, Model)>
    decreases s, 0int,
{
    if s.len() == 0 {
        Seq::empty()
    } else {
        model_fields(s.drop_last()).push((s.last().0@, model_of(s.last().1)))
    }
}

/// The [`Model`] of a single [`Value`].
pub open spec fn model_of(v: Value) -> Model
    decreases v, 1int,
{
    match v {
        Value::Null => Model::Null,
        Value::Bool(b) => Model::Bool(b),
        Value::Int(i) => Model::Int(i as int),
        Value::Float(t) => Model::Float(t@),
        Value::Str(s) => Model::Str(s@),
        Value::Array(elems) => Model::Arr(model_seq(elems@)),
        Value::Object(fields) => Model::Obj(model_fields(fields@)),
    }
}

impl View for Value {
    type V = Model;

    open spec fn view(&self) -> Model {
        model_of(*self)
    }
}

/// `model_seq` maps the sequence elementwise: it keeps the length and
/// models each element in place.
pub proof fn lemma_model_seq_index(s: Seq<Value>)
    ensures
        model_seq(s).len() == s.len(),
        forall|i: int| 0 <= i < s.len() ==> #[trigger] model_seq(s)[i] == model_of(s[i]),
    decreases s,
{
    if s.len() > 0 {
        lemma_model_seq_index(s.drop_last());
        assert forall|i: int| 0 <= i < s.len() implies #[trigger] model_seq(s)[i] == model_of(
            s[i],
        ) by {
            if i < s.len() - 1 {
                assert(s.drop_last()[i] == s[i]);
            }
        }
    }
}

/// `model_fields` maps the field list elementwise: it keeps the length,
/// the key of each field and the position of each value.
pub proof fn lemma_model_fields_index(s: Seq<(Vec<char>, Value)>)
    ensures
        model_fields(s).len() == s.len(),
        forall|i: int|
            0 <= i < s.len() ==> #[trigger] model_fields(s)[i] == (
                s[i].0@,
                model_of(s[i].1),
            ),
    decreases s,
{
    if s.len() > 0 {
        lemma_model_fields_index(s.drop_last());
        assert forall|i: int|
            0 <= i < s.len() implies #[trigger] model_fields(s)[i] == (
            s[i].0@,
            model_of(s[i].1),
        ) by {
            if i < s.len() - 1 {
                assert(s.drop_last()[i] == s[i]);
            }
        }
    }
}

/// The field and row separator for inline arrays and tabular rows.
#[derive(Debug, Clone, Copy, PartialEq, Eq, Structural)]
pub enum Delimiter {
    Comma,
    Tab,
    Pipe,
}

impl Delimiter {
    /// The character this delimiter stands for.
    pub open spec fn spec_char(self) -> char {
        match self {
            Delimiter::Comma => ',',
            Delimiter::Tab => '\t',
            Delimiter::Pipe => '|',
        }
    }

    /// Executable counterpart of [`Delimiter::spec_char`].
    pub fn to_char(self) -> (c: char)
        ensures
            c == self.spec_char(),
    {
        match self {
            Delimiter::Comma => ',',
            Delimiter::Tab => '\t',
            Delimiter::Pipe => '|',
        }
    }
}

/// When the decoder splits dotted keys back into nested objects.
#[derive(Debug, Clone, Copy, PartialEq, Eq, Structural)]
pub enum ExpandPaths {
    /// Dotted keys are kept literal.
    Off,
    /// Only keys that were unquoted in the source are expanded.
    Safe,
    /// Every dotted key is expanded.
    Always,
}

/// Why a call failed. Decoding reports the first malformation it meets;
/// encoding can only be refused an indent below the two-space floor.
#[derive(Debug, Clone, Copy, PartialEq, Eq, Structural)]
pub enum ToonError {
    /// A field line has no colon outside quotes.
    MissingColon,
    /// An array header is not `[len]`, `[len<delim>]` or `[len]{fields}:`.
    InvalidHeader,
    /// The legacy `[#N]` header form.
    LegacyHeader,
    /// A declared array length differs from the parsed element count.
    LengthMismatch,
    /// A tabular row's width differs from the declared field count.
    RowWidthMismatch,
    /// A quoted string never closes.
    UnterminatedString,
    /// A backslash is followed by nothing or by an unknown escape.
    InvalidEscape,
    /// Strict mode: a tab character inside leading indentation.
    TabInIndent,
    /// Strict mode: an indentation width that is not a multiple of the unit.
    IndentNotMultiple,
    /// Strict mode: a blank line inside an array body.
    BlankLineInArray,
    /// Strict mode: path expansion met a value of conflicting shape.
    PathConflict,
    /// Encoding was asked for an indent below two spaces.
    IndentTooSmall,
}

impl ToonError {
    /// A short human-readable description of the error.
    pub fn describe(&self) -> String {
        match self {
            ToonError::MissingColon => String::from_str("missing colon in field line"),
            ToonError::InvalidHeader => String::from_str("invalid array header"),
            ToonError::LegacyHeader => String::from_str("legacy [#N] headers are not accepted; use [N]"),
            ToonError::LengthMismatch => String::from_str("declared array length does not match element count"),
            ToonError::RowWidthMismatch => String::from_str("tabular row width does not match field count"),
            ToonError::UnterminatedString => String::from_str("unterminated quoted string"),
            ToonError::InvalidEscape => String::from_str("invalid escape sequence"),
            ToonError::TabInIndent => String::from_str("tabs are not allowed in indentation"),
            ToonError::IndentNotMultiple => String::from_str("indentation is not a multiple of the indent size"),
            ToonError::BlankLineInArray => String::from_str("blank line inside array"),
            ToonError::PathConflict => String::from_str("path expansion conflict"),
            ToonError::IndentTooSmall => String::from_str("indent must be at least 2"),
        }
    }
}

/// Encoder configuration for key folding: whether chains of single-key
/// objects may collapse into dotted keys, and how many segments such a
/// chain may take at most.
#[derive(Debug, Clone, Copy, PartialEq, Eq, Structural)]
pub struct SerializationContext {
    pub key_folding: bool,
    pub flatten_depth: usize,
}

impl SerializationContext {
    /// A context with folding as asked; an absent depth bound means
    /// unlimited folding.
    pub fn new(key_folding: bool, flatten_depth: Option<usize>) -> (r: Self)
        ensures
            r.key_folding == key_folding,
            r.flatten_depth == match flatten_depth {
                Some(d) => d,
                None => usize::MAX,
            },
    {
        SerializationContext {
            key_folding,
            flatten_depth: match flatten_depth {
                Some(d) => d,
                None => usize::MAX,
            },
        }
    }
}

} // verus!
