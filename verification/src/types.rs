//! Cell classification and the records that the aggregators produce.

use vstd::prelude::*;
use crate::number::{i64_of, number_of, parse_decimal, parse_i64, Decimal, Number};
use crate::text::{eq_ignore_case, is_word, lemma_trim_idempotent, to_chars, trim, trimmed};

verus! {

/// The type inferred for a column.
#[derive(Debug, Clone, Copy, PartialEq, Eq, Structural)]
pub enum DataType {
    Integer,
    Float,
    Boolean,
    String,
}

/// What one cell holds.
#[derive(Debug, Clone, PartialEq, Eq)]
pub enum Value {
    Null,
    Integer(i64),
    Float(Decimal),
    Boolean(bool),
    String,
}

/// Where a percentile lies in an ascending list: between the elements at
/// `lower` and `upper`, `weight` hundredths of the way from the first to the
/// second.
#[derive(Debug, Clone, Copy, PartialEq, Eq, Structural)]
pub struct Quantile {
    pub lower: usize,
    pub upper: usize,
    pub weight: u8,
}

/// What is known of a column after a pass over its cells. `numbers` holds
/// the numeric cells in ascending order, and the percentiles point into it;
/// `min` and `max` are the least and greatest number written out in full
/// where the column is numeric, else the first and last text in
/// lexicographic order.
#[derive(Debug, Clone, PartialEq, Eq)]
pub struct ColumnStats {
    pub name: String,
    pub data_type: DataType,
    pub count: u64,
    pub null_count: u64,
    pub min: Option<String>,
    pub max: Option<String>,
    pub min_len: Option<usize>,
    pub max_len: Option<usize>,
    pub unique_count: Option<usize>,
    pub numbers: Vec<Decimal>,
    pub median: Option<Quantile>,
    pub p25: Option<Quantile>,
    pub p75: Option<Quantile>,
    pub top_values: Option<Vec<(String, u64)>>,
}

/// The inferred type of a column, with its null count and a few of its
/// values.
#[derive(Debug, Clone, PartialEq, Eq)]
pub struct ColumnSchema {
    pub name: String,
    pub inferred_type: DataType,
    pub null_count: u64,
    pub total_count: u64,
    pub sample_values: Vec<String>,
}

/// The mathematical form of a `Value`.
pub ghost enum Classified {
    Null,
    Integer(i64),
    Float(Number),
    Boolean(bool),
    Text,
}

impl View for Value {
    type V = Classified;

    open spec fn view(&self) -> Classified {
        match self {
            Value::Null => Classified::Null,
            Value::Integer(i) => Classified::Integer(*i),
            Value::Float(d) => Classified::Float(d@),
            Value::Boolean(b) => Classified::Boolean(*b),
            Value::String => Classified::Text,
        }
    }
}

/// A cell is null when it is empty after trimming, or one of the words
/// `null`, `na`, `n/a` in any case.
pub open spec fn is_null_text(s: Seq<char>) -> bool {
    let t = trim(s);
    t.len() == 0 || eq_ignore_case(t, "null"@) || eq_ignore_case(t, "na"@) || eq_ignore_case(
        t,
        "n/a"@,
    )
}

/// Classification of a cell: null first, then boolean, then a whole number
/// of 64 bits, then any other number, then plain text.
pub open spec fn classify(s: Seq<char>) -> Classified {
    let t = trim(s);
    if is_null_text(s) {
        Classified::Null
    } else if eq_ignore_case(t, "true"@) {
        Classified::Boolean(true)
    } else if eq_ignore_case(t, "false"@) {
        Classified::Boolean(false)
    } else if i64_of(t) is Some {
        Classified::Integer(i64_of(t).unwrap())
    } else if number_of(t) is Some {
        Classified::Float(number_of(t).unwrap())
    } else {
        Classified::Text
    }
}

/// A cell is classified as its trimmed text is.
pub proof fn lemma_classify_trimmed(s: Seq<char>)
    ensures
        classify(trim(s)) == classify(s),
        is_null_text(trim(s)) == is_null_text(s),
{
    lemma_trim_idempotent(s);
}

/// The column type that a classified cell speaks for.
pub open spec fn type_of(c: Classified) -> DataType {
    match c {
        Classified::Integer(_) => DataType::Integer,
        Classified::Float(_) => DataType::Float,
        Classified::Boolean(_) => DataType::Boolean,
        Classified::Null => DataType::String,
        Classified::Text => DataType::String,
    }
}

/// The least type that holds both `a` and `b`: `Integer` below `Float`,
/// `String` above all, `Boolean` apart from the numbers.
pub open spec fn join(a: DataType, b: DataType) -> DataType {
    if a == b {
        a
    } else if (a == DataType::Integer && b == DataType::Float) || (a == DataType::Float && b
        == DataType::Integer) {
        DataType::Float
    } else {
        DataType::String
    }
}

/// The type of a column after a cell of type `seen`.
pub open spec fn promoted(current: Option<DataType>, seen: DataType) -> DataType {
    match current {
        None => seen,
        Some(t) => join(t, seen),
    }
}

impl DataType {
    /// The name of the type in lower case.
    pub fn to_string(&self) -> (r: String)
        ensures
            r@ == match self {
                DataType::Integer => "integer"@,
                DataType::Float => "float"@,
                DataType::Boolean => "boolean"@,
                DataType::String => "string"@,
            },
    {
        match self {
            DataType::Integer => "integer".to_owned(),
            DataType::Float => "float".to_owned(),
            DataType::Boolean => "boolean".to_owned(),
            DataType::String => "string".to_owned(),
        }
    }
}

/// The least type that holds both `a` and `b`.
pub fn promote(a: DataType, b: DataType) -> (r: DataType)
    ensures
        r == join(a, b),
{
    match (a, b) {
        (DataType::Integer, DataType::Integer) => DataType::Integer,
        (DataType::Float, DataType::Float) => DataType::Float,
        (DataType::Boolean, DataType::Boolean) => DataType::Boolean,
        (DataType::Integer, DataType::Float) => DataType::Float,
        (DataType::Float, DataType::Integer) => DataType::Float,
        _ => DataType::String,
    }
}

/// Promotion does not depend on the order of its arguments.
pub proof fn lemma_join_commutative(a: DataType, b: DataType)
    ensures
        join(a, b) == join(b, a),
{
}

/// Promotion may be grouped either way.
pub proof fn lemma_join_associative(a: DataType, b: DataType, c: DataType)
    ensures
        join(join(a, b), c) == join(a, join(b, c)),
{
}

/// One observation of `String` decides the type.
pub proof fn lemma_join_string_absorbs(a: DataType)
    ensures
        join(a, DataType::String) == DataType::String,
        join(DataType::String, a) == DataType::String,
        join(a, a) == a,
{
}

/// Whether a cell, given as characters, is null.
pub fn is_null_chars(s: &[char]) -> (r: bool)
    ensures
        r == is_null_text(s@),
{
    let t = trimmed(s);
    t.len() == 0 || is_word(t, "null") || is_word(t, "na") || is_word(t, "n/a")
}

/// Whether a cell is null.
pub fn is_null(s: &str) -> (r: bool)
    ensures
        r == is_null_text(s@),
{
    let chars = to_chars(s);
    is_null_chars(chars.as_slice())
}

/// Classifies a cell given as characters.
pub fn classify_chars(s: &[char]) -> (r: (DataType, Value))
    ensures
        r.1@ == classify(s@),
        r.0 == type_of(r.1@),
{
    let t = trimmed(s);
    if is_null_chars(s) {
        return (DataType::String, Value::Null);
    }
    if is_word(t, "true") {
        return (DataType::Boolean, Value::Boolean(true));
    }
    if is_word(t, "false") {
        return (DataType::Boolean, Value::Boolean(false));
    }
    if let Some(i) = parse_i64(t) {
        return (DataType::Integer, Value::Integer(i));
    }
    if let Some(d) = parse_decimal(t) {
        return (DataType::Float, Value::Float(d));
    }
    (DataType::String, Value::String)
}

/// Classifies a cell.
pub fn parse_value(s: &str) -> (r: (DataType, Value))
    ensures
        r.1@ == classify(s@),
        r.0 == type_of(r.1@),
{
    let chars = to_chars(s);
    classify_chars(chars.as_slice())
}

} // verus!
