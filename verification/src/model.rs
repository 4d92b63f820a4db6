//! The mathematical values that the contracts speak of: keys and errors.
use vstd::prelude::*;
use crate::number::NumberError;
use crate::text::{lex_lt, lemma_lex_irreflexive, lemma_lex_total, lemma_lex_transitive};

verus! {

/// A key as the contracts see it: a number, or the characters of a text.
pub enum ValueModel {
    Number(i128),
    Text(Seq<char>),
}

/// An error as the contracts see it.
pub enum ErrorModel {
    /// Bytes that are not valid UTF-8.
    InvalidUtf8,
    /// A line without the column asked for; it holds the line.
    InvalidLine(Seq<char>),
    /// A key column that is not a decimal `i128`.
    InvalidNumber(NumberError),
    /// A delimiter argument that is not exactly one character; it holds the
    /// argument.
    InvalidDelimiter(Seq<char>),
}

/// The strict order of keys: every number comes before every text, numbers
/// go by value and texts lexicographically.
pub open spec fn value_lt(a: ValueModel, b: ValueModel) -> bool {
    match (a, b) {
        (ValueModel::Number(x), ValueModel::Number(y)) => x < y,
        (ValueModel::Text(x), ValueModel::Text(y)) => lex_lt(x, y),
        (ValueModel::Number(_), ValueModel::Text(_)) => true,
        (ValueModel::Text(_), ValueModel::Number(_)) => false,
    }
}

/// No key comes before itself.
pub proof fn lemma_value_irreflexive(a: ValueModel)
    ensures
        !value_lt(a, a),
{
    if let ValueModel::Text(x) = a {
        lemma_lex_irreflexive(x);
    }
}

/// The order of keys is transitive.
pub proof fn lemma_value_transitive(a: ValueModel, b: ValueModel, c: ValueModel)
    requires
        value_lt(a, b),
        value_lt(b, c),
    ensures
        value_lt(a, c),
{
    if let (ValueModel::Text(x), ValueModel::Text(y), ValueModel::Text(z)) = (a, b, c) {
        lemma_lex_transitive(x, y, z);
    }
}

/// Of two different keys, one comes before the other.
pub proof fn lemma_value_total(a: ValueModel, b: ValueModel)
    requires
        a != b,
    ensures
        value_lt(a, b) || value_lt(b, a),
{
    if let (ValueModel::Text(x), ValueModel::Text(y)) = (a, b) {
        lemma_lex_total(x, y);
    }
}

} // verus!
