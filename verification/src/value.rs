//! The key of a line: a number or a text, and how keys compare.
use vstd::prelude::*;
use core::cmp::Ordering;
use vstd::std_specs::cmp::{PartialEqSpecImpl, PartialOrdSpecImpl};
use crate::error::{Error, outcome};
use crate::model::{ErrorModel, ValueModel, value_lt};
use crate::number::{parse_i128, parse_i128_spec};
use crate::text::{chars_of, compare_chars, trim_bounds, trim_ws};

verus! {

/// The key of a line, or the target of a search. Keys are ordered with
/// every number before every text, numbers by value and texts
/// lexicographically.
#[derive(Debug, Clone, Ord)]
pub enum Value {
    Number(i128),
    Text(String),
}

impl View for Value {
    type V = ValueModel;

    open spec fn view(&self) -> ValueModel {
        match self {
            Value::Number(n) => ValueModel::Number(*n),
            Value::Text(s) => ValueModel::Text(s@),
        }
    }
}

/// What `Value::build` gives for the text `s`: in numeric mode the number
/// that `s`, without its surrounding white space, spells; else the text.
pub open spec fn build_spec(s: Seq<char>, is_numeric: bool) -> Result<ValueModel, ErrorModel> {
    if is_numeric {
        match parse_i128_spec(trim_ws(s)) {
            Ok(n) => Ok(ValueModel::Number(n)),
            Err(e) => Err(ErrorModel::InvalidNumber(e)),
        }
    } else {
        Ok(ValueModel::Text(s))
    }
}

/// How `a` compares with `b` in the order of keys.
pub open spec fn key_order(a: ValueModel, b: ValueModel) -> Ordering {
    if value_lt(a, b) {
        Ordering::Less
    } else if a == b {
        Ordering::Equal
    } else {
        Ordering::Greater
    }
}

impl Value {
    /// Reads `s` as a key: a number when `is_numeric`, else a text.
    pub fn build(s: &str, is_numeric: bool) -> (r: Result<Value, Error>)
        ensures
            outcome(r) == build_spec(s@, is_numeric),
    {
        if is_numeric {
            let chars = chars_of(s);
            let (a, b) = trim_bounds(&chars);
            match parse_i128(&chars, a, b) {
                Ok(n) => Ok(Value::Number(n)),
                Err(e) => Err(Error::InvalidNumber(e)),
            }
        } else {
            Ok(Value::Text(s.to_owned()))
        }
    }

    /// Compares two keys: numbers before texts, numbers by value, texts
    /// lexicographically.
    pub fn compare(&self, other: &Value) -> (r: Ordering)
        ensures
            r == key_order(self@, other@),
    {
        match (self, other) {
            (Value::Number(a), Value::Number(b)) => {
                if *a < *b {
                    Ordering::Less
                } else if *a == *b {
                    Ordering::Equal
                } else {
                    Ordering::Greater
                }
            },
            (Value::Text(a), Value::Text(b)) => {
                let x = chars_of(a.as_str());
                let y = chars_of(b.as_str());
                let c = compare_chars(&x, &y);
                if c == -1 {
                    Ordering::Less
                } else if c == 0 {
                    Ordering::Equal
                } else {
                    Ordering::Greater
                }
            },
            (Value::Number(_), Value::Text(_)) => Ordering::Less,
            (Value::Text(_), Value::Number(_)) => Ordering::Greater,
        }
    }
}

impl PartialEq for Value {
    fn eq(&self, other: &Self) -> (r: bool) {
        match (self, other) {
            (Value::Number(a), Value::Number(b)) => *a == *b,
            (Value::Text(a), Value::Text(b)) => *a == *b,
            _ => false,
        }
    }
}

impl PartialEqSpecImpl for Value {
    open spec fn obeys_eq_spec() -> bool {
        true
    }

    open spec fn eq_spec(&self, other: &Self) -> bool {
        self@ == other@
    }
}

impl Eq for Value {

}

impl PartialOrd for Value {
    fn partial_cmp(&self, other: &Self) -> (r: Option<Ordering>) {
        Some(self.compare(other))
    }
}

impl PartialOrdSpecImpl for Value {
    open spec fn obeys_partial_cmp_spec() -> bool {
        true
    }

    open spec fn partial_cmp_spec(&self, other: &Self) -> Option<Ordering> {
        Some(key_order(self@, other@))
    }
}

} // verus!
