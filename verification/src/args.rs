//! Reading the command-line arguments that carry a rule.
use vstd::prelude::*;
use crate::error::Error;
use crate::model::ErrorModel;
use crate::text::chars_of;

verus! {

/// The field delimiter that the argument `arg` names: its one character.
/// An argument that is not a single character (empty, or of two characters
/// or more) is refused.
pub fn parse_delimiter(arg: &str) -> (r: Result<char, Error>)
    ensures
        arg@.len() == 1 ==> r == Ok::<char, Error>(arg@[0]),
        arg@.len() != 1 ==> (r matches Err(e) && e@ == ErrorModel::InvalidDelimiter(arg@)),
{
    let chars = chars_of(arg);
    if chars.len() != 1 {
        return Err(Error::InvalidDelimiter(arg.to_owned()));
    }
    Ok(chars[0])
}

} // verus!
