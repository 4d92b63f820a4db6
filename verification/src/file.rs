//! A file as a sequence of bytes cut into lines by `\n`, and reading the
//! line that follows a byte position.
use vstd::prelude::*;
use vstd::utf8::{decode_utf8, valid_utf8};
use crate::error::Error;

verus! {

/// The byte that ends a line.
pub const NEWLINE: u8 = 10u8;

/// Where the line that holds position `p` of `f` ends: just past the first
/// `\n` at or after `p`, or at the end of `f`.
pub open spec fn line_end(f: Seq<u8>, p: int) -> int
    decreases f.len() - p,
{
    if p >= f.len() {
        f.len() as int
    } else if f[p] == NEWLINE {
        p + 1
    } else {
        line_end(f, p + 1)
    }
}

/// A line ends after its start, at a `\n` or at the end of the file, with
/// no `\n` before its last byte.
pub proof fn lemma_line_end(f: Seq<u8>, p: int)
    requires
        0 <= p <= f.len(),
    ensures
        p <= line_end(f, p) <= f.len(),
        p < f.len() ==> p < line_end(f, p),
        line_end(f, p) == f.len() || f[line_end(f, p) - 1] == NEWLINE,
        forall|j: int| p <= j < line_end(f, p) - 1 ==> f[j] != NEWLINE,
    decreases f.len() - p,
{
    if p < f.len() && f[p] != NEWLINE {
        lemma_line_end(f, p + 1);
    }
}

/// A later position is not in an earlier line.
pub proof fn lemma_line_end_monotone(f: Seq<u8>, p: int, q: int)
    requires
        0 <= p <= q <= f.len(),
    ensures
        line_end(f, p) <= line_end(f, q),
    decreases q - p,
{
    lemma_line_end(f, q);
    if p < q && f[p] != NEWLINE {
        lemma_line_end_monotone(f, p + 1, q);
    }
}

/// Where the line that a read at `pos` returns starts: a read at 0 takes the
/// first line; a read elsewhere first skips the rest of the line that holds
/// `pos` (the whole line, where `pos` is its first byte).
pub open spec fn read_start(f: Seq<u8>, pos: int) -> int {
    if pos == 0 {
        0
    } else {
        line_end(f, pos)
    }
}

/// The bounds `(start, end)` of the line that a read at `pos` returns, `end`
/// just past its `\n` or at the end of `f`; `None` where no line follows.
pub open spec fn line_at(f: Seq<u8>, pos: int) -> Option<(int, int)> {
    if pos >= f.len() {
        None
    } else {
        let s = read_start(f, pos);
        if s >= f.len() {
            None
        } else {
            Some((s, line_end(f, s)))
        }
    }
}

/// The characters of the bytes `f[s..e]`, where they are valid UTF-8.
pub open spec fn decoded(f: Seq<u8>, s: int, e: int) -> Option<Seq<char>> {
    if valid_utf8(f.subrange(s, e)) {
        Some(decode_utf8(f.subrange(s, e)))
    } else {
        None
    }
}

/// Finds where the line that holds position `p` ends.
pub(crate) fn find_line_end(f: &[u8], p: usize) -> (r: usize)
    requires
        p <= f@.len(),
    ensures
        r == line_end(f@, p as int),
{
    let mut i = p;
    while i < f.len() && f[i] != NEWLINE
        invariant
            p <= i <= f@.len(),
            line_end(f@, p as int) == line_end(f@, i as int),
        decreases f@.len() - i,
    {
        i = i + 1;
    }
    if i < f.len() {
        i + 1
    } else {
        i
    }
}

/// `String::from_utf8`: the string that the bytes encode, where they are
/// valid UTF-8. The contract claims what its documentation says: the call
/// fails exactly on bytes that are not valid UTF-8, and otherwise keeps the
/// bytes, so the string holds the characters that they encode.
#[verifier::external_body]
fn string_from_utf8(bytes: Vec<u8>) -> (r: Option<String>)
    ensures
        r is Some <==> valid_utf8(bytes@),
        r matches Some(s) ==> s@ == decode_utf8(bytes@),
{
    String::from_utf8(bytes).ok()
}

/// The bytes `bytes` as a string, where they are valid UTF-8.
pub fn bytes_string(bytes: &[u8]) -> (r: Option<String>)
    ensures
        r is Some <==> valid_utf8(bytes@),
        r matches Some(l) ==> l@ == decode_utf8(bytes@),
{
    string_from_utf8(vstd::slice::slice_to_vec(bytes))
}

/// The bytes `f[s..e]` as a string, where they are valid UTF-8.
pub(crate) fn line_string(f: &[u8], s: usize, e: usize) -> (r: Option<String>)
    requires
        s <= e <= f@.len(),
    ensures
        r is Some <==> decoded(f@, s as int, e as int) is Some,
        r matches Some(l) ==> l@ == decoded(f@, s as int, e as int)->0,
{
    bytes_string(vstd::slice::slice_subrange(f, s, e))
}

/// What a read from byte `off` of `f` up to the next `\n` gives: the bytes
/// from `off` to the end of the line that holds `off`, its `\n` included.
pub open spec fn chunk(f: Seq<u8>, off: int) -> Seq<u8> {
    f.subrange(off, line_end(f, off))
}

/// Reads the line that follows byte `position` of the file `f`: at 0 the
/// first line, elsewhere the line after the one that holds `position`, with
/// its `\n` where it has one. `None` where no line follows.
pub fn read_line(f: &[u8], position: u64) -> (r: Result<Option<String>, Error>)
    ensures
        match line_at(f@, position as int) {
            None => r matches Ok(None),
            Some((s, e)) => match decoded(f@, s, e) {
                Some(line) => r matches Ok(Some(l)) && l@ == line,
                None => r matches Err(Error::InvalidUtf8),
            },
        },
{
    let n = f.len();
    if position >= n as u64 {
        return Ok(None);
    }
    let pos = position as usize;
    let start = if pos == 0 {
        0
    } else {
        find_line_end(f, pos)
    };
    if start >= n {
        return Ok(None);
    }
    let end = find_line_end(f, start);
    proof {
        lemma_line_end(f@, start as int);
    }
    match line_string(f, start, end) {
        Some(l) => Ok(Some(l)),
        None => Err(Error::InvalidUtf8),
    }
}

} // verus!
