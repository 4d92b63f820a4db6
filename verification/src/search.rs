//! Reading the key column of a line, the binary search for the first line
//! whose key equals a target, and the run of equal lines from there.
use vstd::prelude::*;
use crate::error::{Error, outcome};
use crate::laws::{first_match, lemma_search_finds_first, sorted, well_formed};
use crate::file::{bytes_string, chunk, decoded, find_line_end, lemma_line_end, line_end};
use vstd::utf8::{decode_utf8, valid_utf8};
use crate::model::{ErrorModel, ValueModel, value_lt};
use crate::text::{chars_of, field_bounds, split_fields, trim_end_newlines, trimmed_newlines_len};
use crate::searcher::{Searcher, Step, search_outcome};
use crate::value::{Value, build_spec};

verus! {

/// The key in column `position` (counted from 0) of `line`, whose fields are
/// separated by `sep`, once the line feeds at the end of the line are
/// removed. An error where the line has no such column, or where the column
/// is not a number in numeric mode.
pub open spec fn column_spec(line: Seq<char>, sep: char, position: int, is_numeric: bool) -> Result<
    ValueModel,
    ErrorModel,
> {
    let fields = split_fields(trim_end_newlines(line), sep);
    if 0 <= position < fields.len() {
        build_spec(fields[position], is_numeric)
    } else {
        Err(ErrorModel::InvalidLine(line))
    }
}

/// Reads the key in column `position` of `line`.
pub fn get_column(line: &str, separator: char, position: usize, is_numeric: bool) -> (r: Result<
    Value,
    Error,
>)
    ensures
        outcome(r) == column_spec(line@, separator, position as int, is_numeric),
{
    let chars = chars_of(line);
    let len = trimmed_newlines_len(&chars);
    assert(chars@.take(len as int) =~= chars@.subrange(0, len as int));
    match field_bounds(&chars, len, separator, position) {
        Some((a, b)) => {
            let field = line.substring_char(a, b);
            Value::build(field, is_numeric)
        },
        None => Err(Error::InvalidLine(line.to_owned())),
    }
}

/// The key of the bytes `f[s..e]` taken as a line.
pub open spec fn key_of_bytes(
    f: Seq<u8>,
    s: int,
    e: int,
    sep: char,
    position: int,
    is_numeric: bool,
) -> Result<ValueModel, ErrorModel> {
    match decoded(f, s, e) {
        Some(line) => column_spec(line, sep, position, is_numeric),
        None => Err(ErrorModel::InvalidUtf8),
    }
}

/// Where the line that a probe at `pos` reads starts: the first line start
/// at or after `pos`, that is 0 for `pos == 0` and otherwise the end of the
/// line that holds byte `pos - 1`.
pub open spec fn probe_start(f: Seq<u8>, pos: int) -> int {
    if pos == 0 {
        0
    } else {
        line_end(f, pos - 1)
    }
}

/// The bounds `(start, end)` of the line that a probe at `pos` reads, `end`
/// just past its `\n` or at the end of `f`; `None` where no line starts at
/// or after `pos`.
pub open spec fn probe_line(f: Seq<u8>, pos: int) -> Option<(int, int)> {
    if pos >= f.len() {
        None
    } else {
        let s = probe_start(f, pos);
        if s >= f.len() {
            None
        } else {
            Some((s, line_end(f, s)))
        }
    }
}

/// What a probe at `pos` finds: the start and key of the first line that
/// starts at or after `pos`, `None` where there is none, or the error met.
pub open spec fn probe(f: Seq<u8>, pos: int, sep: char, position: int, is_numeric: bool) -> Result<
    Option<(int, ValueModel)>,
    ErrorModel,
> {
    match probe_line(f, pos) {
        None => Ok(None),
        Some((s, e)) => match key_of_bytes(f, s, e, sep, position, is_numeric) {
            Ok(v) => Ok(Some((s, v))),
            Err(err) => Err(err),
        },
    }
}

/// The binary search over the byte positions `left..=right` of `f`, with
/// `found` the start of the last line met whose key equals `target`: it
/// probes the middle position, keeps the upper half where the key there is
/// below the target, and the lower half otherwise.
pub open spec fn search_from(
    f: Seq<u8>,
    sep: char,
    target: ValueModel,
    position: int,
    is_numeric: bool,
    left: int,
    right: int,
    found: Option<int>,
) -> Result<Option<int>, ErrorModel>
    decreases right - left + 1,
{
    if left > right {
        Ok(found)
    } else {
        let mid = left + (right - left) / 2;
        match probe(f, mid, sep, position, is_numeric) {
            Err(e) => Err(e),
            Ok(None) => search_from(f, sep, target, position, is_numeric, left, mid - 1, found),
            Ok(Some((s, v))) => if v == target {
                search_from(f, sep, target, position, is_numeric, left, mid - 1, Some(s))
            } else if value_lt(v, target) {
                search_from(f, sep, target, position, is_numeric, mid + 1, right, found)
            } else {
                search_from(f, sep, target, position, is_numeric, left, mid - 1, found)
            },
        }
    }
}

/// What `binary_search_in_file` gives: the search over all byte positions
/// of `f`.
pub open spec fn search_spec(
    f: Seq<u8>,
    sep: char,
    target: ValueModel,
    position: int,
    is_numeric: bool,
) -> Result<Option<int>, ErrorModel> {
    if f.len() == 0 {
        Ok(None)
    } else {
        search_from(f, sep, target, position, is_numeric, 0, f.len() - 1, None)
    }
}

/// Searches the file `f`, sorted on the key in column `position` of its
/// lines (fields separated by `separator`), for `target`; gives the byte
/// offset of the start of the line found, the first of the equal lines in a
/// sorted file.
pub fn binary_search_in_file(
    f: &[u8],
    separator: char,
    target: &Value,
    position: usize,
    is_numeric: bool,
) -> (r: Result<Option<u64>, Error>)
    ensures
        match search_spec(f@, separator, target@, position as int, is_numeric) {
            Ok(None) => r matches Ok(None),
            Ok(Some(s)) => r matches Ok(Some(s2)) && s2 == s,
            Err(e) => r matches Err(e2) && e2@ == e,
        },
        well_formed(f@, separator, position as int, is_numeric) && sorted(
            f@,
            separator,
            position as int,
            is_numeric,
        ) ==> (r matches Ok(x) && first_match(
            f@,
            separator,
            target@,
            position as int,
            is_numeric,
            match x {
                Some(s) => Some(s as int),
                None => None,
            },
        )),
{
    proof {
        if well_formed(f@, separator, position as int, is_numeric) && sorted(
            f@,
            separator,
            position as int,
            is_numeric,
        ) {
            lemma_search_finds_first(f@, separator, target@, position as int, is_numeric);
        }
    }
    let (mut searcher, mut step) = Searcher::new(
        f.len() as u64,
        separator,
        target,
        position,
        is_numeric,
    );
    assert(f@.len() == f.len() as u64);
    // Where the last read ended: where a `ReadNext` reads from.
    let mut next: usize = 0;
    loop
        invariant
            match step {
                Step::ReadFrom(off) => {
                    &&& off < f@.len()
                    &&& searcher.searches(f@, separator, target@, position as int, is_numeric)
                    &&& off == searcher.pending()
                },
                Step::ReadNext => {
                    &&& next < f@.len()
                    &&& searcher.searches(f@, separator, target@, position as int, is_numeric)
                    &&& next == searcher.pending()
                },
                Step::Finished(res) => search_outcome(res) == search_spec(
                    f@,
                    separator,
                    target@,
                    position as int,
                    is_numeric,
                ),
            },
            well_formed(f@, separator, position as int, is_numeric) && sorted(
                f@,
                separator,
                position as int,
                is_numeric,
            ) ==> (search_spec(f@, separator, target@, position as int, is_numeric) matches Ok(x)
                && first_match(f@, separator, target@, position as int, is_numeric, x)),
        decreases match step {
            Step::ReadFrom(_) => searcher.progress() + 1,
            Step::ReadNext => searcher.progress() + 1,
            Step::Finished(_) => 0,
        },
    {
        let start = match step {
            Step::ReadFrom(off) => {
                assert(off < f.len());
                let start = off as usize;
                assert(start == off);
                start
            },
            Step::ReadNext => next,
            Step::Finished(res) => {
                return res;
            },
        };
        let end = find_line_end(f, start);
        proof {
            lemma_line_end(f@, start as int);
        }
        let bytes = vstd::slice::slice_subrange(f, start, end);
        let ghost before = searcher;
        assert(bytes@ == chunk(f@, before.pending()));
        assert(before.searches(f@, separator, target@, position as int, is_numeric));
        step = searcher.resume(bytes);
        next = end;
    }
}

/// What to do with a line read while printing the lines that match.
pub enum LineVerdict {
    /// The key equals the target: print the line, then read the next one.
    Print(String),
    /// The key differs from the target: the run of matching lines is over.
    Stop,
    /// The line could not be read or keyed.
    Fail(Error),
}

/// Decides on the line `line` (its bytes, with its `\n` where it has one)
/// read while printing the lines whose key equals `target`.
pub fn judge_line(line: &[u8], separator: char, target: &Value, position: usize, is_numeric: bool) -> (r:
    LineVerdict)
    ensures
        !valid_utf8(line@) ==> (r matches LineVerdict::Fail(e) && e@ == ErrorModel::InvalidUtf8),
        valid_utf8(line@) ==> match column_spec(
            decode_utf8(line@),
            separator,
            position as int,
            is_numeric,
        ) {
            Err(e) => r matches LineVerdict::Fail(e2) && e2@ == e,
            Ok(v) => if v == target@ {
                r matches LineVerdict::Print(l) && l@ == decode_utf8(line@)
            } else {
                r is Stop
            },
        },
{
    let text = match bytes_string(line) {
        None => {
            return LineVerdict::Fail(Error::InvalidUtf8);
        },
        Some(t) => t,
    };
    match get_column(text.as_str(), separator, position, is_numeric) {
        Err(e) => LineVerdict::Fail(e),
        Ok(v) => if v == *target {
            LineVerdict::Print(text)
        } else {
            LineVerdict::Stop
        },
    }
}

/// The lines that `print_all_occurrences` gives from byte `p` of `f`: the
/// lines read one after another from `p`, each with its `\n`, as long as
/// their key equals `target`; with the error that stopped the reading, if
/// one did (the lines before it are still given).
pub open spec fn occurrences_from(
    f: Seq<u8>,
    p: int,
    sep: char,
    target: ValueModel,
    position: int,
    is_numeric: bool,
) -> (Seq<Seq<char>>, Option<ErrorModel>)
    decreases f.len() - p,
{
    if p < 0 || p >= f.len() {
        (Seq::empty(), None)
    } else {
        let e = line_end(f, p);
        match decoded(f, p, e) {
            None => (Seq::empty(), Some(ErrorModel::InvalidUtf8)),
            Some(line) => match column_spec(line, sep, position, is_numeric) {
                Err(err) => (Seq::empty(), Some(err)),
                Ok(v) => if v != target {
                    (Seq::empty(), None)
                } else {
                    proof {
                        lemma_line_end(f, p);
                    }
                    let rest = occurrences_from(f, e, sep, target, position, is_numeric);
                    (seq![line] + rest.0, rest.1)
                },
            },
        }
    }
}

/// The characters of each string of `v`.
pub open spec fn strings_view(v: Seq<String>) -> Seq<Seq<char>> {
    v.map_values(|s: String| s@)
}

/// The view of an optional error.
pub open spec fn error_view(e: Option<Error>) -> Option<ErrorModel> {
    match e {
        Some(err) => Some(err@),
        None => None,
    }
}

/// The lines to print for a match that starts at byte `start_position` of
/// `f`: that line and the lines after it, as long as their key equals
/// `target`; with the error met on the way, if any.
pub fn print_all_occurrences(
    f: &[u8],
    start_position: u64,
    separator: char,
    target: &Value,
    position: usize,
    is_numeric: bool,
) -> (r: (Vec<String>, Option<Error>))
    ensures
        (strings_view(r.0@), error_view(r.1)) == occurrences_from(
            f@,
            start_position as int,
            separator,
            target@,
            position as int,
            is_numeric,
        ),
{
    let ghost spec_result = occurrences_from(
        f@,
        start_position as int,
        separator,
        target@,
        position as int,
        is_numeric,
    );
    let mut out: Vec<String> = Vec::new();
    if start_position >= f.len() as u64 {
        assert(strings_view(out@) =~= Seq::<Seq<char>>::empty());
        return (out, None);
    }
    let mut pos: usize = start_position as usize;
    assert(strings_view(out@) + spec_result.0 =~= spec_result.0);
    while pos < f.len()
        invariant
            pos <= f@.len(),
            spec_result == occurrences_from(
                f@,
                start_position as int,
                separator,
                target@,
                position as int,
                is_numeric,
            ),
            spec_result.0 == strings_view(out@) + occurrences_from(
                f@,
                pos as int,
                separator,
                target@,
                position as int,
                is_numeric,
            ).0,
            spec_result.1 == occurrences_from(
                f@,
                pos as int,
                separator,
                target@,
                position as int,
                is_numeric,
            ).1,
        decreases f@.len() - pos,
    {
        let end = find_line_end(f, pos);
        proof {
            lemma_line_end(f@, pos as int);
        }
        let line = match judge_line(
            vstd::slice::slice_subrange(f, pos, end),
            separator,
            target,
            position,
            is_numeric,
        ) {
            LineVerdict::Fail(e) => {
                assert(strings_view(out@) + Seq::<Seq<char>>::empty() =~= strings_view(out@));
                return (out, Some(e));
            },
            LineVerdict::Stop => {
                assert(strings_view(out@) + Seq::<Seq<char>>::empty() =~= strings_view(out@));
                return (out, None);
            },
            LineVerdict::Print(l) => l,
        };
        let ghost before = strings_view(out@);
        let ghost rest = occurrences_from(f@, end as int, separator, target@, position as int, is_numeric);
        out.push(line);
        proof {
            assert(strings_view(out@) =~= before.push(line@));
            assert(before + (seq![line@] + rest.0) =~= before.push(line@) + rest.0);
        }
        pos = end;
    }
    assert(strings_view(out@) + Seq::<Seq<char>>::empty() =~= strings_view(out@));
    (out, None)
}

} // verus!
