//! What the search promises on a file sorted on its key column: it finds
//! the first line whose key equals the target, and from there the lines to
//! print are exactly the lines of the file whose key equals the target. It
//! also bounds the number of probes, and numbers written in decimal read
//! back as themselves.
use vstd::prelude::*;
use crate::file::{NEWLINE, decoded, lemma_line_end, lemma_line_end_monotone, line_end};
use crate::model::{
    ErrorModel,
    ValueModel,
    lemma_value_irreflexive,
    lemma_value_total,
    lemma_value_transitive,
    value_lt,
};
use crate::number::{all_white_space, decimal, lemma_decimal_round_trip};
use crate::value::build_spec;
use crate::search::{
    key_of_bytes,
    occurrences_from,
    probe,
    probe_line,
    search_from,
    search_spec,
};

verus! {

/// Whether a line of `f` starts at byte `s`.
pub open spec fn is_line_start(f: Seq<u8>, s: int) -> bool {
    0 <= s < f.len() && (s == 0 || f[s - 1] == NEWLINE)
}

/// The key of the line of `f` that starts at `s`.
pub open spec fn line_key(f: Seq<u8>, s: int, sep: char, position: int, is_numeric: bool) -> Result<
    ValueModel,
    ErrorModel,
> {
    key_of_bytes(f, s, line_end(f, s), sep, position, is_numeric)
}

/// The key of the line that starts at `s`, where it can be read.
pub open spec fn key_value(f: Seq<u8>, s: int, sep: char, position: int, is_numeric: bool) -> ValueModel {
    match line_key(f, s, sep, position, is_numeric) {
        Ok(v) => v,
        Err(_) => arbitrary(),
    }
}

/// Every line of `f` is valid UTF-8 and has a key.
pub open spec fn well_formed(f: Seq<u8>, sep: char, position: int, is_numeric: bool) -> bool {
    forall|s: int| #[trigger]
        is_line_start(f, s) ==> line_key(f, s, sep, position, is_numeric) is Ok
}

/// The lines of `f` are sorted on their keys: no line has a smaller key than
/// a line before it.
pub open spec fn sorted(f: Seq<u8>, sep: char, position: int, is_numeric: bool) -> bool {
    forall|s1: int, s2: int|
        #![trigger is_line_start(f, s1), is_line_start(f, s2)]
        is_line_start(f, s1) && is_line_start(f, s2) && s1 < s2 ==> !value_lt(
            key_value(f, s2, sep, position, is_numeric),
            key_value(f, s1, sep, position, is_numeric),
        )
}

/// Whether `found` is the answer for `target` in `f`: the start of the first
/// line whose key equals `target`, or `None` where no line has that key.
pub open spec fn first_match(
    f: Seq<u8>,
    sep: char,
    target: ValueModel,
    position: int,
    is_numeric: bool,
    found: Option<int>,
) -> bool {
    match found {
        Some(s) => {
            &&& is_line_start(f, s)
            &&& line_key(f, s, sep, position, is_numeric) == Ok::<ValueModel, ErrorModel>(target)
            &&& forall|s2: int| #[trigger]
                is_line_start(f, s2) && s2 < s ==> line_key(f, s2, sep, position, is_numeric)
                    != Ok::<ValueModel, ErrorModel>(target)
        },
        None => forall|s2: int| #[trigger]
            is_line_start(f, s2) ==> line_key(f, s2, sep, position, is_numeric) != Ok::<
                ValueModel,
                ErrorModel,
            >(target),
    }
}

/// The lines of `f` from the line that starts at `p` on whose key equals
/// `target`, in file order.
pub open spec fn matching_lines(
    f: Seq<u8>,
    p: int,
    sep: char,
    target: ValueModel,
    position: int,
    is_numeric: bool,
) -> Seq<Seq<char>>
    decreases f.len() - p,
{
    if p < 0 || p >= f.len() {
        Seq::empty()
    } else {
        let e = line_end(f, p);
        proof {
            lemma_line_end(f, p);
        }
        let rest = matching_lines(f, e, sep, target, position, is_numeric);
        if line_key(f, p, sep, position, is_numeric) == Ok::<ValueModel, ErrorModel>(target) {
            seq![decoded(f, p, e)->0] + rest
        } else {
            rest
        }
    }
}

/// Where the line that a read at `m` returns starts.
spec fn read_line_start(f: Seq<u8>, m: int) -> int {
    match probe_line(f, m) {
        Some((s, _)) => s,
        None => 0,
    }
}

/// Where the line that a read at `m` returns ends.
spec fn read_line_end(f: Seq<u8>, m: int) -> int {
    match probe_line(f, m) {
        Some((_, e)) => e,
        None => 0,
    }
}

/// Whether the probe at `m` finds a key below `target`.
spec fn below(f: Seq<u8>, m: int, sep: char, target: ValueModel, position: int, is_numeric: bool) -> bool {
    probe(f, m, sep, position, is_numeric) matches Ok(Some((_, v))) && value_lt(v, target)
}

/// The start of the line found at `m` where its key equals `target`.
spec fn hit_at(
    f: Seq<u8>,
    m: int,
    sep: char,
    target: ValueModel,
    position: int,
    is_numeric: bool,
) -> Option<int> {
    if 0 <= m < f.len() {
        match probe(f, m, sep, position, is_numeric) {
            Ok(Some((s, v))) => if v == target {
                Some(s)
            } else {
                None
            },
            _ => None,
        }
    } else {
        None
    }
}

/// A probe reads a whole line of the file.
proof fn lemma_read_gives_line(f: Seq<u8>, m: int)
    requires
        0 <= m < f.len(),
        probe_line(f, m) is Some,
    ensures
        is_line_start(f, read_line_start(f, m)),
        read_line_end(f, m) == line_end(f, read_line_start(f, m)),
{
    if m > 0 {
        lemma_line_end(f, m - 1);
    }
}

/// Probes at later positions read later lines, and where a probe reads no
/// line, so do all probes after it.
proof fn lemma_read_monotone(f: Seq<u8>, m1: int, m2: int)
    requires
        0 <= m1 <= m2 < f.len(),
        probe_line(f, m2) is Some,
    ensures
        probe_line(f, m1) is Some,
        read_line_start(f, m1) <= read_line_start(f, m2),
{
    if m2 > 0 {
        lemma_line_end(f, m2 - 1);
    }
    if m1 > 0 {
        lemma_line_end_monotone(f, m1 - 1, m2 - 1);
    }
}

/// Every line is read by the probe at its own start.
proof fn lemma_line_reached(f: Seq<u8>, s: int) -> (m: int)
    requires
        is_line_start(f, s),
    ensures
        0 <= m < f.len(),
        probe_line(f, m) == Some((s, line_end(f, s))),
{
    if s > 0 {
        assert(line_end(f, s - 1) == s);
    }
    s
}

/// The key that a probe finds is the key of the line it reads.
proof fn lemma_probe_key(f: Seq<u8>, m: int, sep: char, position: int, is_numeric: bool)
    requires
        0 <= m < f.len(),
        well_formed(f, sep, position, is_numeric),
    ensures
        probe(f, m, sep, position, is_numeric) is Ok,
        probe_line(f, m) is None ==> probe(f, m, sep, position, is_numeric) == Ok::<
            Option<(int, ValueModel)>,
            ErrorModel,
        >(None),
        probe_line(f, m) matches Some((s, e)) ==> probe(f, m, sep, position, is_numeric) == Ok::<
            Option<(int, ValueModel)>,
            ErrorModel,
        >(Some((s, key_value(f, s, sep, position, is_numeric)))),
{
    if probe_line(f, m) is Some {
        lemma_read_gives_line(f, m);
        let s = read_line_start(f, m);
        assert(is_line_start(f, s));
    }
}

/// Probes at later positions find keys that are not smaller.
proof fn lemma_probe_order(
    f: Seq<u8>,
    m1: int,
    m2: int,
    sep: char,
    position: int,
    is_numeric: bool,
)
    requires
        0 <= m1 <= m2 < f.len(),
        probe_line(f, m2) is Some,
        well_formed(f, sep, position, is_numeric),
        sorted(f, sep, position, is_numeric),
    ensures
        probe_line(f, m1) is Some,
        !value_lt(
            key_value(f, read_line_start(f, m2), sep, position, is_numeric),
            key_value(f, read_line_start(f, m1), sep, position, is_numeric),
        ),
{
    lemma_read_monotone(f, m1, m2);
    lemma_read_gives_line(f, m1);
    lemma_read_gives_line(f, m2);
    let s1 = read_line_start(f, m1);
    let s2 = read_line_start(f, m2);
    if s1 == s2 {
        lemma_value_irreflexive(key_value(f, s1, sep, position, is_numeric));
    } else {
        assert(is_line_start(f, s1) && is_line_start(f, s2));
    }
}

/// Where the positions below `l` find keys below the target and the others
/// do not, the line found at `l` is the answer.
proof fn lemma_boundary(
    f: Seq<u8>,
    sep: char,
    target: ValueModel,
    position: int,
    is_numeric: bool,
    l: int,
)
    requires
        0 <= l <= f.len(),
        well_formed(f, sep, position, is_numeric),
        sorted(f, sep, position, is_numeric),
        forall|m: int| 0 <= m < l ==> #[trigger] below(f, m, sep, target, position, is_numeric),
        forall|m: int|
            l <= m < f.len() ==> !#[trigger] below(f, m, sep, target, position, is_numeric),
    ensures
        first_match(f, sep, target, position, is_numeric, hit_at(f, l, sep, target, position, is_numeric)),
{
    let found = hit_at(f, l, sep, target, position, is_numeric);
    if l < f.len() {
        lemma_probe_key(f, l, sep, position, is_numeric);
    }
    match found {
        Some(s) => {
            lemma_read_gives_line(f, l);
            assert forall|s2: int| #[trigger]
                is_line_start(f, s2) && s2 < s implies line_key(f, s2, sep, position, is_numeric)
                != Ok::<ValueModel, ErrorModel>(target) by {
                if line_key(f, s2, sep, position, is_numeric) == Ok::<ValueModel, ErrorModel>(
                    target,
                ) {
                    let m2 = lemma_line_reached(f, s2);
                    lemma_probe_key(f, m2, sep, position, is_numeric);
                    if m2 >= l {
                        lemma_read_monotone(f, l, m2);
                    } else {
                        assert(below(f, m2, sep, target, position, is_numeric));
                        lemma_value_irreflexive(target);
                    }
                }
            }
        },
        None => {
            assert forall|s2: int| #[trigger]
                is_line_start(f, s2) implies line_key(f, s2, sep, position, is_numeric) != Ok::<
                ValueModel,
                ErrorModel,
            >(target) by {
                if line_key(f, s2, sep, position, is_numeric) == Ok::<ValueModel, ErrorModel>(
                    target,
                ) {
                    let m2 = lemma_line_reached(f, s2);
                    lemma_probe_key(f, m2, sep, position, is_numeric);
                    if m2 >= l {
                        lemma_probe_order(f, l, m2, sep, position, is_numeric);
                        lemma_probe_key(f, l, sep, position, is_numeric);
                        let kl = key_value(f, read_line_start(f, l), sep, position, is_numeric);
                        assert(!below(f, l, sep, target, position, is_numeric));
                        if kl != target {
                            lemma_value_total(kl, target);
                        }
                    } else {
                        assert(below(f, m2, sep, target, position, is_numeric));
                        lemma_value_irreflexive(target);
                    }
                }
            }
        },
    }
}

/// Each step of the search keeps the positions left of `left` below the
/// target, those right of `right` not below it, and `found` the hit just
/// right of `right`; so the search ends on the answer.
proof fn lemma_search_from(
    f: Seq<u8>,
    sep: char,
    target: ValueModel,
    position: int,
    is_numeric: bool,
    left: int,
    right: int,
    found: Option<int>,
)
    requires
        0 <= left <= right + 1 <= f.len(),
        well_formed(f, sep, position, is_numeric),
        sorted(f, sep, position, is_numeric),
        forall|m: int| 0 <= m < left ==> #[trigger] below(f, m, sep, target, position, is_numeric),
        forall|m: int|
            right < m < f.len() ==> !#[trigger] below(f, m, sep, target, position, is_numeric),
        found == hit_at(f, right + 1, sep, target, position, is_numeric),
    ensures
        search_from(f, sep, target, position, is_numeric, left, right, found) matches Ok(r)
            && first_match(f, sep, target, position, is_numeric, r),
    decreases right - left + 1,
{
    if left > right {
        lemma_boundary(f, sep, target, position, is_numeric, left);
    } else {
        let mid = left + (right - left) / 2;
        lemma_probe_key(f, mid, sep, position, is_numeric);
        if right + 1 < f.len() {
            lemma_probe_key(f, right + 1, sep, position, is_numeric);
        }
        match probe_line(f, mid) {
            None => {
                assert forall|m: int| mid - 1 < m < f.len() implies !#[trigger] below(
                    f,
                    m,
                    sep,
                    target,
                    position,
                    is_numeric,
                ) by {
                    lemma_probe_key(f, m, sep, position, is_numeric);
                    if probe_line(f, m) is Some {
                        lemma_read_monotone(f, mid, m);
                    }
                }
                if right + 1 < f.len() && probe_line(f, right + 1) is Some {
                    lemma_read_monotone(f, mid, right + 1);
                }
                lemma_search_from(f, sep, target, position, is_numeric, left, mid - 1, found);
            },
            Some((s, e)) => {
                let v = key_value(f, s, sep, position, is_numeric);
                if v == target || !value_lt(v, target) {
                    assert forall|m: int| mid - 1 < m < f.len() implies !#[trigger] below(
                        f,
                        m,
                        sep,
                        target,
                        position,
                        is_numeric,
                    ) by {
                        lemma_probe_key(f, m, sep, position, is_numeric);
                        if probe_line(f, m) is Some {
                            lemma_probe_order(f, mid, m, sep, position, is_numeric);
                            let km = key_value(f, read_line_start(f, m), sep, position, is_numeric);
                            lemma_value_irreflexive(v);
                            if value_lt(km, target) && v != target {
                                lemma_value_total(v, target);
                                lemma_value_transitive(km, target, v);
                                lemma_value_total(km, v);
                            }
                            if value_lt(km, target) && v == target {
                                lemma_value_total(km, v);
                            }
                        }
                    }
                    if v == target {
                        lemma_search_from(
                            f,
                            sep,
                            target,
                            position,
                            is_numeric,
                            left,
                            mid - 1,
                            Some(s),
                        );
                    } else {
                        if right + 1 < f.len() && probe_line(f, right + 1) is Some {
                            lemma_probe_order(f, mid, right + 1, sep, position, is_numeric);
                            lemma_value_total(v, target);
                        }
                        lemma_search_from(f, sep, target, position, is_numeric, left, mid - 1, found);
                    }
                } else {
                    assert forall|m: int| 0 <= m < mid + 1 implies #[trigger] below(
                        f,
                        m,
                        sep,
                        target,
                        position,
                        is_numeric,
                    ) by {
                        lemma_probe_order(f, m, mid, sep, position, is_numeric);
                        lemma_probe_key(f, m, sep, position, is_numeric);
                        let km = key_value(f, read_line_start(f, m), sep, position, is_numeric);
                        if km != v {
                            lemma_value_total(km, v);
                            lemma_value_transitive(km, v, target);
                        }
                    }
                    lemma_search_from(f, sep, target, position, is_numeric, mid + 1, right, found);
                }
            },
        }
    }
}

/// On a file whose lines all have a key and are sorted on it, the search
/// never fails and finds the start
/// of the first line whose key equals the target, or `None` where no line
/// has that key.
pub proof fn lemma_search_finds_first(
    f: Seq<u8>,
    sep: char,
    target: ValueModel,
    position: int,
    is_numeric: bool,
)
    requires
        well_formed(f, sep, position, is_numeric),
        sorted(f, sep, position, is_numeric),
    ensures
        search_spec(f, sep, target, position, is_numeric) matches Ok(r) && first_match(
            f,
            sep,
            target,
            position,
            is_numeric,
            r,
        ),
{
    if f.len() > 0 {
        lemma_search_from(f, sep, target, position, is_numeric, 0, f.len() - 1, None);
    }
}

/// Whether a line of `f` starts at `q`, or `q` is the end of `f`.
spec fn is_boundary(f: Seq<u8>, q: int) -> bool {
    is_line_start(f, q) || q == f.len()
}

/// The line that starts at `p` ends at the next line start, or at the end.
proof fn lemma_next_boundary(f: Seq<u8>, p: int)
    requires
        is_line_start(f, p),
    ensures
        p < line_end(f, p),
        is_boundary(f, line_end(f, p)),
        forall|q: int| #[trigger] is_line_start(f, q) && p < q ==> line_end(f, p) <= q,
{
    lemma_line_end(f, p);
    assert forall|q: int| #[trigger] is_line_start(f, q) && p < q implies line_end(f, p) <= q by {
        if line_end(f, p) > q {
            assert(p <= q - 1 < line_end(f, p) - 1);
        }
    }
}

/// Lines without the target key add nothing to the matching lines.
proof fn lemma_skip_unmatched(
    f: Seq<u8>,
    p: int,
    q: int,
    sep: char,
    target: ValueModel,
    position: int,
    is_numeric: bool,
)
    requires
        is_boundary(f, p),
        is_boundary(f, q),
        p <= q,
        forall|r: int| #[trigger]
            is_line_start(f, r) && p <= r < q ==> line_key(f, r, sep, position, is_numeric) != Ok::<
                ValueModel,
                ErrorModel,
            >(target),
    ensures
        matching_lines(f, p, sep, target, position, is_numeric) == matching_lines(
            f,
            q,
            sep,
            target,
            position,
            is_numeric,
        ),
    decreases q - p,
{
    if p < q {
        lemma_next_boundary(f, p);
        let e = line_end(f, p);
        if q < f.len() {
            assert(is_line_start(f, q) && p < q);
        }
        lemma_skip_unmatched(f, e, q, sep, target, position, is_numeric);
    }
}

/// Past a line whose key is above the target, no line matches.
proof fn lemma_no_match_after(
    f: Seq<u8>,
    q: int,
    sep: char,
    target: ValueModel,
    position: int,
    is_numeric: bool,
)
    requires
        is_boundary(f, q),
        well_formed(f, sep, position, is_numeric),
        sorted(f, sep, position, is_numeric),
        q < f.len() ==> value_lt(target, key_value(f, q, sep, position, is_numeric)),
    ensures
        matching_lines(f, q, sep, target, position, is_numeric) == Seq::<Seq<char>>::empty(),
    decreases f.len() - q,
{
    if q < f.len() {
        assert(is_line_start(f, q));
        lemma_value_irreflexive(target);
        lemma_next_boundary(f, q);
        let e = line_end(f, q);
        if e < f.len() {
            assert(is_line_start(f, q) && is_line_start(f, e));
            let kq = key_value(f, q, sep, position, is_numeric);
            let ke = key_value(f, e, sep, position, is_numeric);
            if ke != kq {
                lemma_value_total(ke, kq);
                lemma_value_transitive(target, kq, ke);
            }
        }
        lemma_no_match_after(f, e, sep, target, position, is_numeric);
    }
}

/// From a line whose key is not below the target, the lines read while the
/// key equals the target are the matching lines.
proof fn lemma_run_of_matches(
    f: Seq<u8>,
    q: int,
    sep: char,
    target: ValueModel,
    position: int,
    is_numeric: bool,
)
    requires
        is_boundary(f, q),
        well_formed(f, sep, position, is_numeric),
        sorted(f, sep, position, is_numeric),
        q < f.len() ==> !value_lt(key_value(f, q, sep, position, is_numeric), target),
    ensures
        occurrences_from(f, q, sep, target, position, is_numeric) == (
            matching_lines(f, q, sep, target, position, is_numeric),
            None::<ErrorModel>,
        ),
    decreases f.len() - q,
{
    if q < f.len() {
        assert(is_line_start(f, q));
        lemma_next_boundary(f, q);
        let e = line_end(f, q);
        let kq = key_value(f, q, sep, position, is_numeric);
        if kq != target {
            lemma_value_total(kq, target);
            lemma_no_match_after(f, q, sep, target, position, is_numeric);
        } else {
            if e < f.len() {
                assert(is_line_start(f, q) && is_line_start(f, e));
            }
            lemma_run_of_matches(f, e, sep, target, position, is_numeric);
        }
    }
}

/// On a file whose lines all have a key and are sorted on it, the lines
/// given from the start that the
/// search finds are exactly the lines of the file whose key equals the
/// target, in file order; where the search finds nothing, no line has it.
pub proof fn lemma_printed_lines_are_all_matches(
    f: Seq<u8>,
    sep: char,
    target: ValueModel,
    position: int,
    is_numeric: bool,
)
    requires
        well_formed(f, sep, position, is_numeric),
        sorted(f, sep, position, is_numeric),
    ensures
        match search_spec(f, sep, target, position, is_numeric) {
            Ok(Some(s)) => occurrences_from(f, s, sep, target, position, is_numeric) == (
                matching_lines(f, 0, sep, target, position, is_numeric),
                None::<ErrorModel>,
            ),
            Ok(None) => matching_lines(f, 0, sep, target, position, is_numeric) == Seq::<
                Seq<char>,
            >::empty(),
            Err(_) => false,
        },
{
    lemma_search_finds_first(f, sep, target, position, is_numeric);
    if f.len() > 0 {
        assert(is_boundary(f, 0));
        match search_spec(f, sep, target, position, is_numeric) {
            Ok(Some(s)) => {
                lemma_skip_unmatched(f, 0, s, sep, target, position, is_numeric);
                lemma_value_irreflexive(target);
                lemma_run_of_matches(f, s, sep, target, position, is_numeric);
            },
            Ok(None) => {
                lemma_skip_unmatched(f, 0, f.len() as int, sep, target, position, is_numeric);
            },
            Err(_) => {},
        }
    }
}

/// The number of positions that the search over `left..=right` probes: one
/// per step, until the range is empty or a probe meets an error.
pub open spec fn probe_count(
    f: Seq<u8>,
    sep: char,
    target: ValueModel,
    position: int,
    is_numeric: bool,
    left: int,
    right: int,
) -> nat
    decreases right - left + 1,
{
    if left > right {
        0
    } else {
        let mid = left + (right - left) / 2;
        match probe(f, mid, sep, position, is_numeric) {
            Err(_) => 1,
            Ok(Some((_, v))) => if v != target && value_lt(v, target) {
                1 + probe_count(f, sep, target, position, is_numeric, mid + 1, right)
            } else {
                1 + probe_count(f, sep, target, position, is_numeric, left, mid - 1)
            },
            Ok(None) => 1 + probe_count(f, sep, target, position, is_numeric, left, mid - 1),
        }
    }
}

/// The number of binary digits of `n`: `floor(log2(n)) + 1` for `n > 0`.
pub open spec fn bit_length(n: nat) -> nat
    decreases n,
{
    if n == 0 {
        0
    } else {
        1 + bit_length(n / 2)
    }
}

/// A larger number has at least as many binary digits.
proof fn lemma_bit_length_monotone(a: nat, b: nat)
    requires
        a <= b,
    ensures
        bit_length(a) <= bit_length(b),
    decreases b,
{
    if a > 0 {
        lemma_bit_length_monotone(a / 2, b / 2);
    }
}

/// The search over a range of `k` positions probes at most `bit_length(k)`
/// of them: whatever the target and wherever it is, a file of `n` bytes
/// costs at most `floor(log2(n)) + 1` probes (24 for ten million bytes), and
/// so at most twice as many reads in `Searcher`.
pub proof fn lemma_probe_count_bound(
    f: Seq<u8>,
    sep: char,
    target: ValueModel,
    position: int,
    is_numeric: bool,
    left: int,
    right: int,
)
    requires
        left <= right + 1,
    ensures
        probe_count(f, sep, target, position, is_numeric, left, right) <= bit_length(
            (right - left + 1) as nat,
        ),
    decreases right - left + 1,
{
    if left <= right {
        let k = (right - left + 1) as nat;
        let mid = left + (right - left) / 2;
        lemma_probe_count_bound(f, sep, target, position, is_numeric, left, mid - 1);
        lemma_probe_count_bound(f, sep, target, position, is_numeric, mid + 1, right);
        lemma_bit_length_monotone((mid - left) as nat, k / 2);
        lemma_bit_length_monotone((right - mid) as nat, k / 2);
    }
}

/// Every `i128`, written in decimal as its `Display` writes it, with any
/// white space before and after it, builds back into the same number key.
pub proof fn lemma_build_decimal_round_trip(n: i128, pre: Seq<char>, post: Seq<char>)
    requires
        all_white_space(pre),
        all_white_space(post),
    ensures
        build_spec(pre + decimal(n as int) + post, true) == Ok::<ValueModel, ErrorModel>(
            ValueModel::Number(n),
        ),
{
    lemma_decimal_round_trip(n, pre, post);
}

} // verus!
