//! Decimal integers, read the way `str::parse::<i128>` reads them.
use vstd::prelude::*;
use crate::text::{is_white_space, trim_end_ws, trim_start_ws, trim_ws};

verus! {

/// Why a text is not a decimal `i128`, one case for each kind of
/// `std::num::ParseIntError` that the parse can give.
#[derive(Debug, Clone, Copy, PartialEq, Eq, Structural)]
pub enum NumberError {
    /// The text is empty.
    Empty,
    /// The text holds a character that is not a digit where a digit is due,
    /// or is a lone sign.
    InvalidDigit,
    /// The value is above `i128::MAX`.
    PosOverflow,
    /// The value is below `i128::MIN`.
    NegOverflow,
}

/// Whether `c` is an ASCII decimal digit.
pub open spec fn is_digit(c: char) -> bool {
    '0' <= c && c <= '9'
}

/// The value of the decimal digit `c`.
pub open spec fn digit_value(c: char) -> int {
    c as int - '0' as int
}

/// Reads the digits `d` after the value `acc` read so far, adding each digit
/// (or subtracting it, for a negative number): the first character that is
/// not a digit, or the first digit that takes the value out of the range of
/// `i128`, ends the reading with an error.
pub open spec fn read_digits(d: Seq<char>, acc: int, neg: bool) -> Result<int, NumberError>
    decreases d.len(),
{
    if d.len() == 0 {
        Ok(acc)
    } else if !is_digit(d[0]) {
        Err(NumberError::InvalidDigit)
    } else {
        let next = if neg {
            acc * 10 - digit_value(d[0])
        } else {
            acc * 10 + digit_value(d[0])
        };
        if next < i128::MIN || next > i128::MAX {
            Err(
                if neg {
                    NumberError::NegOverflow
                } else {
                    NumberError::PosOverflow
                },
            )
        } else {
            read_digits(d.drop_first(), next, neg)
        }
    }
}

/// The result of reading `s` as a decimal `i128`: an optional sign `+` or
/// `-`, then one or more digits.
pub open spec fn parse_i128_spec(s: Seq<char>) -> Result<i128, NumberError> {
    if s.len() == 0 {
        Err(NumberError::Empty)
    } else if s.len() == 1 && (s[0] == '+' || s[0] == '-') {
        Err(NumberError::InvalidDigit)
    } else {
        let neg = s[0] == '-';
        let digits = if s[0] == '+' || s[0] == '-' {
            s.drop_first()
        } else {
            s
        };
        match read_digits(digits, 0, neg) {
            Ok(v) => Ok(v as i128),
            Err(e) => Err(e),
        }
    }
}

/// The value of the digits that `read_digits` accepts stays in the range of
/// `i128`.
proof fn lemma_read_digits_in_range(d: Seq<char>, acc: int, neg: bool)
    requires
        i128::MIN <= acc <= i128::MAX,
    ensures
        read_digits(d, acc, neg) matches Ok(v) ==> i128::MIN <= v <= i128::MAX,
    decreases d.len(),
{
    if d.len() > 0 && is_digit(d[0]) {
        let next = if neg {
            acc * 10 - digit_value(d[0])
        } else {
            acc * 10 + digit_value(d[0])
        };
        if i128::MIN <= next <= i128::MAX {
            lemma_read_digits_in_range(d.drop_first(), next, neg);
        }
    }
}

/// Reads the characters `s[a..b]` as a decimal `i128`.
pub(crate) fn parse_i128(s: &Vec<char>, a: usize, b: usize) -> (r: Result<i128, NumberError>)
    requires
        a <= b <= s.len(),
    ensures
        r == parse_i128_spec(s@.subrange(a as int, b as int)),
{
    let ghost t = s@.subrange(a as int, b as int);
    if a == b {
        return Err(NumberError::Empty);
    }
    let first = s[a];
    if b - a == 1 && (first == '+' || first == '-') {
        return Err(NumberError::InvalidDigit);
    }
    let neg = first == '-';
    let mut i: usize = if first == '+' || first == '-' {
        a + 1
    } else {
        a
    };
    let ghost digits = if first == '+' || first == '-' {
        t.drop_first()
    } else {
        t
    };
    assert(digits =~= s@.subrange(i as int, b as int));
    assert(t[0] == first);
    let mut acc: i128 = 0;
    while i < b
        invariant
            a <= i <= b <= s.len(),
            t == s@.subrange(a as int, b as int),
            neg ==> acc <= 0,
            !neg ==> acc >= 0,
            read_digits(digits, 0, neg) == read_digits(s@.subrange(i as int, b as int), acc as int, neg),
            parse_i128_spec(t) == (match read_digits(digits, 0, neg) {
                Ok(v) => Ok(v as i128),
                Err(e) => Err(e),
            }),
        decreases b - i,
    {
        let ghost rest = s@.subrange(i as int, b as int);
        assert(rest[0] == s@[i as int]);
        assert(rest.drop_first() =~= s@.subrange(i + 1, b as int));
        let c = s[i];
        if !('0' <= c && c <= '9') {
            return Err(NumberError::InvalidDigit);
        }
        let d: i128 = ((c as u32) - ('0' as u32)) as i128;
        assert(d == digit_value(c));
        let m = acc.checked_mul(10);
        match m {
            None => {
                return Err(
                    if neg {
                        NumberError::NegOverflow
                    } else {
                        NumberError::PosOverflow
                    },
                );
            },
            Some(m) => {
                let next = if neg {
                    m.checked_sub(d)
                } else {
                    m.checked_add(d)
                };
                match next {
                    None => {
                        return Err(
                            if neg {
                                NumberError::NegOverflow
                            } else {
                                NumberError::PosOverflow
                            },
                        );
                    },
                    Some(v) => {
                        acc = v;
                    },
                }
            },
        }
        i = i + 1;
    }
    assert(s@.subrange(i as int, b as int).len() == 0);
    Ok(acc)
}

/// The decimal digit that stands for `d`, for `0 <= d < 10`.
pub open spec fn digit_char(d: nat) -> char {
    if d == 0 {
        '0'
    } else if d == 1 {
        '1'
    } else if d == 2 {
        '2'
    } else if d == 3 {
        '3'
    } else if d == 4 {
        '4'
    } else if d == 5 {
        '5'
    } else if d == 6 {
        '6'
    } else if d == 7 {
        '7'
    } else if d == 8 {
        '8'
    } else {
        '9'
    }
}

/// The decimal digits of `m`, without leading zeros (`"0"` for zero).
pub open spec fn decimal_digits(m: nat) -> Seq<char>
    decreases m,
{
    if m < 10 {
        seq![digit_char(m)]
    } else {
        decimal_digits(m / 10).push(digit_char(m % 10))
    }
}

/// The decimal form of `n`, as `i128`'s `Display` writes it: a `-` before
/// a negative number, then its digits.
pub open spec fn decimal(n: int) -> Seq<char> {
    if n < 0 {
        seq!['-'] + decimal_digits((-n) as nat)
    } else {
        decimal_digits(n as nat)
    }
}

/// Reading digits one after the other: the digits after `d` go on from the
/// value read from `d`.
proof fn lemma_read_digits_push(d: Seq<char>, c: char, acc: int, neg: bool)
    ensures
        read_digits(d.push(c), acc, neg) == match read_digits(d, acc, neg) {
            Ok(v) => read_digits(seq![c], v, neg),
            Err(e) => Err(e),
        },
    decreases d.len(),
{
    if d.len() > 0 {
        assert(d.push(c).drop_first() =~= d.drop_first().push(c));
        if is_digit(d[0]) {
            let next = if neg {
                acc * 10 - digit_value(d[0])
            } else {
                acc * 10 + digit_value(d[0])
            };
            lemma_read_digits_push(d.drop_first(), c, next, neg);
        }
    } else {
        assert(d.push(c) =~= seq![c]);
    }
}

/// The digits of `m`, read as a positive or a negative number, give `m` or
/// `-m`, where that is in the range of `i128`.
proof fn lemma_read_decimal_digits(m: nat, neg: bool)
    requires
        neg ==> -m >= i128::MIN,
        !neg ==> m <= i128::MAX,
    ensures
        read_digits(decimal_digits(m), 0, neg) == Ok::<int, NumberError>(
            if neg {
                -m
            } else {
                m as int
            },
        ),
    decreases m,
{
    let c = digit_char(m % 10);
    assert(is_digit(c) && digit_value(c) == m % 10);
    let mv: int = if neg {
        -m
    } else {
        m as int
    };
    if m < 10 {
        assert(m % 10 == m);
        assert(decimal_digits(m) == seq![c]);
        assert(seq![c].drop_first() =~= Seq::<char>::empty());
        assert(read_digits(Seq::<char>::empty(), mv, neg) == Ok::<int, NumberError>(mv));
        assert(read_digits(seq![c], 0, neg) == read_digits(seq![c].drop_first(), mv, neg));
    } else {
        let q = m / 10;
        assert(q * 10 + m % 10 == m) by (nonlinear_arith)
            requires
                q == m / 10,
        ;
        lemma_read_decimal_digits(q, neg);
        lemma_read_digits_push(decimal_digits(q), c, 0, neg);
        assert(seq![c].drop_first() =~= Seq::<char>::empty());
        let qv: int = if neg {
            -q
        } else {
            q as int
        };
        assert(read_digits(Seq::<char>::empty(), mv, neg) == Ok::<int, NumberError>(mv));
        assert(read_digits(seq![c], qv, neg) == read_digits(seq![c].drop_first(), mv, neg));
    }
}

/// Whether every character of `s` is white space.
pub open spec fn all_white_space(s: Seq<char>) -> bool {
    forall|i: int| 0 <= i < s.len() ==> is_white_space(#[trigger] s[i])
}

/// Leading white space goes, whatever follows it.
proof fn lemma_trim_start_padding(pre: Seq<char>, rest: Seq<char>)
    requires
        all_white_space(pre),
    ensures
        trim_start_ws(pre + rest) == trim_start_ws(rest),
    decreases pre.len(),
{
    if pre.len() > 0 {
        assert((pre + rest).drop_first() =~= pre.drop_first() + rest);
        assert((pre + rest)[0] == pre[0]);
        lemma_trim_start_padding(pre.drop_first(), rest);
    } else {
        assert(pre + rest =~= rest);
    }
}

/// Trailing white space goes, whatever comes before it.
proof fn lemma_trim_end_padding(rest: Seq<char>, post: Seq<char>)
    requires
        all_white_space(post),
    ensures
        trim_end_ws(rest + post) == trim_end_ws(rest),
    decreases post.len(),
{
    if post.len() > 0 {
        assert((rest + post).drop_last() =~= rest + post.drop_last());
        assert((rest + post).last() == post.last());
        lemma_trim_end_padding(rest, post.drop_last());
    } else {
        assert(rest + post =~= rest);
    }
}

/// A decimal form with white space around it trims to the decimal form.
proof fn lemma_decimal_padded(n: int, pre: Seq<char>, post: Seq<char>)
    requires
        all_white_space(pre),
        all_white_space(post),
    ensures
        trim_ws(pre + decimal(n) + post) == decimal(n),
{
    let s = decimal(n);
    let m: nat = if n < 0 {
        (-n) as nat
    } else {
        n as nat
    };
    lemma_decimal_digits_are_digits(m);
    assert(s.len() > 0 && !is_white_space(s[0]) && !is_white_space(s.last()));
    assert(pre + s + post =~= pre + (s + post));
    lemma_trim_start_padding(pre, s + post);
    assert((s + post)[0] == s[0]);
    lemma_trim_end_padding(s, post);
}

/// The decimal digits of a number are digits, one at least.
proof fn lemma_decimal_digits_are_digits(m: nat)
    ensures
        decimal_digits(m).len() > 0,
        forall|i: int| 0 <= i < decimal_digits(m).len() ==> is_digit(#[trigger] decimal_digits(m)[i]),
    decreases m,
{
    if m >= 10 {
        lemma_decimal_digits_are_digits(m / 10);
    }
}

/// Every `i128` written in decimal, with any white space around it, reads
/// back as itself.
pub proof fn lemma_decimal_round_trip(n: i128, pre: Seq<char>, post: Seq<char>)
    requires
        all_white_space(pre),
        all_white_space(post),
    ensures
        parse_i128_spec(decimal(n as int)) == Ok::<i128, NumberError>(n),
        trim_ws(pre + decimal(n as int) + post) == decimal(n as int),
{
    lemma_decimal_padded(n as int, pre, post);
    lemma_decimal_digits_are_digits(if n < 0 { (-n) as nat } else { n as nat });
    if n < 0 {
        let s = decimal(n as int);
        lemma_read_decimal_digits((-n) as nat, true);
        assert(s.drop_first() =~= decimal_digits((-n) as nat));
    } else {
        lemma_read_decimal_digits(n as nat, false);
    }
}

} // verus!
