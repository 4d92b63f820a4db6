use bgrep::{
    binary_search_in_file, get_column, parse_delimiter, print_all_occurrences, read_line, Error,
    NumberError, Value,
};

fn txt(s: &str) -> Value {
    Value::Text(s.to_string())
}

fn num(n: i128) -> Value {
    Value::Number(n)
}

fn number(s: &str) -> Result<Value, Error> {
    Value::build(s, true)
}

fn number_error(s: &str) -> NumberError {
    match number(s) {
        Err(Error::InvalidNumber(e)) => e,
        other => panic!("expected a number error, got {:?}", other),
    }
}

// --- Value::build ---

#[test]
fn build_text_keeps_the_text() {
    assert_eq!(Value::build("  a b  ", false).unwrap(), txt("  a b  "));
}

#[test]
fn build_number_signs_and_zeros() {
    assert_eq!(number("+5").unwrap(), num(5));
    assert_eq!(number("-0").unwrap(), num(0));
    assert_eq!(number("007").unwrap(), num(7));
    assert_eq!(number("-123").unwrap(), num(-123));
}

#[test]
fn build_number_limits() {
    assert_eq!(number("170141183460469231731687303715884105727").unwrap(), num(i128::MAX));
    assert_eq!(number("-170141183460469231731687303715884105728").unwrap(), num(i128::MIN));
    assert_eq!(number_error("170141183460469231731687303715884105728"), NumberError::PosOverflow);
    assert_eq!(number_error("-170141183460469231731687303715884105729"), NumberError::NegOverflow);
}

#[test]
fn build_number_errors() {
    assert_eq!(number_error(""), NumberError::Empty);
    assert_eq!(number_error("   "), NumberError::Empty);
    assert_eq!(number_error("+"), NumberError::InvalidDigit);
    assert_eq!(number_error("-"), NumberError::InvalidDigit);
    assert_eq!(number_error("1a"), NumberError::InvalidDigit);
    assert_eq!(number_error("1 2"), NumberError::InvalidDigit);
    assert_eq!(number_error("--1"), NumberError::InvalidDigit);
    // a non-digit after an overflow is reported as the overflow
    assert_eq!(number_error("999999999999999999999999999999999999999x"), NumberError::PosOverflow);
}

#[test]
fn build_number_agrees_with_std() {
    for s in ["0", "+17", "-17", "12x", "", "-", "+", " 5", "99999999999999999999999999999999999999999"] {
        let ours = number(s);
        let theirs = s.trim().parse::<i128>();
        match (ours, theirs) {
            (Ok(Value::Number(a)), Ok(b)) => assert_eq!(a, b),
            (Err(Error::InvalidNumber(_)), Err(_)) => {}
            (a, b) => panic!("{:?}: {:?} against {:?}", s, a, b),
        }
    }
}

#[test]
fn build_number_trims_unicode_white_space() {
    assert_eq!(number("\u{3000}\t7\n\u{a0}").unwrap(), num(7));
}

// --- comparing keys ---

#[test]
fn numbers_come_before_texts() {
    assert!(num(1_000_000) < txt(""));
    assert!(txt("0") > num(-5));
    assert_ne!(num(1), txt("1"));
}

#[test]
fn texts_compare_lexicographically() {
    assert!(txt("a") < txt("ab"));
    assert!(txt("ab") < txt("b"));
    assert!(txt("z") < txt("é"));
    assert_eq!(txt("abc").partial_cmp(&txt("abc")), Some(std::cmp::Ordering::Equal));
    assert_eq!(txt("b").cmp(&txt("a")), std::cmp::Ordering::Greater);
}

#[test]
fn numbers_compare_by_value() {
    assert!(num(-3) < num(2));
    assert_eq!(num(4).compare(&num(4)), std::cmp::Ordering::Equal);
}

// --- get_column ---

#[test]
fn get_column_missing_column_holds_the_line() {
    match get_column("aaa;bbb\n", ';', 2, false) {
        Err(Error::InvalidLine(l)) => assert_eq!(l, "aaa;bbb\n"),
        other => panic!("{:?}", other),
    }
}

#[test]
fn get_column_bad_number_kind() {
    match get_column("x;1", ';', 0, true) {
        Err(Error::InvalidNumber(NumberError::InvalidDigit)) => {}
        other => panic!("{:?}", other),
    }
}

#[test]
fn get_column_strips_every_final_newline() {
    assert_eq!(get_column("a;b\n\n\n", ';', 1, false).unwrap(), txt("b"));
}

#[test]
fn get_column_empty_line_has_one_empty_field() {
    assert_eq!(get_column("\n", ';', 0, false).unwrap(), txt(""));
    assert!(get_column("", ';', 1, false).is_err());
}

#[test]
fn get_column_trailing_separator() {
    assert_eq!(get_column("a;", ';', 1, false).unwrap(), txt(""));
}

#[test]
fn get_column_unicode_separator() {
    assert_eq!(get_column("α→β→γ", '→', 2, false).unwrap(), txt("γ"));
}

// --- read_line ---

#[test]
fn read_line_rejects_invalid_utf8() {
    assert!(matches!(read_line(b"ab\xff\n", 0), Err(Error::InvalidUtf8)));
    // the skipped part is not checked
    assert_eq!(read_line(b"a\xffb\ncd\n", 1).unwrap(), Some("cd\n".to_string()));
}

#[test]
fn read_line_multibyte() {
    assert_eq!(read_line("é;1\nü;2\n".as_bytes(), 1).unwrap(), Some("ü;2\n".to_string()));
}

// --- binary_search_in_file ---

#[test]
fn search_many_equal_lines_returns_first() {
    let f = b"a;0\nb;1\nb;2\nb;3\nb;4\nb;5\nb;6\nc;7\n";
    assert_eq!(binary_search_in_file(f, ';', &txt("b"), 0, false).unwrap(), Some(4));
}

#[test]
fn search_numeric_with_negatives() {
    let f = b"-10;x\n-3;y\n0;z\n4;w\n";
    assert_eq!(binary_search_in_file(f, ';', &num(-3), 0, true).unwrap(), Some(6));
    assert_eq!(binary_search_in_file(f, ';', &num(4), 0, true).unwrap(), Some(15));
    assert_eq!(binary_search_in_file(f, ';', &num(1), 0, true).unwrap(), None);
}

#[test]
fn search_reports_a_bad_line_it_reads() {
    let f = b"1;a\nx;b\n3;c\n";
    assert!(matches!(
        binary_search_in_file(f, ';', &num(3), 0, true),
        Err(Error::InvalidNumber(NumberError::InvalidDigit))
    ));
}

#[test]
fn search_missing_column_is_an_error() {
    let f = b"a;1\nb\nc;3\n";
    assert!(matches!(binary_search_in_file(f, ';', &txt("1"), 1, false), Err(Error::InvalidLine(_))));
}

#[test]
fn search_finds_the_line_after_an_empty_first_line() {
    // the empty first line has the key "", below "aaa"
    let f = b"\naaa;1\n";
    assert_eq!(binary_search_in_file(f, ';', &txt("aaa"), 0, false).unwrap(), Some(1));
    assert_eq!(binary_search_in_file(f, ';', &txt(""), 0, false).unwrap(), Some(0));
}

#[test]
fn search_and_print_after_an_empty_first_line() {
    let f = b"\nbbb;1\nbbb;2\n";
    assert_eq!(grep(f, &txt("bbb"), 0, false), lines(&["bbb;1\n", "bbb;2\n"]));
}

#[test]
fn search_finds_every_line_start() {
    // every line of a sorted file is found, empty lines included
    let g = b"\n\na\nb\nc\ncc\nd\n";
    let starts = [(txt("a"), 2), (txt("b"), 4), (txt("c"), 6), (txt("cc"), 8), (txt("d"), 11)];
    for (key, start) in starts {
        assert_eq!(binary_search_in_file(g, ';', &key, 0, false).unwrap(), Some(start));
    }
    assert_eq!(binary_search_in_file(g, ';', &txt(""), 0, false).unwrap(), Some(0));
}

// --- print_all_occurrences ---

fn lines(v: &[&str]) -> Vec<String> {
    v.iter().map(|s| s.to_string()).collect()
}

#[test]
fn occurrences_from_the_first_match() {
    let f = b"a;0\nb;1\nb;2\nb;3\nc;4\n";
    let (out, err) = print_all_occurrences(f, 4, ';', &txt("b"), 0, false);
    assert_eq!(out, lines(&["b;1\n", "b;2\n", "b;3\n"]));
    assert!(err.is_none());
}

#[test]
fn occurrences_up_to_the_end_without_newline() {
    let f = b"a;0\nb;1\nb;2";
    let (out, err) = print_all_occurrences(f, 4, ';', &txt("b"), 0, false);
    assert_eq!(out, lines(&["b;1\n", "b;2"]));
    assert!(err.is_none());
}

#[test]
fn occurrences_stop_at_a_bad_line() {
    let f = b"1;a\n1;b\nx;c\n";
    let (out, err) = print_all_occurrences(f, 0, ';', &num(1), 0, true);
    assert_eq!(out, lines(&["1;a\n", "1;b\n"]));
    assert!(matches!(err, Some(Error::InvalidNumber(NumberError::InvalidDigit))));
}

#[test]
fn occurrences_past_the_end_are_empty() {
    let (out, err) = print_all_occurrences(b"a;1\n", 100, ';', &txt("a"), 0, false);
    assert!(out.is_empty());
    assert!(err.is_none());
}

#[test]
fn occurrences_none_where_the_first_line_differs() {
    let (out, err) = print_all_occurrences(b"a;1\nb;2\n", 0, ';', &txt("b"), 0, false);
    assert!(out.is_empty());
    assert!(err.is_none());
}

#[test]
fn occurrences_invalid_utf8() {
    let (out, err) = print_all_occurrences(b"a;1\n\xff;2\n", 0, ';', &txt("a"), 0, false);
    assert_eq!(out, lines(&["a;1\n"]));
    assert!(matches!(err, Some(Error::InvalidUtf8)));
}

// --- the search and the lines printed together ---

fn grep(f: &[u8], target: &Value, column: usize, numeric: bool) -> Vec<String> {
    match binary_search_in_file(f, ';', target, column, numeric).unwrap() {
        Some(start) => {
            let (out, err) = print_all_occurrences(f, start as u64, ';', target, column, numeric);
            assert!(err.is_none());
            out
        }
        None => Vec::new(),
    }
}

#[test]
fn all_matching_lines_are_printed() {
    let f = b"alice;28;engineer\nbob;34;designer\ncarol;25;manager\ndave;31;engineer\n";
    assert_eq!(grep(f, &txt("bob"), 0, false), lines(&["bob;34;designer\n"]));
    let by_job = b"bob;34;designer\nalice;28;engineer\ndave;31;engineer\ncarol;25;manager\n";
    assert_eq!(
        grep(by_job, &txt("engineer"), 2, false),
        lines(&["alice;28;engineer\n", "dave;31;engineer\n"])
    );
    let by_age = b"carol;25;manager\nalice;28;engineer\ndave;31;engineer\nbob;34;designer\n";
    assert_eq!(grep(by_age, &num(34), 1, true), lines(&["bob;34;designer\n"]));
    assert_eq!(grep(by_age, &num(30), 1, true), Vec::<String>::new());
}

#[test]
fn all_matching_lines_in_a_long_file() {
    let mut f = Vec::new();
    for i in 0..300 {
        let key = i / 7;
        f.extend_from_slice(format!("{};{}\n", key, i).as_bytes());
    }
    for key in 0..44 {
        let expected: Vec<String> = (0..300)
            .filter(|i| i / 7 == key)
            .map(|i| format!("{};{}\n", key, i))
            .collect();
        assert_eq!(grep(&f, &num(key as i128), 0, true), expected);
    }
}

// --- parse_delimiter ---

#[test]
fn delimiter_single_character() {
    assert_eq!(parse_delimiter(";").unwrap(), ';');
    assert_eq!(parse_delimiter(",").unwrap(), ',');
}

#[test]
fn delimiter_non_ascii_single_character() {
    assert_eq!(parse_delimiter("§").unwrap(), '§');
    assert_eq!(parse_delimiter("→").unwrap(), '→');
}

#[test]
fn delimiter_empty_is_refused() {
    assert!(matches!(parse_delimiter(""), Err(Error::InvalidDelimiter(d)) if d.is_empty()));
}

#[test]
fn delimiter_of_two_characters_is_refused() {
    assert!(matches!(parse_delimiter(";;"), Err(Error::InvalidDelimiter(d)) if d == ";;"));
    assert!(matches!(parse_delimiter("é;"), Err(Error::InvalidDelimiter(_))));
}

// --- agreement with std on many inputs ---

#[test]
fn white_space_agrees_with_std() {
    for u in 0u32..=0x10FFFF {
        if let Some(c) = char::from_u32(u) {
            assert_eq!(bgrep::text::is_whitespace(c), c.is_whitespace(), "{:#x}", u);
        }
    }
}

#[test]
fn text_order_agrees_with_string_order() {
    let words = ["", "a", "ab", "abc", "b", "B", "é", "e\u{301}", "z", "ä", "中", "😀", "a b", "ab\n"];
    for x in words {
        for y in words {
            assert_eq!(txt(x).compare(&txt(y)), x.cmp(y), "{:?} {:?}", x, y);
            assert_eq!(txt(x) < txt(y), x < y);
            assert_eq!(txt(x) == txt(y), x == y);
        }
    }
}

#[test]
fn get_column_agrees_with_split() {
    let lines = ["", "\n", ";", ";;\n", "a;b;c", "a;b;c\n\n", "é;ü;;\n", " x ; y ", "no separator"];
    for line in lines {
        for position in 0..5 {
            let expected = line.trim_end_matches(['\n']).split(';').nth(position);
            match (get_column(line, ';', position, false), expected) {
                (Ok(v), Some(field)) => assert_eq!(v, txt(field)),
                (Err(Error::InvalidLine(l)), None) => assert_eq!(l, line),
                (a, b) => panic!("{:?} {}: {:?} against {:?}", line, position, a, b),
            }
        }
    }
}

// --- the search one read at a time ---

use bgrep::{judge_line, LineVerdict, Searcher, Step};
use std::io::{BufRead, Cursor, Seek, SeekFrom};

/// Runs the searcher over `f` the way the command does; gives the answer,
/// the number of reads and the number of seeks it asked for.
fn search_by_reads(f: &[u8], target: &Value, column: usize, numeric: bool) -> (Result<Option<u64>, Error>, usize, usize) {
    let mut reader = Cursor::new(f.to_vec());
    let size = reader.seek(SeekFrom::End(0)).unwrap();
    let (mut searcher, mut step) = Searcher::new(size, ';', target, column, numeric);
    let mut reads = 0;
    let mut seeks = 0;
    loop {
        match step {
            Step::ReadFrom(offset) => {
                reads += 1;
                seeks += 1;
                reader.seek(SeekFrom::Start(offset)).unwrap();
                let mut bytes = Vec::new();
                reader.read_until(b'\n', &mut bytes).unwrap();
                step = searcher.resume(&bytes);
            }
            Step::ReadNext => {
                reads += 1;
                let mut bytes = Vec::new();
                reader.read_until(b'\n', &mut bytes).unwrap();
                step = searcher.resume(&bytes);
            }
            Step::Finished(result) => return (result, reads, seeks),
        }
    }
}

fn bit_length(n: usize) -> usize {
    (usize::BITS - n.leading_zeros()) as usize
}

#[test]
fn searcher_agrees_with_the_search_on_bytes() {
    let files: [&[u8]; 5] = [
        b"aaa;1\nbbb;2\nccc;3\n",
        b"aaa;1\naaa;2\nbbb;3\n",
        b"\nbbb;1\nbbb;2\n",
        b"aaa;1\nbbb;2\nccc;3",
        b"",
    ];
    for f in files {
        for key in ["", "aaa", "bbb", "ccc", "ddd", "a"] {
            let (ours, _, _) = search_by_reads(f, &txt(key), 0, false);
            let theirs = binary_search_in_file(f, ';', &txt(key), 0, false);
            assert_eq!(ours.unwrap(), theirs.unwrap(), "{:?} {:?}", f, key);
        }
    }
}

#[test]
fn searcher_reads_few_lines() {
    let mut f = Vec::new();
    for i in 0..5000 {
        f.extend_from_slice(format!("{};{}\n", i / 3, i).as_bytes());
    }
    let bound = bit_length(f.len());
    for key in [-1i128, 0, 1, 700, 1665, 1666, 1667, 5000] {
        let (result, reads, seeks) = search_by_reads(&f, &num(key), 0, true);
        assert!(reads <= 2 * bound, "{} reads for {}", reads, key);
        assert!(seeks <= bound, "{} seeks for {}", seeks, key);
        let expected = binary_search_in_file(&f, ';', &num(key), 0, true).unwrap();
        assert_eq!(result.unwrap(), expected);
    }
}

#[test]
fn searcher_reports_errors() {
    let (result, _, _) = search_by_reads(b"1;a\nx;b\n3;c\n", &num(3), 0, true);
    assert!(matches!(result, Err(Error::InvalidNumber(NumberError::InvalidDigit))));
}

#[test]
fn judge_line_decisions() {
    assert!(matches!(judge_line(b"b;1\n", ';', &txt("b"), 0, false), LineVerdict::Print(l) if l == "b;1\n"));
    assert!(matches!(judge_line(b"c;1\n", ';', &txt("b"), 0, false), LineVerdict::Stop));
    assert!(matches!(judge_line(b"c\n", ';', &txt("b"), 1, false), LineVerdict::Fail(Error::InvalidLine(_))));
    assert!(matches!(judge_line(b"\xff\n", ';', &txt("b"), 0, false), LineVerdict::Fail(Error::InvalidUtf8)));
}

#[test]
fn decimal_numbers_read_back() {
    let samples = [0i128, 1, -1, 9, 10, -10, 12345, -987654321, i128::MAX, i128::MIN, i128::MAX - 1, i128::MIN + 1];
    for n in samples {
        assert_eq!(Value::build(&n.to_string(), true).unwrap(), num(n));
        assert_eq!(Value::build(&format!(" {n}\n"), true).unwrap(), num(n));
    }
    let mut n: i128 = 1;
    while n < i128::MAX / 7 {
        assert_eq!(Value::build(&n.to_string(), true).unwrap(), num(n));
        assert_eq!(Value::build(&(-n).to_string(), true).unwrap(), num(-n));
        n = n * 7 + 3;
    }
}
