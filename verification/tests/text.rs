use libreviewer::text::{
    comes_first, line_spans, parse_u64, parse_usize, same_text, split_spans, to_chars, word_spans,
    Delimiter, Span,
};

fn texts(text: &Vec<char>, spans: &Vec<Span>) -> Vec<String> {
    spans.iter().map(|span| text[span.start..span.end].iter().collect()).collect()
}

fn whole(text: &Vec<char>) -> Span {
    Span { start: 0, end: text.len() }
}

#[test]
fn chars_of_a_string() {
    assert_eq!(to_chars("a\u{e9}\u{3000}z"), vec!['a', '\u{e9}', '\u{3000}', 'z']);
    assert!(to_chars("").is_empty());
}

#[test]
fn split_keeps_empty_pieces() {
    let split = |s: &str| {
        let text = to_chars(s);
        texts(&text, &split_spans(&text, whole(&text), Delimiter::Exactly(',')))
    };
    assert_eq!(split("a,b,c"), vec!["a", "b", "c"]);
    assert_eq!(split("a,,c"), vec!["a", "", "c"]);
    assert_eq!(split(",a,"), vec!["", "a", ""]);
    assert_eq!(split(""), vec![""]);
    assert_eq!(split(","), vec!["", ""]);
    assert_eq!(split("abc"), vec!["abc"]);
}

#[test]
fn split_works_inside_a_span() {
    let text = to_chars("x,a,b;y,z");
    let spans = split_spans(&text, Span { start: 2, end: 5 }, Delimiter::Exactly(','));
    assert_eq!(texts(&text, &spans), vec!["a", "b"]);
    assert_eq!((spans[0].start, spans[0].end, spans[1].start, spans[1].end), (2, 3, 4, 5));
}

#[test]
fn words_stand_between_white_space() {
    let words = |s: &str| {
        let text = to_chars(s);
        texts(&text, &word_spans(&text, whole(&text)))
    };
    assert_eq!(words("a b  c"), vec!["a", "b", "c"]);
    assert_eq!(words("  a\tb\u{a0}c\u{2003}d\u{3000}e\r\n"), vec!["a", "b", "c", "d", "e"]);
    assert_eq!(words("a\u{200b}b"), vec!["a\u{200b}b"]);
    assert!(words("").is_empty());
    assert!(words(" \t ").is_empty());
}

#[test]
fn lines_end_at_line_feeds() {
    let lines = |s: &str| {
        let text = to_chars(s);
        texts(&text, &line_spans(&text))
    };
    assert_eq!(lines("a\nb\nc"), vec!["a", "b", "c"]);
    assert_eq!(lines("a\nb\n"), vec!["a", "b"]);
    assert_eq!(lines("a\r\nb\r\n"), vec!["a", "b"]);
    assert_eq!(lines("a\n\nb\n\n"), vec!["a", "", "b", ""]);
    assert_eq!(lines("a\rb\r\r\nc\r"), vec!["a\rb\r", "c\r"]);
    assert_eq!(lines("\n"), vec![""]);
    assert_eq!(lines("\r\n"), vec![""]);
    assert!(lines("").is_empty());
}

#[test]
fn lines_are_std_lines() {
    for s in ["", "\n", "a", "a\n", "a\r", "a\r\n", "\r", "\r\n\r", "a\n\rb\n\n", "x\r\r\n\ny"] {
        let text = to_chars(s);
        let expected: Vec<String> = s.lines().map(String::from).collect();
        assert_eq!(texts(&text, &line_spans(&text)), expected, "{:?}", s);
    }
}

#[test]
fn words_are_std_words() {
    for s in ["", " ", "a", " a b ", "a\u{85}b\u{1680}c\u{2028}d\u{2029}e\u{202f}f\u{205f}g", "a\u{b}b\u{c}c"] {
        let text = to_chars(s);
        let expected: Vec<String> = s.split_whitespace().map(String::from).collect();
        assert_eq!(texts(&text, &word_spans(&text, whole(&text))), expected, "{:?}", s);
    }
}

#[test]
fn same_text_compares_a_span() {
    let text = to_chars("Pallet: x");
    assert!(same_text(&text, Span { start: 0, end: 7 }, &to_chars("Pallet:")));
    assert!(!same_text(&text, Span { start: 0, end: 6 }, &to_chars("Pallet:")));
    assert!(!same_text(&text, Span { start: 0, end: 7 }, &to_chars("pallet:")));
    assert!(same_text(&text, Span { start: 3, end: 3 }, &to_chars("")));
}

#[test]
fn numbers_are_read() {
    let number = |s: &str| {
        let text = to_chars(s);
        parse_u64(&text, whole(&text))
    };
    assert_eq!(number("0"), Some(0));
    assert_eq!(number("409567"), Some(409567));
    assert_eq!(number("007"), Some(7));
    assert_eq!(number("+7"), Some(7));
    assert_eq!(number("18446744073709551615"), Some(u64::MAX));
    assert_eq!(number("18446744073709551616"), None);
    assert_eq!(number("99999999999999999999"), None);
    assert_eq!(number("184467440737095516150"), None);
    assert_eq!(number(""), None);
    assert_eq!(number("+"), None);
    assert_eq!(number("-7"), None);
    assert_eq!(number("7+"), None);
    assert_eq!(number("1 "), None);
    assert_eq!(number("1.5"), None);
    assert_eq!(number("\u{661}"), None);
    let text = to_chars("ab12cd");
    assert_eq!(parse_u64(&text, Span { start: 2, end: 4 }), Some(12));
    assert_eq!(parse_usize(&text, Span { start: 2, end: 4 }), Some(12));
    assert_eq!(parse_usize(&text, Span { start: 1, end: 4 }), None);
}

#[test]
fn numbers_are_std_numbers() {
    for s in ["", "0", "+0", "-0", "+", "12", "+12", "++12", "012", "1_000", "18446744073709551615", "18446744073709551616"] {
        let text = to_chars(s);
        assert_eq!(parse_u64(&text, whole(&text)), s.parse::<u64>().ok(), "{:?}", s);
    }
}

#[test]
fn texts_are_ordered_as_strings_are() {
    let texts = ["", "a", "ab", "b", "B", "balances", "democracy", "\u{e9}", "z", "\u{10000}", "\u{ffff}"];
    for a in texts {
        for b in texts {
            assert_eq!(comes_first(a, b), a <= b, "{:?} {:?}", a, b);
        }
    }
}
