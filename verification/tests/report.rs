use fuzzysort::report::push_decimal;
use fuzzysort::search::{FuzzyResult, Fuzzysort, Info};

fn decimal(n: usize) -> String {
    let mut s = String::new();
    push_decimal(&mut s, n);
    s
}

#[test]
fn push_decimal_writes_digits() {
    assert_eq!(decimal(0), "0");
    assert_eq!(decimal(7), "7");
    assert_eq!(decimal(10), "10");
    assert_eq!(decimal(96), "96");
    assert_eq!(decimal(1_234_567_890), "1234567890");
    assert_eq!(decimal(usize::MAX), format!("{}", usize::MAX));
}

#[test]
fn push_decimal_appends() {
    let mut s = String::from("n = ");
    push_decimal(&mut s, 405);
    assert_eq!(s, "n = 405");
}

#[test]
fn info_text_shows_score_and_highlight() {
    let info = Info {
        score: 6,
        matches: vec![0, 1, 2, 3, 5],
        highlighted: String::from("<b>quer</b> <b>y</b>"),
        target: String::from("quer y"),
    };
    assert_eq!(info.to_text(), "\t{ score: 6, highlighted: '<b>quer</b> <b>y</b>' }");
}

#[test]
fn result_text_lists_matches() {
    let f = Fuzzysort {
        no_match_limit: 100,
        limit: Some(2),
        highlight_open: String::from("<b>"),
        highlight_close: String::from("</b>"),
    };
    let targets = vec![
        String::from("something with yreuq key word quer y"),
        String::from("quer y"),
        String::from("string with key word q u e r y in the middle."),
    ];
    let result = f.go(String::from("query"), &targets);
    assert_eq!(
        result.to_text(),
        "[\r\n\t{ score: 6, highlighted: '<b>quer</b> <b>y</b>' },\r\n\t{ score: 96, highlighted: 'something with yreuq key word <b>quer</b> <b>y</b>' }\r\n]"
    );
}

#[test]
fn result_text_of_nothing() {
    let result = FuzzyResult { results: Vec::new(), total: 0 };
    assert_eq!(result.to_text(), "[\r\n\r\n]");
}
