use fuzzysort::search::{Fuzzysort, FuzzyResult, Info};

fn finder(no_match_limit: usize, limit: Option<usize>) -> Fuzzysort {
    Fuzzysort {
        no_match_limit,
        limit,
        highlight_open: String::from("<b>"),
        highlight_close: String::from("</b>"),
    }
}

fn sample() -> Vec<String> {
    vec![
        String::from("something with yreuq key word quer y"),
        String::from("quer y"),
        String::from("string with key word q u e r y in the middle."),
        String::from("string not match"),
    ]
}

fn summary(r: &FuzzyResult) -> Vec<(usize, Vec<usize>, String, String)> {
    r.results
        .iter()
        .map(|i| (i.score, i.matches.clone(), i.highlighted.clone(), i.target.clone()))
        .collect()
}

#[test]
fn it_works() {
    let fuzzysort = Fuzzysort {
        no_match_limit: 100,
        limit: None,
        highlight_open: String::from("<b>"),
        highlight_close: String::from("</b>"),
    };
    let result = fuzzysort.go(String::from("query"), &vec![
        String::from("something with yreuq key word quer y"),
        String::from("quer y"),
        String::from("string with key word q u e r y in the middle."),
        String::from("string not match"),
    ]);
    assert_eq!(result.total, 3);
    assert_eq!(result.results[0].highlighted, "<b>quer</b> <b>y</b>");
    assert_eq!(result.results[1].highlighted, "something with yreuq key word <b>quer</b> <b>y</b>");
}

#[test]
fn sample_scores_and_alignments() {
    let result = finder(100, None).go(String::from("query"), &sample());
    assert_eq!(result.total, 3);
    assert_eq!(result.results.len(), 3);
    assert_eq!(result.results[0].score, 6);
    assert_eq!(result.results[0].matches, vec![0, 1, 2, 3, 5]);
    assert_eq!(result.results[0].target, "quer y");
    assert_eq!(result.results[1].score, 96);
    assert_eq!(result.results[1].matches, vec![30, 31, 32, 33, 35]);
    assert_eq!(result.results[2].score, 165);
    assert_eq!(result.results[2].matches, vec![21, 23, 25, 27, 29]);
    assert_eq!(
        result.results[2].highlighted,
        "string with key word <b>q</b> <b>u</b> <b>e</b> <b>r</b> <b>y</b> in the middle."
    );
    for info in &result.results {
        assert_ne!(info.target, "string not match");
    }
}

#[test]
fn empty_query_finds_nothing() {
    let result = finder(100, None).go(String::new(), &sample());
    assert_eq!(result.total, 0);
    assert!(result.results.is_empty());
    let result = finder(100, Some(2)).go(String::new(), &Vec::new());
    assert_eq!(result.total, 0);
    assert!(result.results.is_empty());
}

#[test]
fn no_candidates_no_results() {
    let result = finder(100, None).go(String::from("query"), &Vec::new());
    assert_eq!(result.total, 0);
    assert!(result.results.is_empty());
}

#[test]
fn limit_cuts_results_but_not_total() {
    let result = finder(100, Some(1)).go(String::from("query"), &sample());
    assert_eq!(result.total, 3);
    assert_eq!(result.results.len(), 1);
    assert_eq!(result.results[0].highlighted, "<b>quer</b> <b>y</b>");
    let result = finder(100, Some(0)).go(String::from("query"), &sample());
    assert_eq!(result.total, 3);
    assert!(result.results.is_empty());
}

#[test]
fn limit_not_exceeded_keeps_all() {
    let result = finder(100, Some(3)).go(String::from("query"), &sample());
    assert_eq!(result.total, 3);
    assert_eq!(result.results.len(), 3);
    let result = finder(100, Some(10)).go(String::from("query"), &sample());
    assert_eq!(result.total, 3);
    assert_eq!(result.results.len(), 3);
}

#[test]
fn results_ascend_and_alignments_are_valid() {
    let targets = vec![
        String::from("zzzz ab"),
        String::from("xaxb"),
        String::from("ab"),
        String::from("a-b"),
        String::from("b a"),
        String::from("fooAlphaBeta"),
    ];
    let result = finder(100, None).go(String::from("ab"), &targets);
    assert_eq!(result.total, 5);
    assert_eq!(result.results.len(), 5);
    for pair in result.results.windows(2) {
        assert!(pair[0].score <= pair[1].score);
    }
    for info in &result.results {
        assert_eq!(info.matches.len(), 2);
        assert!(info.matches[0] < info.matches[1]);
        assert!(info.matches[1] < info.target.chars().count());
    }
}

#[test]
fn repeated_search_gives_the_same() {
    let f = finder(100, Some(2));
    let a = f.go(String::from("query"), &sample());
    let b = f.go(String::from("query"), &sample());
    assert_eq!(a.total, b.total);
    assert_eq!(summary(&a), summary(&b));
}

#[test]
fn loose_only_match_is_kept_with_penalty() {
    let result = finder(100, None).go(String::from("ab"), &vec![String::from("xaxb")]);
    assert_eq!(result.total, 1);
    assert_eq!(result.results[0].matches, vec![1, 3]);
    assert_eq!(result.results[0].score, 4002);
    assert_eq!(result.results[0].highlighted, "x<b>a</b>x<b>b</b>");
}

#[test]
fn loose_match_at_the_second_character_pays_for_it() {
    let f = finder(100, None);
    let info = f.info_strict(&String::from("a"), &String::from("xa"), vec![1]);
    assert_eq!(info.matches, vec![1]);
    assert_eq!(info.score, 1001);
    let info = f.info(&String::from("a"), &String::from("xa")).unwrap();
    assert_eq!(info.score, 1001);
}

#[test]
fn hump_start_counts_as_word_start() {
    let f = finder(100, None);
    let hump = f.info(&String::from("fb"), &String::from("fooBar")).unwrap();
    assert_eq!(hump.matches, vec![0, 3]);
    assert_eq!(hump.score, 7);
    let flat = f.info(&String::from("fb"), &String::from("foobar")).unwrap();
    assert_eq!(flat.matches, vec![0, 3]);
    assert_eq!(flat.score, 3004);
}

#[test]
fn separator_starts_a_word() {
    let f = finder(100, None);
    let info = f.info(&String::from("fb"), &String::from("foo_bar")).unwrap();
    assert_eq!(info.matches, vec![0, 4]);
    assert_eq!(info.score, 4 + 5);
}

#[test]
fn equal_scores_keep_the_order_given() {
    let targets = vec![String::from("ab x"), String::from("ab y"), String::from("ab")];
    let result = finder(100, None).go(String::from("ab"), &targets);
    assert_eq!(result.total, 3);
    assert_eq!(result.results[0].target, "ab");
    assert_eq!(result.results[0].score, 0);
    assert_eq!(result.results[1].target, "ab x");
    assert_eq!(result.results[1].score, 2);
    assert_eq!(result.results[2].target, "ab y");
    assert_eq!(result.results[2].score, 2);
}

#[test]
fn matching_ignores_case() {
    let f = finder(100, None);
    let result = f.go(String::from("QUERY"), &vec![String::from("quer y")]);
    assert_eq!(result.total, 1);
    assert_eq!(result.results[0].highlighted, "<b>quer</b> <b>y</b>");
    let result = f.go(String::from("straße"), &vec![String::from("STRAẞE")]);
    assert_eq!(result.total, 1);
    let result = f.go(String::from("ÉCOLE"), &vec![String::from("école")]);
    assert_eq!(result.total, 1);
    assert_eq!(result.results[0].highlighted, "<b>école</b>");
}

#[test]
fn folding_that_changes_length_is_no_match() {
    let f = finder(100, None);
    let result = f.go(String::from("s"), &vec![String::from("ß")]);
    assert_eq!(result.total, 0);
    let result = f.go(String::from("ß"), &vec![String::from("ss")]);
    assert_eq!(result.total, 0);
}

#[test]
fn candidate_shorter_than_query_fails() {
    let f = finder(100, None);
    assert!(f.info(&String::from("query"), &String::from("que")).is_none());
    assert!(f.info(&String::from("query"), &String::new()).is_none());
}

#[test]
fn gap_limit_gives_up() {
    let f = finder(2, None);
    assert!(f.info(&String::from("ab"), &String::from("axxb")).is_none());
    let info = f.info(&String::from("ab"), &String::from("axb")).unwrap();
    assert_eq!(info.matches, vec![0, 2]);
    let f = finder(0, None);
    assert!(f.info(&String::from("ab"), &String::from("xab")).is_none());
    assert!(f.info(&String::from("ab"), &String::from("ab")).is_some());
}

#[test]
fn info_leaves_highlighted_empty() {
    let f = finder(100, None);
    let info = f.info(&String::from("query"), &String::from("quer y")).unwrap();
    assert_eq!(info.highlighted, "");
    assert_eq!(info.target, "quer y");
    assert_eq!(info.score, 6);
}

#[test]
fn info_strict_prefers_word_starts() {
    let f = finder(100, None);
    let info = f.info_strict(
        &String::from("query"),
        &String::from("something with yreuq key word quer y"),
        vec![19, 31, 32, 33, 35],
    );
    assert_eq!(info.matches, vec![30, 31, 32, 33, 35]);
    assert_eq!(info.score, 96);
    assert_eq!(info.highlighted, "");
    assert_eq!(info.target, "something with yreuq key word quer y");
}

#[test]
fn info_strict_gives_up_at_the_gap_limit() {
    let f = finder(3, None);
    let info = f.info_strict(
        &String::from("query"),
        &String::from("something with yreuq key word quer y"),
        vec![19, 31, 32, 33, 35],
    );
    assert_eq!(info.matches, vec![19, 31, 32, 33, 35]);
    assert_eq!(info.score, (19 + 31 + 35) * 1000 + 31);
}

#[test]
fn highlight_wraps_each_run_once() {
    let f = finder(100, None);
    let info = Info {
        score: 96,
        matches: vec![30, 31, 32, 33, 35],
        highlighted: String::new(),
        target: String::from("something with yreuq key word quer y"),
    };
    assert_eq!(f.highlight(&info), "something with yreuq key word <b>quer</b> <b>y</b>");
}

#[test]
fn highlight_counts_characters_not_bytes() {
    let f = finder(100, None);
    let result = f.go(String::from("wö"), &vec![String::from("héllo wörld")]);
    assert_eq!(result.total, 1);
    assert_eq!(result.results[0].matches, vec![6, 7]);
    assert_eq!(result.results[0].highlighted, "héllo <b>wö</b>rld");
    assert_eq!(result.results[0].score, 6 + 9);
}

#[test]
fn highlight_without_matches_keeps_the_text() {
    let f = finder(100, None);
    let info = Info { score: 0, matches: Vec::new(), highlighted: String::new(), target: String::from("abc") };
    assert_eq!(f.highlight(&info), "abc");
}

#[test]
fn highlight_uses_the_configured_markers() {
    let f = Fuzzysort {
        no_match_limit: 100,
        limit: None,
        highlight_open: String::from("["),
        highlight_close: String::from("]"),
    };
    let info = Info { score: 0, matches: vec![0, 2, 3], highlighted: String::new(), target: String::from("abcd") };
    assert_eq!(f.highlight(&info), "[a]b[cd]");
}

#[test]
fn set_highlighted_replaces_only_the_text() {
    let mut info = Info { score: 7, matches: vec![1, 2], highlighted: String::new(), target: String::from("abc") };
    info.set_highlighted(String::from("a<b>bc</b>"));
    assert_eq!(info.highlighted, "a<b>bc</b>");
    assert_eq!(info.score, 7);
    assert_eq!(info.matches, vec![1, 2]);
    assert_eq!(info.target, "abc");
}

#[test]
fn folding_follows_full_case_folding() {
    let f = finder(100, None);
    assert!(f.info(&String::from("\u{130}"), &String::from("\u{130}stanbul")).is_some());
    assert!(f.info(&String::from("i"), &String::from("\u{130}")).is_none());
    assert!(f.info(&String::from("k"), &String::from("\u{212A}")).is_some());
    assert!(f.info(&String::from("σ"), &String::from("Σ")).is_some());
    assert!(f.info(&String::from("ς"), &String::from("Σ")).is_some());
}
