use fuzzysort::highlight::render;
use fuzzysort::loose::loose_match;
use fuzzysort::score::score;
use fuzzysort::search::{rank_position, Info};
use fuzzysort::strict::{seek_boundary, strict_match};
use fuzzysort::text::{to_chars, CharClass};

fn chars(s: &str) -> Vec<char> {
    s.chars().collect()
}

#[test]
fn to_chars_decodes_every_character() {
    assert_eq!(to_chars("héllo"), vec!['h', 'é', 'l', 'l', 'o']);
    assert_eq!(to_chars(""), Vec::<char>::new());
}

#[test]
fn char_class_reads_case_and_kind() {
    assert_eq!(CharClass::of('A'), CharClass { upper: true, alnum: true });
    assert_eq!(CharClass::of('a'), CharClass { upper: false, alnum: true });
    assert_eq!(CharClass::of('7'), CharClass { upper: false, alnum: true });
    assert_eq!(CharClass::of(' '), CharClass { upper: false, alnum: false });
    assert_eq!(CharClass::of('É'), CharClass { upper: true, alnum: true });
    assert_eq!(CharClass::none(), CharClass { upper: false, alnum: false });
}

#[test]
fn word_start_rule() {
    let lower = CharClass { upper: false, alnum: true };
    let upper = CharClass { upper: true, alnum: true };
    let other = CharClass { upper: false, alnum: false };
    assert!(lower.then_starts_word(&upper));
    assert!(!upper.then_starts_word(&upper));
    assert!(!lower.then_starts_word(&lower));
    assert!(!upper.then_starts_word(&lower));
    assert!(other.then_starts_word(&lower));
    assert!(lower.then_starts_word(&other));
    assert!(other.then_starts_word(&other));
}

#[test]
fn loose_match_takes_the_leftmost_occurrence() {
    let t = chars("something with yreuq key word quer y");
    assert_eq!(loose_match(&chars("query"), &t, 100), Some(vec![19, 31, 32, 33, 35]));
    assert_eq!(loose_match(&chars("query"), &chars("string not match"), 100), None);
    assert_eq!(loose_match(&chars("aa"), &chars("a"), 100), None);
    assert_eq!(loose_match(&chars(""), &chars("abc"), 100), Some(Vec::new()));
}

#[test]
fn loose_match_counts_misses_in_a_row() {
    assert_eq!(loose_match(&chars("ab"), &chars("xxaxxb"), 3), Some(vec![2, 5]));
    assert_eq!(loose_match(&chars("ab"), &chars("xxaxxxb"), 3), None);
    assert_eq!(loose_match(&chars("ab"), &chars("xxxab"), 3), None);
    assert_eq!(loose_match(&chars("ab"), &chars("Ab"), 1), Some(vec![0, 1]));
}

#[test]
fn strict_match_jumps_to_the_loose_position() {
    let q = chars("query");
    let t = chars("string with key word q u e r y in the middle.");
    assert_eq!(strict_match(&q, &t, &vec![21, 23, 25, 27, 29], 100), Some(vec![21, 23, 25, 27, 29]));
    let t = chars("something with yreuq key word quer y");
    assert_eq!(strict_match(&q, &t, &vec![19, 31, 32, 33, 35], 100), Some(vec![30, 31, 32, 33, 35]));
    assert_eq!(strict_match(&q, &t, &vec![19, 31, 32, 33, 35], 4), None);
}

#[test]
fn strict_match_fails_without_word_starts() {
    assert_eq!(strict_match(&chars("ab"), &chars("xaxb"), &vec![1, 3], 100), None);
    assert_eq!(strict_match(&chars("ab"), &chars("xAxB"), &vec![1, 3], 100), Some(vec![1, 3]));
}

#[test]
fn seek_boundary_stops_at_word_starts() {
    let t = chars("ab cdEf");
    let lower = CharClass { upper: false, alnum: true };
    assert_eq!(seek_boundary(&t, 0, CharClass::none()), (0, lower));
    assert_eq!(seek_boundary(&t, 1, lower), (2, CharClass { upper: false, alnum: false }));
    assert_eq!(seek_boundary(&t, 4, lower), (5, CharClass { upper: true, alnum: true }));
    assert_eq!(seek_boundary(&t, 6, CharClass { upper: true, alnum: true }), (7, lower));
    assert_eq!(seek_boundary(&t, 7, lower), (7, lower));
}

#[test]
fn score_adds_positions_after_gaps() {
    assert_eq!(score(&vec![0, 1, 2, 3, 5], true, 5, 6), 6);
    assert_eq!(score(&vec![30, 31, 32, 33, 35], true, 5, 36), 96);
    assert_eq!(score(&vec![19, 31, 32, 33, 35], false, 5, 36), 85_031);
    assert_eq!(score(&vec![1, 2], true, 2, 2), 1);
    assert_eq!(score(&vec![1], false, 1, 2), 1001);
    assert_eq!(score(&vec![1], true, 1, 2), 2);
    assert_eq!(score(&vec![2, 3], true, 2, 4), 4);
    assert_eq!(score(&Vec::new(), false, 0, 3), 3);
}

#[test]
fn score_is_capped() {
    let far = usize::MAX / 500;
    assert_eq!(score(&vec![far], false, 1, far + 1), usize::MAX);
    assert_eq!(score(&vec![usize::MAX - 1], true, 1, usize::MAX), usize::MAX);
}

#[test]
fn render_marks_runs() {
    assert_eq!(render(&chars("abcd"), &vec![0, 1, 3], "<", ">"), "<ab>c<d>");
    assert_eq!(render(&chars("abcd"), &vec![1, 2], "<", ">"), "a<bc>d");
    assert_eq!(render(&chars("abcd"), &vec![0, 1, 2, 3], "<", ">"), "<abcd>");
    assert_eq!(render(&chars("abcd"), &Vec::new(), "<", ">"), "abcd");
    assert_eq!(render(&chars(""), &Vec::new(), "<", ">"), "");
    assert_eq!(render(&chars("abcd"), &vec![1, 3], "", ""), "abcd");
}

#[test]
fn rank_position_goes_behind_equal_scores() {
    let entry = |score: usize| Info { score, matches: Vec::new(), highlighted: String::new(), target: String::new() };
    let ranking = vec![entry(1), entry(3), entry(3), entry(8)];
    assert_eq!(rank_position(&ranking, 0), 0);
    assert_eq!(rank_position(&ranking, 1), 1);
    assert_eq!(rank_position(&ranking, 3), 3);
    assert_eq!(rank_position(&ranking, 5), 3);
    assert_eq!(rank_position(&ranking, 8), 4);
    assert_eq!(rank_position(&Vec::new(), 8), 0);
}
