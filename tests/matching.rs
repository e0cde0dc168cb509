use minigrep::pattern::{fold_ascii, prepare_query, CompiledPattern, PatternError, SearchFlags};
use minigrep::scan::{find_literal, scan};

fn compile(query: &str, case_insensitive: bool, regexp: bool) -> CompiledPattern {
    match prepare_query(query, &SearchFlags::new(case_insensitive, regexp)) {
        Ok(p) => p,
        Err(_) => panic!("query should compile"),
    }
}

#[test]
fn literal_scan_reports_overlapping_occurrences() {
    let p = compile("aa", false, false);
    assert_eq!(scan("aaa", &p), vec![0, 1]);
}

#[test]
fn find_literal_lists_every_position() {
    let line: Vec<char> = "abcabcab".chars().collect();
    let pat: Vec<char> = "ab".chars().collect();
    assert_eq!(find_literal(&line, &pat), vec![0, 3, 6]);
    let none: Vec<char> = "zz".chars().collect();
    assert_eq!(find_literal(&line, &none), Vec::<usize>::new());
    assert_eq!(find_literal(&line, &Vec::new()), Vec::<usize>::new());
}

#[test]
fn literal_pattern_longer_than_line_finds_nothing() {
    let p = compile("abcdef", false, false);
    assert_eq!(scan("abc", &p), Vec::<usize>::new());
}

#[test]
fn case_sensitive_literal_respects_case() {
    let p = compile("fn", false, false);
    assert_eq!(scan("FN fn Fn", &p), vec![3]);
}

#[test]
fn case_insensitive_scan_ignores_case_variants() {
    let p = compile("HeLLo", true, false);
    let a = scan("hello HELLO", &p);
    let b = scan("HeLlO hello", &p);
    assert_eq!(a, vec![0, 6]);
    assert_eq!(a, b);
}

#[test]
fn offsets_count_characters_not_bytes() {
    let p = compile("b", false, false);
    assert_eq!(scan("ééb", &p), vec![2]);
}

#[test]
fn fold_ascii_lowers_only_ascii_letters() {
    assert_eq!(fold_ascii('Q'), 'q');
    assert_eq!(fold_ascii('q'), 'q');
    assert_eq!(fold_ascii('É'), 'É');
    assert_eq!(fold_ascii('['), '[');
}

#[test]
fn empty_query_compiles_to_nothing() {
    let p = compile("", false, false);
    assert_eq!(scan("anything at all", &p), Vec::<usize>::new());
    let r = compile("", false, true);
    assert_eq!(scan("anything at all", &r), Vec::<usize>::new());
}

#[test]
fn invalid_regex_is_rejected() {
    let r = prepare_query("(unclosed", &SearchFlags::new(false, true));
    assert!(matches!(r, Err(PatternError::InvalidPattern)));
}

#[test]
fn invalid_text_is_fine_as_a_literal() {
    let p = compile("(unclosed", false, false);
    assert_eq!(scan("a (unclosed b", &p), vec![2]);
}

#[test]
fn regex_scan_reports_match_starts() {
    let p = compile("a+b", false, true);
    assert_eq!(scan("xaab ab b", &p), vec![1, 5]);
}

#[test]
fn regex_offsets_count_characters() {
    let p = compile("[0-9]+", false, true);
    assert_eq!(scan("é12 ü3", &p), vec![1, 5]);
}

#[test]
fn regex_matches_do_not_overlap() {
    let p = compile("aa", false, true);
    assert_eq!(scan("aaa", &p), vec![0]);
    match &p {
        CompiledPattern::Regex(re) => {
            let spans = re.match_spans("aaaaa");
            assert_eq!(spans, vec![(0, 2), (2, 4)]);
            for w in spans.windows(2) {
                assert!(w[0].1 <= w[1].0);
            }
        }
        _ => panic!("expected a regular expression"),
    }
}

#[test]
fn regex_honours_case_insensitivity() {
    let p = compile("abc", true, true);
    assert_eq!(scan("xABC abc", &p), vec![1, 5]);
    let q = compile("abc", false, true);
    assert_eq!(scan("xABC abc", &q), vec![5]);
}
