use minigrep::config::Config;
use minigrep::pattern::{prepare_query, CompiledPattern, SearchFlags};
use minigrep::render::{
    assemble_highlights, colorize_range, colorize_ranges, format_line, line_label,
    output_matches, render_results, OutputFlags,
};
use minigrep::search::{search_contents, search_lines, FileMatches, MatchedLine};
use minigrep::walk::{classify, collect_dir, EntryKind, WalkStep};

const RED: &str = "\x1b[31m";
const RESET: &str = "\x1b[0m";

fn compile(query: &str, case_insensitive: bool, regexp: bool) -> CompiledPattern {
    match prepare_query(query, &SearchFlags::new(case_insensitive, regexp)) {
        Ok(p) => p,
        Err(_) => panic!("query should compile"),
    }
}

fn plain_flags(lines: bool, quiet: bool, count: bool) -> OutputFlags {
    OutputFlags::new(false, lines, quiet, count)
}

fn one_file(path: &str, contents: &str, query: &str) -> FileMatches {
    let p = compile(query, false, false);
    search_contents(&p, path.to_string(), contents).expect("the file should match")
}

#[test]
fn end_to_end_numbered_plain_lines() {
    let p = compile("fn ", false, false);
    let text = "fn main() {\n  let x = 1;\nfn helper() {}";
    let found = search_contents(&p, "main.rs".to_string(), text).expect("two lines match");
    assert_eq!(found.matches.len(), 2);
    let flags = plain_flags(true, false, false);
    let rows: Vec<String> = found.matches.iter().map(|m| format_line(&flags, m, 3)).collect();
    assert_eq!(rows, vec!["0001] fn main() {".to_string(), "0003] fn helper() {}".to_string()]);
}

#[test]
fn search_records_line_numbers_and_locations() {
    let found = one_file("a.txt", "xx\nab ab\r\nzz\nab", "ab");
    assert_eq!(found.file_path, "a.txt");
    let numbers: Vec<usize> = found.matches.iter().map(|m| m.line_number).collect();
    assert_eq!(numbers, vec![2, 4]);
    assert_eq!(found.matches[0].line, "ab ab");
    assert_eq!(found.matches[0].locations, vec![0, 3]);
    assert_eq!(found.matches[1].locations, vec![0]);
}

#[test]
fn empty_query_matches_no_line() {
    let p = compile("", false, false);
    assert!(search_contents(&p, "f".to_string(), "one\ntwo\n\nthree").is_none());
    let lines = vec!["".to_string(), "x".to_string()];
    assert!(search_lines(&p, "g".to_string(), &lines).is_none());
}

#[test]
fn file_without_match_gives_nothing() {
    let p = compile("needle", false, false);
    assert!(search_contents(&p, "hay".to_string(), "hay\nstack\n").is_none());
    assert!(search_contents(&p, "empty".to_string(), "").is_none());
}

#[test]
fn quiet_mode_reports_only_success() {
    let found = vec![one_file("a", "x y", "x")];
    let quiet = plain_flags(true, true, true);
    let (rows, ok) = render_results(&found, "x", &quiet);
    assert!(rows.is_empty());
    assert!(ok);
    let (rows, ok) = render_results(&Vec::new(), "x", &quiet);
    assert!(rows.is_empty());
    assert!(!ok);
}

#[test]
fn display_mode_always_succeeds() {
    let flags = plain_flags(true, false, false);
    let (rows, ok) = render_results(&Vec::new(), "x", &flags);
    assert!(rows.is_empty());
    assert!(ok);
}

#[test]
fn count_mode_closes_with_total() {
    let files = vec![one_file("a.txt", "one x\ntwo", "x"), one_file("b.txt", "x three", "x")];
    let flags = plain_flags(false, false, true);
    let rows = output_matches(&files, "x", &flags);
    assert_eq!(
        rows,
        vec![
            "-- a.txt --".to_string(),
            "one x".to_string(),
            "-- b.txt --".to_string(),
            "x three".to_string(),
            "Number of matches: 2".to_string(),
        ]
    );
}

#[test]
fn labels_are_zero_padded() {
    assert_eq!(line_label(1), "0001] ");
    assert_eq!(line_label(12), "0012] ");
    assert_eq!(line_label(12345), "12345] ");
}

#[test]
fn matched_line_keeps_its_parts() {
    let m = MatchedLine::new("hello".to_string(), 7, vec![1, 3]);
    assert_eq!(m.line, "hello");
    assert_eq!(m.line_number, 7);
    assert_eq!(m.locations, vec![1, 3]);
}

#[test]
fn colorize_range_paints_one_span() {
    let mut line = "say hello now".to_string();
    colorize_range(4, 5, &mut line);
    assert_eq!(line, format!("say {RED}hello{RESET} now"));
    let mut code = "fn main".to_string();
    colorize_range(0, 2, &mut code);
    assert_eq!(code, "\x1b[31mfn\x1b[0m main");
    let mut wide = "héllo".to_string();
    colorize_range(1, 1, &mut wide);
    assert_eq!(wide, format!("h{RED}é{RESET}llo"));
}

#[test]
fn assembling_puts_painted_text_in_place() {
    let painted = vec!["<ab>".to_string(), "<d>".to_string()];
    let r = assemble_highlights("abcdé", &vec![(0, 2), (3, 4)], &painted);
    assert_eq!(r, "<ab>c<d>é");
    let clipped = assemble_highlights("ab", &vec![(1, 9)], &vec!["*".to_string()]);
    assert_eq!(clipped, "a*");
}

#[test]
fn colorize_ranges_keeps_unpainted_text() {
    let r = colorize_ranges("aXbXc", &vec![(1, 2), (3, 4)]);
    let expected_colored = format!("a{RED}X{RESET}b{RED}X{RESET}c");
    assert!(r == "aXbXc" || r == expected_colored);
    assert_eq!(colorize_ranges("plain", &vec![]), "plain");
}

#[test]
fn colored_line_merges_overlapping_occurrences() {
    let m = MatchedLine::new("aaab".to_string(), 2, vec![0, 1]);
    let flags = OutputFlags::new(true, true, false, false);
    let r = format_line(&flags, &m, 2);
    let colored = format!("0002] {RED}aaa{RESET}b");
    assert!(r == "0002] aaab" || r == colored);
}

#[test]
fn unnumbered_plain_line_is_the_line() {
    let m = MatchedLine::new("text".to_string(), 9, vec![0]);
    assert_eq!(format_line(&plain_flags(false, false, false), &m, 4), "text");
}

#[test]
fn walk_never_follows_links() {
    assert_eq!(classify(Some(EntryKind::Symlink)), WalkStep::Skip);
    assert_eq!(classify(None), WalkStep::Skip);
    assert_eq!(classify(Some(EntryKind::Other)), WalkStep::Skip);
    assert_eq!(classify(Some(EntryKind::File)), WalkStep::SearchFile);
    assert_eq!(classify(Some(EntryKind::Directory)), WalkStep::ListDirectory);
}

#[test]
fn unreadable_entries_contribute_nothing() {
    assert!(collect_dir(vec![None, None, None]).is_none());
    assert!(collect_dir(vec![]).is_none());
    assert!(collect_dir(vec![Some(vec![])]).is_none());
}

#[test]
fn directory_results_are_joined_in_order() {
    let a = one_file("a", "x", "x");
    let b = one_file("b", "x", "x");
    let c = one_file("c", "x", "x");
    let joined = collect_dir(vec![Some(vec![a, b]), None, Some(vec![c])]).expect("three files");
    let names: Vec<&str> = joined.iter().map(|f| f.file_path.as_str()).collect();
    assert_eq!(names, vec!["a", "b", "c"]);
}

#[test]
fn config_defaults_to_standard_input() {
    let c = Config::new(
        "q".to_string(),
        None,
        SearchFlags::new(false, false),
        OutputFlags::new(true, true, false, false),
    );
    assert_eq!(c.path, "-");
    assert!(c.reads_stdin());
    let d = Config::new(
        "q".to_string(),
        Some("src".to_string()),
        SearchFlags::new(true, false),
        OutputFlags::new(false, false, true, true),
    );
    assert_eq!(d.path, "src");
    assert!(!d.reads_stdin());
    assert!(d.search_flags.case_insensitive);
    assert!(d.output_flags.quiet);
}

#[test]
fn forced_colour_wraps_spans_in_escape_codes() {
    colored::control::set_override(true);
    let r = colorize_ranges("aXb", &vec![(1, 2)]);
    assert_eq!(r, format!("a{RED}X{RESET}b"));
    let m = MatchedLine::new("aaab".to_string(), 2, vec![0, 1]);
    let flags = OutputFlags::new(true, true, false, false);
    assert_eq!(format_line(&flags, &m, 2), format!("0002] {RED}aaa{RESET}b"));
}

#[test]
fn touching_spans_are_assembled() {
    let painted = vec!["[ab]".to_string(), "[cd]".to_string()];
    assert_eq!(assemble_highlights("abcde", &vec![(0, 2), (2, 4)], &painted), "[ab][cd]e");
    let r = colorize_ranges("abcde", &vec![(0, 2), (2, 4)]);
    assert!(r == "abcde" || r == format!("{RED}ab{RESET}{RED}cd{RESET}e"));
}

#[test]
fn bare_carriage_return_on_last_line_is_kept() {
    let found = one_file("cr.txt", "ab\r\nab\r", "ab");
    assert_eq!(found.matches[0].line, "ab");
    assert_eq!(found.matches[1].line, "ab\r");
}

#[test]
fn multibyte_line_is_highlighted_by_characters() {
    colored::control::set_override(true);
    let p = compile("l", false, false);
    let found = search_contents(&p, "h".to_string(), "héllo").expect("one line");
    assert_eq!(found.matches[0].locations, vec![2, 3]);
    let flags = OutputFlags::new(true, false, false, false);
    assert_eq!(format_line(&flags, &found.matches[0], 1), format!("hé{RED}ll{RESET}o"));
}

#[test]
fn case_variant_files_give_the_same_hits() {
    let p = compile("hello", true, false);
    let a = search_contents(&p, "a".to_string(), "Hello\nworld HELLO\nnone").expect("hits");
    let b = search_contents(&p, "b".to_string(), "hELLO\nWORLD hello\nNONE").expect("hits");
    assert_eq!(a.matches.len(), b.matches.len());
    for (x, y) in a.matches.iter().zip(b.matches.iter()) {
        assert_eq!(x.line_number, y.line_number);
        assert_eq!(x.locations, y.locations);
    }
    assert_eq!(a.matches[1].locations, vec![6]);
}
