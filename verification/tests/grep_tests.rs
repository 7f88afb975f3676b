use webcrawl::grep::{grep, GrepOptions};
use webcrawl::letters::count_letter_frequency;

fn lines(v: &[&str]) -> Vec<String> {
    v.iter().map(|s| s.to_string()).collect()
}

#[test]
fn grep_finds_substrings() {
    let text = lines(&["one fish", "two fish", "red bird", "blue fish"]);
    let r = grep("fish", &text, &GrepOptions::new());
    assert_eq!(r.match_count, 3);
    let numbers: Vec<usize> = r.matched_lines.iter().map(|(n, _)| *n).collect();
    assert_eq!(numbers, vec![1, 2, 4]);
    assert_eq!(r.matched_lines[0].1, vec!["one fish".to_string()]);
}

#[test]
fn grep_context_windows_are_clipped() {
    let text = lines(&["a", "b", "match", "c", "d"]);
    let mut opts = GrepOptions::new();
    opts.before = 2;
    opts.after = 1;
    let r = grep("match", &text, &opts);
    assert_eq!(r.match_count, 1);
    assert_eq!(r.matched_lines[0].0, 3);
    assert_eq!(r.matched_lines[0].1, lines(&["a", "b", "match", "c"]));

    let r2 = grep("a", &text, &opts);
    assert_eq!(r2.matched_lines[0].1, lines(&["a", "b"]));
}

#[test]
fn grep_ignore_case_and_fixed() {
    let text = lines(&["Hello", "hello world", "HELLO"]);
    let mut opts = GrepOptions::new();
    opts.ignore_case = true;
    opts.fixed = true;
    let r = grep("hello", &text, &opts);
    assert_eq!(r.match_count, 2);
    let numbers: Vec<usize> = r.matched_lines.iter().map(|(n, _)| *n).collect();
    assert_eq!(numbers, vec![1, 3]);
}

#[test]
fn grep_invert_selects_the_rest() {
    let text = lines(&["keep", "drop it", "keep too"]);
    let mut opts = GrepOptions::new();
    opts.invert = true;
    let r = grep("drop", &text, &opts);
    assert_eq!(r.match_count, 2);
    let numbers: Vec<usize> = r.matched_lines.iter().map(|(n, _)| *n).collect();
    assert_eq!(numbers, vec![1, 3]);
}

#[test]
fn letter_frequency_counts_both_cases() {
    let counts = count_letter_frequency("Abba zz!");
    assert_eq!(counts.len(), 26);
    assert_eq!(counts[0], 2);
    assert_eq!(counts[1], 2);
    assert_eq!(counts[25], 2);
    assert_eq!(counts[2], 0);
    let total: u64 = counts.iter().sum();
    assert_eq!(total, 6);
}
