use infinite_canvas::wrap::{split_paragraphs, LineWrapper};

/// Wraps `text`, judging a candidate too wide when it has more than `max` characters.
fn wrap_by_chars(text: &str, max: usize) -> (Vec<String>, Vec<String>) {
    let mut w = LineWrapper::new(text);
    let mut candidates = Vec::new();
    while let Some(c) = w.candidate() {
        let too_wide = c.chars().count() > max;
        candidates.push(c);
        w.feed(too_wide);
    }
    (w.into_lines(), candidates)
}

fn wrap_with(text: &str, verdict: bool) -> Vec<String> {
    let mut w = LineWrapper::new(text);
    while w.candidate().is_some() {
        w.feed(verdict);
    }
    w.into_lines()
}

#[test]
fn split_paragraphs_lines_and_words() {
    let p = split_paragraphs("a b\n c");
    assert_eq!(p, vec![vec!["a".to_string(), "b".to_string()], vec!["c".to_string()]]);
}

#[test]
fn split_paragraphs_empty_text_is_one_empty_line() {
    assert_eq!(split_paragraphs(""), vec![Vec::<String>::new()]);
}

#[test]
fn split_paragraphs_trailing_newline_gives_empty_line() {
    assert_eq!(split_paragraphs("x\n"), vec![vec!["x".to_string()], vec![]]);
}

#[test]
fn split_paragraphs_unicode_white_space() {
    assert_eq!(
        split_paragraphs("a\u{3000}b\tc\u{a0}d"),
        vec![vec!["a".to_string(), "b".to_string(), "c".to_string(), "d".to_string()]]
    );
}

#[test]
fn split_paragraphs_matches_std_split() {
    for text in ["", " ", "\n", "a  b", " x y \n\n z\t", "one\ntwo three\n", "é ü\u{2003}ß"] {
        let expected: Vec<Vec<String>> = text
            .split('\n')
            .map(|l| l.split_whitespace().map(|w| w.to_string()).collect())
            .collect();
        assert_eq!(split_paragraphs(text), expected);
    }
}

#[test]
fn wrap_breaks_before_too_wide_word() {
    let (lines, candidates) = wrap_by_chars("hello world foo", 11);
    assert_eq!(lines, vec!["hello world".to_string(), "foo".to_string()]);
    assert_eq!(
        candidates,
        vec!["hello".to_string(), "hello world".to_string(), "hello world foo".to_string()]
    );
}

#[test]
fn wrap_keeps_raw_lines_and_empty_lines() {
    let (lines, _) = wrap_by_chars("a\n\nb", 80);
    assert_eq!(lines, vec!["a".to_string(), "".to_string(), "b".to_string()]);
}

#[test]
fn wrap_all_fit_normalizes_spaces() {
    assert_eq!(wrap_with("  a   b  \nc\td", false), vec!["a b".to_string(), "c d".to_string()]);
}

#[test]
fn wrap_none_fit_one_word_per_line() {
    assert_eq!(
        wrap_with("one two three\nfour", true),
        vec!["one".to_string(), "two".to_string(), "three".to_string(), "four".to_string()]
    );
}

#[test]
fn wrap_overlong_word_stays_alone() {
    let (lines, _) = wrap_by_chars("supercalifragilistic is long", 8);
    assert_eq!(
        lines,
        vec!["supercalifragilistic".to_string(), "is long".to_string()]
    );
}

#[test]
fn wrap_empty_text_gives_one_empty_line() {
    let (lines, candidates) = wrap_by_chars("", 10);
    assert_eq!(lines, vec!["".to_string()]);
    assert!(candidates.is_empty());
}

#[test]
fn wrap_keeps_all_words_in_order() {
    let text = "the quick brown fox\njumps over\n\nthe lazy dog";
    for max in 0..25 {
        let (lines, _) = wrap_by_chars(text, max);
        let out: Vec<String> = lines
            .iter()
            .flat_map(|l| l.split_whitespace().map(|w| w.to_string()))
            .collect();
        let inp: Vec<String> = text.split_whitespace().map(|w| w.to_string()).collect();
        assert_eq!(out, inp);
        assert!(lines.len() >= 4);
    }
}
