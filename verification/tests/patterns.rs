use regex::Regex;
use rust_indexed::parsers::{parse_html_title, strip_refs, strip_tags};

/// Every text of up to `max` pieces, each piece one of `alphabet`.
fn texts(alphabet: &[&str], max: usize) -> Vec<String> {
    let mut all = vec![String::new()];
    let mut last = vec![String::new()];
    for _ in 0..max {
        let mut next = Vec::new();
        for prefix in &last {
            for piece in alphabet {
                next.push(format!("{}{}", prefix, piece));
            }
        }
        all.extend(next.iter().cloned());
        last = next;
    }
    all
}

#[test]
fn tags_are_what_the_pattern_matches() {
    let pattern = Regex::new(r"<[^>]*>").unwrap();
    for text in texts(&["<", ">", "a", "\n", "é"], 6) {
        assert_eq!(strip_tags(&text), pattern.replace_all(&text, "").to_string(), "{:?}", text);
    }
}

#[test]
fn references_are_what_the_pattern_matches() {
    let pattern = Regex::new(r"\[[^\]]*\]").unwrap();
    for text in texts(&["[", "]", "a", "\n", "\\"], 6) {
        assert_eq!(strip_refs(&text), pattern.replace_all(&text, "").to_string(), "{:?}", text);
    }
}

#[test]
fn title_is_what_the_pattern_captures() {
    let pattern = Regex::new(r"<title>(.*?)</title>").unwrap();
    let pieces = ["<title>", "</title>", "a", "\n", "<", "\r", "title>"];
    for text in texts(&pieces, 5) {
        let expected = pattern
            .captures(&text)
            .and_then(|captures| captures.get(1))
            .map(|title| title.as_str().to_string());
        assert_eq!(parse_html_title(&text), expected, "{:?}", text);
    }
}
