use rust_indexed::text::{
    append, char_is_whitespace, chars_of, copy_of, head, index_of, index_of_char, occurs_at,
    replace_all_of, same_chars, skip_leading_of, split_at, starts_with, string_of, strip_spans_of,
    tail, trim_end_of, trim_of, trim_start_of, without_char_of,
};

fn chars(s: &str) -> Vec<char> {
    s.chars().collect()
}

fn text(v: &[char]) -> String {
    v.iter().collect()
}

const SAMPLES: [&str; 12] = [
    "",
    " ",
    "plain",
    "  leading",
    "trailing \t\n",
    "\u{a0}\u{2003}both\u{3000}\u{85}",
    " inner  space ",
    "\n\n",
    "a\nb\n",
    "🦀 crab 🦀",
    "\u{200b}zero width is no space\u{200b}",
    "x  ",
];

#[test]
fn whitespace_is_what_the_standard_library_says() {
    for n in 0..=0x10ffffu32 {
        if let Some(c) = char::from_u32(n) {
            assert_eq!(char_is_whitespace(c), c.is_whitespace(), "U+{:04X}", n);
        }
    }
}

#[test]
fn strings_and_characters_convert_both_ways() {
    for s in SAMPLES {
        assert_eq!(chars_of(s), chars(s));
        assert_eq!(string_of(&chars(s)), s);
        assert_eq!(copy_of(&chars(s)), chars(s));
    }
}

#[test]
fn trimming_agrees_with_the_standard_library() {
    for s in SAMPLES {
        let v = chars(s);
        assert_eq!(text(trim_of(&v)), s.trim());
        assert_eq!(text(trim_start_of(&v)), s.trim_start());
        assert_eq!(text(trim_end_of(&v)), s.trim_end());
    }
}

#[test]
fn leading_run_is_skipped() {
    assert_eq!(text(skip_leading_of(&chars("### title #"), '#')), " title #");
    assert_eq!(text(skip_leading_of(&chars("title"), '#')), "title");
    assert_eq!(text(skip_leading_of(&chars("##"), '#')), "");
    assert_eq!(text(skip_leading_of(&chars(""), '#')), "");
}

#[test]
fn splitting_agrees_with_the_standard_library() {
    for s in ["", "a", "\n", "a\nb", "a\n\nb\n", "\n\n\n", "no separator", "🦀\n🦀"] {
        let pieces: Vec<String> = split_at(&chars(s), '\n').iter().map(|p| text(p)).collect();
        let expected: Vec<String> = s.split('\n').map(|p| p.to_string()).collect();
        assert_eq!(pieces, expected);
    }
}

#[test]
fn replacing_agrees_with_the_standard_library() {
    let cases = [
        ("", "a", "b"),
        ("aaa", "aa", "b"),
        ("abcabc", "bc", ""),
        ("abcabc", "abc", "abcabc"),
        ("x.await.await", "await", "<b>await</b>"),
        ("nothing", "zzz", "y"),
        ("short", "longer than the text", "y"),
        ("🦀a🦀", "🦀", "c"),
    ];
    for (s, pat, rep) in cases {
        assert_eq!(text(&replace_all_of(&chars(s), &chars(pat), &chars(rep))), s.replace(pat, rep));
    }
    assert_eq!(text(&replace_all_of(&chars("abc"), &chars(""), &chars("-"))), "abc");
}

#[test]
fn finding_gives_the_first_index() {
    assert_eq!(index_of_char(&chars("a[b[c"), '['), Some(1));
    assert_eq!(index_of_char(&chars("abc"), '['), None);
    assert_eq!(index_of_char(&chars(""), '['), None);
    assert_eq!(index_of_char(&chars("🦀["), '['), Some(1));
    assert_eq!(index_of(&chars("a](b](c"), &chars("](")), Some(1));
    assert_eq!(index_of(&chars("a]b(c"), &chars("](")), None);
    assert_eq!(index_of(&chars("abc"), &chars("")), Some(0));
    assert_eq!(index_of(&chars(""), &chars("")), Some(0));
    assert_eq!(index_of(&chars("ab"), &chars("abc")), None);
    assert_eq!(index_of(&chars("xab"), &chars("ab")), Some(1));
}

#[test]
fn occurrences_and_prefixes() {
    let s = chars("```rust");
    assert!(starts_with(&s, &chars("```")));
    assert!(starts_with(&s, &chars("")));
    assert!(!starts_with(&s, &chars("```rust,")));
    assert!(occurs_at(&s, 3, &chars("rust")));
    assert!(!occurs_at(&s, 4, &chars("rust")));
    assert!(occurs_at(&s, 7, &chars("")));
    assert!(same_chars(&s, &chars("```rust")));
    assert!(!same_chars(&s, &chars("```rus")));
    assert!(!same_chars(&s, &chars("```rusT")));
}

#[test]
fn heads_and_tails() {
    let s = chars("hello");
    assert_eq!(text(head(&s, 2)), "he");
    assert_eq!(text(tail(&s, 2)), "llo");
    assert_eq!(text(head(&s, 0)), "");
    assert_eq!(text(tail(&s, 5)), "");
    let mut out = chars("a");
    append(&mut out, &chars("bc"));
    append(&mut out, &chars(""));
    assert_eq!(text(&out), "abc");
}

#[test]
fn characters_and_spans_are_taken_out() {
    assert_eq!(text(&without_char_of(&chars("`a``b`"), '`')), "ab");
    assert_eq!(text(&without_char_of(&chars(""), '`')), "");
    assert_eq!(text(&strip_spans_of(&chars("a<b>c</b>d"), '<', '>')), "acd");
    assert_eq!(text(&strip_spans_of(&chars("a<b<c>d>e"), '<', '>')), "ad>e");
    assert_eq!(text(&strip_spans_of(&chars("a>b<c"), '<', '>')), "a>b<c");
    assert_eq!(text(&strip_spans_of(&chars("<>"), '<', '>')), "");
    assert_eq!(text(&strip_spans_of(&chars("a<b>c<d"), '<', '>')), "ac<d");
}
