use rust_indexed::parsers::{
    include_targets, parse_html_page, parse_html_title, parse_include, parse_md_page,
    parse_summary_md, seek_link_description, strip_refs, strip_tags, strip_ticks, IncludedFile,
};

fn file(path: &str, content: &str) -> IncludedFile {
    IncludedFile { path: path.to_string(), content: content.to_string() }
}

fn source_text(lines: usize) -> String {
    let mut text = String::new();
    for i in 0..lines {
        text.push_str(&format!("pub fn item_{}() -> usize {{ {} }}\n", i, i));
    }
    text
}

#[test]
fn test_seek_link_description() {
    assert_eq!(seek_link_description("   [hello"), "hello");
}

#[test]
fn test_parse_summary_md() {
    let parsed = parse_summary_md(
        "
            [Welcome to Comprehensive Rust 🦀](index.md)
           
            - [Running the Course](running-the-course.md)
            - [Course Structure](running-the-course/course-structure.md)
        
            - [Keyboard Shortcuts](running-the-course/keyboard-shortcuts.md)
            - [Translations](running-the-course/translations.md)",
    );

    assert!(parsed.len() == 5);
    assert!(parsed[0].0.as_str() == "Welcome to Comprehensive Rust 🦀");
    assert!(parsed[0].1.as_str() == "index");

    assert!(parsed[2].0.as_str() == "Course Structure");
    assert!(parsed[2].1.as_str() == "running-the-course/course-structure");
}

#[test]
fn test_parse_page_with_code() {
    let (body, code_blocks) = parse_md_page(
        "
# Example code 1
```rust,ignore
let x = 1;
```

# Example code 2
```rust
loop {
    let a = String::new();
}
```
        ",
        &vec![],
    );

    assert_eq!(
        body,
        "Example code 1

Example code 2"
    );

    assert_eq!(code_blocks[0], "let x = 1;");
    assert_eq!(
        code_blocks[1],
        "loop {
    let a = String::new();
}"
    );
}

#[test]
fn test_parse_page_with_include() {
    let files = vec![
        file("src/main.rs", "fn main() {\n    println!(\"hello\");\n}\n"),
        file("src/lib.rs", "pub mod index;\npub mod parsers;\n"),
        file("src/index.rs", &source_text(60)),
    ];
    let (body, code_blocks) = parse_md_page(
        "
```nok
{{#include }}
```
```rust
{{#include }}
```
```rust ok
{{#include src/main.rs}}
```
```rust ok
{{#include src/lib.rs  }}
```
```rust ok
{{#rustdoc_include src/index.rs}}
```
```rust ok
{{ #include src/index.rs }}
```
```shell nok
{{ #include src/index.rs }}
```
        ",
        &files,
    );

    assert!(body.len() > 1024);
    assert!(code_blocks.len() == 4);
}

#[test]
fn test_parse_path_with_underlines() {
    let (body, _) = parse_md_page(
        "
---
NOTES
___
        ",
        &vec![],
    );

    assert_eq!(body, "NOTES");
}

#[test]
fn test_ignore_header_hashes() {
    let (body, _) = parse_md_page(
        "
# Head
content
## Head2
content2
            ",
        &vec![],
    );

    assert_eq!(
        body,
        "Head
content
Head2
content2"
    );
}

#[test]
fn summary_of_three_chapters() {
    let parsed = parse_summary_md(
        "[Welcome 🦀](index.md)\n- [Running the Course](running-the-course.md)\n- [Course Structure](running-the-course/course-structure.md)",
    );
    let expected = vec![
        ("Welcome 🦀".to_string(), "index".to_string()),
        ("Running the Course".to_string(), "running-the-course".to_string()),
        ("Course Structure".to_string(), "running-the-course/course-structure".to_string()),
    ];
    assert_eq!(parsed, expected);
}

#[test]
fn summary_entries_are_never_empty() {
    let parsed = parse_summary_md(
        "# Summary\n\n[](empty-title.md)\n[No path](.md)\n- [Kept](kept.md)\n[a](b.md)[c](d.md)\nplain text\n[](\n",
    );
    assert_eq!(parsed, vec![("Kept".to_string(), "kept".to_string())]);
    for (title, path) in parsed {
        assert!(!title.is_empty());
        assert!(!path.is_empty());
    }
}

#[test]
fn summary_keeps_duplicates_in_file_order() {
    let parsed = parse_summary_md("- [B](b.md)\n- [A](a.md)\n- [B](b.md)");
    let titles: Vec<&str> = parsed.iter().map(|p| p.0.as_str()).collect();
    assert_eq!(titles, vec!["B", "A", "B"]);
}

#[test]
fn summary_strips_only_a_trailing_suffix() {
    let parsed = parse_summary_md("[Site](https://example.org)\n[Odd](a.md)b.md)\n[No bracket](x.md)");
    assert_eq!(
        parsed,
        vec![
            ("Site".to_string(), "https://example.org)".to_string()),
            ("Odd".to_string(), "a.md)b".to_string()),
            ("No bracket".to_string(), "x".to_string()),
        ]
    );
}

#[test]
fn link_description_without_bracket_is_the_whole() {
    assert_eq!(seek_link_description("no bracket"), "no bracket");
    assert_eq!(seek_link_description("- [a[b"), "a[b");
    assert_eq!(seek_link_description("["), "");
}

#[test]
fn include_path_of_a_directive() {
    assert_eq!(parse_include("#include src/main.rs}}"), Some("src/main.rs".to_string()));
    assert_eq!(parse_include("#rustdoc_include ../listing.rs:setup}}"), Some("../listing.rs".to_string()));
    assert_eq!(parse_include(" #include src/index.rs }}"), Some("src/index.rs".to_string()));
    assert_eq!(parse_include("#include }}"), None);
    assert_eq!(parse_include("#include}}"), None);
    assert_eq!(parse_include("#playground src/main.rs}}"), None);
    assert_eq!(parse_include("#include :anchor}}"), Some("".to_string()));
}

#[test]
fn include_targets_lists_directives_in_order() {
    let targets = include_targets(
        "intro\n{{#include a.rs}}\n  {{#include indented.rs}}\n{{#include }}\n{{#rustdoc_include b.rs:part}}\n",
    );
    assert_eq!(targets, vec!["a.rs".to_string(), "b.rs".to_string()]);
}

#[test]
fn missing_include_contributes_nothing() {
    let (body, code_blocks) = parse_md_page("before\n{{#include nowhere.rs}}\nafter", &vec![]);
    assert_eq!(body, "before\nafter");
    assert!(code_blocks.is_empty());
}

#[test]
fn existing_include_is_spliced_as_it_is() {
    let files = vec![file("notes.txt", "first line\n// a comment\nsecond line")];
    let (body, code_blocks) = parse_md_page("before\n{{#include notes.txt}}\nafter", &files);
    assert_eq!(body, "before\nfirst line\n// a comment\nsecond line\nafter");
    assert!(code_blocks.is_empty());
}

#[test]
fn included_file_ends_its_line() {
    let with_newline = vec![file("a.txt", "one\ntwo\n")];
    let (body, _) = parse_md_page("before\n{{#include a.txt}}\nafter", &with_newline);
    assert_eq!(body, "before\none\ntwo\nafter");
    let blank_end = vec![file("a.txt", "one\n\n")];
    let (body, _) = parse_md_page("before\n{{#include a.txt}}\nafter", &blank_end);
    assert_eq!(body, "before\none\n\nafter");
    let empty = vec![file("a.txt", "")];
    let (body, _) = parse_md_page("before\n{{#include a.txt}}\nafter", &empty);
    assert_eq!(body, "before\n\nafter");
}

#[test]
fn included_fence_opens_a_block() {
    let files = vec![file("snippet.md", "```rust\nlet y = 2;\n```")];
    let (body, code_blocks) = parse_md_page("text\n{{#include snippet.md}}\nmore", &files);
    assert_eq!(body, "text\nmore");
    assert_eq!(code_blocks, vec!["let y = 2;".to_string()]);
}

#[test]
fn first_file_of_a_path_wins() {
    let files = vec![file("a.txt", "one"), file("a.txt", "two")];
    let (body, _) = parse_md_page("{{#include a.txt}}", &files);
    assert_eq!(body, "one");
}

#[test]
fn only_rust_fences_are_extracted() {
    let (body, code_blocks) = parse_md_page("```shell\nls -la\n```\n```\nplain\n```\n```rust\nfn f() {}\n```", &vec![]);
    assert_eq!(body, "ls -la\nplain");
    assert_eq!(code_blocks, vec!["fn f() {}".to_string()]);
}

#[test]
fn blank_block_is_not_kept() {
    let (body, code_blocks) = parse_md_page("a\n```rust\n\n   \n```\nb\n```rust\n```\nc", &vec![]);
    assert_eq!(body, "a\nb\nc");
    assert!(code_blocks.is_empty());
}

#[test]
fn open_block_at_the_end_is_dropped() {
    let (body, code_blocks) = parse_md_page("a\n```rust\nlet x = 1;", &vec![]);
    assert_eq!(body, "a");
    assert!(code_blocks.is_empty());
}

#[test]
fn code_keeps_indentation_and_loses_trailing_space() {
    let (_, code_blocks) = parse_md_page("```rust\nfn f() {   \n    body();\t\n}\n```", &vec![]);
    assert_eq!(code_blocks, vec!["fn f() {\n    body();\n}".to_string()]);
}

#[test]
fn markup_is_stripped_from_prose() {
    let (body, _) = parse_md_page(
        "## *Title* with `code`\n** bold** and <b>tags</b> and [refs] here\na < b and c [ d\nlink [text](target)",
        &vec![],
    );
    assert_eq!(body, "Title* with code\nbold** and tags and  here\na < b and c [ d\nlink (target)");
}

#[test]
fn rendered_text_is_rendered_to_itself() {
    let (once, _) = parse_md_page("# Head\n\nsome `text` <i>here</i>\n---\nlast [x] line\n", &vec![]);
    let (twice, blocks) = parse_md_page(&once, &vec![]);
    assert_eq!(once, "Head\n\nsome text here\nlast  line");
    assert_eq!(twice, once);
    assert!(blocks.is_empty());
}

#[test]
fn rendering_twice_can_differ_where_markup_is_uncovered() {
    let (once, _) = parse_md_page("*#x", &vec![]);
    assert_eq!(once, "#x");
    let (twice, _) = parse_md_page(&once, &vec![]);
    assert_eq!(twice, "x");
    let (once, _) = parse_md_page("a\n<b># y\nz", &vec![]);
    assert_eq!(once, "a\n# y\nz");
    let (twice, _) = parse_md_page(&once, &vec![]);
    assert_eq!(twice, "a\ny\nz");
}

#[test]
fn plain_text_is_rendered_to_itself() {
    for text in ["", "word", "two lines\n\nand a gap", "a < b", "1 > 0 and x[0", "{ braces }", "-- dashes"] {
        let (body, blocks) = parse_md_page(text, &vec![]);
        assert_eq!(body, text);
        assert!(blocks.is_empty());
    }
}

#[test]
fn line_that_begins_with_a_reference_loses_the_reference_only() {
    let (body, _) = parse_md_page("a\n[ref] b\n[link](target)\nc", &vec![]);
    assert_eq!(body, "a\n b\n(target)\nc");
}

#[test]
fn fence_is_recognised_before_trailing_space_is_cut() {
    let (body, blocks) = parse_md_page("text\n ```rust\nlet x = 1;\n```\nend", &vec![]);
    assert_eq!(body, "text\nrust\nlet x = 1;\nend");
    assert!(blocks.is_empty());
}

#[test]
fn tags_refs_and_ticks() {
    assert_eq!(strip_tags("<p>a<br/>b</p> c < d > e < f"), "ab c  e < f");
    assert_eq!(strip_tags("a <b\nc> d"), "a  d");
    assert_eq!(strip_refs("a [b] c [d"), "a  c [d");
    assert_eq!(strip_refs("[[x]]"), "]");
    assert_eq!(strip_ticks("`a` ``b``"), "a b");
}

#[test]
fn html_title_is_the_first_on_one_line() {
    assert_eq!(parse_html_title("<html><title>First</title><title>Second</title>"), Some("First".to_string()));
    assert_eq!(parse_html_title("<title></title>"), Some("".to_string()));
    assert_eq!(parse_html_title("<title>broken\n</title><title>Whole</title>"), Some("Whole".to_string()));
    assert_eq!(parse_html_title("<title>a<title>b</title>"), Some("a<title>b".to_string()));
    assert_eq!(parse_html_title("<title>never closed"), None);
    assert_eq!(parse_html_title("no title"), None);
}

#[test]
fn html_page_is_stripped_and_decoded() {
    let (text, code_blocks, title) = parse_html_page(
        "<html><head><title>Fish &amp; Chips</title></head><body><p>1 &lt; 2 &amp;&amp; 3 &gt; 2 &#65;&#x42;</p><pre>let x = 1;</pre></body></html>",
    );
    assert_eq!(text, "Fish & Chips1 < 2 && 3 > 2 ABlet x = 1;");
    assert!(code_blocks.is_empty());
    assert_eq!(title, Some("Fish &amp; Chips".to_string()));
}

#[test]
fn html_page_without_title() {
    let (text, code_blocks, title) = parse_html_page("<p>plain &nbsp;text</p>");
    assert_eq!(text, "plain \u{a0}text");
    assert!(code_blocks.is_empty());
    assert_eq!(title, None);
}

#[test]
fn long_page_is_parsed() {
    let mut page = String::new();
    for i in 0..20_000 {
        page.push_str(&format!("## Section {} with `code` and <i>tags</i> [ref]\n", i));
        if i % 100 == 0 {
            page.push_str("```rust\nfn item() {}\n```\n");
        }
    }
    let (body, code_blocks) = parse_md_page(&page, &vec![]);
    assert_eq!(code_blocks.len(), 200);
    assert_eq!(body.lines().count(), 20_000);
    assert!(body.starts_with("Section 0 with code and tags \nSection 1 with"));
}
