use rust_indexed::index::{IndexError, SearchIndex, SearchResult};
use rust_indexed::ranking::{highlight, merge_tiers, query_words, rank, Ranking, SearchScope};
use tempfile::TempDir;

fn result(url: &str, body: Option<&str>) -> SearchResult {
    SearchResult {
        url: url.to_string(),
        title: format!("title of {}", url),
        snippet: None,
        body: body.map(|b| b.to_string()),
    }
}

fn urls(results: &[SearchResult]) -> Vec<&str> {
    results.iter().map(|r| r.url.as_str()).collect()
}

fn build(dir: &TempDir, docs: &[(&str, &str, &str)]) {
    let mut index = SearchIndex::create(dir.path().to_str().unwrap()).unwrap();
    for (url, title, body) in docs {
        index.add_document(url.to_string(), title.to_string(), body.to_string()).unwrap();
    }
    assert_eq!(index.commit(), Ok(0));
}

fn site(pages: &[(&str, &str, &str)], code: &[(&str, &str, &str)]) -> (TempDir, TempDir, Ranking) {
    let page_dir = tempfile::tempdir().unwrap();
    let code_dir = tempfile::tempdir().unwrap();
    build(&page_dir, pages);
    build(&code_dir, code);
    let ranking =
        Ranking::open(page_dir.path().to_str().unwrap(), code_dir.path().to_str().unwrap()).unwrap();
    (page_dir, code_dir, ranking)
}

#[test]
fn merge_keeps_first_tier_and_new_urls() {
    let first = vec![result("/a", None), result("/b", None)];
    let second = vec![result("/b", Some("again")), result("/c", None), result("/a", None), result("/d", None)];
    let merged = merge_tiers(first, second);
    assert_eq!(urls(&merged), vec!["/a", "/b", "/c", "/d"]);
    assert_eq!(merged[1].body, None);
}

#[test]
fn merge_filters_against_the_first_tier_only() {
    let first = vec![result("/a", None), result("/a", None)];
    let second = vec![result("/c", Some("1")), result("/c", Some("2")), result("/a", None)];
    let merged = merge_tiers(first, second);
    assert_eq!(urls(&merged), vec!["/a", "/a", "/c", "/c"]);
}

#[test]
fn merge_of_nothing() {
    assert!(merge_tiers(vec![], vec![]).is_empty());
    assert_eq!(urls(&merge_tiers(vec![], vec![result("/x", None)])), vec!["/x"]);
    assert_eq!(urls(&merge_tiers(vec![result("/x", None)], vec![])), vec!["/x"]);
}

#[test]
fn rank_lists_a_url_once_across_tiers() {
    let exact = vec![result("/phrase", Some("impl trait")), result("/both", None)];
    let all_words = vec![result("/both", None), result("/words", Some("trait impl")), result("/phrase", None)];
    let fuzzy = vec![result("/close", None)];
    let ranked = rank(exact, all_words, fuzzy.clone(), fuzzy, "impl trait");
    assert_eq!(urls(&ranked), vec!["/phrase", "/both", "/words"]);
    assert_eq!(ranked[0].body.as_deref(), Some("<b>impl</b> <b>trait</b>"));
    assert_eq!(ranked[2].body.as_deref(), Some("<b>trait</b> <b>impl</b>"));
}

#[test]
fn rank_falls_back_only_when_nothing_matched() {
    let by_title = vec![result("/title", None), result("/both", None)];
    let by_body = vec![result("/both", None), result("/body", Some("ownership"))];
    let ranked = rank(vec![], vec![], by_title.clone(), by_body.clone(), "ownershp");
    assert_eq!(urls(&ranked), vec!["/title", "/both", "/body"]);
    assert_eq!(ranked[2].body.as_deref(), Some("ownership"));
    let ranked = rank(vec![], vec![result("/word", None)], by_title.clone(), by_body.clone(), "ownershp");
    assert_eq!(urls(&ranked), vec!["/word"]);
    let ranked = rank(vec![result("/exact", None)], vec![], by_title, by_body, "ownershp");
    assert_eq!(urls(&ranked), vec!["/exact"]);
    assert!(rank(vec![], vec![], vec![], vec![], "anything").is_empty());
}

#[test]
fn words_are_split_at_whitespace() {
    let words: Vec<String> = query_words("  impl\ttrait \n for  ").into_iter().map(|w| w.into_iter().collect()).collect();
    assert_eq!(words, vec!["impl", "trait", "for"]);
    assert!(query_words("").is_empty());
    assert!(query_words(" \u{a0}\u{3000} ").is_empty());
}

#[test]
fn highlight_wraps_every_occurrence() {
    let found = vec![
        result("/a", Some("x.await; y.await?; awaiting Await")),
        result("/b", None),
        result("/c", Some("nothing here")),
    ];
    let marked = highlight(found.clone(), "await");
    assert_eq!(marked[0].body.as_deref(), Some("x.<b>await</b>; y.<b>await</b>?; <b>await</b>ing Await"));
    assert_eq!(marked[1], found[1]);
    assert_eq!(marked[2], found[2]);
    for (before, after) in found.iter().zip(marked.iter()) {
        assert_eq!(before.url, after.url);
        assert_eq!(before.title, after.title);
        assert_eq!(before.snippet, after.snippet);
        assert_eq!(
            after.body.as_ref().map(|b| b.replace("<b>await</b>", "await")),
            before.body
        );
    }
}

#[test]
fn highlight_takes_words_in_turn() {
    let marked = highlight(vec![result("/a", Some("a b"))], "a b");
    assert_eq!(marked[0].body.as_deref(), Some("<<b>b</b>>a</<b>b</b>> <b>b</b>"));
    let marked = highlight(vec![result("/a", Some("aaa"))], "aa");
    assert_eq!(marked[0].body.as_deref(), Some("<b>aa</b>a"));
    let marked = highlight(vec![result("/a", Some("unchanged"))], "   ");
    assert_eq!(marked[0].body.as_deref(), Some("unchanged"));
}

#[test]
fn highlight_leaves_snippet_and_title() {
    let found = vec![SearchResult {
        url: "/await".to_string(),
        title: "await".to_string(),
        snippet: Some("to await".to_string()),
        body: Some("await".to_string()),
    }];
    let marked = highlight(found, "await");
    assert_eq!(marked[0].url, "/await");
    assert_eq!(marked[0].title, "await");
    assert_eq!(marked[0].snippet.as_deref(), Some("to await"));
    assert_eq!(marked[0].body.as_deref(), Some("<b>await</b>"));
}

#[test]
fn url_is_not_returned_twice_across_tiers() {
    let (_p, _c, ranking) = site(
        &[
            ("/phrase", "Traits", "how to impl trait for a type"),
            ("/words", "Generics", "a trait that you impl"),
            ("/other", "Loops", "nothing of the kind"),
        ],
        &[("/code", "Traits", "impl Trait for Type {}")],
    );
    let found = ranking.search("impl trait", SearchScope::All).unwrap();
    let mut seen = urls(&found);
    assert_eq!(seen.len(), 3);
    assert_eq!(seen[0], "/phrase");
    seen.sort();
    assert_eq!(seen, vec!["/code", "/phrase", "/words"]);
}

#[test]
fn page_results_come_before_code_results() {
    let (_p, _c, ranking) = site(
        &[("/page", "Closures", "a closure captures")],
        &[("/block", "Closures", "let closure = || 1;")],
    );
    let found = ranking.search("closure", SearchScope::All).unwrap();
    assert_eq!(urls(&found), vec!["/page", "/block"]);
    assert!(found[0].body.is_none());
    assert!(found[0].snippet.as_deref().unwrap().contains("<b>closure</b>"));
    assert_eq!(found[1].body.as_deref(), Some("let <b>closure</b> = || 1;"));
    assert!(found[1].snippet.is_none());
}

#[test]
fn fuzzy_fallback_finds_a_close_title() {
    let (_p, _c, ranking) = site(
        &[("/own", "Ownership", "moves and borrows"), ("/life", "Lifetimes", "regions")],
        &[],
    );
    let found = ranking.search("ownershp", SearchScope::All).unwrap();
    assert_eq!(urls(&found), vec!["/own"]);
    assert!(found[0].snippet.is_none());
    assert!(found[0].body.is_none());
}

#[test]
fn fuzzy_fallback_reads_bodies_after_titles() {
    let (_p, _c, ranking) = site(
        &[
            ("/body", "Memory", "about ownership"),
            ("/title", "Ownership", "moves"),
            ("/both", "Ownership rules", "ownership again"),
        ],
        &[],
    );
    let found = ranking.search("ownershp", SearchScope::All).unwrap();
    let seen = urls(&found);
    assert_eq!(seen.len(), 3);
    assert_eq!(seen[2], "/body");
    assert!(seen[..2].contains(&"/title"));
    assert!(seen[..2].contains(&"/both"));
}

#[test]
fn no_fuzzy_results_when_something_matches() {
    let (_p, _c, ranking) = site(
        &[("/exact", "trait", "one"), ("/close", "traits", "two")],
        &[],
    );
    let found = ranking.search("trait", SearchScope::All).unwrap();
    assert_eq!(urls(&found), vec!["/exact"]);
    let found = ranking.search("trai", SearchScope::All).unwrap();
    let mut seen = urls(&found);
    seen.sort();
    assert_eq!(seen, vec!["/close", "/exact"]);
}

#[test]
fn code_only_reads_the_code_index_alone() {
    let (_p, _c, ranking) = site(
        &[("/page/await", "Async", "await the future"), ("/page/awaiy", "awaiy", "typo")],
        &[("/code/await", "Async", "fut.await;\nother.await;")],
    );
    let found = ranking.search("await", SearchScope::CodeOnly).unwrap();
    assert_eq!(urls(&found), vec!["/code/await"]);
    assert_eq!(found[0].body.as_deref(), Some("fut.<b>await</b>;\nother.<b>await</b>;"));
    assert!(found[0].snippet.is_none());
    let found = ranking.search("awaiy", SearchScope::CodeOnly).unwrap();
    assert_eq!(urls(&found), vec!["/code/await"]);
    for r in ranking.search("await", SearchScope::All).unwrap() {
        assert_eq!(r.body.is_some(), r.url.starts_with("/code/"));
    }
}

#[test]
fn query_that_does_not_parse_finds_nothing() {
    let (_p, _c, ranking) = site(&[("/a", "Title", "body text")], &[("/b", "Title", "code text")]);
    let page = SearchIndex::open(_p.path().to_str().unwrap()).unwrap();
    assert_eq!(page.search("title:("), Ok(vec![]));
    assert_eq!(page.search("\"title:(\"").unwrap().len(), 1);
    let found = ranking.search("title:(", SearchScope::All).unwrap();
    assert_eq!(urls(&found), vec!["/a", "/b"]);
}

#[test]
fn search_of_nothing_indexed() {
    let (_p, _c, ranking) = site(&[], &[]);
    assert_eq!(ranking.search("anything", SearchScope::All), Ok(vec![]));
    assert_eq!(ranking.search("anything", SearchScope::CodeOnly), Ok(vec![]));
}

#[test]
fn ranking_needs_both_indexes() {
    let page_dir = tempfile::tempdir().unwrap();
    let missing = page_dir.path().join("missing");
    build(&page_dir, &[("/a", "A", "a")]);
    let opened = Ranking::open(page_dir.path().to_str().unwrap(), missing.to_str().unwrap());
    assert!(matches!(opened, Err(IndexError::IndexUnavailable(_))));
    let opened = Ranking::open(missing.to_str().unwrap(), page_dir.path().to_str().unwrap());
    assert!(matches!(opened, Err(IndexError::IndexUnavailable(_))));
}
