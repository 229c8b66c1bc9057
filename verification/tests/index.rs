use rust_indexed::index::{
    result_of_fetched, results_from, search_answer, search_result, snippet_of, Fetched,
    IndexError, SearchIndex, SearchResult,
};

fn docs() -> Vec<(&'static str, &'static str, &'static str)> {
    vec![
        ("https://book/ownership", "Ownership", "Ownership is a set of rules\nthat govern how a program manages memory."),
        ("https://book/borrowing", "References and Borrowing", "A reference is like a pointer.\nReferences borrow a value; ownership stays."),
        ("https://book/slices", "The Slice Type", "Slices let you reference a contiguous sequence."),
    ]
}

fn filled(dir: &tempfile::TempDir) -> SearchIndex {
    let mut index = SearchIndex::create(dir.path().to_str().unwrap()).unwrap();
    for (url, title, body) in docs() {
        index.add_document(url.to_string(), title.to_string(), body.to_string()).unwrap();
    }
    index
}

#[test]
fn snippet_has_no_newline_and_is_trimmed() {
    assert_eq!(snippet_of("  a\nb <b>c</b>\n\n"), "a b <b>c</b>");
    assert_eq!(snippet_of(""), "");
    assert_eq!(snippet_of("\n \n"), "");
    assert_eq!(snippet_of("plain"), "plain");
}

#[test]
fn result_is_made_of_what_is_stored() {
    let made = search_result(
        "/u".to_string(),
        "T".to_string(),
        Some("body\n".to_string()),
        Some(" an <b>excerpt</b>\nof two lines ".to_string()),
    );
    assert_eq!(
        made,
        SearchResult {
            url: "/u".to_string(),
            title: "T".to_string(),
            snippet: Some("an <b>excerpt</b> of two lines".to_string()),
            body: Some("body\n".to_string()),
        }
    );
    let bare = search_result("/u".to_string(), "T".to_string(), None, None);
    assert_eq!(bare.snippet, None);
    assert_eq!(bare.body, None);
}

fn fetched(url: Option<&str>, title: Option<&str>, body: Option<&str>, excerpt: Option<&str>) -> Fetched {
    Fetched {
        url: url.map(|s| s.to_string()),
        title: title.map(|s| s.to_string()),
        body: body.map(|s| s.to_string()),
        excerpt: excerpt.map(|s| s.to_string()),
    }
}

fn plain(url: &str, title: &str, snippet: Option<&str>, body: Option<&str>) -> SearchResult {
    SearchResult {
        url: url.to_string(),
        title: title.to_string(),
        snippet: snippet.map(|s| s.to_string()),
        body: body.map(|s| s.to_string()),
    }
}

#[test]
fn fetched_document_gives_its_result() {
    let whole = fetched(Some("/u"), Some("T"), Some("the body"), Some(" an\n<b>excerpt</b> "));
    assert_eq!(
        result_of_fetched(whole.clone(), true),
        Some(plain("/u", "T", Some("an <b>excerpt</b>"), Some("the body")))
    );
    assert_eq!(
        result_of_fetched(whole, false),
        Some(plain("/u", "T", Some("an <b>excerpt</b>"), None))
    );
    let bodiless = fetched(Some("/u"), Some("T"), None, None);
    assert_eq!(result_of_fetched(bodiless.clone(), true), None);
    assert_eq!(result_of_fetched(bodiless, false), Some(plain("/u", "T", None, None)));
    assert_eq!(result_of_fetched(fetched(None, Some("T"), Some("b"), None), false), None);
    assert_eq!(result_of_fetched(fetched(Some("/u"), None, Some("b"), None), false), None);
}

#[test]
fn results_keep_the_order_and_leave_out_what_gives_none() {
    let read = vec![
        Some(fetched(Some("/first"), Some("One"), Some("1"), None)),
        None,
        Some(fetched(Some("/untitled"), None, Some("2"), None)),
        Some(fetched(Some("/bodiless"), Some("Three"), None, None)),
        Some(fetched(Some("/last"), Some("Four"), Some("4"), None)),
    ];
    assert_eq!(
        results_from(read.clone(), true),
        vec![plain("/first", "One", None, Some("1")), plain("/last", "Four", None, Some("4"))]
    );
    assert_eq!(
        results_from(read, false),
        vec![
            plain("/first", "One", None, None),
            plain("/bodiless", "Three", None, None),
            plain("/last", "Four", None, None),
        ]
    );
    assert!(results_from(vec![], true).is_empty());
    assert!(results_from(vec![None, None], false).is_empty());
}

#[test]
fn answer_tells_no_match_from_failure() {
    assert_eq!(search_answer(Ok(None), true), Ok(vec![]));
    assert_eq!(search_answer(Ok(Some(vec![])), true), Ok(vec![]));
    assert_eq!(
        search_answer(Err("disk gone".to_string()), false),
        Err(IndexError::SearchFailed("disk gone".to_string()))
    );
    let read = vec![Some(fetched(Some("/u"), Some("T"), Some("b"), Some("x\ny")))];
    assert_eq!(search_answer(Ok(Some(read)), false), Ok(vec![plain("/u", "T", Some("x y"), None)]));
}

#[test]
fn created_index_is_searchable_after_commit() {
    let dir = tempfile::tempdir().unwrap();
    let mut index = filled(&dir);
    assert_eq!(index.search("ownership"), Ok(vec![]));
    assert_eq!(index.fuzzy_search_title("ownership"), Ok(vec![]));
    assert_eq!(index.commit(), Ok(0));
    let found = index.search("ownership").unwrap();
    assert_eq!(found.len(), 2);
    assert_eq!(found[0].url, "https://book/ownership");
    assert_eq!(found[0].title, "Ownership");
}

#[test]
fn page_results_carry_a_clean_snippet() {
    let dir = tempfile::tempdir().unwrap();
    let mut index = filled(&dir);
    index.commit().unwrap();
    let found = index.search("rules").unwrap();
    assert_eq!(found.len(), 1);
    assert_eq!(found[0].body, None);
    let snippet = found[0].snippet.as_deref().unwrap();
    assert_eq!(snippet, "Ownership is a set of <b>rules</b> that govern how a program manages memory");
}

#[test]
fn configured_index_returns_body_without_snippet() {
    let dir = tempfile::tempdir().unwrap();
    let mut index = filled(&dir);
    index.commit().unwrap();
    index.set_return_body();
    index.set_skip_snippet();
    let found = index.search("contiguous").unwrap();
    assert_eq!(
        found,
        vec![SearchResult {
            url: "https://book/slices".to_string(),
            title: "The Slice Type".to_string(),
            snippet: None,
            body: Some("Slices let you reference a contiguous sequence.".to_string()),
        }]
    );
}

#[test]
fn words_of_a_query_must_all_match() {
    let dir = tempfile::tempdir().unwrap();
    let mut index = filled(&dir);
    index.commit().unwrap();
    assert_eq!(index.search("reference pointer").unwrap().len(), 1);
    assert_eq!(index.search("reference").unwrap().len(), 2);
    assert_eq!(index.search("reference memory").unwrap().len(), 0);
    assert_eq!(index.search("\"reference a contiguous\"").unwrap().len(), 1);
    assert_eq!(index.search("\"contiguous a reference\"").unwrap().len(), 0);
}

#[test]
fn query_matches_url_and_title_too() {
    let dir = tempfile::tempdir().unwrap();
    let mut index = filled(&dir);
    index.commit().unwrap();
    let found = index.search("slice").unwrap();
    assert_eq!(found.len(), 1);
    assert_eq!(found[0].url, "https://book/slices");
    let found = index.search("borrowing").unwrap();
    assert_eq!(found.len(), 1);
}

#[test]
fn unparsable_query_matches_nothing() {
    let dir = tempfile::tempdir().unwrap();
    let mut index = filled(&dir);
    index.commit().unwrap();
    assert_eq!(index.search("title:("), Ok(vec![]));
    assert_eq!(index.search("nosuchfield:x"), Ok(vec![]));
}

#[test]
fn fuzzy_search_allows_one_edit() {
    let dir = tempfile::tempdir().unwrap();
    let mut index = filled(&dir);
    index.commit().unwrap();
    let found = index.fuzzy_search_title("ownershi").unwrap();
    assert_eq!(found.len(), 1);
    assert_eq!(found[0].url, "https://book/ownership");
    assert_eq!(found[0].snippet, None);
    assert_eq!(found[0].body, None);
    assert_eq!(index.fuzzy_search_title("slcie").unwrap().len(), 1);
    assert_eq!(index.fuzzy_search_title("xyz").unwrap().len(), 0);
    assert_eq!(index.fuzzy_search_title("pointer").unwrap().len(), 0);
    assert_eq!(index.fuzzy_search_body("pointr").unwrap().len(), 1);
    index.set_return_body();
    let found = index.fuzzy_search_body("pointr").unwrap();
    assert_eq!(found[0].body.as_deref(), Some("A reference is like a pointer.\nReferences borrow a value; ownership stays."));
}

#[test]
fn fuzzy_search_matches_beginnings() {
    let dir = tempfile::tempdir().unwrap();
    let mut index = filled(&dir);
    index.commit().unwrap();
    assert_eq!(index.fuzzy_search_title("owne").unwrap().len(), 1);
    assert_eq!(index.fuzzy_search_title("borow").unwrap().len(), 1);
}

#[test]
fn search_returns_at_most_fifty() {
    let dir = tempfile::tempdir().unwrap();
    let mut index = SearchIndex::create(dir.path().to_str().unwrap()).unwrap();
    for i in 0..70 {
        index.add_document(format!("/page/{}", i), format!("Page {}", i), "common word".to_string()).unwrap();
    }
    index.commit().unwrap();
    assert_eq!(index.search("common").unwrap().len(), 50);
    assert_eq!(index.fuzzy_search_body("commo").unwrap().len(), 10);
}

#[test]
fn opened_index_searches_and_takes_no_document() {
    let dir = tempfile::tempdir().unwrap();
    {
        let mut index = filled(&dir);
        index.commit().unwrap();
    }
    let mut index = SearchIndex::open(dir.path().to_str().unwrap()).unwrap();
    assert_eq!(index.search("pointer").unwrap().len(), 1);
    assert_eq!(
        index.add_document("u".to_string(), "t".to_string(), "b".to_string()),
        Err(IndexError::NotWritable)
    );
    assert_eq!(index.commit(), Err(IndexError::NotWritable));
    assert_eq!(index.search("pointer").unwrap().len(), 1);
}

#[test]
fn search_sees_the_last_commit_only() {
    let dir = tempfile::tempdir().unwrap();
    let mut index = filled(&dir);
    index.commit().unwrap();
    index.add_document("/late".to_string(), "Late".to_string(), "a latecomer".to_string()).unwrap();
    assert_eq!(index.search("latecomer").unwrap().len(), 0);
    index.commit().unwrap();
    assert_eq!(index.search("latecomer").unwrap().len(), 1);
}

#[test]
fn missing_directory_is_unavailable() {
    let dir = tempfile::tempdir().unwrap();
    let missing = dir.path().join("nowhere");
    assert!(matches!(SearchIndex::open(missing.to_str().unwrap()), Err(IndexError::IndexUnavailable(_))));
    assert!(matches!(SearchIndex::create(missing.to_str().unwrap()), Err(IndexError::IndexUnavailable(_))));
    assert!(matches!(SearchIndex::open(dir.path().to_str().unwrap()), Err(IndexError::IndexUnavailable(_))));
}

#[test]
fn index_is_not_created_twice() {
    let dir = tempfile::tempdir().unwrap();
    let first = SearchIndex::create(dir.path().to_str().unwrap());
    assert!(first.is_ok());
    drop(first);
    let second = SearchIndex::create(dir.path().to_str().unwrap());
    assert!(matches!(second, Err(IndexError::IndexUnavailable(_))));
}

#[test]
fn commit_into_a_removed_directory_fails() {
    let dir = tempfile::tempdir().unwrap();
    let mut index = SearchIndex::create(dir.path().to_str().unwrap()).unwrap();
    dir.close().unwrap();
    let _ = index.add_document("/a".to_string(), "A".to_string(), "text".to_string());
    assert!(matches!(index.commit(), Err(IndexError::WriteFailed(_))));
    assert_eq!(index.search("text"), Ok(vec![]));
}

#[test]
fn error_messages() {
    assert_eq!(IndexError::NotWritable.message(), "index is not open for writing");
    assert_eq!(IndexError::IndexUnavailable("gone".to_string()).message(), "index unavailable: gone");
    assert_eq!(IndexError::WriteFailed("full".to_string()).message(), "write failed: full");
    assert_eq!(IndexError::SearchFailed("bad".to_string()).message(), "search failed: bad");
}
