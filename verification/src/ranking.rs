//! Ranked search over the page index and the code index: two tiers of
//! direct matches, a fuzzy fallback, and highlighting of the query's words.
use vstd::prelude::*;
use vstd::hash_set::StringHashSet;
use crate::index::{
    is_snippet, result_views, IndexError, SearchIndex, SearchResult, SearchResultView,
    FUZZY_LIMIT, SEARCH_LIMIT,
};
use crate::text::{
    append, char_is_whitespace, chars_of, is_whitespace, pieces, replace_all,
    replace_all_of, string_of,
};
use crate::{INDEX_CODE_DIR, INDEX_PAGE_DIR};

verus! {

/// Which indexes a search reads.
#[derive(Clone, Copy, Debug, PartialEq, Eq)]
pub enum SearchScope {
    /// The page index, then the code index.
    All,
    /// The code index alone.
    CodeOnly,
}

/// Whether one of `results` has the url `url`.
pub open spec fn has_url(results: Seq<SearchResultView>, url: Seq<char>) -> bool {
    exists|i: int| 0 <= i < results.len() && (#[trigger] results[i]).url == url
}

/// Those of `found`, in order, whose url none of `seen` has.
pub open spec fn unseen(found: Seq<SearchResultView>, seen: Seq<SearchResultView>) -> Seq<
    SearchResultView,
>
    decreases found.len(),
{
    if found.len() == 0 {
        found
    } else if has_url(seen, found[0].url) {
        unseen(found.skip(1), seen)
    } else {
        seq![found[0]] + unseen(found.skip(1), seen)
    }
}

/// The results of two tiers as one list: all of the first tier, then those
/// of the second whose url the first tier did not give.
pub open spec fn merged(first: Seq<SearchResultView>, second: Seq<SearchResultView>) -> Seq<
    SearchResultView,
> {
    first + unseen(second, first)
}

/// The ranking of what the four searches found: the exact phrase, then all
/// words; only where both give nothing, the fuzzy matches by title, then by
/// body.
pub open spec fn ranked(
    exact: Seq<SearchResultView>,
    all_words: Seq<SearchResultView>,
    by_title: Seq<SearchResultView>,
    by_body: Seq<SearchResultView>,
) -> Seq<SearchResultView> {
    let direct = merged(exact, all_words);
    if direct.len() > 0 {
        direct
    } else {
        merged(by_title, by_body)
    }
}

/// The words of `s` that follow the word `current`, which is not finished
/// yet: a word ends at whitespace or at the end of `s`, and no word is
/// empty.
pub open spec fn words_after(s: Seq<char>, current: Seq<char>) -> Seq<Seq<char>>
    decreases s.len(),
{
    let finished = if current.len() > 0 {
        seq![current]
    } else {
        Seq::empty()
    };
    if s.len() == 0 {
        finished
    } else if is_whitespace(s[0]) {
        finished + words_after(s.skip(1), Seq::empty())
    } else {
        words_after(s.skip(1), current.push(s[0]))
    }
}

/// The words of `s`: its parts between whitespace, none of them empty.
pub open spec fn words(s: Seq<char>) -> Seq<Seq<char>> {
    words_after(s, Seq::empty())
}

/// `word` inside the markers of bold text.
pub open spec fn bold(word: Seq<char>) -> Seq<char> {
    seq!['<', 'b', '>'] + word + seq!['<', '/', 'b', '>']
}

/// `body` with every occurrence of `word` set in bold. Occurrences are
/// taken from left to right, letter for letter, without overlap; nothing
/// else changes.
pub open spec fn highlight_word(body: Seq<char>, word: Seq<char>) -> Seq<char> {
    replace_all(body, word, bold(word))
}

/// `body` with each of `words` set in bold, one word after the other: a
/// later word is looked for in what the earlier ones left, markers included.
pub open spec fn highlight_words(body: Seq<char>, words: Seq<Seq<char>>) -> Seq<char>
    decreases words.len(),
{
    if words.len() == 0 {
        body
    } else {
        highlight_words(highlight_word(body, words[0]), words.skip(1))
    }
}

/// `r` with the words of `query` set in bold in its body, if it has one.
/// Url, title and snippet stay.
pub open spec fn highlighted(r: SearchResultView, query: Seq<char>) -> SearchResultView {
    SearchResultView {
        body: match r.body {
            Some(body) => Some(highlight_words(body, words(query))),
            None => None,
        },
        ..r
    }
}

/// Each of `results`, highlighted for `query`.
pub open spec fn highlighted_all(results: Seq<SearchResultView>, query: Seq<char>) -> Seq<
    SearchResultView,
> {
    results.map_values(|r: SearchResultView| highlighted(r, query))
}

/// `query` in double quotes: the form that asks for the exact phrase.
pub open spec fn quoted(query: Seq<char>) -> Seq<char> {
    seq!['"'] + query + seq!['"']
}

/// One more result has the urls that were there, and its own.
proof fn lemma_has_url_push(results: Seq<SearchResultView>, last: SearchResultView, url: Seq<char>)
    ensures
        has_url(results.push(last), url) <==> has_url(results, url) || last.url == url,
{
    let all = results.push(last);
    if has_url(results, url) {
        let i = choose|i: int| 0 <= i < results.len() && (#[trigger] results[i]).url == url;
        assert(all[i].url == url);
    }
    if last.url == url {
        assert(all[results.len() as int].url == url);
    }
    if has_url(all, url) {
        let i = choose|i: int| 0 <= i < all.len() && (#[trigger] all[i]).url == url;
        if i < results.len() {
            assert(results[i].url == url);
        }
    }
}

/// The urls of `results`, as a set.
fn urls_of(results: &Vec<SearchResult>) -> (r: StringHashSet)
    ensures
        forall|url: Seq<char>| r@.contains(url) <==> has_url(result_views(results@), url),
{
    let mut seen = StringHashSet::new();
    let mut i: usize = 0;
    while i < results.len()
        invariant
            i <= results.len(),
            forall|url: Seq<char>|
                seen@.contains(url) <==> has_url(result_views(results@).take(i as int), url),
        decreases results.len() - i,
    {
        let ghost before = result_views(results@).take(i as int);
        let ghost last = results@[i as int]@;
        assert(result_views(results@).take(i + 1) =~= before.push(last));
        assert forall|url: Seq<char>| seen@.insert(last.url).contains(url) <==> has_url(
            before.push(last),
            url,
        ) by {
            lemma_has_url_push(before, last, url);
        }
        seen.insert(results[i].url.clone());
        i += 1;
    }
    assert(result_views(results@).take(results@.len() as int) =~= result_views(results@));
    seen
}

/// The results of two tiers as one list: all of `first`, then those of
/// `second` whose url none of `first` has, each list in its order.
pub fn merge_tiers(first: Vec<SearchResult>, second: Vec<SearchResult>) -> (r: Vec<SearchResult>)
    ensures
        result_views(r@) == merged(result_views(first@), result_views(second@)),
{
    let ghost seen = result_views(first@);
    let ghost found = result_views(second@);
    let urls = urls_of(&first);
    let mut out = first;
    assert(found.skip(0) =~= found);
    assert(result_views(out@) + unseen(found, seen) == merged(seen, found));
    for r in it: second
        invariant
            it.seq() == second@,
            found == result_views(second@),
            forall|url: Seq<char>| urls@.contains(url) <==> has_url(seen, url),
            result_views(out@) + unseen(found.skip(it.index() as int), seen) == merged(seen, found),
    {
        let ghost before = result_views(out@);
        let ghost rest = found.skip(it.index() as int);
        assert(rest[0] == r@);
        assert(rest.skip(1) =~= found.skip(it.index() + 1));
        if !urls.contains(r.url.as_str()) {
            assert(result_views(out@.push(r)) =~= before.push(r@));
            assert(before.push(r@) + unseen(rest.skip(1), seen) =~= before + (seq![r@] + unseen(
                rest.skip(1),
                seen,
            )));
            out.push(r);
        }
    }
    assert(result_views(out@) + Seq::<SearchResultView>::empty() =~= result_views(out@));
    out
}

/// The words of `query`.
pub fn query_words(query: &str) -> (r: Vec<Vec<char>>)
    ensures
        pieces(r@) == words(query@),
{
    let chars = chars_of(query);
    let mut out: Vec<Vec<char>> = Vec::new();
    let mut current: Vec<char> = Vec::new();
    let mut i: usize = 0;
    assert(chars@.skip(0) =~= chars@);
    assert(pieces(out@) =~= Seq::<Seq<char>>::empty());
    assert(Seq::<Seq<char>>::empty() + words(chars@) =~= words(chars@));
    while i < chars.len()
        invariant
            i <= chars.len(),
            pieces(out@) + words_after(chars@.skip(i as int), current@) == words(chars@),
        decreases chars.len() - i,
    {
        let ghost rest = chars@.skip(i as int);
        let ghost before = pieces(out@);
        assert(rest.skip(1) =~= chars@.skip(i + 1));
        let c = chars[i];
        if char_is_whitespace(c) {
            if current.len() > 0 {
                assert(pieces(out@.push(current)) =~= before.push(current@));
                assert(before.push(current@) + words_after(rest.skip(1), Seq::empty()) =~= before
                    + (seq![current@] + words_after(rest.skip(1), Seq::empty())));
                out.push(current);
                current = Vec::new();
            } else {
                assert(current@ =~= Seq::<char>::empty());
                assert(before + (Seq::<Seq<char>>::empty() + words_after(
                    rest.skip(1),
                    Seq::empty(),
                )) =~= before + words_after(rest.skip(1), Seq::empty()));
            }
        } else {
            current.push(c);
        }
        i += 1;
    }
    if current.len() > 0 {
        assert(pieces(out@.push(current)) =~= pieces(out@) + seq![current@]);
        out.push(current);
    } else {
        assert(pieces(out@) + Seq::<Seq<char>>::empty() =~= pieces(out@));
    }
    out
}

/// `body` with each of `words` set in bold, one after the other.
fn highlight_body(body: &str, words: &Vec<Vec<char>>) -> (r: String)
    ensures
        r@ == highlight_words(body@, pieces(words@)),
{
    let mut text = chars_of(body);
    let mut i: usize = 0;
    assert(pieces(words@).skip(0) =~= pieces(words@));
    while i < words.len()
        invariant
            i <= words.len(),
            highlight_words(text@, pieces(words@).skip(i as int)) == highlight_words(
                body@,
                pieces(words@),
            ),
        decreases words.len() - i,
    {
        let ghost rest = pieces(words@).skip(i as int);
        assert(rest[0] == words@[i as int]@);
        assert(rest.skip(1) =~= pieces(words@).skip(i + 1));
        let word = words[i].as_slice();
        let mut marked: Vec<char> = vec!['<', 'b', '>'];
        append(&mut marked, word);
        append(&mut marked, vec!['<', '/', 'b', '>'].as_slice());
        assert(marked@ =~= bold(word@));
        text = replace_all_of(text.as_slice(), word, marked.as_slice());
        i += 1;
    }
    string_of(text.as_slice())
}

/// `results` with the words of `query` set in bold in every body. Only
/// bodies change: each result keeps its place, its url, its title and its
/// snippet, and a result without a body stays as it is.
pub fn highlight(results: Vec<SearchResult>, query: &str) -> (r: Vec<SearchResult>)
    ensures
        result_views(r@) == highlighted_all(result_views(results@), query@),
{
    let marks = query_words(query);
    let mut out: Vec<SearchResult> = Vec::new();
    for found in it: results
        invariant
            it.seq() == results@,
            pieces(marks@) == words(query@),
            result_views(out@) == highlighted_all(
                result_views(results@).take(it.index() as int),
                query@,
            ),
    {
        let ghost before = result_views(out@);
        let SearchResult { url, title, snippet, body } = found;
        let body = match body {
            Some(body) => Some(highlight_body(body.as_str(), &marks)),
            None => None,
        };
        let marked = SearchResult { url, title, snippet, body };
        assert(marked@ == highlighted(found@, query@));
        assert(result_views(out@.push(marked)) =~= before.push(marked@));
        assert(highlighted_all(result_views(results@).take(it.index() + 1), query@) =~= before.push(
            highlighted(found@, query@),
        ));
        out.push(marked);
    }
    assert(result_views(results@).take(results@.len() as int) =~= result_views(results@));
    out
}

/// The ranking of what the four searches found, with the words of `query`
/// in bold in every body: the exact phrase's results, then the new urls
/// among the words' results; only where both searches found nothing, the
/// fuzzy matches by title, then the new urls among those by body.
pub fn rank(
    exact: Vec<SearchResult>,
    all_words: Vec<SearchResult>,
    by_title: Vec<SearchResult>,
    by_body: Vec<SearchResult>,
    query: &str,
) -> (r: Vec<SearchResult>)
    ensures
        result_views(r@) == highlighted_all(
            ranked(
                result_views(exact@),
                result_views(all_words@),
                result_views(by_title@),
                result_views(by_body@),
            ),
            query@,
        ),
{
    let direct = merge_tiers(exact, all_words);
    if direct.len() > 0 {
        highlight(direct, query)
    } else {
        highlight(merge_tiers(by_title, by_body), query)
    }
}

/// Whether no two of `results` have the same url.
pub open spec fn distinct_urls(results: Seq<SearchResultView>) -> bool {
    forall|i: int, j: int|
        0 <= i < j < results.len() ==> (#[trigger] results[i]).url != (#[trigger] results[j]).url
}

/// What is kept of a tier is new: none of the urls seen before is among it.
pub proof fn lemma_unseen_is_new(found: Seq<SearchResultView>, seen: Seq<SearchResultView>)
    ensures
        forall|k: int|
            0 <= k < unseen(found, seen).len() ==> !has_url(
                seen,
                (#[trigger] unseen(found, seen)[k]).url,
            ),
    decreases found.len(),
{
    if found.len() > 0 {
        lemma_unseen_is_new(found.skip(1), seen);
        let rest = unseen(found.skip(1), seen);
        assert forall|k: int| 0 <= k < unseen(found, seen).len() implies !has_url(
            seen,
            (#[trigger] unseen(found, seen)[k]).url,
        ) by {
            if has_url(seen, found[0].url) {
                assert(unseen(found, seen)[k] == rest[k]);
            } else if k > 0 {
                assert(unseen(found, seen)[k] == rest[k - 1]);
            }
        }
    }
}

/// No url is returned twice across tiers: no result that the second tier
/// adds has the url of a result of the first.
pub proof fn lemma_tiers_share_no_url(first: Seq<SearchResultView>, second: Seq<SearchResultView>)
    ensures
        forall|i: int, j: int|
            0 <= i < first.len() <= j < merged(first, second).len() ==> (#[trigger] merged(
                first,
                second,
            )[i]).url != (#[trigger] merged(first, second)[j]).url,
{
    lemma_unseen_is_new(second, first);
    let all = merged(first, second);
    assert forall|i: int, j: int| 0 <= i < first.len() <= j < all.len() implies (#[trigger] all[i]).url
        != (#[trigger] all[j]).url by {
        assert(all[i] == first[i]);
        assert(all[j] == unseen(second, first)[j - first.len()]);
        assert(!has_url(first, all[j].url));
    }
}

/// A url appears once in the list of two tiers exactly where neither the
/// first tier nor what is kept of the second holds a url twice by itself.
pub proof fn lemma_merged_distinct(first: Seq<SearchResultView>, second: Seq<SearchResultView>)
    ensures
        distinct_urls(merged(first, second)) <==> distinct_urls(first) && distinct_urls(
            unseen(second, first),
        ),
{
    let kept = unseen(second, first);
    let all = merged(first, second);
    lemma_tiers_share_no_url(first, second);
    if distinct_urls(all) {
        assert forall|i: int, j: int| 0 <= i < j < first.len() implies (#[trigger] first[i]).url != (
        #[trigger] first[j]).url by {
            assert(all[i] == first[i] && all[j] == first[j]);
        }
        assert forall|i: int, j: int| 0 <= i < j < kept.len() implies (#[trigger] kept[i]).url != (
        #[trigger] kept[j]).url by {
            assert(all[first.len() + i] == kept[i] && all[first.len() + j] == kept[j]);
        }
    }
    if distinct_urls(first) && distinct_urls(kept) {
        assert forall|i: int, j: int| 0 <= i < j < all.len() implies (#[trigger] all[i]).url != (
        #[trigger] all[j]).url by {
            if j < first.len() {
                assert(all[i] == first[i] && all[j] == first[j]);
            } else if i >= first.len() {
                assert(all[i] == kept[i - first.len()] && all[j] == kept[j - first.len()]);
            }
        }
    }
}

/// The fuzzy matches are a fallback: where the exact phrase or the words
/// find anything, the ranking is made of what they found and holds no fuzzy
/// match; the fuzzy tiers are ranked only where both found nothing.
pub proof fn lemma_fuzzy_is_a_fallback(
    exact: Seq<SearchResultView>,
    all_words: Seq<SearchResultView>,
    by_title: Seq<SearchResultView>,
    by_body: Seq<SearchResultView>,
)
    ensures
        exact.len() > 0 || all_words.len() > 0 ==> ranked(exact, all_words, by_title, by_body)
            == merged(exact, all_words),
        exact.len() == 0 && all_words.len() == 0 ==> ranked(exact, all_words, by_title, by_body)
            == merged(by_title, by_body),
{
    if exact.len() == 0 && all_words.len() > 0 {
        assert(!has_url(exact, all_words[0].url));
        assert(unseen(all_words, exact).len() > 0);
    }
}

/// Highlighting changes no url, so the results of a search hold each url
/// once exactly where the tiers that were ranked do.
pub proof fn lemma_outcome_distinct(
    exact: Seq<SearchResultView>,
    all_words: Seq<SearchResultView>,
    by_title: Seq<SearchResultView>,
    by_body: Seq<SearchResultView>,
    query: Seq<char>,
)
    ensures
        distinct_urls(highlighted_all(ranked(exact, all_words, by_title, by_body), query)) <==> if exact.len()
            > 0 || all_words.len() > 0 {
            distinct_urls(exact) && distinct_urls(unseen(all_words, exact))
        } else {
            distinct_urls(by_title) && distinct_urls(unseen(by_body, by_title))
        },
{
    let plain = ranked(exact, all_words, by_title, by_body);
    let marked = highlighted_all(plain, query);
    lemma_fuzzy_is_a_fallback(exact, all_words, by_title, by_body);
    lemma_merged_distinct(exact, all_words);
    lemma_merged_distinct(by_title, by_body);
    if distinct_urls(plain) {
        assert forall|i: int, j: int| 0 <= i < j < marked.len() implies (#[trigger] marked[i]).url
            != (#[trigger] marked[j]).url by {
            assert(marked[i].url == plain[i].url && marked[j].url == plain[j].url);
        }
    }
    if distinct_urls(marked) {
        assert forall|i: int, j: int| 0 <= i < j < plain.len() implies (#[trigger] plain[i]).url
            != (#[trigger] plain[j]).url by {
            assert(marked[i].url == plain[i].url && marked[j].url == plain[j].url);
        }
    }
}

/// A text without whitespace is one word, after whatever was begun.
pub proof fn lemma_words_after_one_word(s: Seq<char>, current: Seq<char>)
    requires
        forall|i: int| 0 <= i < s.len() ==> !is_whitespace(#[trigger] s[i]),
    ensures
        words_after(s, current) == if (current + s).len() > 0 {
            seq![current + s]
        } else {
            Seq::<Seq<char>>::empty()
        },
    decreases s.len(),
{
    if s.len() == 0 {
        assert(current + s =~= current);
    } else {
        let rest = s.skip(1);
        assert forall|i: int| 0 <= i < rest.len() implies !is_whitespace(#[trigger] rest[i]) by {
            assert(rest[i] == s[i + 1]);
        }
        lemma_words_after_one_word(rest, current.push(s[0]));
        assert(current.push(s[0]) + rest =~= current + s);
    }
}

/// For a query of one word, every occurrence of the word in a body is set
/// in bold and nothing else is altered: the body becomes what it was with
/// each occurrence, from left to right, swapped for the word in markers;
/// url, title and snippet stay, and so does a result without a body.
pub proof fn lemma_highlight_one_word(r: SearchResultView, query: Seq<char>)
    requires
        query.len() > 0,
        forall|i: int| 0 <= i < query.len() ==> !is_whitespace(#[trigger] query[i]),
    ensures
        highlighted(r, query).url == r.url,
        highlighted(r, query).title == r.title,
        highlighted(r, query).snippet == r.snippet,
        highlighted(r, query).body == match r.body {
            Some(body) => Some(replace_all(body, query, bold(query))),
            None => None,
        },
{
    lemma_words_after_one_word(query, Seq::empty());
    assert(Seq::<char>::empty() + query =~= query);
    assert(words(query) == seq![query]);
    match r.body {
        Some(body) => {
            let once = highlight_word(body, query);
            assert(words(query).skip(1).len() == 0);
            assert(highlight_words(once, words(query).skip(1)) == once);
            assert(highlight_words(body, words(query)) == once);
        },
        None => {},
    }
}

/// Whether `r` has the form of the code index's results: the whole body and
/// no snippet.
pub open spec fn from_code_index(r: SearchResultView) -> bool {
    r.body is Some && r.snippet is None
}

/// Whether `r` has the form of the page index's results: no body, and a
/// snippet at most.
pub open spec fn from_page_index(r: SearchResultView) -> bool {
    r.body is None && (r.snippet matches Some(s) ==> is_snippet(s))
}

/// Whether `r` has the form of a result of an index that `scope` reads.
pub open spec fn within_scope(r: SearchResultView, scope: SearchScope) -> bool {
    match scope {
        SearchScope::CodeOnly => from_code_index(r),
        SearchScope::All => from_code_index(r) || from_page_index(r),
    }
}

/// Whether each of `found` is within `scope`.
pub open spec fn all_within_scope(found: Seq<SearchResultView>, scope: SearchScope) -> bool {
    forall|i: int| 0 <= i < found.len() ==> within_scope(#[trigger] found[i], scope)
}

/// Whether `r` is a result of the page index: it has no body; a search by
/// query gives it a snippet, a fuzzy search gives it none.
pub open spec fn page_result(r: SearchResultView, with_snippet: bool) -> bool {
    &&& r.body is None
    &&& r.snippet is Some <==> with_snippet
    &&& r.snippet matches Some(s) ==> is_snippet(s)
}

/// Whether `found` is what one search of the indexes of `scope` gives, the
/// first `pages` of it from the page index and the rest from the code
/// index, neither more than `limit`. The code index alone gives no page.
pub open spec fn splits_at(
    found: Seq<SearchResultView>,
    pages: int,
    scope: SearchScope,
    limit: nat,
    with_snippet: bool,
) -> bool {
    &&& 0 <= pages <= found.len()
    &&& scope is CodeOnly ==> pages == 0
    &&& pages <= limit
    &&& found.len() - pages <= limit
    &&& forall|i: int| 0 <= i < pages ==> page_result(#[trigger] found[i], with_snippet)
    &&& forall|i: int| pages <= i < found.len() ==> from_code_index(#[trigger] found[i])
}

/// Whether `found` is what one search of the indexes of `scope` gives: the
/// results of the page index first, then those of the code index, no more
/// than `limit` of either. The results of a search by query come with a
/// snippet where they are pages; those of a fuzzy search come without.
pub open spec fn is_tier(
    found: Seq<SearchResultView>,
    scope: SearchScope,
    limit: nat,
    with_snippet: bool,
) -> bool {
    exists|pages: int| splits_at(found, pages, scope, limit, with_snippet)
}

/// What one search gives is within its scope and its limits.
pub proof fn lemma_tier_within_scope(
    found: Seq<SearchResultView>,
    scope: SearchScope,
    limit: nat,
    with_snippet: bool,
)
    requires
        is_tier(found, scope, limit, with_snippet),
    ensures
        all_within_scope(found, scope),
        found.len() <= indexes_of(scope) * limit,
{
    let pages = choose|pages: int| splits_at(found, pages, scope, limit, with_snippet);
    assert forall|i: int| 0 <= i < found.len() implies within_scope(#[trigger] found[i], scope) by {
        if i < pages {
            assert(page_result(found[i], with_snippet));
        }
    }
}

/// The number of indexes that `scope` reads.
pub open spec fn indexes_of(scope: SearchScope) -> nat {
    match scope {
        SearchScope::CodeOnly => 1,
        SearchScope::All => 2,
    }
}

/// Whether `results` is what a search for `query` in `scope` returns, given
/// what its four searches of the indexes found: each search reads the
/// indexes of `scope`, the page index first, and takes no more from an index
/// than its limit.
pub open spec fn is_outcome(
    results: Seq<SearchResultView>,
    query: Seq<char>,
    scope: SearchScope,
    exact: Seq<SearchResultView>,
    all_words: Seq<SearchResultView>,
    by_title: Seq<SearchResultView>,
    by_body: Seq<SearchResultView>,
) -> bool {
    &&& is_tier(exact, scope, SEARCH_LIMIT as nat, true)
    &&& is_tier(all_words, scope, SEARCH_LIMIT as nat, true)
    &&& is_tier(by_title, scope, FUZZY_LIMIT as nat, false)
    &&& is_tier(by_body, scope, FUZZY_LIMIT as nat, false)
    &&& results == highlighted_all(ranked(exact, all_words, by_title, by_body), query)
}

/// Whether `results` is what some searches of the indexes of `scope` make a
/// search for `query` return.
pub open spec fn is_answer(results: Seq<SearchResultView>, query: Seq<char>, scope: SearchScope) -> bool {
    exists|
        exact: Seq<SearchResultView>,
        all_words: Seq<SearchResultView>,
        by_title: Seq<SearchResultView>,
        by_body: Seq<SearchResultView>,
    |
        is_outcome(results, query, scope, exact, all_words, by_title, by_body)
}

/// Filtering keeps what holds of every result.
pub proof fn lemma_unseen_keeps(
    found: Seq<SearchResultView>,
    seen: Seq<SearchResultView>,
    scope: SearchScope,
)
    requires
        all_within_scope(found, scope),
    ensures
        all_within_scope(unseen(found, seen), scope),
    decreases found.len(),
{
    if found.len() > 0 {
        let rest = found.skip(1);
        assert forall|i: int| 0 <= i < rest.len() implies within_scope(
            #[trigger] rest[i],
            scope,
        ) by {
            assert(rest[i] == found[i + 1]);
        }
        lemma_unseen_keeps(rest, seen, scope);
    }
}

/// The ranking of results within a scope, highlighted, is within the scope.
pub proof fn lemma_outcome_within_scope(
    results: Seq<SearchResultView>,
    query: Seq<char>,
    scope: SearchScope,
    exact: Seq<SearchResultView>,
    all_words: Seq<SearchResultView>,
    by_title: Seq<SearchResultView>,
    by_body: Seq<SearchResultView>,
)
    requires
        is_outcome(results, query, scope, exact, all_words, by_title, by_body),
    ensures
        all_within_scope(results, scope),
{
    lemma_tier_within_scope(exact, scope, SEARCH_LIMIT as nat, true);
    lemma_tier_within_scope(all_words, scope, SEARCH_LIMIT as nat, true);
    lemma_tier_within_scope(by_title, scope, FUZZY_LIMIT as nat, false);
    lemma_tier_within_scope(by_body, scope, FUZZY_LIMIT as nat, false);
    lemma_unseen_keeps(all_words, exact, scope);
    lemma_unseen_keeps(by_body, by_title, scope);
    let plain = ranked(exact, all_words, by_title, by_body);
    assert(all_within_scope(plain, scope));
    assert forall|i: int| 0 <= i < results.len() implies within_scope(
        #[trigger] results[i],
        scope,
    ) by {
        assert(results[i] == highlighted(plain[i], query));
        assert(within_scope(plain[i], scope));
    }
}

/// The two indexes of a site, open for searching: the pages' text, and the
/// blocks of source code in them.
///
/// The code index returns the whole body of a result and no snippet; the
/// page index returns a snippet and no body.
pub struct Ranking {
    /// Pages
    index_page: SearchIndex,
    /// Code blocks
    index_code: SearchIndex,
}

/// Which text of a document a fuzzy search reads.
#[derive(Clone, Copy, Debug, PartialEq, Eq)]
enum FuzzyField {
    Title,
    Body,
}

/// `query` in double quotes.
fn quote(query: &str) -> (r: String)
    ensures
        r@ == quoted(query@),
{
    let mut chars: Vec<char> = vec!['"'];
    append(&mut chars, chars_of(query).as_slice());
    chars.push('"');
    assert(chars@ =~= quoted(query@));
    string_of(chars.as_slice())
}

impl Ranking {
    #[verifier::type_invariant]
    spec fn configured(&self) -> bool {
        &&& !self.index_page.returns_body()
        &&& !self.index_page.skips_snippet()
        &&& self.index_code.returns_body()
        &&& self.index_code.skips_snippet()
    }

    /// The index of the pages' text.
    pub closed spec fn page_index(&self) -> SearchIndex {
        self.index_page
    }

    /// The index of the blocks of source code.
    pub closed spec fn code_index(&self) -> SearchIndex {
        self.index_code
    }

    /// Whether the two indexes are set as a ranking needs them, each in its
    /// directory and open for searching: the page index returns a snippet
    /// and no body, the code index the whole body and no snippet.
    pub open spec fn is_set(&self, page_dir: Seq<char>, code_dir: Seq<char>) -> bool {
        &&& self.page_index().directory() == page_dir
        &&& self.page_index().is_searchable()
        &&& !self.page_index().is_writable()
        &&& !self.page_index().returns_body()
        &&& !self.page_index().skips_snippet()
        &&& self.code_index().directory() == code_dir
        &&& self.code_index().is_searchable()
        &&& !self.code_index().is_writable()
        &&& self.code_index().returns_body()
        &&& self.code_index().skips_snippet()
    }

    /// Opens the page index in `page_dir` and the code index in `code_dir`,
    /// and sets the code index to return bodies and no snippets.
    pub fn open(page_dir: &str, code_dir: &str) -> (r: Result<Ranking, IndexError>)
        ensures
            match r {
                Ok(ranking) => ranking.is_set(page_dir@, code_dir@),
                Err(e) => e is IndexUnavailable,
            },
    {
        let index_page = match SearchIndex::open(page_dir) {
            Ok(index) => index,
            Err(e) => {
                return Err(e);
            },
        };
        let mut index_code = match SearchIndex::open(code_dir) {
            Ok(index) => index,
            Err(e) => {
                return Err(e);
            },
        };
        // This index has code in the body, we want to return it, without snippet.
        index_code.set_return_body();
        index_code.set_skip_snippet();
        Ok(Ranking { index_page, index_code })
    }

    /// Opens the two indexes at their usual places, `INDEX_PAGE_DIR` and
    /// `INDEX_CODE_DIR`.
    pub fn new() -> (r: Result<Ranking, IndexError>)
        ensures
            match r {
                Ok(ranking) => ranking.is_set(INDEX_PAGE_DIR@, INDEX_CODE_DIR@),
                Err(e) => e is IndexUnavailable,
            },
    {
        Ranking::open(INDEX_PAGE_DIR, INDEX_CODE_DIR)
    }

    /// What the indexes of `scope` find for `query`: the results of the page
    /// index, each with a snippet and no body, then those of the code index,
    /// each with its body and no snippet; at most fifty of either. The code
    /// index alone is read where the scope says so.
    fn search_tier(&self, query: &str, scope: SearchScope) -> (r: Result<
        Vec<SearchResult>,
        IndexError,
    >)
        ensures
            match r {
                Ok(found) => is_tier(result_views(found@), scope, SEARCH_LIMIT as nat, true),
                Err(e) => e is SearchFailed,
            },
    {
        proof {
            use_type_invariant(self);
        }
        let mut found: Vec<SearchResult> = Vec::new();
        if let SearchScope::All = scope {
            match self.index_page.search(query) {
                Ok(pages) => {
                    found = pages;
                },
                Err(e) => {
                    return Err(e);
                },
            }
        }
        let ghost pages = result_views(found@);
        assert forall|i: int| 0 <= i < pages.len() implies page_result(#[trigger] pages[i], true) by {
            assert(self.index_page.shapes(pages[i]));
            assert(pages[i] == found@[i]@);
        }
        match self.index_code.search(query) {
            Ok(mut blocks) => {
                let ghost code = result_views(blocks@);
                assert forall|i: int| 0 <= i < code.len() implies from_code_index(
                    #[trigger] code[i],
                ) by {
                    assert(self.index_code.shapes(code[i]));
                }
                found.append(&mut blocks);
                assert(result_views(found@) =~= pages + code);
                assert(splits_at(
                    result_views(found@),
                    pages.len() as int,
                    scope,
                    SEARCH_LIMIT as nat,
                    true,
                ));
                Ok(found)
            },
            Err(e) => Err(e),
        }
    }

    /// What the indexes of `scope` find that is close to `query` in `field`:
    /// the results of the page index, each without body, then those of the
    /// code index, each with its body; none with a snippet, at most ten of
    /// either. The code index alone is read where the scope says so.
    fn fuzzy_tier(&self, query: &str, field: FuzzyField, scope: SearchScope) -> (r: Result<
        Vec<SearchResult>,
        IndexError,
    >)
        ensures
            match r {
                Ok(found) => is_tier(result_views(found@), scope, FUZZY_LIMIT as nat, false),
                Err(e) => e is SearchFailed,
            },
    {
        proof {
            use_type_invariant(self);
        }
        let mut found: Vec<SearchResult> = Vec::new();
        if let SearchScope::All = scope {
            let pages = match field {
                FuzzyField::Title => self.index_page.fuzzy_search_title(query),
                FuzzyField::Body => self.index_page.fuzzy_search_body(query),
            };
            match pages {
                Ok(pages) => {
                    found = pages;
                },
                Err(e) => {
                    return Err(e);
                },
            }
        }
        let ghost pages = result_views(found@);
        assert forall|i: int| 0 <= i < pages.len() implies page_result(#[trigger] pages[i], false) by {
            assert(self.index_page.shapes(pages[i]));
            assert(pages[i] == found@[i]@);
        }
        let blocks = match field {
            FuzzyField::Title => self.index_code.fuzzy_search_title(query),
            FuzzyField::Body => self.index_code.fuzzy_search_body(query),
        };
        match blocks {
            Ok(mut blocks) => {
                let ghost code = result_views(blocks@);
                assert forall|i: int| 0 <= i < code.len() implies from_code_index(
                    #[trigger] code[i],
                ) by {
                    assert(self.index_code.shapes(code[i]));
                    assert(code[i] == blocks@[i]@);
                }
                found.append(&mut blocks);
                assert(result_views(found@) =~= pages + code);
                assert(splits_at(
                    result_views(found@),
                    pages.len() as int,
                    scope,
                    FUZZY_LIMIT as nat,
                    false,
                ));
                Ok(found)
            },
            Err(e) => Err(e),
        }
    }

    /// The documents that match `q`, ranked, each url at most once from
    /// tier to tier, with the words of `q` in bold in every body.
    ///
    /// The indexes of `scope` are asked for `q` as an exact phrase, then
    /// for all words of `q`; of the second answer only the urls that the
    /// first did not give are kept. Only where both give nothing, they are
    /// asked for titles close to `q`, then for bodies close to `q`, of which
    /// again only the new urls are kept. Within a tier the page index comes
    /// first.
    ///
    /// A query that does not parse finds nothing in its tier; the other
    /// tiers go on. An error says that the engine failed on an index, which
    /// is not the same as no match.
    pub fn search(&self, q: &str, scope: SearchScope) -> (r: Result<Vec<SearchResult>, IndexError>)
        ensures
            match r {
                Ok(results) => {
                    &&& is_answer(result_views(results@), q@, scope)
                    &&& all_within_scope(result_views(results@), scope)
                    &&& scope is CodeOnly ==> forall|i: int|
                        0 <= i < results@.len() ==> !from_page_index(#[trigger] results@[i]@)
                },
                Err(e) => e is SearchFailed,
            },
    {
        let phrase = quote(q);
        let exact = match self.search_tier(phrase.as_str(), scope) {
            Ok(found) => found,
            Err(e) => {
                return Err(e);
            },
        };
        let all_words = match self.search_tier(q, scope) {
            Ok(found) => found,
            Err(e) => {
                return Err(e);
            },
        };
        let ghost exact_found = result_views(exact@);
        let ghost all_words_found = result_views(all_words@);
        let ghost nothing = Seq::<SearchResultView>::empty();
        let mut by_title: Vec<SearchResult> = Vec::new();
        let mut by_body: Vec<SearchResult> = Vec::new();
        assert(result_views(by_title@) =~= nothing);
        assert(result_views(by_body@) =~= nothing);
        assert(splits_at(nothing, 0, scope, FUZZY_LIMIT as nat, false));
        if exact.len() == 0 && all_words.len() == 0 {
            by_title = match self.fuzzy_tier(q, FuzzyField::Title, scope) {
                Ok(found) => found,
                Err(e) => {
                    return Err(e);
                },
            };
            by_body = match self.fuzzy_tier(q, FuzzyField::Body, scope) {
                Ok(found) => found,
                Err(e) => {
                    return Err(e);
                },
            };
        }
        let ghost by_title_found = result_views(by_title@);
        let ghost by_body_found = result_views(by_body@);
        let results = rank(exact, all_words, by_title, by_body, q);
        proof {
            assert(is_outcome(
                result_views(results@),
                q@,
                scope,
                exact_found,
                all_words_found,
                by_title_found,
                by_body_found,
            ));
            lemma_outcome_within_scope(
                result_views(results@),
                q@,
                scope,
                exact_found,
                all_words_found,
                by_title_found,
                by_body_found,
            );
            assert(is_answer(result_views(results@), q@, scope));
            if scope is CodeOnly {
                assert forall|i: int| 0 <= i < results@.len() implies !from_page_index(
                    #[trigger] results@[i]@,
                ) by {
                    assert(result_views(results@)[i] == results@[i]@);
                    assert(within_scope(result_views(results@)[i], scope));
                }
            }
        }
        Ok(results)
    }
}

} // verus!
