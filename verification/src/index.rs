//! One index of documents, each a url, a title and a body, and the results
//! that a search of it gives.
use vstd::prelude::*;
use crate::adapter::{
    add_text_document, asks_all_words, commit_writer, create_in_dir, default_fields, docs_of,
    error_text, field_named, fields_of, fields_parsed, fields_read, first_text, fuzzy_top_docs,
    indexed_text, open_in_dir, parser_of, queued, searcher_of, set_conjunction_by_default, set_max_num_chars,
    snippet_generator, snippet_html, stored, stored_doc, text_schema, texts_of, top_docs, writer_of,
};
use crate::text::{chars_of, is_whitespace, lemma_trim, string_of, trim, trim_of};
use vstd::string::StringExecFns;

verus! {

/// One document that a search found.
#[derive(Debug, Default, Clone, PartialEq, Eq)]
pub struct SearchResult {
    pub url: String,
    pub title: String,
    /// A short excerpt with the matched words in bold.
    pub snippet: Option<String>,
    /// The whole indexed text, where the index returns it.
    pub body: Option<String>,
}

/// What a search result holds, as sequences of characters.
pub struct SearchResultView {
    pub url: Seq<char>,
    pub title: Seq<char>,
    pub snippet: Option<Seq<char>>,
    pub body: Option<Seq<char>>,
}

/// The view of an optional string.
pub open spec fn text_view(s: Option<String>) -> Option<Seq<char>> {
    match s {
        Some(text) => Some(text@),
        None => None,
    }
}

impl View for SearchResult {
    type V = SearchResultView;

    open spec fn view(&self) -> SearchResultView {
        SearchResultView {
            url: self.url@,
            title: self.title@,
            snippet: text_view(self.snippet),
            body: text_view(self.body),
        }
    }
}

/// The views of a vector of results.
pub open spec fn result_views(v: Seq<SearchResult>) -> Seq<SearchResultView> {
    v.map_values(|r: SearchResult| r@)
}

/// Why an operation on an index failed. Each variant but `NotWritable`
/// carries the engine's words.
#[derive(Debug, Clone, PartialEq, Eq)]
pub enum IndexError {
    /// The index could not be created or opened in its directory.
    IndexUnavailable(String),
    /// The index was opened for searching and has no writer.
    NotWritable,
    /// A document could not be added, or the commit failed.
    WriteFailed(String),
    /// The engine failed while it searched.
    SearchFailed(String),
}

/// The sentence that says what `e` stands for.
pub open spec fn error_message(e: IndexError) -> Seq<char> {
    match e {
        IndexError::IndexUnavailable(why) => "index unavailable: "@ + why@,
        IndexError::NotWritable => "index is not open for writing"@,
        IndexError::WriteFailed(why) => "write failed: "@ + why@,
        IndexError::SearchFailed(why) => "search failed: "@ + why@,
    }
}

impl IndexError {
    /// A sentence that says what failed.
    pub fn message(&self) -> (r: String)
        ensures
            r@ == error_message(*self),
    {
        match self {
            IndexError::IndexUnavailable(why) => "index unavailable: ".to_owned().concat(
                why.as_str(),
            ),
            IndexError::NotWritable => "index is not open for writing".to_owned(),
            IndexError::WriteFailed(why) => "write failed: ".to_owned().concat(why.as_str()),
            IndexError::SearchFailed(why) => "search failed: ".to_owned().concat(why.as_str()),
        }
    }
}

/// A line of HTML as a snippet: newlines become spaces, and the whole is
/// trimmed.
pub open spec fn snippet_text(html: Seq<char>) -> Seq<char> {
    trim(html.map_values(|c: char| if c == '\n' { ' ' } else { c }))
}

/// Whether `s` is free of newlines and of whitespace at both ends.
pub open spec fn is_snippet(s: Seq<char>) -> bool {
    &&& !s.contains('\n')
    &&& s.len() > 0 ==> !is_whitespace(s[0]) && !is_whitespace(s.last())
}

/// Whatever the HTML, its snippet is free of newlines and trimmed.
pub proof fn lemma_snippet_text(html: Seq<char>)
    ensures
        is_snippet(snippet_text(html)),
{
    let spaced = html.map_values(|c: char| if c == '\n' { ' ' } else { c });
    lemma_trim(spaced);
    let t = trim(spaced);
    let from = choose|from: int|
        0 <= from && from + t.len() <= spaced.len() && t == #[trigger] spaced.subrange(
            from,
            from + t.len(),
        );
    assert forall|k: int| 0 <= k < t.len() implies t[k] != '\n' by {
        assert(t[k] == spaced[from + k]);
    }
}

/// The snippet that the HTML `html` gives.
pub fn snippet_of(html: &str) -> (r: String)
    ensures
        r@ == snippet_text(html@),
        is_snippet(r@),
{
    let chars = chars_of(html);
    let mut spaced: Vec<char> = Vec::new();
    let mut i: usize = 0;
    while i < chars.len()
        invariant
            i <= chars.len(),
            spaced@ == chars@.take(i as int).map_values(
                |c: char| if c == '\n' {
                    ' '
                } else {
                    c
                },
            ),
        decreases chars.len() - i,
    {
        let c = chars[i];
        spaced.push(if c == '\n' { ' ' } else { c });
        i += 1;
        assert(spaced@ =~= chars@.take(i as int).map_values(
            |c: char| if c == '\n' {
                ' '
            } else {
                c
            },
        ));
    }
    assert(chars@.take(chars.len() as int) =~= chars@);
    proof {
        lemma_snippet_text(html@);
    }
    string_of(trim_of(spaced.as_slice()))
}

/// The result for a stored document: its url, its title, its body where it
/// is returned, and the snippet that the excerpt `excerpt` gives, where
/// there is one.
pub fn search_result(
    url: String,
    title: String,
    body: Option<String>,
    excerpt: Option<String>,
) -> (r: SearchResult)
    ensures
        r@.url == url@,
        r@.title == title@,
        r@.body == text_view(body),
        r@.snippet == match excerpt {
            Some(html) => Some(snippet_text(html@)),
            None => None,
        },
        r@.snippet matches Some(s) ==> is_snippet(s),
{
    let snippet = match excerpt {
        Some(html) => Some(snippet_of(html.as_str())),
        None => None,
    };
    SearchResult { url, title, snippet, body }
}

/// What was read of one stored document: the text under each of the three
/// fields, where the document holds one, and the excerpt that was made of
/// it, where one was asked for.
#[derive(Debug, Default, Clone, PartialEq, Eq)]
pub struct Fetched {
    pub url: Option<String>,
    pub title: Option<String>,
    pub body: Option<String>,
    /// An excerpt of the body as HTML, with the matched words in bold.
    pub excerpt: Option<String>,
}

/// What was read of a stored document, as sequences of characters.
pub struct FetchedView {
    pub url: Option<Seq<char>>,
    pub title: Option<Seq<char>>,
    pub body: Option<Seq<char>>,
    pub excerpt: Option<Seq<char>>,
}

impl View for Fetched {
    type V = FetchedView;

    open spec fn view(&self) -> FetchedView {
        FetchedView {
            url: text_view(self.url),
            title: text_view(self.title),
            body: text_view(self.body),
            excerpt: text_view(self.excerpt),
        }
    }
}

/// The views of what was fetched at a list of addresses; `None` stands for
/// a document that could not be fetched.
pub open spec fn fetched_views(v: Seq<Option<Fetched>>) -> Seq<Option<FetchedView>> {
    v.map_values(
        |f: Option<Fetched>|
            match f {
                Some(f) => Some(f@),
                None => None,
            },
    )
}

/// The result that a fetched document gives: its url, its title, its body
/// where bodies are returned, and the snippet of its excerpt. A document
/// without url or title gives none, nor does one without body where bodies
/// are returned.
pub open spec fn result_from(f: FetchedView, return_body: bool) -> Option<SearchResultView> {
    if f.url is Some && f.title is Some && (return_body ==> f.body is Some) {
        Some(
            SearchResultView {
                url: f.url->0,
                title: f.title->0,
                snippet: match f.excerpt {
                    Some(html) => Some(snippet_text(html)),
                    None => None,
                },
                body: if return_body {
                    f.body
                } else {
                    None
                },
            },
        )
    } else {
        None
    }
}

/// The results of what was fetched: in order, one for each document that
/// was fetched and gives a result.
pub open spec fn kept(return_body: bool, fetched: Seq<Option<FetchedView>>) -> Seq<
    SearchResultView,
>
    decreases fetched.len(),
{
    if fetched.len() == 0 {
        Seq::empty()
    } else {
        let rest = kept(return_body, fetched.skip(1));
        match fetched[0] {
            Some(f) => match result_from(f, return_body) {
                Some(r) => seq![r] + rest,
                None => rest,
            },
            None => rest,
        }
    }
}

/// Whether each document of `fetched` has an excerpt, or each has none.
pub open spec fn excerpts_are(fetched: Seq<Option<FetchedView>>, present: bool) -> bool {
    forall|i: int|
        0 <= i < fetched.len() ==> ((#[trigger] fetched[i]) matches Some(f) ==> (f.excerpt is Some
            <==> present))
}

/// What is kept is no longer than what was fetched. Each result has a body
/// exactly where bodies are returned, and a snippet, free of newlines and
/// trimmed, exactly where an excerpt was made.
pub proof fn lemma_kept(return_body: bool, fetched: Seq<Option<FetchedView>>, present: bool)
    requires
        excerpts_are(fetched, present),
    ensures
        kept(return_body, fetched).len() <= fetched.len(),
        forall|i: int|
            0 <= i < kept(return_body, fetched).len() ==> {
                let r = #[trigger] kept(return_body, fetched)[i];
                &&& r.body is Some <==> return_body
                &&& r.snippet is Some <==> present
                &&& r.snippet matches Some(s) ==> is_snippet(s)
            },
    decreases fetched.len(),
{
    if fetched.len() > 0 {
        let rest = fetched.skip(1);
        assert forall|i: int| 0 <= i < rest.len() implies ((#[trigger] rest[i]) matches Some(f)
            ==> (f.excerpt is Some <==> present)) by {
            assert(rest[i] == fetched[i + 1]);
        }
        lemma_kept(return_body, rest, present);
        let all = kept(return_body, fetched);
        let later = kept(return_body, rest);
        assert forall|i: int| 0 <= i < all.len() implies {
            let r = #[trigger] all[i];
            &&& r.body is Some <==> return_body
            &&& r.snippet is Some <==> present
            &&& r.snippet matches Some(s) ==> is_snippet(s)
        } by {
            match fetched[0] {
                Some(f) => match result_from(f, return_body) {
                    Some(r) => {
                        if i == 0 {
                            if let Some(html) = f.excerpt {
                                lemma_snippet_text(html);
                            }
                        } else {
                            assert(all[i] == later[i - 1]);
                        }
                    },
                    None => {},
                },
                None => {},
            }
        }
    }
}

/// The result that the fetched document `f` gives.
pub fn result_of_fetched(f: Fetched, return_body: bool) -> (r: Option<SearchResult>)
    ensures
        match r {
            Some(found) => result_from(f@, return_body) == Some(found@),
            None => result_from(f@, return_body) is None,
        },
{
    let Fetched { url, title, body, excerpt } = f;
    match (url, title) {
        (Some(url), Some(title)) => {
            if return_body {
                match body {
                    Some(body) => Some(search_result(url, title, Some(body), excerpt)),
                    None => None,
                }
            } else {
                Some(search_result(url, title, None, excerpt))
            }
        },
        _ => None,
    }
}

/// The results of what was fetched at the addresses that a search found:
/// in order, one result for each document that could be fetched and holds a
/// url and a title, and a body where bodies are returned. A result has the
/// document's url and title, its body where bodies are returned, and as its
/// snippet the document's excerpt with newlines turned into spaces,
/// trimmed.
pub fn results_from(fetched: Vec<Option<Fetched>>, return_body: bool) -> (r: Vec<SearchResult>)
    ensures
        result_views(r@) == kept(return_body, fetched_views(fetched@)),
{
    let ghost all = fetched_views(fetched@);
    let mut out: Vec<SearchResult> = Vec::new();
    assert(all.skip(0) =~= all);
    assert(result_views(out@) =~= Seq::<SearchResultView>::empty());
    assert(Seq::<SearchResultView>::empty() + kept(return_body, all) =~= kept(return_body, all));
    for f in it: fetched
        invariant
            it.seq() == fetched@,
            all == fetched_views(fetched@),
            result_views(out@) + kept(return_body, all.skip(it.index() as int)) == kept(
                return_body,
                all,
            ),
    {
        let ghost before = result_views(out@);
        let ghost rest = all.skip(it.index() as int);
        assert(rest.skip(1) =~= all.skip(it.index() + 1));
        assert(rest[0] == match f {
            Some(f) => Some(f@),
            None => None,
        });
        if let Some(f) = f {
            if let Some(found) = result_of_fetched(f, return_body) {
                assert(result_views(out@.push(found)) =~= before.push(found@));
                assert(before.push(found@) + kept(return_body, rest.skip(1)) =~= before + (seq![
                    found@,
                ] + kept(return_body, rest.skip(1))));
                out.push(found);
            }
        }
    }
    assert(result_views(out@) + Seq::<SearchResultView>::empty() =~= result_views(out@));
    out
}

/// What a search returns, given how its reading of the index ended:
/// - the engine failed with the words `why`: the error `SearchFailed` with
///   those words;
/// - nothing was read, because the query does not parse or the index is
///   not searchable: no result;
/// - documents were fetched: their results, as `results_from` gives them.
pub fn search_answer(
    outcome: Result<Option<Vec<Option<Fetched>>>, String>,
    return_body: bool,
) -> (r: Result<Vec<SearchResult>, IndexError>)
    ensures
        match outcome {
            Ok(Some(fetched)) => r matches Ok(found) && result_views(found@) == kept(
                return_body,
                fetched_views(fetched@),
            ),
            Ok(None) => r matches Ok(found) && found@.len() == 0,
            Err(why) => r matches Err(IndexError::SearchFailed(words)) && words@ == why@,
        },
{
    match outcome {
        Ok(Some(fetched)) => Ok(results_from(fetched, return_body)),
        Ok(None) => Ok(Vec::new()),
        Err(why) => Err(IndexError::SearchFailed(why)),
    }
}

/// Whether searcher and parser of `reader` are of `index`: both hold its
/// schema, and the parser looks in url, title and body, in this order, and
/// asks for all words of a query.
pub open spec fn reads_index(
    reader: (tantivy::Searcher, tantivy::query::QueryParser),
    index: tantivy::Index,
    url: tantivy::schema::Field,
    title: tantivy::schema::Field,
    body: tantivy::schema::Field,
) -> bool {
    &&& fields_read(reader.0) == fields_of(index)
    &&& fields_parsed(reader.1) == fields_of(index)
    &&& default_fields(reader.1) == seq![url, title, body]
    &&& asks_all_words(reader.1)
}

/// An index of the engine with its three fields and, once it can be
/// searched, a searcher on its last commit and a parser of queries.
struct Engine {
    index: tantivy::Index,
    url: tantivy::schema::Field,
    title: tantivy::schema::Field,
    body: tantivy::schema::Field,
    reader: Option<(tantivy::Searcher, tantivy::query::QueryParser)>,
}

impl Engine {
    /// The three fields are fields of the index, and searcher and parser
    /// are of the index.
    #[verifier::type_invariant]
    spec fn sound(&self) -> bool {
        &&& fields_of(self.index).contains(self.url)
        &&& fields_of(self.index).contains(self.title)
        &&& fields_of(self.index).contains(self.body)
        &&& self.reader matches Some(reader) ==> reads_index(
            reader,
            self.index,
            self.url,
            self.title,
            self.body,
        )
    }
}

/// An index of documents in a directory, open for writing or for searching.
///
/// An index that was created can take documents; once committed it can be
/// searched too. An index that was opened can be searched and takes none.
pub struct SearchIndex {
    dir: String,
    engine: Engine,
    index_writer: Option<tantivy::IndexWriter>,
    skip_snippet: bool,
    return_body: bool,
}

/// The most results that one search of an index by a query returns.
pub const SEARCH_LIMIT: usize = 50;

/// The most results that one fuzzy search of an index returns.
pub const FUZZY_LIMIT: usize = 10;

/// The most characters of text in a snippet.
pub const SNIPPET_CHARS: usize = 80;

/// The memory that an index's writer may use, in bytes.
pub const WRITER_BUDGET: usize = 50_000_000;

/// The edits that a fuzzy search allows between the query and the
/// beginning of a word.
pub const FUZZY_DISTANCE: u8 = 1;

impl SearchIndex {
    /// Whether the index can be searched.
    pub closed spec fn is_searchable(&self) -> bool {
        self.engine.reader is Some
    }

    /// Whether the index takes documents.
    pub closed spec fn is_writable(&self) -> bool {
        self.index_writer is Some
    }

    /// Whether results come without a snippet.
    pub closed spec fn skips_snippet(&self) -> bool {
        self.skip_snippet
    }

    /// Whether results come with the whole body.
    pub closed spec fn returns_body(&self) -> bool {
        self.return_body
    }

    /// The directory of the index.
    pub closed spec fn directory(&self) -> Seq<char> {
        self.dir@
    }

    /// The field that holds a document's url.
    pub closed spec fn url_field(&self) -> tantivy::schema::Field {
        self.engine.url
    }

    /// The field that holds a document's title.
    pub closed spec fn title_field(&self) -> tantivy::schema::Field {
        self.engine.title
    }

    /// The field that holds a document's body.
    pub closed spec fn body_field(&self) -> tantivy::schema::Field {
        self.engine.body
    }

    /// The documents that were added since the last commit, in order, each
    /// as its values: field and text. An index without a writer has none.
    pub closed spec fn pending(&self) -> Seq<Seq<(tantivy::schema::Field, Seq<char>)>> {
        match self.index_writer {
            Some(writer) => queued(writer),
            None => Seq::empty(),
        }
    }

    /// Whether this is the index `other` in the same directory, with the
    /// same three fields.
    pub closed spec fn same_index(&self, other: SearchIndex) -> bool {
        &&& self.dir@ == other.dir@
        &&& self.engine.index == other.engine.index
        &&& self.engine.url == other.engine.url
        &&& self.engine.title == other.engine.title
        &&& self.engine.body == other.engine.body
    }

    /// Whether this index searches with the searcher and the parser of
    /// `other`, or neither can be searched: a search then reads what a
    /// search of `other` reads.
    pub closed spec fn same_reader(&self, other: SearchIndex) -> bool {
        self.engine.reader == other.engine.reader
    }

    /// Whether this index writes with the writer of `other`, with the same
    /// documents pending, or neither takes documents.
    pub closed spec fn same_writer(&self, other: SearchIndex) -> bool {
        self.index_writer == other.index_writer
    }

    /// The document that `add_document` hands the engine: the url, the
    /// title and the body, in this order, each under its field.
    pub open spec fn document(&self, url: Seq<char>, title: Seq<char>, body: Seq<char>) -> Seq<
        (tantivy::schema::Field, Seq<char>),
    > {
        seq![(self.url_field(), url), (self.title_field(), title), (self.body_field(), body)]
    }

    /// Whether `r` has the form of this index's results: a body exactly
    /// where the index returns it, and a snippet, at most, where it does not
    /// skip it.
    pub open spec fn shapes(&self, r: SearchResultView) -> bool {
        &&& r.body is Some <==> self.returns_body()
        &&& self.skips_snippet() ==> r.snippet is None
        &&& r.snippet matches Some(s) ==> is_snippet(s)
    }

    /// Whether each of `found` has the form of this index's results.
    pub open spec fn shapes_all(&self, found: Seq<SearchResultView>) -> bool {
        forall|i: int| 0 <= i < found.len() ==> self.shapes(#[trigger] found[i])
    }
}

/// The error for an index that `cause` made unavailable.
fn unavailable(cause: &tantivy::TantivyError) -> (r: IndexError)
    ensures
        r is IndexUnavailable,
{
    IndexError::IndexUnavailable(error_text(cause))
}

/// A searcher on what `index` holds now, from a reader that takes up a
/// later commit only when it is reloaded by hand, and a parser of queries
/// that looks in url, title and body and asks for all words of a query.
fn create_searcher(
    index: &tantivy::Index,
    url: &tantivy::schema::Field,
    title: &tantivy::schema::Field,
    body: &tantivy::schema::Field,
) -> (r: Result<(tantivy::Searcher, tantivy::query::QueryParser), tantivy::TantivyError>)
    requires
        fields_of(*index).contains(*url),
        fields_of(*index).contains(*title),
        fields_of(*index).contains(*body),
    ensures
        r matches Ok(reader) ==> reads_index(reader, *index, *url, *title, *body),
{
    match searcher_of(index, tantivy::ReloadPolicy::Manual) {
        Ok(searcher) => {
            let mut parser = parser_of(index, url, title, body);
            set_conjunction_by_default(&mut parser);
            Ok((searcher, parser))
        },
        Err(e) => Err(e),
    }
}

impl SearchIndex {
    /// The index `index` of the directory `dir`, with its three fields
    /// looked up, neither searchable nor writable yet.
    fn around(dir: &str, index: tantivy::Index) -> (r: Result<SearchIndex, IndexError>)
        ensures
            match r {
                Ok(ix) => !ix.is_searchable() && !ix.is_writable() && !ix.skips_snippet()
                    && !ix.returns_body() && ix.directory() == dir@,
                Err(e) => e is IndexUnavailable,
            },
    {
        let url = match field_named(&index, "url") {
            Ok(field) => field,
            Err(e) => {
                return Err(unavailable(&e));
            },
        };
        let title = match field_named(&index, "title") {
            Ok(field) => field,
            Err(e) => {
                return Err(unavailable(&e));
            },
        };
        let body = match field_named(&index, "body") {
            Ok(field) => field,
            Err(e) => {
                return Err(unavailable(&e));
            },
        };
        Ok(
            SearchIndex {
                dir: dir.to_owned(),
                engine: Engine { index, url, title, body, reader: None },
                index_writer: None,
                skip_snippet: false,
                return_body: false,
            },
        )
    }

    /// Creates an empty index in the directory `dir`, open for writing, with
    /// nothing pending. The directory must exist and hold no index yet;
    /// whether it does is for the engine to say.
    pub fn create(dir: &str) -> (r: Result<SearchIndex, IndexError>)
        ensures
            match r {
                Ok(ix) => ix.is_writable() && !ix.is_searchable() && !ix.skips_snippet()
                    && !ix.returns_body() && ix.directory() == dir@ && ix.pending().len() == 0,
                Err(e) => e is IndexUnavailable,
            },
    {
        proof {
            reveal_strlit("title");
            reveal_strlit("url");
            reveal_strlit("body");
        }
        // Each text is indexed, for searching, and stored, for the results.
        let options = stored(indexed_text());
        let schema = text_schema("title", "url", "body", &options);
        let index = match create_in_dir(dir, schema) {
            Ok(index) => index,
            Err(e) => {
                return Err(unavailable(&e));
            },
        };
        let writer = match writer_of(&index, WRITER_BUDGET) {
            Ok(writer) => writer,
            Err(e) => {
                return Err(unavailable(&e));
            },
        };
        match SearchIndex::around(dir, index) {
            Ok(ix) => Ok(SearchIndex { index_writer: Some(writer), ..ix }),
            Err(e) => Err(e),
        }
    }

    /// Opens the index that lies in the directory `dir`, for searching.
    pub fn open(dir: &str) -> (r: Result<SearchIndex, IndexError>)
        ensures
            match r {
                Ok(ix) => ix.is_searchable() && !ix.is_writable() && !ix.skips_snippet()
                    && !ix.returns_body() && ix.directory() == dir@ && ix.pending().len() == 0,
                Err(e) => e is IndexUnavailable,
            },
    {
        let index = match open_in_dir(dir) {
            Ok(index) => index,
            Err(e) => {
                return Err(unavailable(&e));
            },
        };
        match SearchIndex::around(dir, index) {
            Ok(mut ix) => {
                proof {
                    use_type_invariant(&ix.engine);
                }
                match create_searcher(
                    &ix.engine.index,
                    &ix.engine.url,
                    &ix.engine.title,
                    &ix.engine.body,
                ) {
                    Ok(reader) => {
                        ix.engine.reader = Some(reader);
                        Ok(ix)
                    },
                    Err(e) => Err(unavailable(&e)),
                }
            },
            Err(e) => Err(e),
        }
    }

    /// Hands the engine the document of `url`, `title` and `body`, each under
    /// its field, for the next commit, and returns the number that the
    /// engine gave the operation. A search of this index finds what it
    /// found before, until the commit. An index without a writer takes no
    /// document.
    pub fn add_document(&mut self, url: String, title: String, body: String) -> (r: Result<
        u64,
        IndexError,
    >)
        ensures
            final(self).same_index(*old(self)),
            final(self).same_reader(*old(self)),
            final(self).is_searchable() == old(self).is_searchable(),
            final(self).is_writable() == old(self).is_writable(),
            final(self).skips_snippet() == old(self).skips_snippet(),
            final(self).returns_body() == old(self).returns_body(),
            final(self).directory() == old(self).directory(),
            match r {
                Ok(_) => old(self).is_writable() && final(self).pending() == old(
                    self,
                ).pending().push(old(self).document(url@, title@, body@)),
                Err(e) => (e is NotWritable || e is WriteFailed) && (e is NotWritable
                    <==> !old(self).is_writable()) && (e is NotWritable ==> final(self).same_writer(
                    *old(self),
                )),
            },
    {
        match &mut self.index_writer {
            Some(writer) => match add_text_document(
                writer,
                (&self.engine.url, url),
                (&self.engine.title, title),
                (&self.engine.body, body),
            ) {
                Ok(stamp) => Ok(stamp),
                Err(e) => Err(IndexError::WriteFailed(error_text(&e))),
            },
            None => Err(IndexError::NotWritable),
        }
    }

    /// Whether results come without a snippet from now on: they do. Nothing
    /// else of the index changes.
    pub fn set_skip_snippet(&mut self)
        ensures
            final(self).skips_snippet(),
            final(self).returns_body() == old(self).returns_body(),
            final(self).same_index(*old(self)),
            final(self).same_reader(*old(self)),
            final(self).same_writer(*old(self)),
            final(self).is_searchable() == old(self).is_searchable(),
            final(self).is_writable() == old(self).is_writable(),
            final(self).directory() == old(self).directory(),
            final(self).pending() == old(self).pending(),
    {
        self.skip_snippet = true;
    }

    /// Whether results come with the whole body from now on: they do.
    /// Nothing else of the index changes.
    pub fn set_return_body(&mut self)
        ensures
            final(self).returns_body(),
            final(self).skips_snippet() == old(self).skips_snippet(),
            final(self).same_index(*old(self)),
            final(self).same_reader(*old(self)),
            final(self).same_writer(*old(self)),
            final(self).is_searchable() == old(self).is_searchable(),
            final(self).is_writable() == old(self).is_writable(),
            final(self).directory() == old(self).directory(),
            final(self).pending() == old(self).pending(),
    {
        self.return_body = true;
    }

    /// Publishes the documents that were added, and makes the index
    /// searchable on what it holds then. Returns zero.
    ///
    /// A search of this index sees the documents of its last commit. Where
    /// this commit succeeds, nothing is left pending and the index searches
    /// with a new searcher. Where it fails, or the index cannot be read
    /// after it, the index searches with the searcher it had, or still
    /// cannot be searched.
    pub fn commit(&mut self) -> (r: Result<u64, IndexError>)
        ensures
            final(self).same_index(*old(self)),
            final(self).is_writable() == old(self).is_writable(),
            final(self).skips_snippet() == old(self).skips_snippet(),
            final(self).returns_body() == old(self).returns_body(),
            final(self).directory() == old(self).directory(),
            match r {
                Ok(stamp) => stamp == 0 && old(self).is_writable() && final(self).is_searchable()
                    && final(self).pending().len() == 0,
                Err(e) => {
                    &&& final(self).same_reader(*old(self))
                    &&& final(self).is_searchable() == old(self).is_searchable()
                    &&& e is NotWritable || e is WriteFailed || e is IndexUnavailable
                    &&& e is NotWritable <==> !old(self).is_writable()
                    &&& e is NotWritable ==> final(self).same_writer(*old(self))
                    &&& e is IndexUnavailable ==> final(self).pending().len() == 0
                },
            },
    {
        let committed = match &mut self.index_writer {
            Some(writer) => commit_writer(writer),
            None => {
                return Err(IndexError::NotWritable);
            },
        };
        if let Err(e) = committed {
            return Err(IndexError::WriteFailed(error_text(&e)));
        }
        proof {
            use_type_invariant(&self.engine);
        }
        match create_searcher(
            &self.engine.index,
            &self.engine.url,
            &self.engine.title,
            &self.engine.body,
        ) {
            Ok(reader) => {
                self.engine.reader = Some(reader);
                Ok(0)
            },
            Err(e) => Err(unavailable(&e)),
        }
    }

    /// What is read of the stored document `doc`: the text that it holds
    /// under each of the three fields, and the excerpt that `generator`
    /// makes of it, where there is a generator.
    fn fetched_of(
        &self,
        doc: &tantivy::Document,
        generator: Option<&tantivy::SnippetGenerator>,
    ) -> (r: Fetched)
        ensures
            r@.url == self.text_under(*doc, self.url_field()),
            r@.title == self.text_under(*doc, self.title_field()),
            r@.body == self.text_under(*doc, self.body_field()),
            r@.excerpt is Some <==> generator is Some,
    {
        let excerpt = match generator {
            Some(generator) => Some(snippet_html(generator, doc)),
            None => None,
        };
        Fetched {
            url: first_text(doc, &self.engine.url),
            title: first_text(doc, &self.engine.title),
            body: first_text(doc, &self.engine.body),
            excerpt,
        }
    }

    /// The text that `doc` holds under `field`, if it holds one.
    pub open spec fn text_under(
        &self,
        doc: tantivy::Document,
        field: tantivy::schema::Field,
    ) -> Option<Seq<char>> {
        if texts_of(doc).dom().contains(field) {
            Some(texts_of(doc)[field])
        } else {
            None
        }
    }

    /// What is read at `addresses`, in order: of each document that the
    /// engine can fetch, its three texts and its excerpt; `None` for one
    /// that it cannot.
    fn fetch(
        &self,
        searcher: &tantivy::Searcher,
        addresses: &Vec<tantivy::DocAddress>,
        generator: Option<&tantivy::SnippetGenerator>,
    ) -> (r: Vec<Option<Fetched>>)
        requires
            forall|i: int|
                0 <= i < addresses@.len() ==> docs_of(*searcher).contains(
                    (#[trigger] addresses@[i].segment_ord, addresses@[i].doc_id),
                ),
        ensures
            r@.len() == addresses@.len(),
            excerpts_are(fetched_views(r@), generator is Some),
    {
        let mut fetched: Vec<Option<Fetched>> = Vec::new();
        let mut i: usize = 0;
        while i < addresses.len()
            invariant
                i <= addresses.len(),
                fetched@.len() == i,
                forall|k: int|
                    0 <= k < addresses@.len() ==> docs_of(*searcher).contains(
                        (#[trigger] addresses@[k].segment_ord, addresses@[k].doc_id),
                    ),
                forall|k: int|
                    0 <= k < fetched@.len() ==> ((#[trigger] fetched@[k]) matches Some(f) ==> (
                    f@.excerpt is Some <==> generator is Some)),
            decreases addresses.len() - i,
        {
            assert(docs_of(*searcher).contains(
                (addresses@[i as int].segment_ord, addresses@[i as int].doc_id),
            ));
            match stored_doc(searcher, &addresses[i]) {
                Ok(doc) => {
                    let f = self.fetched_of(&doc, generator);
                    fetched.push(Some(f));
                },
                Err(_) => {
                    fetched.push(None);
                },
            }
            i += 1;
        }
        assert forall|k: int| 0 <= k < fetched_views(fetched@).len() implies ((
        #[trigger] fetched_views(fetched@)[k]) matches Some(f) ==> (f.excerpt is Some
            <==> generator is Some)) by {
            assert(fetched@[k] matches Some(f) ==> fetched_views(fetched@)[k] == Some(f@));
        }
        fetched
    }

    /// What the engine finds for `query`: what is read of the fifty best
    /// documents, each with an excerpt of at most eighty characters of the
    /// body unless the index skips snippets; `Ok(None)` where the query
    /// does not parse or the index is not searchable; the engine's words
    /// where it fails.
    fn find(&self, query: &str) -> (r: Result<Option<Vec<Option<Fetched>>>, String>)
        ensures
            !self.is_searchable() ==> r matches Ok(None),
            r matches Ok(Some(fetched)) ==> fetched@.len() <= SEARCH_LIMIT && excerpts_are(
                fetched_views(fetched@),
                !self.skips_snippet(),
            ),
    {
        proof {
            use_type_invariant(&self.engine);
        }
        let (searcher, parser) = match &self.engine.reader {
            Some((searcher, parser)) => (searcher, parser),
            None => {
                return Ok(None);
            },
        };
        let addresses = match top_docs(searcher, parser, query, SEARCH_LIMIT) {
            Ok(Some(addresses)) => addresses,
            Ok(None) => {
                return Ok(None);
            },
            Err(e) => {
                return Err(error_text(&e));
            },
        };
        if self.skip_snippet {
            return Ok(Some(self.fetch(searcher, &addresses, None)));
        }
        match snippet_generator(searcher, parser, query, &self.engine.body) {
            Ok(Some(mut generator)) => {
                set_max_num_chars(&mut generator, SNIPPET_CHARS);
                Ok(Some(self.fetch(searcher, &addresses, Some(&generator))))
            },
            Ok(None) => Ok(None),
            Err(e) => Err(error_text(&e)),
        }
    }

    /// The documents that match `query`, best first, at most fifty.
    ///
    /// A query in double quotes asks for its words as a phrase; any other
    /// asks for all of its words. A query that does not parse matches
    /// nothing, and neither does any query on an index that is not
    /// searchable: both give `Ok` with no result. An error says that the
    /// engine failed, which is not the same as no match.
    ///
    /// Each result has a snippet of the body, newlines turned into spaces
    /// and trimmed, unless the index skips snippets, and the whole body
    /// exactly where the index returns it. What the results are, given what
    /// the engine found, is for `search_answer` to say.
    pub fn search(&self, query: &str) -> (r: Result<Vec<SearchResult>, IndexError>)
        ensures
            !self.is_searchable() ==> (r matches Ok(found) && found@.len() == 0),
            match r {
                Ok(found) => {
                    &&& found@.len() <= SEARCH_LIMIT
                    &&& self.shapes_all(result_views(found@))
                    &&& forall|i: int|
                        0 <= i < found@.len() ==> ((#[trigger] found@[i])@.snippet is Some
                            <==> !self.skips_snippet())
                },
                Err(e) => e is SearchFailed && self.is_searchable(),
            },
    {
        let outcome = self.find(query);
        let ghost read = outcome;
        let r = search_answer(outcome, self.return_body);
        proof {
            if let (Ok(found), Ok(Some(fetched))) = (&r, &read) {
                let all = kept(self.returns_body(), fetched_views(fetched@));
                lemma_kept(self.returns_body(), fetched_views(fetched@), !self.skips_snippet());
                assert(result_views(found@).len() == found@.len());
                assert forall|i: int| 0 <= i < found@.len() implies self.shapes(
                    #[trigger] result_views(found@)[i],
                ) by {
                    assert(all[i] == result_views(found@)[i]);
                }
                assert forall|i: int| 0 <= i < found@.len() implies ((#[trigger] found@[i])@.snippet is Some
                    <==> !self.skips_snippet()) by {
                    assert(result_views(found@)[i] == found@[i]@);
                    assert(all[i] == found@[i]@);
                }
            }
        }
        r
    }

    /// What the engine finds close to `query` in `field`: what is read of
    /// the ten best documents that hold a word one of whose beginnings is
    /// within one edit of `query`, where swapping two neighbours counts as
    /// one; none with an excerpt. `Ok(None)` where the index is not
    /// searchable; the engine's words where it fails.
    fn find_close(&self, query: &str, field: &tantivy::schema::Field) -> (r: Result<
        Option<Vec<Option<Fetched>>>,
        String,
    >)
        requires
            *field == self.url_field() || *field == self.title_field() || *field
                == self.body_field(),
        ensures
            !self.is_searchable() ==> r matches Ok(None),
            r matches Ok(Some(fetched)) ==> fetched@.len() <= FUZZY_LIMIT && excerpts_are(
                fetched_views(fetched@),
                false,
            ),
    {
        proof {
            use_type_invariant(&self.engine);
        }
        let searcher = match &self.engine.reader {
            Some((searcher, _)) => searcher,
            None => {
                return Ok(None);
            },
        };
        match fuzzy_top_docs(searcher, field, query, FUZZY_DISTANCE, true, FUZZY_LIMIT) {
            Ok(addresses) => Ok(Some(self.fetch(searcher, &addresses, None))),
            Err(e) => Err(error_text(&e)),
        }
    }

    /// The documents that hold, in `field`, a word close to `query`. At
    /// most ten, none with a snippet.
    fn fuzzy_search(&self, query: &str, field: &tantivy::schema::Field) -> (r: Result<
        Vec<SearchResult>,
        IndexError,
    >)
        requires
            *field == self.url_field() || *field == self.title_field() || *field
                == self.body_field(),
        ensures
            !self.is_searchable() ==> (r matches Ok(found) && found@.len() == 0),
            match r {
                Ok(found) => {
                    &&& found@.len() <= FUZZY_LIMIT
                    &&& self.shapes_all(result_views(found@))
                    &&& forall|i: int| 0 <= i < found@.len() ==> (#[trigger] found@[i])@.snippet is None
                },
                Err(e) => e is SearchFailed && self.is_searchable(),
            },
    {
        let outcome = self.find_close(query, field);
        let ghost read = outcome;
        let r = search_answer(outcome, self.return_body);
        proof {
            if let (Ok(found), Ok(Some(fetched))) = (&r, &read) {
                let all = kept(self.returns_body(), fetched_views(fetched@));
                lemma_kept(self.returns_body(), fetched_views(fetched@), false);
                assert(result_views(found@).len() == found@.len());
                assert forall|i: int| 0 <= i < found@.len() implies self.shapes(
                    #[trigger] result_views(found@)[i],
                ) by {
                    assert(all[i] == result_views(found@)[i]);
                }
                assert forall|i: int| 0 <= i < found@.len() implies (#[trigger] found@[i])@.snippet is None by {
                    assert(result_views(found@)[i] == found@[i]@);
                    assert(all[i] == found@[i]@);
                }
            }
        }
        r
    }

    /// The documents whose title holds a word close to `query`: see
    /// `fuzzy_search_body` for what is close. At most ten, none with a
    /// snippet.
    pub fn fuzzy_search_title(&self, query: &str) -> (r: Result<Vec<SearchResult>, IndexError>)
        ensures
            !self.is_searchable() ==> (r matches Ok(found) && found@.len() == 0),
            match r {
                Ok(found) => {
                    &&& found@.len() <= FUZZY_LIMIT
                    &&& self.shapes_all(result_views(found@))
                    &&& forall|i: int| 0 <= i < found@.len() ==> (#[trigger] found@[i])@.snippet is None
                },
                Err(e) => e is SearchFailed && self.is_searchable(),
            },
    {
        self.fuzzy_search(query, &self.engine.title)
    }

    /// The documents whose body holds a word close to `query`: a word one of
    /// whose beginnings is within one edit of `query`, where swapping two
    /// neighbours counts as one edit. At most ten, none with a snippet. On
    /// an index that is not searchable nothing matches; an error says that
    /// the engine failed. What the results are, given what the engine
    /// found, is for `search_answer` to say.
    pub fn fuzzy_search_body(&self, query: &str) -> (r: Result<Vec<SearchResult>, IndexError>)
        ensures
            !self.is_searchable() ==> (r matches Ok(found) && found@.len() == 0),
            match r {
                Ok(found) => {
                    &&& found@.len() <= FUZZY_LIMIT
                    &&& self.shapes_all(result_views(found@))
                    &&& forall|i: int| 0 <= i < found@.len() ==> (#[trigger] found@[i])@.snippet is None
                },
                Err(e) => e is SearchFailed && self.is_searchable(),
            },
    {
        self.fuzzy_search(query, &self.engine.body)
    }
}

} // verus!
