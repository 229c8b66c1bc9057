//! The full-text engine, as far as this library uses it.
//!
//! Everything in this file is believed, not proved: the types are opaque to
//! the verifier, and each function's contract states what the engine's
//! source shows of the call that its body makes. What an index holds lies on
//! disk, so most calls promise nothing of what they return.
use vstd::prelude::*;

verus! {

/// An index in its directory.
#[verifier::external_type_specification]
#[verifier::external_body]
pub struct ExIndex(tantivy::Index);

/// The fields that the documents of an index have.
#[verifier::external_type_specification]
#[verifier::external_body]
pub struct ExSchema(tantivy::schema::Schema);

/// One field of a schema.
#[verifier::external_type_specification]
#[verifier::external_body]
pub struct ExField(tantivy::schema::Field);

/// A document: values under fields.
#[verifier::external_type_specification]
#[verifier::external_body]
pub struct ExDocument(tantivy::Document);

/// A view of what an index held when the searcher was made.
#[verifier::external_type_specification]
#[verifier::external_body]
pub struct ExSearcher(tantivy::Searcher);

/// The one writer of an index.
#[verifier::external_type_specification]
#[verifier::external_body]
pub struct ExIndexWriter(tantivy::IndexWriter);

/// A parser of queries for one index.
#[verifier::external_type_specification]
#[verifier::external_body]
pub struct ExQueryParser(tantivy::query::QueryParser);

/// A maker of excerpts for one query.
#[verifier::external_type_specification]
#[verifier::external_body]
pub struct ExSnippetGenerator(tantivy::SnippetGenerator);

/// What the engine reports when a call fails.
#[verifier::external_type_specification]
#[verifier::external_body]
pub struct ExTantivyError(tantivy::TantivyError);

/// A document's address: the number of its segment and its number there.
#[verifier::external_type_specification]
pub struct ExDocAddress(tantivy::DocAddress);

/// How a text field is kept: whether its text is indexed, and stored.
#[verifier::external_type_specification]
#[verifier::external_body]
pub struct ExTextOptions(tantivy::schema::TextOptions);

/// When a reader takes up what was committed.
#[verifier::external_type_specification]
pub struct ExReloadPolicy(tantivy::ReloadPolicy);

/// The documents that a searcher can fetch, each by the number of its
/// segment and its number in that segment.
pub uninterp spec fn docs_of(searcher: tantivy::Searcher) -> Set<(u32, u32)>;

/// The fields of the schema of an index.
pub uninterp spec fn fields_of(index: tantivy::Index) -> Set<tantivy::schema::Field>;

/// The fields of the schema that a searcher holds: that of the index it
/// was made of.
pub uninterp spec fn fields_read(searcher: tantivy::Searcher) -> Set<tantivy::schema::Field>;

/// The fields of the schema that a parser holds: that of the index it was
/// made for.
pub uninterp spec fn fields_parsed(parser: tantivy::query::QueryParser) -> Set<
    tantivy::schema::Field,
>;

/// The fields in which a parser looks for a word that names no field.
pub uninterp spec fn default_fields(parser: tantivy::query::QueryParser) -> Seq<
    tantivy::schema::Field,
>;

/// Whether a parser asks for all words of a query, where the query does
/// not say otherwise.
pub uninterp spec fn asks_all_words(parser: tantivy::query::QueryParser) -> bool;

/// The documents that were handed to a writer since its last commit, in
/// order, each as the values it was given: field and text.
pub uninterp spec fn queued(writer: tantivy::IndexWriter) -> Seq<
    Seq<(tantivy::schema::Field, Seq<char>)>,
>;

/// Whether `name` can name a field: it is not empty and does not begin with
/// a hyphen.
pub open spec fn is_field_name(name: Seq<char>) -> bool {
    name.len() > 0 && name[0] != '-'
}

/// `Index::open_in_dir`: opens the index that lies in the directory `dir`.
#[verifier::external_body]
pub(crate) fn open_in_dir(dir: &str) -> (r: Result<tantivy::Index, tantivy::TantivyError>) {
    tantivy::Index::open_in_dir(dir)
}

/// `TEXT`: the options of a field whose text is split into words and
/// indexed, and not stored.
#[verifier::external_body]
pub(crate) fn indexed_text() -> (r: tantivy::schema::TextOptions) {
    tantivy::schema::TEXT
}

/// `TextOptions::set_stored`: the same options, but that the field's text
/// is stored with the document too.
#[verifier::external_body]
pub(crate) fn stored(options: tantivy::schema::TextOptions) -> (r: tantivy::schema::TextOptions) {
    options.set_stored()
}

/// `Schema::builder`, `SchemaBuilder::add_text_field` and
/// `SchemaBuilder::build`: a schema of three text fields, each kept as
/// `options` say. Adding a field panics on a name that is empty, begins with
/// a hyphen, or is taken already.
#[verifier::external_body]
pub(crate) fn text_schema(
    first: &str,
    second: &str,
    third: &str,
    options: &tantivy::schema::TextOptions,
) -> (r: tantivy::schema::Schema)
    requires
        is_field_name(first@),
        is_field_name(second@),
        is_field_name(third@),
        first@ != second@,
        first@ != third@,
        second@ != third@,
{
    let mut builder = tantivy::schema::Schema::builder();
    builder.add_text_field(first, options.clone());
    builder.add_text_field(second, options.clone());
    builder.add_text_field(third, options.clone());
    builder.build()
}

/// `Index::create_in_dir`: creates an index with the given schema in the
/// directory `dir`.
#[verifier::external_body]
pub(crate) fn create_in_dir(dir: &str, schema: tantivy::schema::Schema) -> (r: Result<
    tantivy::Index,
    tantivy::TantivyError,
>) {
    tantivy::Index::create_in_dir(dir, schema)
}

/// `Schema::get_field` on the schema of `index`: the field of that name,
/// which is one of the schema's.
#[verifier::external_body]
pub(crate) fn field_named(index: &tantivy::Index, name: &str) -> (r: Result<
    tantivy::schema::Field,
    tantivy::TantivyError,
>)
    ensures
        r matches Ok(field) ==> fields_of(*index).contains(field),
{
    index.schema().get_field(name)
}

/// `Index::writer`: a writer for `index` that may use `budget` bytes. A new
/// writer has nothing queued.
#[verifier::external_body]
pub(crate) fn writer_of(index: &tantivy::Index, budget: usize) -> (r: Result<
    tantivy::IndexWriter,
    tantivy::TantivyError,
>)
    ensures
        r matches Ok(writer) ==> queued(writer).len() == 0,
{
    index.writer(budget)
}

/// `IndexReaderBuilder::reload_policy`, `IndexReaderBuilder::try_into` and
/// `IndexReader::searcher`: a searcher on what `index` holds now, from a
/// reader of the given policy. The searcher holds the schema of `index`.
#[verifier::external_body]
pub(crate) fn searcher_of(index: &tantivy::Index, policy: tantivy::ReloadPolicy) -> (r: Result<
    tantivy::Searcher,
    tantivy::TantivyError,
>)
    ensures
        r matches Ok(searcher) ==> fields_read(searcher) == fields_of(*index),
{
    let reader: tantivy::IndexReader = index.reader_builder().reload_policy(policy).try_into()?;
    Ok(reader.searcher())
}

/// `QueryParser::for_index`: a parser of queries for `index` that looks in
/// the three given fields for a word that names none. It holds the schema
/// of `index` and does not ask for all words yet. Parsing looks the three
/// fields up in that schema without a check, so they must be fields of it.
#[verifier::external_body]
pub(crate) fn parser_of(
    index: &tantivy::Index,
    first: &tantivy::schema::Field,
    second: &tantivy::schema::Field,
    third: &tantivy::schema::Field,
) -> (r: tantivy::query::QueryParser)
    requires
        fields_of(*index).contains(*first),
        fields_of(*index).contains(*second),
        fields_of(*index).contains(*third),
    ensures
        fields_parsed(r) == fields_of(*index),
        default_fields(r) == seq![*first, *second, *third],
        !asks_all_words(r),
{
    tantivy::query::QueryParser::for_index(index, vec![*first, *second, *third])
}

/// `QueryParser::set_conjunction_by_default`: from now on the words of a
/// query must all match. Nothing else of the parser changes.
#[verifier::external_body]
pub(crate) fn set_conjunction_by_default(parser: &mut tantivy::query::QueryParser)
    ensures
        asks_all_words(*final(parser)),
        fields_parsed(*final(parser)) == fields_parsed(*old(parser)),
        default_fields(*final(parser)) == default_fields(*old(parser)),
{
    parser.set_conjunction_by_default()
}

/// `QueryParser::parse_query`, then `Searcher::search` with a collector of
/// the `limit` best documents: `Ok(None)` where `query` does not parse, an
/// error where the search fails, else the addresses found, best first. The
/// collector panics on a limit of zero, returns no more addresses than its
/// limit, and each is the address of a document of `searcher`. The search
/// looks the fields of the parsed query up in the searcher's schema without
/// a check, so parser and searcher must hold the same fields.
#[verifier::external_body]
pub(crate) fn top_docs(
    searcher: &tantivy::Searcher,
    parser: &tantivy::query::QueryParser,
    query: &str,
    limit: usize,
) -> (r: Result<Option<Vec<tantivy::DocAddress>>, tantivy::TantivyError>)
    requires
        limit >= 1,
        fields_parsed(*parser) == fields_read(*searcher),
        forall|i: int|
            0 <= i < default_fields(*parser).len() ==> fields_parsed(*parser).contains(
                #[trigger] default_fields(*parser)[i],
            ),
    ensures
        r matches Ok(Some(found)) ==> found@.len() <= limit && forall|i: int|
            0 <= i < found@.len() ==> docs_of(*searcher).contains(
                (#[trigger] found@[i].segment_ord, found@[i].doc_id),
            ),
{
    match parser.parse_query(query) {
        Ok(parsed) => {
            let hits = searcher.search(&parsed, &tantivy::collector::TopDocs::with_limit(limit))?;
            Ok(Some(hits.into_iter().map(|hit| hit.1).collect()))
        },
        Err(_) => Ok(None),
    }
}

/// `Term::from_field_text` and `FuzzyTermQuery::new_prefix`, then
/// `Searcher::search` with a collector of the `limit` best documents and a
/// count: the addresses of the documents that hold, in `field`, a word one
/// of whose beginnings is within `distance` edits of `text`; an error where
/// the search fails, as it does on a distance above two. The collector
/// panics on a limit of zero, returns no more addresses than its limit, and
/// each is the address of a document of `searcher`. The search looks `field`
/// up in the searcher's schema without a check, so it must be a field of it.
#[verifier::external_body]
pub(crate) fn fuzzy_top_docs(
    searcher: &tantivy::Searcher,
    field: &tantivy::schema::Field,
    text: &str,
    distance: u8,
    transposition_cost_one: bool,
    limit: usize,
) -> (r: Result<Vec<tantivy::DocAddress>, tantivy::TantivyError>)
    requires
        limit >= 1,
        fields_read(*searcher).contains(*field),
    ensures
        r matches Ok(found) ==> found@.len() <= limit && forall|i: int|
            0 <= i < found@.len() ==> docs_of(*searcher).contains(
                (#[trigger] found@[i].segment_ord, found@[i].doc_id),
            ),
{
    let term = tantivy::Term::from_field_text(*field, text);
    let query = tantivy::query::FuzzyTermQuery::new_prefix(term, distance, transposition_cost_one);
    let collector = (tantivy::collector::TopDocs::with_limit(limit), tantivy::collector::Count);
    let hits = searcher.search(&query, &collector)?;
    Ok(hits.0.into_iter().map(|hit| hit.1).collect())
}

/// `QueryParser::parse_query`, then `SnippetGenerator::create`: a generator
/// of excerpts of `field` for `query`; `Ok(None)` where `query` does not
/// parse. Both look fields up in a schema without a check: parser and
/// searcher must hold the same fields, and `field` must be one of them.
#[verifier::external_body]
pub(crate) fn snippet_generator(
    searcher: &tantivy::Searcher,
    parser: &tantivy::query::QueryParser,
    query: &str,
    field: &tantivy::schema::Field,
) -> (r: Result<Option<tantivy::SnippetGenerator>, tantivy::TantivyError>)
    requires
        fields_parsed(*parser) == fields_read(*searcher),
        fields_read(*searcher).contains(*field),
        forall|i: int|
            0 <= i < default_fields(*parser).len() ==> fields_parsed(*parser).contains(
                #[trigger] default_fields(*parser)[i],
            ),
{
    match parser.parse_query(query) {
        Ok(parsed) => Ok(Some(tantivy::SnippetGenerator::create(searcher, &parsed, *field)?)),
        Err(_) => Ok(None),
    }
}

/// `SnippetGenerator::set_max_num_chars`: sets the length beyond which the
/// generator does not extend an excerpt.
#[verifier::external_body]
pub(crate) fn set_max_num_chars(generator: &mut tantivy::SnippetGenerator, limit: usize) {
    generator.set_max_num_chars(limit)
}

/// `Searcher::doc`: the stored document at `address`. It indexes the
/// searcher's segments by the address without a check, so the address must
/// be one of its own.
#[verifier::external_body]
pub(crate) fn stored_doc(searcher: &tantivy::Searcher, address: &tantivy::DocAddress) -> (r: Result<
    tantivy::Document,
    tantivy::TantivyError,
>)
    requires
        docs_of(*searcher).contains((address.segment_ord, address.doc_id)),
{
    searcher.doc(*address)
}

/// The texts that a document holds: for each field, the first value that
/// the document has under it, where that value is a text. A field under
/// which the document has no value, or whose first value is no text, is not
/// among them.
pub uninterp spec fn texts_of(doc: tantivy::Document) -> Map<tantivy::schema::Field, Seq<char>>;

/// `Document::get_first` and `Value::as_text`: the first value of `field` in
/// `doc`, if there is one and it is text. The two read the document alone:
/// the result is the text that the document holds under the field.
#[verifier::external_body]
pub(crate) fn first_text(doc: &tantivy::Document, field: &tantivy::schema::Field) -> (r: Option<
    String,
>)
    ensures
        match r {
            Some(text) => texts_of(*doc).dom().contains(*field) && texts_of(*doc)[*field] == text@,
            None => !texts_of(*doc).dom().contains(*field),
        },
{
    match doc.get_first(*field) {
        Some(value) => value.as_text().map(|text| text.to_string()),
        None => None,
    }
}

/// `SnippetGenerator::snippet_from_doc` and `Snippet::to_html`: the excerpt
/// of `doc` that the generator picks, as HTML with the query's words in bold.
#[verifier::external_body]
pub(crate) fn snippet_html(generator: &tantivy::SnippetGenerator, doc: &tantivy::Document) -> (r:
    String) {
    generator.snippet_from_doc(doc).to_html()
}

/// `Document::add_text` and `IndexWriter::add_document`: hands the writer a
/// document of three values, each a text under its field, in the order
/// given; the result is the number of the operation. Where the call
/// succeeds, the document is the last of those queued for the next commit.
#[verifier::external_body]
pub(crate) fn add_text_document(
    writer: &mut tantivy::IndexWriter,
    first: (&tantivy::schema::Field, String),
    second: (&tantivy::schema::Field, String),
    third: (&tantivy::schema::Field, String),
) -> (r: Result<u64, tantivy::TantivyError>)
    ensures
        r is Ok ==> queued(*final(writer)) == queued(*old(writer)).push(
            seq![(*first.0, first.1@), (*second.0, second.1@), (*third.0, third.1@)],
        ),
{
    let mut doc = tantivy::Document::new();
    doc.add_text(*first.0, first.1);
    doc.add_text(*second.0, second.1);
    doc.add_text(*third.0, third.1);
    writer.add_document(doc)
}

/// `IndexWriter::commit`: publishes what was queued. Where it succeeds,
/// nothing is left queued.
#[verifier::external_body]
pub(crate) fn commit_writer(writer: &mut tantivy::IndexWriter) -> (r: Result<
    u64,
    tantivy::TantivyError,
>)
    ensures
        r is Ok ==> queued(*final(writer)).len() == 0,
{
    writer.commit()
}

/// The engine's words for `error`, by its `Display`.
#[verifier::external_body]
pub(crate) fn error_text(error: &tantivy::TantivyError) -> (r: String) {
    error.to_string()
}

} // verus!
