//! Parsers for the three source formats: a book's table of contents, a
//! markdown page, and a rendered HTML page.
use vstd::prelude::*;
use crate::plain::{joined, lemma_joined_split, lemma_split_with_newline};
use crate::text::{
    append, chars_of, copy_of, find, find_char, head, index_of, index_of_char, lemma_find,
    lemma_find_char, lemma_trim, lemma_without_char_is_absent, occurs_at, pieces, replace_all, replace_all_of, same_chars, skip_leading,
    shifted, skip_leading_of, split, split_at, starts_with, string_of, string_views, strip_spans,
    strip_spans_of, tail, trim, trim_end, trim_end_of, trim_of, trim_start, trim_start_of,
    without_char, without_char_of,
};

verus! {

/// The marker between a link's description and its target: `](`.
pub open spec fn link_marker() -> Seq<char> {
    seq![']', '(']
}

/// The end of a link to a markdown chapter: `.md)`.
pub open spec fn chapter_suffix() -> Seq<char> {
    seq!['.', 'm', 'd', ')']
}

/// What follows the first `[` of `s`; all of `s` where it holds none.
pub open spec fn link_description(s: Seq<char>) -> Seq<char> {
    match find_char(s, '[') {
        Some(i) => s.skip(i + 1),
        None => s,
    }
}

/// `s` without `suffix` at its end; `s` itself where it does not end so.
pub open spec fn without_suffix(s: Seq<char>, suffix: Seq<char>) -> Seq<char> {
    if suffix.is_suffix_of(s) {
        s.take(s.len() - suffix.len())
    } else {
        s
    }
}

/// The entry that one line of a table of contents gives: the line, trimmed,
/// must hold the link marker exactly once; the title is the description
/// before it, the path the text after it without the chapter suffix; both
/// must be non-empty.
pub open spec fn toc_entry(line: Seq<char>) -> Option<(Seq<char>, Seq<char>)> {
    let t = trim(line);
    match find(t, link_marker()) {
        Some(i) => {
            let left = t.take(i);
            let right = t.skip(i + 2);
            let title = link_description(left);
            let path = without_suffix(right, chapter_suffix());
            if find(right, link_marker()) is None && title.len() > 0 && path.len() > 0 {
                Some((title, path))
            } else {
                None
            }
        },
        None => None,
    }
}

/// The entries of a sequence of lines, in order.
pub open spec fn toc_entries(lines: Seq<Seq<char>>) -> Seq<(Seq<char>, Seq<char>)>
    decreases lines.len(),
{
    if lines.len() == 0 {
        seq![]
    } else {
        match toc_entry(lines[0]) {
            Some(e) => seq![e] + toc_entries(lines.skip(1)),
            None => toc_entries(lines.skip(1)),
        }
    }
}

/// The table of contents that the text `s` holds.
pub open spec fn summary_entries(s: Seq<char>) -> Seq<(Seq<char>, Seq<char>)> {
    toc_entries(split(s, '\n'))
}

/// The views of a vector of string pairs.
pub open spec fn pair_views(v: Seq<(String, String)>) -> Seq<(Seq<char>, Seq<char>)> {
    v.map_values(|p: (String, String)| (p.0@, p.1@))
}

/// Every entry of a table of contents has a non-empty title and a non-empty
/// path.
pub proof fn lemma_toc_entries_nonempty(lines: Seq<Seq<char>>)
    ensures
        forall|i: int|
            0 <= i < toc_entries(lines).len() ==> (#[trigger] toc_entries(lines)[i]).0.len() > 0
                && toc_entries(lines)[i].1.len() > 0,
    decreases lines.len(),
{
    if lines.len() > 0 {
        lemma_toc_entries_nonempty(lines.skip(1));
        let rest = toc_entries(lines.skip(1));
        assert forall|i: int| 0 <= i < toc_entries(lines).len() implies (#[trigger] toc_entries(
            lines,
        )[i]).0.len() > 0 && toc_entries(lines)[i].1.len() > 0 by {
            match toc_entry(lines[0]) {
                Some(e) => {
                    if i > 0 {
                        assert(toc_entries(lines)[i] == rest[i - 1]);
                    }
                },
                None => {},
            }
        }
    }
}

/// What follows the first `[` of `s`.
pub fn seek_link_description(s: &str) -> (r: &str)
    ensures
        r@ == link_description(s@),
{
    let chars = chars_of(s);
    let n = chars.len();
    match index_of_char(chars.as_slice(), '[') {
        Some(i) => {
            proof {
                lemma_find_char(chars@, '[');
            }
            let r = s.substring_char(i + 1, n);
            assert(s@.subrange(i + 1, s@.len() as int) =~= s@.skip(i + 1));
            r
        },
        None => s,
    }
}

/// The entry of one line of a table of contents.
fn parse_toc_line(line: &[char]) -> (r: Option<(String, String)>)
    ensures
        match r {
            Some(p) => toc_entry(line@) == Some((p.0@, p.1@)),
            None => toc_entry(line@) is None,
        },
{
    let t = trim_of(line);
    let n = t.len();
    let marker = vec![']', '('];
    let suffix = vec!['.', 'm', 'd', ')'];
    assert(marker@ =~= link_marker());
    assert(suffix@ =~= chapter_suffix());
    match index_of(t, marker.as_slice()) {
        Some(i) => {
            proof {
                lemma_find(t@, marker@);
                assert(t@.skip(i as int).len() >= marker@.len());
            }
            let left = head(t, i);
            assert(i + 2 <= n);
            let right = tail(t, i + 2);
            if index_of(right, marker.as_slice()).is_some() {
                return None;
            }
            let title = match index_of_char(left, '[') {
                Some(k) => {
                    proof {
                        lemma_find_char(left@, '[');
                    }
                    tail(left, k + 1)
                },
                None => left,
            };
            let path = if right.len() >= 4 && occurs_at(right, right.len() - 4, suffix.as_slice()) {
                assert(right@.skip(right@.len() - 4) =~= right@.subrange(
                    right@.len() - 4,
                    right@.len() as int,
                ));
                head(right, right.len() - 4)
            } else {
                right
            };
            if title.len() == 0 || path.len() == 0 {
                return None;
            }
            Some((string_of(title), string_of(path)))
        },
        None => None,
    }
}

/// The chapters that a table of contents lists: for each line that holds one
/// link, the chapter's title and its path without the `.md` ending, in the
/// order of the lines. Lines of any other form are left out.
pub fn parse_summary_md(s: &str) -> (r: Vec<(String, String)>)
    ensures
        pair_views(r@) == summary_entries(s@),
        forall|i: int| 0 <= i < r.len() ==> r[i].0@.len() > 0 && r[i].1@.len() > 0,
{
    let chars = chars_of(s);
    let lines = split_at(chars.as_slice(), '\n');
    let mut out: Vec<(String, String)> = Vec::new();
    let mut i: usize = 0;
    assert(pieces(lines@).skip(0) =~= pieces(lines@));
    assert(pair_views(out@) =~= Seq::<(Seq<char>, Seq<char>)>::empty());
    while i < lines.len()
        invariant
            i <= lines.len(),
            pair_views(out@) + toc_entries(pieces(lines@).skip(i as int)) == toc_entries(
                pieces(lines@),
            ),
        decreases lines.len() - i,
    {
        let ghost rest = pieces(lines@).skip(i as int);
        assert(rest.skip(1) =~= pieces(lines@).skip(i + 1));
        assert(rest[0] == lines@[i as int]@);
        match parse_toc_line(lines[i].as_slice()) {
            Some(p) => {
                assert(pair_views(out@.push(p)) =~= pair_views(out@) + seq![(p.0@, p.1@)]);
                assert((pair_views(out@) + seq![(p.0@, p.1@)]) + toc_entries(rest.skip(1))
                    =~= pair_views(out@) + (seq![(p.0@, p.1@)] + toc_entries(rest.skip(1))));
                out.push(p);
            },
            None => {},
        }
        i += 1;
    }
    assert(pair_views(out@) + Seq::<(Seq<char>, Seq<char>)>::empty() =~= pair_views(out@));
    proof {
        lemma_toc_entries_nonempty(pieces(lines@));
        assert forall|k: int| 0 <= k < out.len() implies out[k].0@.len() > 0 && out[k].1@.len()
            > 0 by {
            assert(pair_views(out@)[k] == (out[k].0@, out[k].1@));
        }
    }
    out
}

/// A file that a page may include: the path as the directive writes it, and
/// what the file holds.
#[derive(Debug, Clone, PartialEq, Eq)]
pub struct IncludedFile {
    pub path: String,
    pub content: String,
}

/// The views of a vector of files: path and content of each.
pub open spec fn file_views(v: Seq<IncludedFile>) -> Seq<(Seq<char>, Seq<char>)> {
    v.map_values(|f: IncludedFile| (f.path@, f.content@))
}

/// The content of the first file of `files` whose path is `path`.
pub open spec fn file_content(files: Seq<(Seq<char>, Seq<char>)>, path: Seq<char>) -> Option<
    Seq<char>,
>
    decreases files.len(),
{
    if files.len() == 0 {
        None
    } else if files[0].0 == path {
        Some(files[0].1)
    } else {
        file_content(files.skip(1), path)
    }
}

/// The opening delimiter of a directive: two left braces.
pub open spec fn open_braces() -> Seq<char> {
    seq!['{', '{']
}

/// The closing delimiter of a directive: two right braces.
pub open spec fn close_braces() -> Seq<char> {
    seq!['}', '}']
}

/// Whether `tok` is one of the two keywords that ask for a file.
pub open spec fn is_directive_keyword(tok: Seq<char>) -> bool {
    tok == "#include"@ || tok == "#rustdoc_include"@
}

/// The first of `toks` that is a directive keyword.
pub open spec fn first_keyword(toks: Seq<Seq<char>>) -> Option<Seq<char>>
    decreases toks.len(),
{
    if toks.len() == 0 {
        None
    } else if is_directive_keyword(toks[0]) {
        Some(toks[0])
    } else {
        first_keyword(toks.skip(1))
    }
}

/// `s` with every occurrence of `pat` taken out.
pub open spec fn remove_all(s: Seq<char>, pat: Seq<char>) -> Seq<char> {
    replace_all(s, pat, Seq::empty())
}

/// What comes before the first `c` of `s`; all of `s` where it holds none.
pub open spec fn before_char(s: Seq<char>, c: char) -> Seq<char> {
    match find_char(s, c) {
        Some(i) => s.take(i),
        None => s,
    }
}

/// The path that a directive asks for. `s` is the directive's line after its
/// opening braces. One of its space-separated words must be a directive
/// keyword; the path is what is left of `s` without braces and keyword,
/// trimmed, up to the anchor's colon if there is one. A directive that names
/// no file asks for nothing.
pub open spec fn include_target(s: Seq<char>) -> Option<Seq<char>> {
    match first_keyword(split(s, ' ')) {
        Some(keyword) => {
            let name = trim(
                remove_all(remove_all(remove_all(s, open_braces()), close_braces()), keyword),
            );
            if name.len() > 0 {
                Some(before_char(name, ':'))
            } else {
                None
            }
        },
        None => None,
    }
}

/// What a file contributes in place of its directive: its exact content,
/// ended by a newline where it does not end with one.
pub open spec fn spliced(content: Seq<char>) -> Seq<char> {
    if content.len() > 0 && content.last() == '\n' {
        content
    } else {
        content.push('\n')
    }
}

/// What one line of a page contributes once includes are resolved: a line
/// that begins with the opening braces gives way to the file it asks for, or
/// to nothing where it names none or `files` does not hold it; any other line
/// stays. Each contribution ends with a newline.
pub open spec fn expand_line(line: Seq<char>, files: Seq<(Seq<char>, Seq<char>)>) -> Seq<char> {
    if open_braces().is_prefix_of(line) {
        match include_target(line.skip(2)) {
            Some(path) => match file_content(files, path) {
                Some(content) => spliced(content),
                None => Seq::empty(),
            },
            None => Seq::empty(),
        }
    } else {
        line.push('\n')
    }
}

/// The contributions of `lines`, one after the other.
pub open spec fn expand_lines(lines: Seq<Seq<char>>, files: Seq<(Seq<char>, Seq<char>)>) -> Seq<
    char,
>
    decreases lines.len(),
{
    if lines.len() == 0 {
        Seq::empty()
    } else {
        expand_line(lines[0], files) + expand_lines(lines.skip(1), files)
    }
}

/// The page `s` with its includes resolved against `files`.
pub open spec fn resolve_includes(s: Seq<char>, files: Seq<(Seq<char>, Seq<char>)>) -> Seq<char> {
    expand_lines(split(s, '\n'), files)
}

/// The paths that the directives among `lines` ask for, in order.
pub open spec fn targets_of(lines: Seq<Seq<char>>) -> Seq<Seq<char>>
    decreases lines.len(),
{
    if lines.len() == 0 {
        Seq::empty()
    } else if open_braces().is_prefix_of(lines[0]) && include_target(lines[0].skip(2)) is Some {
        seq![include_target(lines[0].skip(2))->0] + targets_of(lines.skip(1))
    } else {
        targets_of(lines.skip(1))
    }
}

/// The first of `toks` that is a directive keyword.
fn first_keyword_of(toks: &Vec<Vec<char>>) -> (r: Option<usize>)
    ensures
        match r {
            Some(i) => i < toks.len() && first_keyword(pieces(toks@)) == Some(toks@[i as int]@),
            None => first_keyword(pieces(toks@)) is None,
        },
{
    let plain = chars_of("#include");
    let rustdoc = chars_of("#rustdoc_include");
    let mut i: usize = 0;
    assert(pieces(toks@).skip(0) =~= pieces(toks@));
    while i < toks.len()
        invariant
            i <= toks.len(),
            plain@ == "#include"@,
            rustdoc@ == "#rustdoc_include"@,
            first_keyword(pieces(toks@)) == first_keyword(pieces(toks@).skip(i as int)),
        decreases toks.len() - i,
    {
        let ghost rest = pieces(toks@).skip(i as int);
        assert(rest[0] == toks@[i as int]@);
        assert(rest.skip(1) =~= pieces(toks@).skip(i + 1));
        let tok = toks[i].as_slice();
        if same_chars(tok, plain.as_slice()) || same_chars(tok, rustdoc.as_slice()) {
            return Some(i);
        }
        i += 1;
    }
    None
}

/// The path that the directive `s` asks for.
fn include_target_of(s: &[char]) -> (r: Option<Vec<char>>)
    ensures
        match r {
            Some(path) => include_target(s@) == Some(path@),
            None => include_target(s@) is None,
        },
{
    let toks = split_at(s, ' ');
    match first_keyword_of(&toks) {
        Some(k) => {
            let open = vec!['{', '{'];
            let close = vec!['}', '}'];
            let none: Vec<char> = Vec::new();
            assert(open@ =~= open_braces());
            assert(close@ =~= close_braces());
            assert(none@ =~= Seq::<char>::empty());
            let a = replace_all_of(s, open.as_slice(), none.as_slice());
            let b = replace_all_of(a.as_slice(), close.as_slice(), none.as_slice());
            let c = replace_all_of(b.as_slice(), toks[k].as_slice(), none.as_slice());
            let name = trim_of(c.as_slice());
            if name.len() == 0 {
                return None;
            }
            match index_of_char(name, ':') {
                Some(i) => {
                    proof {
                        lemma_find_char(name@, ':');
                    }
                    Some(copy_of(head(name, i)))
                },
                None => Some(copy_of(name)),
            }
        },
        None => None,
    }
}

/// The path of the file that an include directive asks for. `s` is the
/// directive's line after its opening braces.
pub fn parse_include(s: &str) -> (r: Option<String>)
    ensures
        match r {
            Some(path) => include_target(s@) == Some(path@),
            None => include_target(s@) is None,
        },
{
    let chars = chars_of(s);
    match include_target_of(chars.as_slice()) {
        Some(path) => Some(string_of(path.as_slice())),
        None => None,
    }
}

/// The content of the first file of `files` whose path is `path`.
fn content_of(files: &Vec<IncludedFile>, path: &[char]) -> (r: Option<Vec<char>>)
    ensures
        match r {
            Some(c) => file_content(file_views(files@), path@) == Some(c@),
            None => file_content(file_views(files@), path@) is None,
        },
{
    let mut i: usize = 0;
    assert(file_views(files@).skip(0) =~= file_views(files@));
    while i < files.len()
        invariant
            i <= files.len(),
            file_content(file_views(files@), path@) == file_content(
                file_views(files@).skip(i as int),
                path@,
            ),
        decreases files.len() - i,
    {
        let ghost rest = file_views(files@).skip(i as int);
        assert(rest[0] == (files@[i as int].path@, files@[i as int].content@));
        assert(rest.skip(1) =~= file_views(files@).skip(i + 1));
        let name = chars_of(files[i].path.as_str());
        if same_chars(name.as_slice(), path) {
            return Some(chars_of(files[i].content.as_str()));
        }
        i += 1;
    }
    None
}

/// Appends to `out` what `line` contributes once includes are resolved.
fn expand_into(out: &mut Vec<char>, line: &[char], files: &Vec<IncludedFile>)
    ensures
        final(out)@ == old(out)@ + expand_line(line@, file_views(files@)),
{
    let open = vec!['{', '{'];
    assert(open@ =~= open_braces());
    if starts_with(line, open.as_slice()) {
        match include_target_of(tail(line, 2)) {
            Some(path) => match content_of(files, path.as_slice()) {
                Some(content) => {
                    append(out, content.as_slice());
                    let n = content.len();
                    if n == 0 || content[n - 1] != '\n' {
                        out.push('\n');
                    }
                    assert(out@ =~= old(out)@ + spliced(content@));
                },
                None => {
                    assert(out@ =~= old(out)@ + Seq::<char>::empty());
                },
            },
            None => {
                assert(out@ =~= old(out)@ + Seq::<char>::empty());
            },
        }
    } else {
        append(out, line);
        out.push('\n');
        assert(out@ =~= old(out)@ + line@.push('\n'));
    }
}

/// The text of `lines` with includes resolved against `files`.
fn expand_all(lines: &Vec<Vec<char>>, files: &Vec<IncludedFile>) -> (r: Vec<char>)
    ensures
        r@ == expand_lines(pieces(lines@), file_views(files@)),
{
    let mut out: Vec<char> = Vec::new();
    let mut i: usize = 0;
    assert(pieces(lines@).skip(0) =~= pieces(lines@));
    while i < lines.len()
        invariant
            i <= lines.len(),
            out@ + expand_lines(pieces(lines@).skip(i as int), file_views(files@)) == expand_lines(
                pieces(lines@),
                file_views(files@),
            ),
        decreases lines.len() - i,
    {
        let ghost rest = pieces(lines@).skip(i as int);
        let ghost before = out@;
        assert(rest[0] == lines@[i as int]@);
        assert(rest.skip(1) =~= pieces(lines@).skip(i + 1));
        expand_into(&mut out, lines[i].as_slice(), files);
        assert((before + expand_line(rest[0], file_views(files@))) + expand_lines(
            rest.skip(1),
            file_views(files@),
        ) =~= before + (expand_line(rest[0], file_views(files@)) + expand_lines(
            rest.skip(1),
            file_views(files@),
        )));
        i += 1;
    }
    assert(out@ + Seq::<char>::empty() =~= out@);
    out
}

/// The paths of the files that the page `s` asks to include, in the order of
/// its directives. A caller reads these files and hands what it found to
/// `parse_md_page`.
pub fn include_targets(s: &str) -> (r: Vec<String>)
    ensures
        string_views(r@) == targets_of(split(s@, '\n')),
{
    let chars = chars_of(s);
    let lines = split_at(chars.as_slice(), '\n');
    let open = vec!['{', '{'];
    assert(open@ =~= open_braces());
    let mut out: Vec<String> = Vec::new();
    let mut i: usize = 0;
    assert(pieces(lines@).skip(0) =~= pieces(lines@));
    assert(string_views(out@) =~= Seq::<Seq<char>>::empty());
    while i < lines.len()
        invariant
            i <= lines.len(),
            open@ == open_braces(),
            string_views(out@) + targets_of(pieces(lines@).skip(i as int)) == targets_of(
                pieces(lines@),
            ),
        decreases lines.len() - i,
    {
        let ghost rest = pieces(lines@).skip(i as int);
        assert(rest[0] == lines@[i as int]@);
        assert(rest.skip(1) =~= pieces(lines@).skip(i + 1));
        let line = lines[i].as_slice();
        if starts_with(line, open.as_slice()) {
            match include_target_of(tail(line, 2)) {
                Some(path) => {
                    let p = string_of(path.as_slice());
                    assert(string_views(out@.push(p)) =~= string_views(out@) + seq![path@]);
                    assert((string_views(out@) + seq![path@]) + targets_of(rest.skip(1))
                        =~= string_views(out@) + (seq![path@] + targets_of(rest.skip(1))));
                    out.push(p);
                },
                None => {},
            }
        }
        i += 1;
    }
    assert(string_views(out@) + Seq::<Seq<char>>::empty() =~= string_views(out@));
    out
}

/// The marker that opens or closes a fenced block: three backticks.
pub open spec fn fence() -> Seq<char> {
    seq!['`', '`', '`']
}

/// The marker that opens a block of source code: a fence tagged `rust`.
pub open spec fn code_fence() -> Seq<char> {
    seq!['`', '`', '`', 'r', 'u', 's', 't']
}

/// Whether `line` underlines a heading: it begins with three hyphens or with
/// three underscores.
pub open spec fn is_underline(line: Seq<char>) -> bool {
    seq!['-', '-', '-'].is_prefix_of(line) || seq!['_', '_', '_'].is_prefix_of(line)
}

/// `s` without its decorations: every tag from `<` to the next `>`, then
/// every reference from `[` to the next `]`, then every backtick.
pub open spec fn undecorated(s: Seq<char>) -> Seq<char> {
    without_char(strip_spans(strip_spans(s, '<', '>'), '[', ']'), '`')
}

/// A line of prose without its markup: the leading run of `#` and the
/// whitespace after it, the leading run of `*` and the whitespace after it,
/// and the decorations are taken out, in this order.
pub open spec fn plain_line(line: Seq<char>) -> Seq<char> {
    let unheaded = trim_start(skip_leading(line, '#'));
    let unstarred = trim_start(skip_leading(unheaded, '*'));
    undecorated(unstarred)
}

/// What the rendering pass has gathered after some lines of a page.
pub struct Rendering {
    /// Whether the last line read lies inside a block of source code.
    pub in_code: bool,
    /// The lines of the block that is open, each with its newline.
    pub code: Seq<char>,
    /// The display text so far, each line with its newline.
    pub text: Seq<char>,
    /// The blocks of source code that were closed, in order.
    pub blocks: Seq<Seq<char>>,
}

/// The rendering before the first line.
pub open spec fn rendering_start() -> Rendering {
    Rendering { in_code: false, code: Seq::empty(), text: Seq::empty(), blocks: Seq::empty() }
}

/// The rendering after one more line.
///
/// A line that begins with a fence is never content. Inside a block it
/// closes the block, which is kept, trimmed, unless nothing but whitespace is
/// in it. Outside a block it opens one only where it is tagged `rust`; a
/// fence with any other tag, or none, is dropped and what follows it is read
/// as prose.
///
/// Any other line loses its trailing whitespace. Inside a block it joins the
/// block as it is. Outside, an underline is dropped and any other line joins
/// the display text without its markup.
pub open spec fn render_line(st: Rendering, raw: Seq<char>) -> Rendering {
    if fence().is_prefix_of(raw) {
        if st.in_code {
            let block = trim(st.code);
            Rendering {
                in_code: false,
                code: Seq::empty(),
                blocks: if block.len() > 0 {
                    st.blocks.push(block)
                } else {
                    st.blocks
                },
                ..st
            }
        } else {
            Rendering { in_code: code_fence().is_prefix_of(raw), ..st }
        }
    } else {
        let line = trim_end(raw);
        if st.in_code {
            Rendering { code: st.code + line.push('\n'), ..st }
        } else if is_underline(line) {
            st
        } else {
            Rendering { text: st.text + plain_line(line).push('\n'), ..st }
        }
    }
}

/// The rendering after `lines`, read in order from the rendering `st`.
pub open spec fn render_lines(st: Rendering, lines: Seq<Seq<char>>) -> Rendering
    decreases lines.len(),
{
    if lines.len() == 0 {
        st
    } else {
        render_lines(render_line(st, lines[0]), lines.skip(1))
    }
}

/// The rendering of the text `s`, whose includes are resolved already.
pub open spec fn rendered(s: Seq<char>) -> Rendering {
    render_lines(rendering_start(), split(s, '\n'))
}

/// The display text of the page `s`: what the rendering of the page with
/// its includes resolved has gathered as text, trimmed.
pub open spec fn page_text(s: Seq<char>, files: Seq<(Seq<char>, Seq<char>)>) -> Seq<char> {
    trim(rendered(resolve_includes(s, files)).text)
}

/// The blocks of source code of the page `s`, in order. A block that the
/// page's end leaves open is not among them.
pub open spec fn page_code_blocks(s: Seq<char>, files: Seq<(Seq<char>, Seq<char>)>) -> Seq<
    Seq<char>,
> {
    rendered(resolve_includes(s, files)).blocks
}

/// Whether none of `blocks` is empty.
pub open spec fn all_nonempty(blocks: Seq<Seq<char>>) -> bool {
    forall|i: int| 0 <= i < blocks.len() ==> (#[trigger] blocks[i]).len() > 0
}

/// No block of a rendering is empty, if none was before.
pub proof fn lemma_blocks_nonempty(st: Rendering, lines: Seq<Seq<char>>)
    requires
        all_nonempty(st.blocks),
    ensures
        all_nonempty(render_lines(st, lines).blocks),
    decreases lines.len(),
{
    if lines.len() > 0 {
        assert(all_nonempty(render_line(st, lines[0]).blocks));
        lemma_blocks_nonempty(render_line(st, lines[0]), lines.skip(1));
    }
}

/// `line` without its markup.
fn plain_line_of(line: &[char]) -> (r: Vec<char>)
    ensures
        r@ == plain_line(line@),
{
    let unheaded = trim_start_of(skip_leading_of(line, '#'));
    let unstarred = trim_start_of(skip_leading_of(unheaded, '*'));
    let untagged = strip_spans_of(unstarred, '<', '>');
    let unreferenced = strip_spans_of(untagged.as_slice(), '[', ']');
    without_char_of(unreferenced.as_slice(), '`')
}

/// Whether `line` underlines a heading.
fn is_underline_of(line: &[char]) -> (r: bool)
    ensures
        r == is_underline(line@),
{
    let hyphens = vec!['-', '-', '-'];
    let underscores = vec!['_', '_', '_'];
    assert(hyphens@ =~= seq!['-', '-', '-']);
    assert(underscores@ =~= seq!['_', '_', '_']);
    starts_with(line, hyphens.as_slice()) || starts_with(line, underscores.as_slice())
}

/// The display text and the blocks of source code of a markdown page.
///
/// `files` holds the files that the page's include directives may ask for,
/// each under the path as the directive writes it; `include_targets` lists
/// those paths. A directive whose file is not among them contributes
/// nothing.
///
/// Only a fence tagged `rust` opens a block of source code. The blocks come
/// in the order of the page, trimmed, and none is empty; the display text
/// holds no fence and none of their lines.
pub fn parse_md_page(s: &str, files: &Vec<IncludedFile>) -> (r: (String, Vec<String>))
    ensures
        r.0@ == page_text(s@, file_views(files@)),
        string_views(r.1@) == page_code_blocks(s@, file_views(files@)),
        forall|i: int| 0 <= i < r.1.len() ==> r.1[i]@.len() > 0,
{
    let chars = chars_of(s);
    let source_lines = split_at(chars.as_slice(), '\n');
    let resolved = expand_all(&source_lines, files);
    let lines = split_at(resolved.as_slice(), '\n');

    let fence_marker = vec!['`', '`', '`'];
    let code_marker = vec!['`', '`', '`', 'r', 'u', 's', 't'];
    assert(fence_marker@ =~= fence());
    assert(code_marker@ =~= code_fence());

    let mut in_code = false;
    let mut code: Vec<char> = Vec::new();
    let mut text: Vec<char> = Vec::new();
    let mut blocks: Vec<String> = Vec::new();
    let mut i: usize = 0;
    assert(pieces(lines@).skip(0) =~= pieces(lines@));
    assert(string_views(blocks@) =~= Seq::<Seq<char>>::empty());
    while i < lines.len()
        invariant
            i <= lines.len(),
            fence_marker@ == fence(),
            code_marker@ == code_fence(),
            render_lines(
                Rendering {
                    in_code,
                    code: code@,
                    text: text@,
                    blocks: string_views(blocks@),
                },
                pieces(lines@).skip(i as int),
            ) == render_lines(rendering_start(), pieces(lines@)),
        decreases lines.len() - i,
    {
        let ghost rest = pieces(lines@).skip(i as int);
        let ghost st = Rendering {
            in_code,
            code: code@,
            text: text@,
            blocks: string_views(blocks@),
        };
        assert(rest[0] == lines@[i as int]@);
        assert(rest.skip(1) =~= pieces(lines@).skip(i + 1));
        let raw = lines[i].as_slice();
        if starts_with(raw, fence_marker.as_slice()) {
            if in_code {
                let block = trim_of(code.as_slice());
                if block.len() > 0 {
                    let b = string_of(block);
                    assert(string_views(blocks@.push(b)) =~= string_views(blocks@).push(b@));
                    blocks.push(b);
                }
                code = Vec::new();
                in_code = false;
            } else {
                in_code = starts_with(raw, code_marker.as_slice());
            }
        } else {
            let line = trim_end_of(raw);
            if in_code {
                append(&mut code, line);
                code.push('\n');
                assert(code@ =~= st.code + line@.push('\n'));
            } else if !is_underline_of(line) {
                let plain = plain_line_of(line);
                append(&mut text, plain.as_slice());
                text.push('\n');
                assert(text@ =~= st.text + plain@.push('\n'));
            }
        }
        assert(Rendering { in_code, code: code@, text: text@, blocks: string_views(blocks@) }
            == render_line(st, rest[0]));
        i += 1;
    }
    proof {
        lemma_blocks_nonempty(rendering_start(), pieces(lines@));
        assert(all_nonempty(string_views(blocks@)));
        assert forall|k: int| 0 <= k < blocks.len() implies blocks[k]@.len() > 0 by {
            assert(string_views(blocks@)[k] == blocks[k]@);
        }
    }
    (string_of(trim_of(text.as_slice())), blocks)
}

/// `html` without its tags: every span from `<` to the next `>`.
pub fn strip_tags(html: &str) -> (r: String)
    ensures
        r@ == strip_spans(html@, '<', '>'),
{
    let chars = chars_of(html);
    let kept = strip_spans_of(chars.as_slice(), '<', '>');
    string_of(kept.as_slice())
}

/// `text` without its bracketed references: every span from `[` to the next
/// `]`.
pub fn strip_refs(text: &str) -> (r: String)
    ensures
        r@ == strip_spans(text@, '[', ']'),
{
    let chars = chars_of(text);
    let kept = strip_spans_of(chars.as_slice(), '[', ']');
    string_of(kept.as_slice())
}

/// `text` without its backticks.
pub fn strip_ticks(text: &str) -> (r: String)
    ensures
        r@ == without_char(text@, '`'),
{
    let chars = chars_of(text);
    let kept = without_char_of(chars.as_slice(), '`');
    string_of(kept.as_slice())
}

/// The tag that opens a page's title.
pub open spec fn title_open() -> Seq<char> {
    seq!['<', 't', 'i', 't', 'l', 'e', '>']
}

/// The tag that closes a page's title.
pub open spec fn title_close() -> Seq<char> {
    seq!['<', '/', 't', 'i', 't', 'l', 'e', '>']
}

/// The index of the first closing title tag in `t` that no newline precedes.
pub open spec fn title_end(t: Seq<char>) -> Option<int>
    decreases t.len(),
{
    if title_close().is_prefix_of(t) {
        Some(0)
    } else if t.len() == 0 || t[0] == '\n' {
        None
    } else {
        shifted(title_end(t.skip(1)), 1)
    }
}

/// The title of an HTML page: what stands between the first opening title
/// tag that has a closing tag after it on the same line, and the first such
/// closing tag.
pub open spec fn html_title(s: Seq<char>) -> Option<Seq<char>>
    decreases s.len(),
{
    if s.len() == 0 {
        None
    } else if title_open().is_prefix_of(s) && title_end(s.skip(7)) is Some {
        Some(s.subrange(7, 7 + title_end(s.skip(7))->0))
    } else {
        html_title(s.skip(1))
    }
}

/// The index of the closing title tag in `t`.
fn title_end_of(t: &[char]) -> (r: Option<usize>)
    ensures
        match r {
            Some(e) => e <= t.len() && title_end(t@) == Some(e as int),
            None => title_end(t@) is None,
        },
{
    let close = vec!['<', '/', 't', 'i', 't', 'l', 'e', '>'];
    assert(close@ =~= title_close());
    let mut i: usize = 0;
    assert(t@.skip(0) =~= t@);
    while i < t.len()
        invariant
            i <= t.len(),
            close@ == title_close(),
            title_end(t@) == shifted(title_end(t@.skip(i as int)), i as int),
        decreases t.len() - i,
    {
        if occurs_at(t, i, close.as_slice()) {
            return Some(i);
        }
        if t[i] == '\n' {
            return None;
        }
        assert(t@.skip(i as int).skip(1) =~= t@.skip(i + 1));
        i += 1;
    }
    None
}

/// The title of the page `s`.
fn html_title_of(s: &[char]) -> (r: Option<Vec<char>>)
    ensures
        match r {
            Some(title) => html_title(s@) == Some(title@),
            None => html_title(s@) is None,
        },
{
    let open = vec!['<', 't', 'i', 't', 'l', 'e', '>'];
    assert(open@ =~= title_open());
    let mut i: usize = 0;
    assert(s@.skip(0) =~= s@);
    while i < s.len()
        invariant
            i <= s.len(),
            open@ == title_open(),
            html_title(s@) == html_title(s@.skip(i as int)),
        decreases s.len() - i,
    {
        let ghost here = s@.skip(i as int);
        if occurs_at(s, i, open.as_slice()) {
            let rest = tail(s, i + 7);
            assert(rest@ =~= here.skip(7));
            match title_end_of(rest) {
                Some(e) => {
                    assert(rest@.take(e as int) =~= here.subrange(7, 7 + e));
                    return Some(copy_of(head(rest, e)));
                },
                None => {},
            }
        }
        assert(here.skip(1) =~= s@.skip(i + 1));
        i += 1;
    }
    None
}

/// The title of an HTML page, if it has one.
pub fn parse_html_title(html: &str) -> (r: Option<String>)
    ensures
        match r {
            Some(title) => html_title(html@) == Some(title@),
            None => html_title(html@) is None,
        },
{
    let chars = chars_of(html);
    match html_title_of(chars.as_slice()) {
        Some(title) => Some(string_of(title.as_slice())),
        None => None,
    }
}

/// The text that `html_escape::decode_html_entities` makes of `text`: `text`
/// with each character reference that ends in a semicolon, named or numeric,
/// replaced by what it stands for.
pub uninterp spec fn decoded_entities(text: Seq<char>) -> Seq<char>;

/// Calls `html_escape::decode_html_entities`. Nothing is proved of it: the
/// contract gives the result its name, which is all that is claimed. The
/// function reads its argument alone and returns for every string.
#[verifier::external_body]
fn decode_entities(text: &str) -> (r: String)
    ensures
        r@ == decoded_entities(text@),
{
    html_escape::decode_html_entities(text).into_owned()
}

/// The text of an HTML page, its blocks of source code, and its title.
///
/// The text is the page without its tags, with character references
/// decoded. No block of source code is taken from HTML: the list is always
/// empty.
pub fn parse_html_page(html: &str) -> (r: (String, Vec<String>, Option<String>))
    ensures
        r.0@ == decoded_entities(strip_spans(html@, '<', '>')),
        r.1@.len() == 0,
        match r.2 {
            Some(title) => html_title(html@) == Some(title@),
            None => html_title(html@) is None,
        },
{
    let title = parse_html_title(html);
    let text = strip_tags(html);
    let text = decode_entities(text.as_str());
    (text, Vec::new(), title)
}

/// The contributions of two runs of lines are those of the first, followed
/// by those of the second.
pub proof fn lemma_expand_lines_concat(
    first: Seq<Seq<char>>,
    second: Seq<Seq<char>>,
    files: Seq<(Seq<char>, Seq<char>)>,
)
    ensures
        expand_lines(first + second, files) == expand_lines(first, files) + expand_lines(
            second,
            files,
        ),
    decreases first.len(),
{
    if first.len() == 0 {
        assert(first + second =~= second);
        assert(Seq::<char>::empty() + expand_lines(second, files) =~= expand_lines(second, files));
    } else {
        lemma_expand_lines_concat(first.skip(1), second, files);
        assert((first + second).skip(1) =~= first.skip(1) + second);
        assert(expand_line(first[0], files) + (expand_lines(first.skip(1), files) + expand_lines(
            second,
            files,
        )) =~= (expand_line(first[0], files) + expand_lines(first.skip(1), files)) + expand_lines(
            second,
            files,
        ));
    }
}

/// One line alone contributes what it contributes.
proof fn lemma_expand_one_line(line: Seq<char>, files: Seq<(Seq<char>, Seq<char>)>)
    ensures
        expand_lines(seq![line], files) == expand_line(line, files),
{
    let rest = seq![line].skip(1);
    assert(rest.len() == 0);
    assert(expand_lines(rest, files) == Seq::<char>::empty());
    assert(expand_line(line, files) + Seq::<char>::empty() =~= expand_line(line, files));
}

/// A directive that names no file, or a file that is not there, contributes
/// nothing: the page resolves as it would without the directive's line.
pub proof fn lemma_missing_include(
    before: Seq<Seq<char>>,
    line: Seq<char>,
    after: Seq<Seq<char>>,
    files: Seq<(Seq<char>, Seq<char>)>,
)
    requires
        open_braces().is_prefix_of(line),
        include_target(line.skip(2)) matches Some(path) ==> file_content(files, path) is None,
    ensures
        expand_lines(before.push(line) + after, files) == expand_lines(before + after, files),
{
    lemma_expand_lines_concat(before.push(line), after, files);
    lemma_expand_lines_concat(before, seq![line], files);
    lemma_expand_lines_concat(before, after, files);
    assert(before.push(line) =~= before + seq![line]);
    lemma_expand_one_line(line, files);
    assert(expand_lines(before, files) + Seq::<char>::empty() =~= expand_lines(before, files));
}

/// A directive whose file is there gives way to the file's exact content,
/// ended by a newline.
pub proof fn lemma_found_include(
    before: Seq<Seq<char>>,
    line: Seq<char>,
    after: Seq<Seq<char>>,
    files: Seq<(Seq<char>, Seq<char>)>,
    path: Seq<char>,
    content: Seq<char>,
)
    requires
        open_braces().is_prefix_of(line),
        include_target(line.skip(2)) == Some(path),
        file_content(files, path) == Some(content),
    ensures
        expand_lines(before.push(line) + after, files) == expand_lines(before, files) + spliced(
            content,
        ) + expand_lines(after, files),
{
    lemma_expand_lines_concat(before.push(line), after, files);
    lemma_expand_lines_concat(before, seq![line], files);
    assert(before.push(line) =~= before + seq![line]);
    lemma_expand_one_line(line, files);
}

/// Whether `first` and `second` hold the same content, or none, under each
/// of `paths`.
pub open spec fn agree_on(
    first: Seq<(Seq<char>, Seq<char>)>,
    second: Seq<(Seq<char>, Seq<char>)>,
    paths: Seq<Seq<char>>,
) -> bool {
    forall|k: int|
        0 <= k < paths.len() ==> file_content(first, #[trigger] paths[k]) == file_content(
            second,
            paths[k],
        )
}

/// Only the files that a page asks for matter: two sets of files that agree
/// on the page's targets resolve its lines alike.
pub proof fn lemma_only_targets_matter(
    lines: Seq<Seq<char>>,
    first: Seq<(Seq<char>, Seq<char>)>,
    second: Seq<(Seq<char>, Seq<char>)>,
)
    requires
        agree_on(first, second, targets_of(lines)),
    ensures
        expand_lines(lines, first) == expand_lines(lines, second),
    decreases lines.len(),
{
    if lines.len() > 0 {
        let rest = targets_of(lines.skip(1));
        let asked = open_braces().is_prefix_of(lines[0]) && include_target(lines[0].skip(2)) is Some;
        assert forall|k: int| 0 <= k < rest.len() implies file_content(first, #[trigger] rest[k])
            == file_content(second, rest[k]) by {
            if asked {
                assert(targets_of(lines)[k + 1] == rest[k]);
            } else {
                assert(targets_of(lines)[k] == rest[k]);
            }
        }
        lemma_only_targets_matter(lines.skip(1), first, second);
        if asked {
            assert(targets_of(lines)[0] == include_target(lines[0].skip(2))->0);
        }
    }
}


/// A page is parsed alike with two sets of files that agree on what the page
/// asks for: no other file is read.
pub proof fn lemma_page_reads_its_targets_only(
    page: Seq<char>,
    first: Seq<(Seq<char>, Seq<char>)>,
    second: Seq<(Seq<char>, Seq<char>)>,
)
    requires
        agree_on(first, second, targets_of(split(page, '\n'))),
    ensures
        page_text(page, first) == page_text(page, second),
        page_code_blocks(page, first) == page_code_blocks(page, second),
{
    lemma_only_targets_matter(split(page, '\n'), first, second);
}


/// The lines of a text that is made of two texts with a newline between
/// them are the lines of the first, followed by those of the second.
pub proof fn lemma_split_concat(first: Seq<char>, second: Seq<char>)
    ensures
        split(first.push('\n') + second, '\n') == split(first, '\n') + split(second, '\n'),
    decreases first.len(),
{
    let all = first.push('\n') + second;
    lemma_find_char(first, '\n');
    lemma_find_char(all, '\n');
    assert(all[first.len() as int] == '\n');
    assert(find_char(all, '\n') is Some);
    let j = find_char(all, '\n')->0;
    match find_char(first, '\n') {
        Some(i) => {
            assert(j == i) by {
                assert(all[i] == '\n');
                if j < i {
                    assert(first.take(i)[j] == all[j]);
                }
                if i < j {
                    assert(all.take(j)[i] == all[i]);
                }
            }
            let rest = first.skip(i + 1);
            lemma_split_concat(rest, second);
            assert(all.take(i) =~= first.take(i));
            assert(all.skip(i + 1) =~= rest.push('\n') + second);
            assert(seq![first.take(i)] + (split(rest, '\n') + split(second, '\n')) =~= (seq![
                first.take(i),
            ] + split(rest, '\n')) + split(second, '\n'));
        },
        None => {
            assert(j == first.len()) by {
                if j < first.len() {
                    assert(first[j] == all[j]);
                }
                if first.len() < j {
                    assert(all.take(j)[first.len() as int] == '\n');
                }
            }
            assert(all.take(j) =~= first);
            assert(all.skip(j + 1) =~= second);
        },
    }
}

/// Lines that are no directives resolve to themselves.
pub proof fn lemma_expand_undirected(lines: Seq<Seq<char>>, files: Seq<(Seq<char>, Seq<char>)>)
    requires
        forall|k: int| 0 <= k < lines.len() ==> !open_braces().is_prefix_of(#[trigger] lines[k]),
    ensures
        expand_lines(lines, files) == joined(lines),
    decreases lines.len(),
{
    if lines.len() > 0 {
        let rest = lines.skip(1);
        assert forall|k: int| 0 <= k < rest.len() implies !open_braces().is_prefix_of(
            #[trigger] rest[k],
        ) by {
            assert(rest[k] == lines[k + 1]);
        }
        lemma_expand_undirected(rest, files);
    }
}

/// A directive whose file is there is replaced by exactly the content of the
/// file, before fences are looked for: the page is parsed as the page that
/// holds the content in place of the directive's line. This is so for any
/// text before and after the line, and any content that holds no directive
/// of its own and does not end with a newline.
pub proof fn lemma_include_is_spliced(
    before: Seq<char>,
    line: Seq<char>,
    after: Seq<char>,
    files: Seq<(Seq<char>, Seq<char>)>,
    path: Seq<char>,
    content: Seq<char>,
)
    requires
        !line.contains('\n'),
        open_braces().is_prefix_of(line),
        include_target(line.skip(2)) == Some(path),
        file_content(files, path) == Some(content),
        content.len() == 0 || content.last() != '\n',
        forall|k: int|
            0 <= k < split(content, '\n').len() ==> !open_braces().is_prefix_of(
                #[trigger] split(content, '\n')[k],
            ),
    ensures
        resolve_includes(before.push('\n') + line.push('\n') + after, files) == resolve_includes(
            before.push('\n') + content.push('\n') + after,
            files,
        ),
        page_text(before.push('\n') + line.push('\n') + after, files) == page_text(
            before.push('\n') + content.push('\n') + after,
            files,
        ),
        page_code_blocks(before.push('\n') + line.push('\n') + after, files) == page_code_blocks(
            before.push('\n') + content.push('\n') + after,
            files,
        ),
{
    let head = split(before, '\n');
    let tail = split(after, '\n');
    let inner = split(content, '\n');
    let with_line = before.push('\n') + line.push('\n') + after;
    let with_content = before.push('\n') + content.push('\n') + after;
    assert(with_line =~= before.push('\n') + (line.push('\n') + after));
    assert(with_content =~= before.push('\n') + (content.push('\n') + after));
    lemma_split_concat(before, line.push('\n') + after);
    lemma_split_concat(line, after);
    lemma_split_concat(before, content.push('\n') + after);
    lemma_split_concat(content, after);
    lemma_find_char(line, '\n');
    assert(split(line, '\n') == seq![line]);
    assert(split(with_line, '\n') =~= head.push(line) + tail);
    assert(split(with_content, '\n') =~= (head + inner) + tail);
    lemma_found_include(head, line, tail, files, path, content);
    lemma_expand_lines_concat(head + inner, tail, files);
    lemma_expand_lines_concat(head, inner, files);
    lemma_expand_undirected(inner, files);
    lemma_joined_split(content);
    assert(spliced(content) == content.push('\n'));
}

/// The lines of a block of code as the block keeps them: each without its
/// trailing whitespace, its indentation kept, followed by a newline.
pub open spec fn block_text(lines: Seq<Seq<char>>) -> Seq<char>
    decreases lines.len(),
{
    if lines.len() == 0 {
        Seq::empty()
    } else {
        trim_end(lines[0]).push('\n') + block_text(lines.skip(1))
    }
}

/// Whether none of `lines` begins with a fence.
pub open spec fn holds_no_fence(lines: Seq<Seq<char>>) -> bool {
    forall|k: int| 0 <= k < lines.len() ==> !fence().is_prefix_of(#[trigger] lines[k])
}

/// Reading lines one run after the other is reading them all.
pub proof fn lemma_render_lines_concat(st: Rendering, first: Seq<Seq<char>>, second: Seq<Seq<char>>)
    ensures
        render_lines(st, first + second) == render_lines(render_lines(st, first), second),
    decreases first.len(),
{
    if first.len() == 0 {
        assert(first + second =~= second);
    } else {
        assert((first + second).skip(1) =~= first.skip(1) + second);
        lemma_render_lines_concat(render_line(st, first[0]), first.skip(1), second);
    }
}

/// Reading one line alone is reading that line.
proof fn lemma_render_one_line(st: Rendering, line: Seq<char>)
    ensures
        render_lines(st, seq![line]) == render_line(st, line),
{
    let rest = seq![line].skip(1);
    assert(rest.len() == 0);
    assert(render_lines(render_line(st, line), rest) == render_line(st, line));
}

/// Inside a block, lines that are no fences join the block and nothing
/// else.
pub proof fn lemma_render_code_lines(st: Rendering, lines: Seq<Seq<char>>)
    requires
        st.in_code,
        holds_no_fence(lines),
    ensures
        render_lines(st, lines) == (Rendering { code: st.code + block_text(lines), ..st }),
    decreases lines.len(),
{
    if lines.len() == 0 {
        assert(st.code + block_text(lines) =~= st.code);
    } else {
        let rest = lines.skip(1);
        assert forall|k: int| 0 <= k < rest.len() implies !fence().is_prefix_of(#[trigger] rest[k]) by {
            assert(rest[k] == lines[k + 1]);
        }
        let next = render_line(st, lines[0]);
        lemma_render_code_lines(next, rest);
        assert((st.code + trim_end(lines[0]).push('\n')) + block_text(rest) =~= st.code + (
        trim_end(lines[0]).push('\n') + block_text(rest)));
    }
}

/// A fenced block gives one block of code and no display text: read
/// outside a block, the line `open` that begins with a fence tagged `rust`,
/// the lines `content`, none of which begins with a fence, and the line
/// `close` that begins with a fence leave the text as it was and add the
/// lines of `content`, trimmed as a whole, as the last block; they add none
/// where the lines are all blank.
pub proof fn lemma_fenced_block(
    st: Rendering,
    open: Seq<char>,
    content: Seq<Seq<char>>,
    close: Seq<char>,
)
    requires
        !st.in_code,
        st.code.len() == 0,
        code_fence().is_prefix_of(open),
        holds_no_fence(content),
        fence().is_prefix_of(close),
    ensures
        render_lines(st, seq![open] + content + seq![close]) == (Rendering {
            blocks: if trim(block_text(content)).len() > 0 {
                st.blocks.push(trim(block_text(content)))
            } else {
                st.blocks
            },
            ..st
        }),
{
    assert(fence().is_prefix_of(open)) by {
        assert(fence() =~= code_fence().subrange(0, 3));
        assert(open.subrange(0, 3) =~= open.subrange(0, 7).subrange(0, 3));
    }
    let opened = render_line(st, open);
    assert(opened == Rendering { in_code: true, ..st });
    lemma_render_lines_concat(st, seq![open] + content, seq![close]);
    lemma_render_lines_concat(st, seq![open], content);
    lemma_render_one_line(st, open);
    lemma_render_code_lines(opened, content);
    let filled = render_lines(opened, content);
    assert(filled.code =~= block_text(content));
    lemma_render_one_line(filled, close);
    assert(st.code =~= Seq::<char>::empty());
}

/// The display text does not depend on the blocks that were gathered.
pub proof fn lemma_text_ignores_blocks(st: Rendering, blocks: Seq<Seq<char>>, lines: Seq<Seq<char>>)
    ensures
        render_lines(Rendering { blocks, ..st }, lines).text == render_lines(st, lines).text,
        render_lines(Rendering { blocks, ..st }, lines).code == render_lines(st, lines).code,
        render_lines(Rendering { blocks, ..st }, lines).in_code == render_lines(st, lines).in_code,
    decreases lines.len(),
{
    if lines.len() > 0 {
        let next = render_line(st, lines[0]);
        let other = render_line(Rendering { blocks, ..st }, lines[0]);
        assert(other == Rendering { blocks: other.blocks, ..next });
        lemma_text_ignores_blocks(next, other.blocks, lines.skip(1));
    }
}

/// The display text holds nothing of a fenced block: a page with the block
/// between `before` and `after` has the display text of the page without
/// it.
pub proof fn lemma_fenced_block_leaves_text(
    st: Rendering,
    before: Seq<Seq<char>>,
    open: Seq<char>,
    content: Seq<Seq<char>>,
    close: Seq<char>,
    after: Seq<Seq<char>>,
)
    requires
        !render_lines(st, before).in_code,
        render_lines(st, before).code.len() == 0,
        code_fence().is_prefix_of(open),
        holds_no_fence(content),
        fence().is_prefix_of(close),
    ensures
        render_lines(st, before + (seq![open] + content + seq![close]) + after).text
            == render_lines(st, before + after).text,
{
    let block = seq![open] + content + seq![close];
    let mid = render_lines(st, before);
    lemma_render_lines_concat(st, before + block, after);
    lemma_render_lines_concat(st, before, block);
    lemma_render_lines_concat(st, before, after);
    lemma_fenced_block(mid, open, content, close);
    lemma_text_ignores_blocks(mid, render_lines(mid, block).blocks, after);
}

/// Outside a block of code no line of a block is held.
pub proof fn lemma_no_code_outside_blocks(st: Rendering, lines: Seq<Seq<char>>)
    requires
        !st.in_code ==> st.code.len() == 0,
    ensures
        !render_lines(st, lines).in_code ==> render_lines(st, lines).code.len() == 0,
    decreases lines.len(),
{
    if lines.len() > 0 {
        lemma_no_code_outside_blocks(render_line(st, lines[0]), lines.skip(1));
    }
}


/// The display text of a page holds nothing of a fenced block in it: a page
/// without directives whose lines are `before`, the block, and `after` has
/// the display text of the page whose lines are `before` and `after`, where
/// the block begins outside any other.
pub proof fn lemma_page_text_without_block(
    page: Seq<char>,
    shorter: Seq<char>,
    files: Seq<(Seq<char>, Seq<char>)>,
    before: Seq<Seq<char>>,
    open: Seq<char>,
    content: Seq<Seq<char>>,
    close: Seq<char>,
    after: Seq<Seq<char>>,
)
    requires
        split(page, '\n') == before + (seq![open] + content + seq![close]) + after,
        split(shorter, '\n') == before + after,
        forall|k: int|
            0 <= k < split(page, '\n').len() ==> !open_braces().is_prefix_of(
                #[trigger] split(page, '\n')[k],
            ),
        !render_lines(rendering_start(), before).in_code,
        code_fence().is_prefix_of(open),
        holds_no_fence(content),
        fence().is_prefix_of(close),
    ensures
        page_text(page, files) == page_text(shorter, files),
{
    let block = seq![open] + content + seq![close];
    let long = split(page, '\n');
    let short = split(shorter, '\n');
    let empty = Seq::<char>::empty();
    assert forall|k: int| 0 <= k < short.len() implies !open_braces().is_prefix_of(
        #[trigger] short[k],
    ) by {
        if k < before.len() {
            assert(short[k] == long[k]);
        } else {
            assert(short[k] == long[k + block.len()]);
        }
    }
    lemma_expand_undirected(long, files);
    lemma_expand_undirected(short, files);
    lemma_joined_split(page);
    lemma_joined_split(shorter);
    lemma_split_with_newline(page);
    lemma_split_with_newline(shorter);
    assert(long.push(empty) =~= before + block + after.push(empty));
    assert(short.push(empty) =~= before + after.push(empty));
    lemma_no_code_outside_blocks(rendering_start(), before);
    lemma_fenced_block_leaves_text(rendering_start(), before, open, content, close, after.push(empty));
}

/// Reading lines brings no backtick into the display text.
pub proof fn lemma_render_adds_no_tick(st: Rendering, lines: Seq<Seq<char>>)
    requires
        !st.text.contains('`'),
    ensures
        !render_lines(st, lines).text.contains('`'),
    decreases lines.len(),
{
    if lines.len() > 0 {
        let next = render_line(st, lines[0]);
        let line = trim_end(lines[0]);
        let unheaded = trim_start(skip_leading(line, '#'));
        let unstarred = trim_start(skip_leading(unheaded, '*'));
        lemma_without_char_is_absent(strip_spans(strip_spans(unstarred, '<', '>'), '[', ']'), '`');
        assert(!plain_line(line).contains('`'));
        let added = plain_line(line).push('\n');
        assert forall|k: int| 0 <= k < next.text.len() implies next.text[k] != '`' by {
            if next.text != st.text {
                assert(next.text == st.text + added);
                if k < st.text.len() {
                    assert(next.text[k] == st.text[k]);
                } else if k < st.text.len() + plain_line(line).len() {
                    assert(next.text[k] == plain_line(line)[k - st.text.len()]);
                }
            } else {
                assert(next.text[k] == st.text[k]);
            }
        }
        lemma_render_adds_no_tick(next, lines.skip(1));
    }
}

/// The display text of a page holds no backtick, and so no fence, whatever
/// the page.
pub proof fn lemma_page_text_holds_no_tick(page: Seq<char>, files: Seq<(Seq<char>, Seq<char>)>)
    ensures
        !page_text(page, files).contains('`'),
{
    let start = rendering_start();
    assert(!start.text.contains('`'));
    let lines = split(resolve_includes(page, files), '\n');
    lemma_render_adds_no_tick(start, lines);
    let shown = render_lines(start, lines).text;
    lemma_trim(shown);
    let text = trim(shown);
    let from = choose|from: int|
        0 <= from && from + text.len() <= shown.len() && text == #[trigger] shown.subrange(
            from,
            from + text.len(),
        );
    assert forall|k: int| 0 <= k < text.len() implies text[k] != '`' by {
        assert(text[k] == shown[from + k]);
    }
}

} // verus!
