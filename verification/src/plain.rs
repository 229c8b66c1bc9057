//! Plain text: the text that the markdown parser renders to itself.
//!
//! Rendering a page twice is the same as rendering it once exactly where
//! the first rendering gives plain text. Whether it does depends on the
//! page: a line that is a tag followed by `# x` is rendered to `# x`, and
//! that to `x`. What holds of every page is that the decorations inside a
//! line (tags, bracketed references, backticks) are gone after one pass.
use vstd::prelude::*;
use crate::parsers::{
    code_fence, expand_line, expand_lines, fence, is_underline, open_braces, page_code_blocks,
    page_text, plain_line, render_line, render_lines, rendered, rendering_start, resolve_includes,
    undecorated, Rendering,
};
use crate::text::{
    find_char, has_no_span, is_whitespace, lemma_find_char, lemma_skip_leading,
    lemma_strip_keeps_no_span, lemma_strip_no_span, lemma_strip_spans_shrinks,
    lemma_stripped_has_no_span, lemma_trim, lemma_trim_end, lemma_trim_start,
    lemma_without_absent_char, lemma_without_char_is_absent, lemma_without_char_shrinks,
    lemma_without_keeps_no_span, skip_leading, split, strip_spans, trim, trim_end, trim_start,
    without_char,
};

verus! {

/// Whether `line` holds no markup: it neither begins nor ends with
/// whitespace, is no fence and no underline, does not begin with `#` or `*`,
/// and holds no tag, no bracketed reference and no backtick.
pub open spec fn is_markup_free(line: Seq<char>) -> bool {
    &&& line.len() > 0 ==> !is_whitespace(line[0]) && !is_whitespace(line.last()) && line[0] != '#'
        && line[0] != '*'
    &&& !is_underline(line)
    &&& !line.contains('`')
    &&& has_no_span(line, '<', '>')
    &&& has_no_span(line, '[', ']')
}

/// Whether `line` is a line of plain text: it is no directive and holds no
/// markup.
pub open spec fn is_plain_line(line: Seq<char>) -> bool {
    !open_braces().is_prefix_of(line) && is_markup_free(line)
}

/// Whether each of `lines` is a line of plain text.
pub open spec fn all_plain(lines: Seq<Seq<char>>) -> bool {
    forall|k: int| 0 <= k < lines.len() ==> is_plain_line(#[trigger] lines[k])
}

/// Whether `text` is plain text: it neither begins nor ends with
/// whitespace, and each of its lines is a line of plain text.
pub open spec fn is_plain_text(text: Seq<char>) -> bool {
    &&& text.len() > 0 ==> !is_whitespace(text[0]) && !is_whitespace(text.last())
    &&& all_plain(split(text, '\n'))
}

/// `lines`, each followed by a newline, one after the other.
pub open spec fn joined(lines: Seq<Seq<char>>) -> Seq<char>
    decreases lines.len(),
{
    if lines.len() == 0 {
        Seq::empty()
    } else {
        lines[0].push('\n') + joined(lines.skip(1))
    }
}

/// Splitting a text into lines and joining them again gives the text,
/// followed by a newline.
pub proof fn lemma_joined_split(s: Seq<char>)
    ensures
        joined(split(s, '\n')) == s.push('\n'),
    decreases s.len(),
{
    lemma_find_char(s, '\n');
    match find_char(s, '\n') {
        Some(i) => {
            let rest = s.skip(i + 1);
            lemma_joined_split(rest);
            let lines = split(s, '\n');
            assert(lines.skip(1) =~= split(rest, '\n'));
            assert(s.take(i).push('\n') + rest.push('\n') =~= s.push('\n'));
        },
        None => {
            let rest = seq![s].skip(1);
            assert(rest.len() == 0);
            assert(joined(rest) == Seq::<char>::empty());
            assert(s.push('\n') + Seq::<char>::empty() =~= s.push('\n'));
        },
    }
}

/// A text that ends with one more newline has one more line, which is empty.
pub proof fn lemma_split_with_newline(s: Seq<char>)
    ensures
        split(s.push('\n'), '\n') == split(s, '\n').push(Seq::empty()),
    decreases s.len(),
{
    let t = s.push('\n');
    lemma_find_char(s, '\n');
    lemma_find_char(t, '\n');
    assert(t[s.len() as int] == '\n');
    assert(find_char(t, '\n') is Some);
    match find_char(s, '\n') {
        Some(i) => {
            let j = find_char(t, '\n')->0;
            assert(j == i) by {
                assert(t[i] == '\n');
                if j < i {
                    assert(s[j] == t[j]);
                    assert(s.take(i)[j] == s[j]);
                }
                if i < j {
                    assert(t.take(j)[i] == t[i]);
                }
            }
            lemma_split_with_newline(s.skip(i + 1));
            assert(t.skip(i + 1) =~= s.skip(i + 1).push('\n'));
            assert(t.take(i) =~= s.take(i));
            assert(seq![s.take(i)] + split(s.skip(i + 1), '\n').push(Seq::empty()) =~= (seq![
                s.take(i),
            ] + split(s.skip(i + 1), '\n')).push(Seq::empty()));
        },
        None => {
            let j = find_char(t, '\n')->0;
            assert(j == s.len()) by {
                if j < s.len() {
                    assert(s[j] == t[j]);
                }
            }
            assert(t.take(j) =~= s);
            assert(t.skip(j + 1) =~= Seq::<char>::empty());
            assert(split(Seq::<char>::empty(), '\n') =~= seq![Seq::<char>::empty()]);
            assert(seq![s] + seq![Seq::<char>::empty()] =~= seq![s].push(Seq::empty()));
        },
    }
}

/// Lines of plain text hold no directive: they resolve to themselves.
pub proof fn lemma_expand_plain_lines(lines: Seq<Seq<char>>, files: Seq<(Seq<char>, Seq<char>)>)
    requires
        all_plain(lines),
    ensures
        expand_lines(lines, files) == joined(lines),
    decreases lines.len(),
{
    if lines.len() > 0 {
        assert(is_plain_line(lines[0]));
        assert forall|k: int| 0 <= k < lines.skip(1).len() implies is_plain_line(
            #[trigger] lines.skip(1)[k],
        ) by {
            assert(lines.skip(1)[k] == lines[k + 1]);
        }
        lemma_expand_plain_lines(lines.skip(1), files);
    }
}

/// A line of plain text is rendered as it is.
pub proof fn lemma_render_plain_line(st: Rendering, line: Seq<char>)
    requires
        !st.in_code,
        is_plain_line(line),
    ensures
        render_line(st, line) == (Rendering { text: st.text + line.push('\n'), ..st }),
{
    if fence().is_prefix_of(line) {
        assert(line[0] == fence()[0]);
        assert(line.contains('`'));
    }
    assert(trim_end(line) == line);
    assert(skip_leading(line, '#') == line);
    assert(trim_start(line) == line);
    assert(skip_leading(line, '*') == line);
    lemma_strip_no_span(line, '<', '>');
    lemma_strip_no_span(line, '[', ']');
    lemma_without_absent_char(line, '`');
}

/// Lines of plain text, read outside a block of code, all join the display
/// text as they are; nothing else changes.
pub proof fn lemma_render_plain_lines(st: Rendering, lines: Seq<Seq<char>>)
    requires
        !st.in_code,
        all_plain(lines),
    ensures
        render_lines(st, lines) == (Rendering { text: st.text + joined(lines), ..st }),
    decreases lines.len(),
{
    if lines.len() == 0 {
        assert(st.text + Seq::<char>::empty() =~= st.text);
    } else {
        let next = render_line(st, lines[0]);
        lemma_render_plain_line(st, lines[0]);
        assert forall|k: int| 0 <= k < lines.skip(1).len() implies is_plain_line(
            #[trigger] lines.skip(1)[k],
        ) by {
            assert(lines.skip(1)[k] == lines[k + 1]);
        }
        lemma_render_plain_lines(next, lines.skip(1));
        assert((st.text + lines[0].push('\n')) + joined(lines.skip(1)) =~= st.text + (
        lines[0].push('\n') + joined(lines.skip(1))));
    }
}

/// A trimmed text with two newlines after it is trimmed to itself.
proof fn lemma_trim_with_newlines(text: Seq<char>)
    requires
        text.len() > 0 ==> !is_whitespace(text[0]) && !is_whitespace(text.last()),
    ensures
        trim(text.push('\n').push('\n')) == text,
{
    let one = text.push('\n');
    let two = one.push('\n');
    assert(is_whitespace('\n'));
    assert(two.drop_last() =~= one);
    assert(one.drop_last() =~= text);
    if text.len() > 0 {
        assert(two[0] == text[0]);
        assert(trim_start(two) == two);
        assert(trim_end(text) == text);
        assert(trim_end(one) == text);
        assert(trim_end(two) == text);
    } else {
        assert(two.skip(1) =~= one);
        assert(one.skip(1) =~= text);
        assert(trim_start(text) == text);
        assert(trim_start(one) == text);
        assert(trim_start(two) == text);
        assert(trim_end(text) == text);
    }
}

/// Plain text is rendered to itself, whatever files there are, and gives no
/// block of code.
pub proof fn lemma_plain_text_is_rendered_to_itself(
    text: Seq<char>,
    files: Seq<(Seq<char>, Seq<char>)>,
)
    requires
        is_plain_text(text),
    ensures
        page_text(text, files) == text,
        page_code_blocks(text, files) == Seq::<Seq<char>>::empty(),
{
    let lines = split(text, '\n');
    lemma_expand_plain_lines(lines, files);
    lemma_joined_split(text);
    let resolved = resolve_includes(text, files);
    assert(resolved == text.push('\n'));
    lemma_split_with_newline(text);
    let all = split(resolved, '\n');
    assert(all == lines.push(Seq::empty()));
    assert(is_plain_line(Seq::<char>::empty())) by {
        assert(!Seq::<char>::empty().contains('`'));
    }
    assert(all_plain(all));
    lemma_render_plain_lines(rendering_start(), all);
    lemma_joined_split(resolved);
    assert(rendered(resolved).text =~= text.push('\n').push('\n'));
    lemma_trim_with_newlines(text);
}

/// Rendering what was rendered changes nothing, where the first rendering
/// gave plain text.
pub proof fn lemma_rendering_twice(
    page: Seq<char>,
    files: Seq<(Seq<char>, Seq<char>)>,
    later_files: Seq<(Seq<char>, Seq<char>)>,
)
    requires
        is_plain_text(page_text(page, files)),
    ensures
        page_text(page_text(page, files), later_files) == page_text(page, files),
        page_code_blocks(page_text(page, files), later_files) == Seq::<Seq<char>>::empty(),
{
    lemma_plain_text_is_rendered_to_itself(page_text(page, files), later_files);
}

/// Decorations are taken out at once: nothing is left for a second pass,
/// whatever the text. What is left holds no tag, no bracketed reference and
/// no backtick.
pub proof fn lemma_undecorated_once(s: Seq<char>)
    ensures
        undecorated(undecorated(s)) == undecorated(s),
        has_no_span(undecorated(s), '<', '>'),
        has_no_span(undecorated(s), '[', ']'),
        !undecorated(s).contains('`'),
{
    let untagged = strip_spans(s, '<', '>');
    let unreferenced = strip_spans(untagged, '[', ']');
    let unticked = without_char(unreferenced, '`');
    lemma_stripped_has_no_span(s, '<', '>');
    lemma_stripped_has_no_span(untagged, '[', ']');
    lemma_strip_keeps_no_span(untagged, '[', ']', '<', '>');
    lemma_without_keeps_no_span(unreferenced, '`', '<', '>');
    lemma_without_keeps_no_span(unreferenced, '`', '[', ']');
    lemma_without_char_is_absent(unreferenced, '`');
    lemma_strip_no_span(unticked, '<', '>');
    lemma_strip_no_span(unticked, '[', ']');
    lemma_without_absent_char(unticked, '`');
}

/// No files at all.
pub open spec fn no_files() -> Seq<(Seq<char>, Seq<char>)> {
    Seq::empty()
}

/// Whether none of `lines` holds a newline.
pub open spec fn newline_free(lines: Seq<Seq<char>>) -> bool {
    forall|k: int| 0 <= k < lines.len() ==> !(#[trigger] lines[k]).contains('\n')
}

/// Whether none of `lines` holds markup.
pub open spec fn all_markup_free(lines: Seq<Seq<char>>) -> bool {
    forall|k: int| 0 <= k < lines.len() ==> is_markup_free(#[trigger] lines[k])
}

/// `lines` without those that begin with the opening braces.
pub open spec fn unbraced(lines: Seq<Seq<char>>) -> Seq<Seq<char>>
    decreases lines.len(),
{
    if lines.len() == 0 {
        lines
    } else if open_braces().is_prefix_of(lines[0]) {
        unbraced(lines.skip(1))
    } else {
        seq![lines[0]] + unbraced(lines.skip(1))
    }
}

/// The lines of a text hold no newline.
proof fn lemma_split_is_newline_free(s: Seq<char>)
    ensures
        newline_free(split(s, '\n')),
    decreases s.len(),
{
    lemma_find_char(s, '\n');
    let lines = split(s, '\n');
    match find_char(s, '\n') {
        Some(i) => {
            let rest = split(s.skip(i + 1), '\n');
            lemma_split_is_newline_free(s.skip(i + 1));
            assert forall|k: int| 0 <= k < lines.len() implies !(#[trigger] lines[k]).contains(
                '\n',
            ) by {
                if k > 0 {
                    assert(lines[k] == rest[k - 1]);
                }
            }
        },
        None => {},
    }
}

/// Lines without a newline, joined, are split into themselves and one more
/// line, which is empty.
proof fn lemma_split_joined(lines: Seq<Seq<char>>)
    requires
        newline_free(lines),
    ensures
        split(joined(lines), '\n') == lines.push(Seq::empty()),
    decreases lines.len(),
{
    let empty = Seq::<char>::empty();
    if lines.len() == 0 {
        assert(split(empty, '\n') =~= seq![empty]);
        assert(lines.push(empty) =~= seq![empty]);
    } else {
        let first = lines[0];
        let rest = lines.skip(1);
        let all = joined(lines);
        assert(all == first.push('\n') + joined(rest));
        lemma_find_char(all, '\n');
        assert(all[first.len() as int] == '\n');
        assert(!first.contains('\n'));
        let i = find_char(all, '\n')->0;
        assert(i == first.len()) by {
            if i < first.len() {
                assert(all[i] == first[i]);
            }
            if i > first.len() {
                assert(all.take(i)[first.len() as int] == '\n');
            }
        }
        assert(all.take(i) =~= first);
        assert(all.skip(i + 1) =~= joined(rest));
        assert forall|k: int| 0 <= k < rest.len() implies !(#[trigger] rest[k]).contains('\n') by {
            assert(rest[k] == lines[k + 1]);
        }
        lemma_split_joined(rest);
        assert(seq![first] + rest.push(empty) =~= lines.push(empty));
    }
}

/// Without files, a page resolves to its lines that are no directives; they
/// are no longer than the page, and as long only where the page holds no
/// directive.
proof fn lemma_expand_without_files(lines: Seq<Seq<char>>)
    ensures
        expand_lines(lines, no_files()) == joined(unbraced(lines)),
        joined(unbraced(lines)).len() <= joined(lines).len(),
        joined(unbraced(lines)).len() == joined(lines).len() ==> unbraced(lines) == lines
            && forall|k: int|
            0 <= k < lines.len() ==> !open_braces().is_prefix_of(#[trigger] lines[k]),
        newline_free(lines) ==> newline_free(unbraced(lines)),
    decreases lines.len(),
{
    if lines.len() > 0 {
        let first = lines[0];
        let rest = lines.skip(1);
        lemma_expand_without_files(rest);
        let kept = unbraced(rest);
        if open_braces().is_prefix_of(first) {
            assert(expand_line(first, no_files()) == Seq::<char>::empty());
            assert(Seq::<char>::empty() + expand_lines(rest, no_files()) =~= expand_lines(
                rest,
                no_files(),
            ));
        } else {
            let all = seq![first] + kept;
            assert(all.skip(1) =~= kept);
            assert(joined(all) == first.push('\n') + joined(kept));
            if joined(all).len() == joined(lines).len() {
                assert(all =~= lines);
                assert forall|k: int| 0 <= k < lines.len() implies !open_braces().is_prefix_of(
                    #[trigger] lines[k],
                ) by {
                    if k > 0 {
                        assert(lines[k] == rest[k - 1]);
                    }
                }
            }
        }
        if newline_free(lines) {
            assert forall|k: int| 0 <= k < rest.len() implies !(#[trigger] rest[k]).contains(
                '\n',
            ) by {
                assert(rest[k] == lines[k + 1]);
            }
            let out = unbraced(lines);
            assert forall|k: int| 0 <= k < out.len() implies !(#[trigger] out[k]).contains('\n') by {
                if open_braces().is_prefix_of(first) {
                    assert(out[k] == kept[k]);
                } else if k > 0 {
                    assert(out[k] == kept[k - 1]);
                }
            }
        }
    }
}

/// A line without its markup is no longer than the line, and as long only
/// where the line holds none.
proof fn lemma_plain_line_shrinks(line: Seq<char>)
    ensures
        plain_line(trim_end(line)).len() <= line.len(),
        plain_line(trim_end(line)).len() == line.len() ==> {
            &&& trim_end(line) == line
            &&& plain_line(line) == line
            &&& line.len() > 0 ==> !is_whitespace(line[0]) && !is_whitespace(line.last())
                && line[0] != '#' && line[0] != '*'
            &&& !line.contains('`')
            &&& has_no_span(line, '<', '>')
            &&& has_no_span(line, '[', ']')
        },
{
    let trimmed = trim_end(line);
    let unheaded = skip_leading(trimmed, '#');
    let unheaded_trimmed = trim_start(unheaded);
    let unstarred = skip_leading(unheaded_trimmed, '*');
    let unstarred_trimmed = trim_start(unstarred);
    let untagged = strip_spans(unstarred_trimmed, '<', '>');
    let unreferenced = strip_spans(untagged, '[', ']');
    let unticked = without_char(unreferenced, '`');
    assert(plain_line(trimmed) == unticked);
    lemma_trim_end(line);
    lemma_skip_leading(trimmed, '#');
    lemma_trim_start(unheaded);
    lemma_skip_leading(unheaded_trimmed, '*');
    lemma_trim_start(unstarred);
    lemma_strip_spans_shrinks(unstarred_trimmed, '<', '>');
    lemma_strip_spans_shrinks(untagged, '[', ']');
    lemma_without_char_shrinks(unreferenced, '`');
    if unticked.len() == line.len() {
        assert(trimmed =~= line);
        assert(unheaded == line);
        assert(unheaded_trimmed =~= line);
        assert(unstarred == line);
        assert(unstarred_trimmed =~= line);
        assert(untagged == line);
        assert(unreferenced == line);
        assert(unticked == line);
        lemma_stripped_has_no_span(line, '<', '>');
        lemma_stripped_has_no_span(line, '[', ']');
        lemma_without_char_is_absent(line, '`');
    }
}

/// What one line adds to the display text is no longer than the line and
/// its newline, and as long only where the line holds no markup and is read
/// outside a block of code.
proof fn lemma_render_line_shrinks(st: Rendering, line: Seq<char>)
    ensures
        ({
            let next = render_line(st, line);
            &&& next.text.len() <= st.text.len() + line.len() + 1
            &&& st.in_code ==> next.text == st.text
            &&& next.in_code && !st.in_code ==> next.text == st.text && line.len() >= 7
            &&& next.text.len() == st.text.len() + line.len() + 1 ==> !st.in_code && !next.in_code
                && is_markup_free(line) && next.text == st.text + line.push('\n')
            &&& st.text.len() == 0 || st.text.last() == '\n' ==> next.text.len() == 0
                || next.text.last() == '\n'
        }),
{
    lemma_plain_line_shrinks(line);
    let next = render_line(st, line);
    if fence().is_prefix_of(line) {
        if code_fence().is_prefix_of(line) {
            assert(line.len() >= code_fence().len());
        }
    } else if !st.in_code && !is_underline(trim_end(line)) {
        assert(next.text == st.text + plain_line(trim_end(line)).push('\n'));
    }
}

/// What lines add to the display text is no longer than the lines joined;
/// as long only where they hold no markup and are read outside a block of
/// code; and shorter by a fence at least where they leave a block open.
proof fn lemma_render_lines_shrink(st: Rendering, lines: Seq<Seq<char>>)
    ensures
        ({
            let last = render_lines(st, lines);
            &&& last.text.len() <= st.text.len() + joined(lines).len()
            &&& st.text.len() == 0 || st.text.last() == '\n' ==> last.text.len() == 0
                || last.text.last() == '\n'
            &&& last.text.len() == st.text.len() + joined(lines).len() ==> all_markup_free(lines)
                && last.text == st.text + joined(lines) && (lines.len() > 0 ==> !st.in_code)
            &&& !st.in_code && last.in_code ==> last.text.len() + 8 <= st.text.len() + joined(
                lines,
            ).len()
        }),
    decreases lines.len(),
{
    let last = render_lines(st, lines);
    if lines.len() == 0 {
        assert(st.text + joined(lines) =~= st.text);
    } else {
        let first = lines[0];
        let rest = lines.skip(1);
        let next = render_line(st, first);
        lemma_render_line_shrinks(st, first);
        lemma_render_lines_shrink(next, rest);
        assert(joined(lines).len() == first.len() + 1 + joined(rest).len());
        if last.text.len() == st.text.len() + joined(lines).len() {
            assert(next.text.len() == st.text.len() + first.len() + 1);
            assert(last.text.len() == next.text.len() + joined(rest).len());
            assert(last.text =~= st.text + joined(lines));
            assert forall|k: int| 0 <= k < lines.len() implies is_markup_free(#[trigger] lines[k]) by {
                if k > 0 {
                    assert(lines[k] == rest[k - 1]);
                }
            }
        }
    }
}

/// Reading one more line after `lines` is reading it from where `lines`
/// lead.
proof fn lemma_render_lines_push(st: Rendering, lines: Seq<Seq<char>>, line: Seq<char>)
    ensures
        render_lines(st, lines.push(line)) == render_line(render_lines(st, lines), line),
    decreases lines.len(),
{
    let all = lines.push(line);
    if lines.len() == 0 {
        assert(all.skip(1).len() == 0);
        assert(render_lines(render_line(st, line), all.skip(1)) == render_line(st, line));
    } else {
        assert(all.skip(1) =~= lines.skip(1).push(line));
        lemma_render_lines_push(render_line(st, lines[0]), lines.skip(1), line);
    }
}

/// A text that ends with two newlines loses two characters at least when
/// it is trimmed.
proof fn lemma_trim_two_newlines(s: Seq<char>)
    requires
        s.len() >= 2,
        s[s.len() - 1] == '\n',
        s[s.len() - 2] == '\n',
    ensures
        trim(s).len() + 2 <= s.len(),
{
    let start = trim_start(s);
    lemma_trim_start(s);
    assert(is_whitespace('\n'));
    if start.len() == 0 {
        assert(trim_end(start) == start);
    } else {
        assert(start.last() == s[s.len() - 1]);
        if start.len() == 1 {
            assert(start[0] == start.last());
        } else {
            let shorter = start.drop_last();
            assert(shorter.last() == s[s.len() - 2]);
            lemma_trim_end(shorter.drop_last());
            assert(trim_end(shorter) == trim_end(shorter.drop_last()));
            assert(trim_end(start) == trim_end(shorter));
        }
    }
}

/// A text that is rendered to itself without files is plain text.
pub proof fn lemma_rendered_to_itself_is_plain(text: Seq<char>)
    requires
        page_text(text, no_files()) == text,
    ensures
        is_plain_text(text),
{
    let empty = Seq::<char>::empty();
    let lines = split(text, '\n');
    let kept = unbraced(lines);
    lemma_joined_split(text);
    lemma_split_is_newline_free(text);
    lemma_expand_without_files(lines);
    lemma_split_joined(kept);
    let resolved = resolve_includes(text, no_files());
    assert(split(resolved, '\n') == kept.push(empty));
    let start = rendering_start();
    let before_end = render_lines(start, kept);
    let end = render_line(before_end, empty);
    lemma_render_lines_push(start, kept, empty);
    assert(rendered(resolved) == end);
    lemma_render_lines_shrink(start, kept);
    lemma_trim(end.text);
    assert(trim(end.text) == text);
    if text.len() == 0 {
        assert(text =~= empty);
        assert(lines =~= seq![empty]);
        assert(is_plain_line(empty)) by {
            assert(!empty.contains('`'));
        }
    } else {
        assert(trim_end(empty) == empty);
        assert(!fence().is_prefix_of(empty));
        if before_end.in_code {
            assert(end.text == before_end.text);
            assert(false);
        } else {
            assert(!is_underline(empty));
            assert(plain_line(empty) =~= empty) by {
                assert(skip_leading(empty, '#') == empty);
                assert(trim_start(empty) == empty);
                assert(skip_leading(empty, '*') == empty);
                assert(strip_spans(empty, '<', '>') == empty);
                assert(strip_spans(empty, '[', ']') == empty);
                assert(without_char(empty, '`') == empty);
            }
            assert(end.text =~= before_end.text.push('\n'));
            if before_end.text.len() == 0 {
                assert(end.text =~= seq!['\n']);
                assert(is_whitespace('\n'));
                assert(end.text.skip(1) =~= empty);
                assert(trim_start(empty) == empty);
                assert(trim_start(end.text) == empty);
                assert(false);
            } else {
                assert(end.text[end.text.len() - 2] == before_end.text.last());
                lemma_trim_two_newlines(end.text);
                assert(before_end.text.len() == joined(kept).len());
                assert(joined(kept).len() == joined(lines).len());
                assert(kept == lines);
                assert forall|k: int| 0 <= k < lines.len() implies is_plain_line(
                    #[trigger] lines[k],
                ) by {
                    assert(is_markup_free(kept[k]));
                }
            }
        }
    }
}

/// Without files, a text is rendered to itself exactly where it is plain
/// text.
pub proof fn lemma_rendered_to_itself_iff_plain(text: Seq<char>)
    ensures
        page_text(text, no_files()) == text <==> is_plain_text(text),
{
    if is_plain_text(text) {
        lemma_plain_text_is_rendered_to_itself(text, no_files());
    }
    if page_text(text, no_files()) == text {
        lemma_rendered_to_itself_is_plain(text);
    }
}

} // verus!
