//! Character sequences: the mathematical model of the text the parsers read,
//! and verified executable counterparts of each operation.
//!
//! A string is viewed as a `Seq<char>`. The functions that read a text from
//! left to right are defined by recursion on the front of the sequence, so
//! that a scan can be proved against them with an invariant of the form
//! "what was emitted, followed by the function of what is left, is the
//! function of the whole".
use vstd::prelude::*;
use vstd::slice::slice_subrange;

verus! {

/// `String::push` appends one character.
pub assume_specification[ String::push ](s: &mut String, c: char)
    ensures
        final(s)@ == old(s)@.push(c),
;

/// The characters that Unicode counts as white space.
pub open spec fn is_whitespace(c: char) -> bool {
    let n = c as u32;
    ||| 0x09 <= n <= 0x0d
    ||| n == 0x20
    ||| n == 0x85
    ||| n == 0xa0
    ||| n == 0x1680
    ||| 0x2000 <= n <= 0x200a
    ||| n == 0x2028
    ||| n == 0x2029
    ||| n == 0x202f
    ||| n == 0x205f
    ||| n == 0x3000
}

/// `s` without its longest prefix of characters equal to `c`.
pub open spec fn skip_leading(s: Seq<char>, c: char) -> Seq<char>
    decreases s.len(),
{
    if s.len() > 0 && s[0] == c {
        skip_leading(s.skip(1), c)
    } else {
        s
    }
}

/// `s` without its leading whitespace.
pub open spec fn trim_start(s: Seq<char>) -> Seq<char>
    decreases s.len(),
{
    if s.len() > 0 && is_whitespace(s[0]) {
        trim_start(s.skip(1))
    } else {
        s
    }
}

/// `s` without its trailing whitespace.
pub open spec fn trim_end(s: Seq<char>) -> Seq<char>
    decreases s.len(),
{
    if s.len() > 0 && is_whitespace(s.last()) {
        trim_end(s.drop_last())
    } else {
        s
    }
}

/// `s` without leading and trailing whitespace.
pub open spec fn trim(s: Seq<char>) -> Seq<char> {
    trim_end(trim_start(s))
}

/// The index of the first occurrence of `pat` in `s`.
pub open spec fn find(s: Seq<char>, pat: Seq<char>) -> Option<int>
    decreases s.len(),
{
    if pat.is_prefix_of(s) {
        Some(0)
    } else if s.len() == 0 {
        None
    } else {
        match find(s.skip(1), pat) {
            Some(i) => Some(i + 1),
            None => None,
        }
    }
}

/// The index of the first occurrence of the character `c` in `s`.
pub open spec fn find_char(s: Seq<char>, c: char) -> Option<int>
    decreases s.len(),
{
    if s.len() == 0 {
        None
    } else if s[0] == c {
        Some(0)
    } else {
        match find_char(s.skip(1), c) {
            Some(i) => Some(i + 1),
            None => None,
        }
    }
}

/// The pieces of `s` between occurrences of `sep`: one more than there are
/// separators, in order, none of them holding `sep`.
pub open spec fn split(s: Seq<char>, sep: char) -> Seq<Seq<char>>
    decreases s.len(),
{
    match find_char(s, sep) {
        // The index is always in range: the test is there for termination.
        Some(i) => if 0 <= i < s.len() {
            seq![s.take(i)] + split(s.skip(i + 1), sep)
        } else {
            seq![s]
        },
        None => seq![s],
    }
}

/// `s` with every occurrence of the non-empty `pat`, taken from left to
/// right without overlap, replaced by `rep`. An empty `pat` changes nothing.
pub open spec fn replace_all(s: Seq<char>, pat: Seq<char>, rep: Seq<char>) -> Seq<char>
    decreases s.len(),
{
    if pat.len() == 0 || s.len() == 0 {
        s
    } else if pat.is_prefix_of(s) {
        rep + replace_all(s.skip(pat.len() as int), pat, rep)
    } else {
        seq![s[0]] + replace_all(s.skip(1), pat, rep)
    }
}

/// `s` without the characters equal to `c`.
pub open spec fn without_char(s: Seq<char>, c: char) -> Seq<char>
    decreases s.len(),
{
    if s.len() == 0 {
        s
    } else if s[0] == c {
        without_char(s.skip(1), c)
    } else {
        seq![s[0]] + without_char(s.skip(1), c)
    }
}

/// `s` without its spans: a span runs from a character `open` to the next
/// `close` after it, both included. An `open` that no `close` follows stays,
/// with all that comes after it.
pub open spec fn strip_spans(s: Seq<char>, open: char, close: char) -> Seq<char>
    decreases s.len(),
{
    if s.len() == 0 {
        s
    } else if s[0] == open {
        match find_char(s.skip(1), close) {
            // The index is always in range: the test is there for termination.
            Some(j) => if 0 <= j < s.len() - 1 {
                strip_spans(s.skip(j + 2), open, close)
            } else {
                s
            },
            None => s,
        }
    } else {
        seq![s[0]] + strip_spans(s.skip(1), open, close)
    }
}

/// `find_char` returns the first index that holds `c`, if any does.
pub proof fn lemma_find_char(s: Seq<char>, c: char)
    ensures
        match find_char(s, c) {
            Some(i) => 0 <= i < s.len() && s[i] == c && !s.take(i).contains(c),
            None => !s.contains(c),
        },
    decreases s.len(),
{
    if s.len() > 0 && s[0] != c {
        let t = s.skip(1);
        lemma_find_char(t, c);
        match find_char(t, c) {
            Some(i) => {
                let p = s.take(i + 1);
                assert forall|k: int| 0 <= k < p.len() implies p[k] != c by {
                    if k > 0 {
                        assert(t.take(i)[k - 1] == s[k]);
                    }
                }
            },
            None => {
                assert forall|k: int| 0 <= k < s.len() implies s[k] != c by {
                    if k > 0 {
                        assert(t[k - 1] == s[k]);
                    }
                }
            },
        }
    } else if s.len() > 0 {
        assert(s.take(0).len() == 0);
    }
}

/// `find` returns an index at which `pat` occurs, and no earlier one does.
pub proof fn lemma_find(s: Seq<char>, pat: Seq<char>)
    ensures
        match find(s, pat) {
            Some(i) => {
                &&& 0 <= i <= s.len()
                &&& pat.is_prefix_of(s.skip(i))
                &&& forall|k: int| 0 <= k < i ==> !pat.is_prefix_of(#[trigger] s.skip(k))
            },
            None => forall|k: int| 0 <= k <= s.len() ==> !pat.is_prefix_of(#[trigger] s.skip(k)),
        },
    decreases s.len(),
{
    if pat.is_prefix_of(s) {
        assert(s.skip(0) =~= s);
    } else if s.len() == 0 {
        assert forall|k: int| 0 <= k <= s.len() implies !pat.is_prefix_of(#[trigger] s.skip(k)) by {
            assert(s.skip(0) =~= s);
        }
    } else {
        let t = s.skip(1);
        lemma_find(t, pat);
        assert(s.skip(0) =~= s);
        assert forall|k: int| 1 <= k <= s.len() implies #[trigger] s.skip(k) == t.skip(k - 1) by {
            assert(s.skip(k) =~= t.skip(k - 1));
        }
        match find(t, pat) {
            Some(i) => {
                assert(s.skip(i + 1) == t.skip(i));
                assert forall|k: int| 0 <= k < i + 1 implies !pat.is_prefix_of(
                    #[trigger] s.skip(k),
                ) by {
                    if k > 0 {
                        assert(s.skip(k) == t.skip(k - 1));
                    }
                }
            },
            None => {
                assert forall|k: int| 0 <= k <= s.len() implies !pat.is_prefix_of(
                    #[trigger] s.skip(k),
                ) by {
                    if k > 0 {
                        assert(s.skip(k) == t.skip(k - 1));
                    }
                }
            },
        }
    }
}

/// The characters of a string, as a vector.
pub fn chars_of(s: &str) -> (v: Vec<char>)
    ensures
        v@ == s@,
{
    let mut v: Vec<char> = Vec::new();
    for c in it: s.chars()
        invariant
            v@ == it.seq().take(it.index() as int),
            it.seq() == s@,
    {
        v.push(c);
    }
    v
}

/// The string made of the characters of `s`.
pub fn string_of(s: &[char]) -> (r: String)
    ensures
        r@ == s@,
{
    let mut r = String::new();
    let mut i: usize = 0;
    while i < s.len()
        invariant
            i <= s.len(),
            r@ == s@.take(i as int),
        decreases s.len() - i,
    {
        r.push(s[i]);
        i += 1;
    }
    r
}

/// Whether `c` is a whitespace character.
pub fn char_is_whitespace(c: char) -> (r: bool)
    ensures
        r == is_whitespace(c),
{
    let n: u32 = c as u32;
    (0x09 <= n && n <= 0x0d) || n == 0x20 || n == 0x85 || n == 0xa0 || n == 0x1680 || (0x2000 <= n
        && n <= 0x200a) || n == 0x2028 || n == 0x2029 || n == 0x202f || n == 0x205f || n == 0x3000
}

/// Whether `pat` occurs in `s` at index `at`.
pub fn occurs_at(s: &[char], at: usize, pat: &[char]) -> (r: bool)
    requires
        at <= s.len(),
    ensures
        r == pat@.is_prefix_of(s@.skip(at as int)),
{
    if pat.len() > s.len() - at {
        return false;
    }
    let mut k: usize = 0;
    while k < pat.len()
        invariant
            at <= s.len(),
            pat.len() <= s.len() - at,
            k <= pat.len(),
            forall|j: int| 0 <= j < k ==> pat@[j] == s@[at + j],
        decreases pat.len() - k,
    {
        if pat[k] != s[at + k] {
            assert(s@.skip(at as int)[k as int] == s@[at + k]);
            return false;
        }
        k += 1;
    }
    assert(pat@ =~= s@.skip(at as int).subrange(0, pat@.len() as int));
    true
}

/// Whether `s` begins with `pat`.
pub fn starts_with(s: &[char], pat: &[char]) -> (r: bool)
    ensures
        r == pat@.is_prefix_of(s@),
{
    assert(s@.skip(0) =~= s@);
    occurs_at(s, 0, pat)
}

/// `o` moved to the right by `by` places.
pub open spec fn shifted(o: Option<int>, by: int) -> Option<int> {
    match o {
        Some(i) => Some(i + by),
        None => None,
    }
}

/// The position of an executable search result, as the specifications give it.
pub open spec fn position(r: Option<usize>) -> Option<int> {
    match r {
        Some(i) => Some(i as int),
        None => None,
    }
}

/// The part of `s` from index `from` on.
pub fn tail(s: &[char], from: usize) -> (r: &[char])
    requires
        from <= s.len(),
    ensures
        r@ == s@.skip(from as int),
{
    slice_subrange(s, from, s.len())
}

/// The first `n` characters of `s`.
pub fn head(s: &[char], n: usize) -> (r: &[char])
    requires
        n <= s.len(),
    ensures
        r@ == s@.take(n as int),
{
    slice_subrange(s, 0, n)
}

/// A copy of `s`.
pub fn copy_of(s: &[char]) -> (r: Vec<char>)
    ensures
        r@ == s@,
{
    let mut r: Vec<char> = Vec::new();
    append(&mut r, s);
    r
}

/// Appends the characters of `s` to `out`.
pub fn append(out: &mut Vec<char>, s: &[char])
    ensures
        final(out)@ == old(out)@ + s@,
{
    let mut i: usize = 0;
    while i < s.len()
        invariant
            i <= s.len(),
            out@ == old(out)@ + s@.take(i as int),
        decreases s.len() - i,
    {
        out.push(s[i]);
        i += 1;
        assert(s@.take(i as int) =~= s@.take(i - 1).push(s@[i - 1]));
    }
    assert(s@.take(s.len() as int) =~= s@);
}

/// The index of the first `c` in `s`.
pub fn index_of_char(s: &[char], c: char) -> (r: Option<usize>)
    ensures
        position(r) == find_char(s@, c),
{
    let mut i: usize = 0;
    assert(s@.skip(0) =~= s@);
    while i < s.len()
        invariant
            i <= s.len(),
            find_char(s@, c) == shifted(find_char(s@.skip(i as int), c), i as int),
        decreases s.len() - i,
    {
        if s[i] == c {
            return Some(i);
        }
        assert(s@.skip(i as int).skip(1) =~= s@.skip(i + 1));
        i += 1;
    }
    None
}

/// The index of the first occurrence of `pat` in `s`.
pub fn index_of(s: &[char], pat: &[char]) -> (r: Option<usize>)
    ensures
        position(r) == find(s@, pat@),
{
    let mut i: usize = 0;
    assert(s@.skip(0) =~= s@);
    while i < s.len()
        invariant
            i <= s.len(),
            find(s@, pat@) == shifted(find(s@.skip(i as int), pat@), i as int),
        decreases s.len() - i,
    {
        if occurs_at(s, i, pat) {
            return Some(i);
        }
        assert(s@.skip(i as int).skip(1) =~= s@.skip(i + 1));
        i += 1;
    }
    if occurs_at(s, i, pat) {
        Some(i)
    } else {
        None
    }
}

/// `s` without its leading run of `c`.
pub fn skip_leading_of(s: &[char], c: char) -> (r: &[char])
    ensures
        r@ == skip_leading(s@, c),
{
    let mut i: usize = 0;
    assert(s@.skip(0) =~= s@);
    while i < s.len() && s[i] == c
        invariant
            i <= s.len(),
            skip_leading(s@, c) == skip_leading(s@.skip(i as int), c),
        decreases s.len() - i,
    {
        assert(s@.skip(i as int).skip(1) =~= s@.skip(i + 1));
        i += 1;
    }
    tail(s, i)
}

/// `s` without its leading whitespace.
pub fn trim_start_of(s: &[char]) -> (r: &[char])
    ensures
        r@ == trim_start(s@),
{
    let mut i: usize = 0;
    assert(s@.skip(0) =~= s@);
    while i < s.len() && char_is_whitespace(s[i])
        invariant
            i <= s.len(),
            trim_start(s@) == trim_start(s@.skip(i as int)),
        decreases s.len() - i,
    {
        assert(s@.skip(i as int).skip(1) =~= s@.skip(i + 1));
        i += 1;
    }
    tail(s, i)
}

/// `s` without its trailing whitespace.
pub fn trim_end_of(s: &[char]) -> (r: &[char])
    ensures
        r@ == trim_end(s@),
{
    let mut n: usize = s.len();
    assert(s@.take(n as int) =~= s@);
    while n > 0 && char_is_whitespace(s[n - 1])
        invariant
            n <= s.len(),
            trim_end(s@) == trim_end(s@.take(n as int)),
        decreases n,
    {
        assert(s@.take(n as int).drop_last() =~= s@.take(n - 1));
        n -= 1;
    }
    head(s, n)
}

/// `s` without leading and trailing whitespace.
pub fn trim_of(s: &[char]) -> (r: &[char])
    ensures
        r@ == trim(s@),
{
    trim_end_of(trim_start_of(s))
}

/// The views of the pieces that a vector of character vectors holds.
pub open spec fn pieces(v: Seq<Vec<char>>) -> Seq<Seq<char>> {
    v.map_values(|p: Vec<char>| p@)
}

/// The pieces of `s` between occurrences of `sep`.
pub fn split_at(s: &[char], sep: char) -> (r: Vec<Vec<char>>)
    ensures
        pieces(r@) == split(s@, sep),
{
    let mut out: Vec<Vec<char>> = Vec::new();
    let mut start: usize = 0;
    assert(s@.skip(0) =~= s@);
    assert(pieces(out@) =~= Seq::<Seq<char>>::empty());
    loop
        invariant
            start <= s.len(),
            pieces(out@) + split(s@.skip(start as int), sep) == split(s@, sep),
        decreases s.len() - start,
    {
        let rest = tail(s, start);
        match index_of_char(rest, sep) {
            Some(j) => {
                proof {
                    lemma_find_char(rest@, sep);
                }
                let piece = copy_of(head(rest, j));
                assert(pieces(out@.push(piece)) =~= pieces(out@) + seq![rest@.take(j as int)]);
                assert(rest@.skip(j + 1) =~= s@.skip(start + j + 1));
                out.push(piece);
                start = start + j + 1;
            },
            None => {
                let piece = copy_of(rest);
                assert(pieces(out@.push(piece)) =~= pieces(out@) + seq![rest@]);
                out.push(piece);
                return out;
            },
        }
    }
}

/// `s` with every occurrence of `pat` replaced by `rep`.
pub fn replace_all_of(s: &[char], pat: &[char], rep: &[char]) -> (r: Vec<char>)
    ensures
        r@ == replace_all(s@, pat@, rep@),
{
    if pat.len() == 0 {
        return copy_of(s);
    }
    let mut out: Vec<char> = Vec::new();
    let mut i: usize = 0;
    assert(s@.skip(0) =~= s@);
    while i < s.len()
        invariant
            i <= s.len(),
            pat@.len() > 0,
            out@ + replace_all(s@.skip(i as int), pat@, rep@) == replace_all(s@, pat@, rep@),
        decreases s.len() - i,
    {
        let ghost rest = s@.skip(i as int);
        if occurs_at(s, i, pat) {
            assert(rest.skip(pat@.len() as int) =~= s@.skip(i + pat@.len()));
            assert((out@ + rep@) + replace_all(rest.skip(pat@.len() as int), pat@, rep@) =~= out@
                + (rep@ + replace_all(rest.skip(pat@.len() as int), pat@, rep@)));
            append(&mut out, rep);
            i += pat.len();
        } else {
            assert(rest.skip(1) =~= s@.skip(i + 1));
            assert(out@.push(s@[i as int]) + replace_all(rest.skip(1), pat@, rep@) =~= out@ + (
            seq![rest[0]] + replace_all(rest.skip(1), pat@, rep@)));
            out.push(s[i]);
            i += 1;
        }
    }
    assert(out@ + Seq::<char>::empty() =~= out@);
    out
}

/// `s` without the characters equal to `c`.
pub fn without_char_of(s: &[char], c: char) -> (r: Vec<char>)
    ensures
        r@ == without_char(s@, c),
{
    let mut out: Vec<char> = Vec::new();
    let mut i: usize = 0;
    assert(s@.skip(0) =~= s@);
    while i < s.len()
        invariant
            i <= s.len(),
            out@ + without_char(s@.skip(i as int), c) == without_char(s@, c),
        decreases s.len() - i,
    {
        let ghost rest = s@.skip(i as int);
        assert(rest.skip(1) =~= s@.skip(i + 1));
        if s[i] != c {
            assert(out@.push(s@[i as int]) + without_char(rest.skip(1), c) =~= out@ + (seq![
                rest[0],
            ] + without_char(rest.skip(1), c)));
            out.push(s[i]);
        }
        i += 1;
    }
    assert(out@ + Seq::<char>::empty() =~= out@);
    out
}

/// `s` without its spans from `open` to the next `close`.
pub fn strip_spans_of(s: &[char], open: char, close: char) -> (r: Vec<char>)
    ensures
        r@ == strip_spans(s@, open, close),
{
    let mut out: Vec<char> = Vec::new();
    let mut i: usize = 0;
    assert(s@.skip(0) =~= s@);
    while i < s.len()
        invariant
            i <= s.len(),
            out@ + strip_spans(s@.skip(i as int), open, close) == strip_spans(s@, open, close),
        decreases s.len() - i,
    {
        let ghost rest = s@.skip(i as int);
        if s[i] == open {
            let after = tail(s, i + 1);
            assert(after@ =~= rest.skip(1));
            match index_of_char(after, close) {
                Some(j) => {
                    proof {
                        lemma_find_char(after@, close);
                    }
                    assert(rest.skip(j + 2) =~= s@.skip(i + j + 2));
                    i = i + j + 2;
                },
                None => {
                    append(&mut out, tail(s, i));
                    return out;
                },
            }
        } else {
            assert(rest.skip(1) =~= s@.skip(i + 1));
            assert(out@.push(s@[i as int]) + strip_spans(rest.skip(1), open, close) =~= out@ + (
            seq![rest[0]] + strip_spans(rest.skip(1), open, close)));
            out.push(s[i]);
            i += 1;
        }
    }
    assert(out@ + Seq::<char>::empty() =~= out@);
    out
}

/// Whether `a` and `b` hold the same characters.
pub fn same_chars(a: &[char], b: &[char]) -> (r: bool)
    ensures
        r == (a@ == b@),
{
    assert(a@.skip(0) =~= a@);
    if a.len() != b.len() {
        return false;
    }
    let r = occurs_at(a, 0, b);
    assert(r ==> a@ =~= b@);
    r
}

/// The views of a vector of strings.
pub open spec fn string_views(v: Seq<String>) -> Seq<Seq<char>> {
    v.map_values(|s: String| s@)
}

/// `trim_start` cuts a prefix off `s`, and what is left does not begin with
/// whitespace.
pub proof fn lemma_trim_start(s: Seq<char>)
    ensures
        trim_start(s).len() <= s.len(),
        trim_start(s) == s.skip(s.len() - trim_start(s).len()),
        trim_start(s).len() > 0 ==> !is_whitespace(trim_start(s)[0]),
        forall|k: int| 0 <= k < s.len() - trim_start(s).len() ==> is_whitespace(#[trigger] s[k]),
    decreases s.len(),
{
    if s.len() > 0 && is_whitespace(s[0]) {
        let t = s.skip(1);
        lemma_trim_start(t);
        let n = t.len() - trim_start(t).len();
        assert(t.skip(n) =~= s.skip(n + 1));
        assert forall|k: int| 0 <= k < s.len() - trim_start(s).len() implies is_whitespace(
            #[trigger] s[k],
        ) by {
            if k > 0 {
                assert(s[k] == t[k - 1]);
            }
        }
    } else {
        assert(s.skip(0) =~= s);
    }
}

/// `trim_end` cuts a suffix off `s`, and what is left does not end with
/// whitespace.
pub proof fn lemma_trim_end(s: Seq<char>)
    ensures
        trim_end(s).len() <= s.len(),
        trim_end(s) == s.take(trim_end(s).len() as int),
        trim_end(s).len() > 0 ==> !is_whitespace(trim_end(s).last()),
        forall|k: int| trim_end(s).len() <= k < s.len() ==> is_whitespace(#[trigger] s[k]),
    decreases s.len(),
{
    if s.len() > 0 && is_whitespace(s.last()) {
        let t = s.drop_last();
        lemma_trim_end(t);
        assert(t.take(trim_end(t).len() as int) =~= s.take(trim_end(t).len() as int));
        assert forall|k: int| trim_end(s).len() <= k < s.len() implies is_whitespace(
            #[trigger] s[k],
        ) by {
            if k < t.len() {
                assert(s[k] == t[k]);
            }
        }
    } else {
        assert(s.take(s.len() as int) =~= s);
    }
}

/// `trim` cuts `s` down to the part between its first and its last character
/// that is no whitespace.
pub proof fn lemma_trim(s: Seq<char>)
    ensures
        trim(s).len() <= s.len(),
        exists|from: int|
            0 <= from && from + trim(s).len() <= s.len() && trim(s) == #[trigger] s.subrange(
                from,
                from + trim(s).len(),
            ),
        trim(s).len() > 0 ==> !is_whitespace(trim(s)[0]) && !is_whitespace(trim(s).last()),
{
    let t = trim_start(s);
    lemma_trim_start(s);
    lemma_trim_end(t);
    let from = s.len() - t.len();
    assert(trim(s) =~= s.subrange(from, from + trim(s).len()));
}

/// Whether no `open` in `s` has a `close` after it.
pub open spec fn has_no_span(s: Seq<char>, open: char, close: char) -> bool {
    forall|i: int, j: int| 0 <= i < j < s.len() ==> !(#[trigger] s[i] == open && #[trigger] s[j] == close)
}

/// A text without spans has none to strip.
pub proof fn lemma_strip_no_span(s: Seq<char>, open: char, close: char)
    requires
        has_no_span(s, open, close),
    ensures
        strip_spans(s, open, close) == s,
    decreases s.len(),
{
    if s.len() > 0 {
        let rest = s.skip(1);
        if s[0] == open {
            lemma_find_char(rest, close);
            if let Some(j) = find_char(rest, close) {
                assert(s[j + 1] == rest[j]);
                assert(s[0] == open && s[j + 1] == close);
            }
        } else {
            assert forall|i: int, j: int| 0 <= i < j < rest.len() implies !(#[trigger] rest[i]
                == open && #[trigger] rest[j] == close) by {
                assert(rest[i] == s[i + 1] && rest[j] == s[j + 1]);
            }
            lemma_strip_no_span(rest, open, close);
            assert(seq![s[0]] + rest =~= s);
        }
    }
}

/// A text that does not hold `c` loses nothing when `c` is taken out.
pub proof fn lemma_without_absent_char(s: Seq<char>, c: char)
    requires
        !s.contains(c),
    ensures
        without_char(s, c) == s,
    decreases s.len(),
{
    if s.len() > 0 {
        let rest = s.skip(1);
        assert(s[0] != c);
        assert forall|i: int| 0 <= i < rest.len() implies rest[i] != c by {
            assert(rest[i] == s[i + 1]);
        }
        lemma_without_absent_char(rest, c);
        assert(seq![s[0]] + rest =~= s);
    }
}

/// What is left after spans are taken out was there before.
pub proof fn lemma_stripped_within(s: Seq<char>, open: char, close: char)
    ensures
        forall|k: int|
            0 <= k < strip_spans(s, open, close).len() ==> s.contains(
                #[trigger] strip_spans(s, open, close)[k],
            ),
    decreases s.len(),
{
    let out = strip_spans(s, open, close);
    if s.len() > 0 {
        let rest = s.skip(1);
        if s[0] == open {
            lemma_find_char(rest, close);
            match find_char(rest, close) {
                Some(j) => {
                    let after = s.skip(j + 2);
                    lemma_stripped_within(after, open, close);
                    assert(out == strip_spans(after, open, close));
                    assert forall|k: int| 0 <= k < out.len() implies s.contains(#[trigger] out[k]) by {
                        assert(after.contains(strip_spans(after, open, close)[k]));
                        let m = choose|m: int| 0 <= m < after.len() && after[m] == out[k];
                        assert(s[m + j + 2] == out[k]);
                    }
                },
                None => {
                    assert forall|k: int| 0 <= k < out.len() implies s.contains(#[trigger] out[k]) by {
                        assert(s[k] == out[k]);
                    }
                },
            }
        } else {
            lemma_stripped_within(rest, open, close);
            let kept = strip_spans(rest, open, close);
            assert forall|k: int| 0 <= k < out.len() implies s.contains(#[trigger] out[k]) by {
                if k == 0 {
                    assert(s[0] == out[0]);
                } else {
                    assert(out[k] == kept[k - 1]);
                    assert(rest.contains(kept[k - 1]));
                    let m = choose|m: int| 0 <= m < rest.len() && rest[m] == kept[k - 1];
                    assert(s[m + 1] == out[k]);
                }
            }
        }
    }
}

/// What is left after a character is taken out was there before.
pub proof fn lemma_without_char_within(s: Seq<char>, c: char)
    ensures
        forall|k: int|
            0 <= k < without_char(s, c).len() ==> s.contains(#[trigger] without_char(s, c)[k]),
    decreases s.len(),
{
    let out = without_char(s, c);
    if s.len() > 0 {
        let rest = s.skip(1);
        lemma_without_char_within(rest, c);
        let kept = without_char(rest, c);
        assert forall|k: int| 0 <= k < out.len() implies s.contains(#[trigger] out[k]) by {
            if s[0] != c && k == 0 {
                assert(s[0] == out[0]);
            } else {
                let at = if s[0] == c {
                    k
                } else {
                    k - 1
                };
                assert(out[k] == kept[at]);
                assert(rest.contains(kept[at]));
                let m = choose|m: int| 0 <= m < rest.len() && rest[m] == kept[at];
                assert(s[m + 1] == out[k]);
            }
        }
    }
}

/// A character is nowhere in what is left after it is taken out.
pub proof fn lemma_without_char_is_absent(s: Seq<char>, c: char)
    ensures
        !without_char(s, c).contains(c),
    decreases s.len(),
{
    let out = without_char(s, c);
    if s.len() > 0 {
        let rest = s.skip(1);
        lemma_without_char_is_absent(rest, c);
        let kept = without_char(rest, c);
        assert forall|k: int| 0 <= k < out.len() implies out[k] != c by {
            if s[0] != c && k > 0 {
                assert(out[k] == kept[k - 1]);
            }
        }
    }
}

/// Once its spans are taken out, a text has none.
pub proof fn lemma_stripped_has_no_span(s: Seq<char>, open: char, close: char)
    ensures
        has_no_span(strip_spans(s, open, close), open, close),
    decreases s.len(),
{
    let out = strip_spans(s, open, close);
    if s.len() > 0 {
        let rest = s.skip(1);
        if s[0] == open {
            lemma_find_char(rest, close);
            match find_char(rest, close) {
                Some(j) => {
                    lemma_stripped_has_no_span(s.skip(j + 2), open, close);
                },
                None => {
                    assert forall|i: int, j: int| 0 <= i < j < out.len() implies !(#[trigger] out[i]
                        == open && #[trigger] out[j] == close) by {
                        assert(rest[j - 1] == s[j]);
                    }
                },
            }
        } else {
            lemma_stripped_has_no_span(rest, open, close);
            let kept = strip_spans(rest, open, close);
            assert forall|i: int, j: int| 0 <= i < j < out.len() implies !(#[trigger] out[i] == open
                && #[trigger] out[j] == close) by {
                if i > 0 {
                    assert(out[i] == kept[i - 1] && out[j] == kept[j - 1]);
                }
            }
        }
    }
}

/// A part of a text without spans has none.
proof fn lemma_no_span_after(s: Seq<char>, from: int, open: char, close: char)
    requires
        has_no_span(s, open, close),
        0 <= from <= s.len(),
    ensures
        has_no_span(s.skip(from), open, close),
{
    let part = s.skip(from);
    assert forall|i: int, j: int| 0 <= i < j < part.len() implies !(#[trigger] part[i] == open
        && #[trigger] part[j] == close) by {
        assert(part[i] == s[i + from] && part[j] == s[j + from]);
    }
}

/// Taking the spans of one kind out of a text makes no span of another.
pub proof fn lemma_strip_keeps_no_span(s: Seq<char>, open: char, close: char, a: char, b: char)
    requires
        has_no_span(s, a, b),
    ensures
        has_no_span(strip_spans(s, open, close), a, b),
    decreases s.len(),
{
    let out = strip_spans(s, open, close);
    if s.len() > 0 {
        let rest = s.skip(1);
        if s[0] == open {
            lemma_find_char(rest, close);
            if let Some(j) = find_char(rest, close) {
                lemma_no_span_after(s, j + 2, a, b);
                lemma_strip_keeps_no_span(s.skip(j + 2), open, close, a, b);
            }
        } else {
            lemma_no_span_after(s, 1, a, b);
            lemma_strip_keeps_no_span(rest, open, close, a, b);
            lemma_stripped_within(rest, open, close);
            let kept = strip_spans(rest, open, close);
            assert forall|i: int, j: int| 0 <= i < j < out.len() implies !(#[trigger] out[i] == a
                && #[trigger] out[j] == b) by {
                assert(out[j] == kept[j - 1]);
                if i > 0 {
                    assert(out[i] == kept[i - 1]);
                } else if out[0] == a && out[j] == b {
                    assert(rest.contains(kept[j - 1]));
                    let m = choose|m: int| 0 <= m < rest.len() && rest[m] == kept[j - 1];
                    assert(s[0] == a && s[m + 1] == b);
                }
            }
        }
    }
}

/// Taking a character out of a text makes no span.
pub proof fn lemma_without_keeps_no_span(s: Seq<char>, c: char, a: char, b: char)
    requires
        has_no_span(s, a, b),
    ensures
        has_no_span(without_char(s, c), a, b),
    decreases s.len(),
{
    let out = without_char(s, c);
    if s.len() > 0 {
        let rest = s.skip(1);
        lemma_no_span_after(s, 1, a, b);
        lemma_without_keeps_no_span(rest, c, a, b);
        lemma_without_char_within(rest, c);
        let kept = without_char(rest, c);
        if s[0] != c {
            assert forall|i: int, j: int| 0 <= i < j < out.len() implies !(#[trigger] out[i] == a
                && #[trigger] out[j] == b) by {
                assert(out[j] == kept[j - 1]);
                if i > 0 {
                    assert(out[i] == kept[i - 1]);
                } else if out[0] == a && out[j] == b {
                    assert(rest.contains(kept[j - 1]));
                    let m = choose|m: int| 0 <= m < rest.len() && rest[m] == kept[j - 1];
                    assert(s[0] == a && s[m + 1] == b);
                }
            }
        }
    }
}

/// Skipping a leading run shortens a text or leaves it as it is, and what
/// is left does not begin with the character.
pub proof fn lemma_skip_leading(s: Seq<char>, c: char)
    ensures
        skip_leading(s, c).len() <= s.len(),
        skip_leading(s, c).len() == s.len() ==> skip_leading(s, c) == s,
        skip_leading(s, c).len() > 0 ==> skip_leading(s, c)[0] != c,
    decreases s.len(),
{
    if s.len() > 0 && s[0] == c {
        lemma_skip_leading(s.skip(1), c);
    }
}

/// Taking spans out shortens a text or leaves it as it is.
pub proof fn lemma_strip_spans_shrinks(s: Seq<char>, open: char, close: char)
    ensures
        strip_spans(s, open, close).len() <= s.len(),
        strip_spans(s, open, close).len() == s.len() ==> strip_spans(s, open, close) == s,
    decreases s.len(),
{
    if s.len() > 0 {
        let rest = s.skip(1);
        if s[0] == open {
            lemma_find_char(rest, close);
            if let Some(j) = find_char(rest, close) {
                lemma_strip_spans_shrinks(s.skip(j + 2), open, close);
            }
        } else {
            lemma_strip_spans_shrinks(rest, open, close);
            assert(seq![s[0]] + rest =~= s);
        }
    }
}

/// Taking a character out shortens a text or leaves it as it is.
pub proof fn lemma_without_char_shrinks(s: Seq<char>, c: char)
    ensures
        without_char(s, c).len() <= s.len(),
        without_char(s, c).len() == s.len() ==> without_char(s, c) == s,
    decreases s.len(),
{
    if s.len() > 0 {
        let rest = s.skip(1);
        lemma_without_char_shrinks(rest, c);
        assert(seq![s[0]] + rest =~= s);
    }
}

} // verus!
