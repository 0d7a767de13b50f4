//! Splitting text: paths into segments, paragraphs into lines.
use crate::tokens::{has_raw_prefix, is_ascii_text, is_padding, is_unpadded};
use vstd::prelude::*;

verus! {

/// The texts of a sequence of strings.
pub open spec fn texts(strings: Seq<String>) -> Seq<Seq<char>> {
    strings.map_values(|s: String| s@)
}

/// The separator `::` stands at `i`, and not earlier.
pub open spec fn first_separator(s: Seq<char>, i: int) -> bool {
    &&& 0 <= i < s.len() - 1
    &&& s[i] == ':' && s[i + 1] == ':'
    &&& forall|j: int| 0 <= j < i ==> !(#[trigger] s[j] == ':' && s[j + 1] == ':')
}

/// The segments of a path, split at `::` from left to right. There is always at
/// least one.
pub open spec fn segments(s: Seq<char>) -> Seq<Seq<char>>
    decreases s.len(),
{
    if exists|i: int| first_separator(s, i) {
        let i = choose|i: int| first_separator(s, i);
        seq![s.take(i)] + segments(s.skip(i + 2))
    } else {
        seq![s]
    }
}

/// A newline stands at `i`, and not earlier.
pub open spec fn first_newline(s: Seq<char>, i: int) -> bool {
    &&& 0 <= i < s.len()
    &&& s[i] == '\n'
    &&& forall|j: int| 0 <= j < i ==> #[trigger] s[j] != '\n'
}

/// A line without the carriage return at its end, if there is one.
pub open spec fn without_return(s: Seq<char>) -> Seq<char> {
    if s.len() > 0 && s.last() == '\r' {
        s.drop_last()
    } else {
        s
    }
}

/// The lines of a text. A line ends in a newline, or in a carriage return and a
/// newline; the last one may end where the text ends.
pub open spec fn lines(s: Seq<char>) -> Seq<Seq<char>>
    decreases s.len(),
{
    if s.len() == 0 {
        seq![]
    } else if exists|i: int| first_newline(s, i) {
        let i = choose|i: int| first_newline(s, i);
        seq![without_return(s.take(i))] + lines(s.skip(i + 1))
    } else {
        seq![s]
    }
}

/// The characters of a string.
fn chars_of(s: &str) -> (r: Vec<char>)
    ensures
        r@ == s@,
{
    let mut r: Vec<char> = Vec::new();
    for c in it: s.chars()
        invariant
            it.seq() == s@,
            r@ == s@.take(it.index()),
    {
        r.push(c);
        assert(s@.take(it.index() + 1) =~= s@.take(it.index()).push(c));
    }
    assert(s@.take(s@.len() as int) =~= s@);
    r
}

/// Whether two strings hold the same text.
pub fn same_text(a: &str, b: &str) -> (r: bool)
    ensures
        r == (a@ == b@),
{
    let p = chars_of(a);
    let q = chars_of(b);
    if p.len() != q.len() {
        return false;
    }
    let mut i: usize = 0;
    while i < p.len()
        invariant
            p@ == a@,
            q@ == b@,
            p@.len() == q@.len(),
            i <= p@.len(),
            forall|j: int| 0 <= j < i ==> p@[j] == q@[j],
        decreases p@.len() - i,
    {
        if p[i] != q[i] {
            return false;
        }
        i = i + 1;
    }
    assert(a@ =~= b@);
    true
}

/// Whether `text` begins with the prefix `r#` of a raw identifier.
pub fn raw_prefixed(text: &str) -> (r: bool)
    ensures
        r == has_raw_prefix(text@),
{
    text.unicode_len() >= 2 && text.get_char(0) == 'r' && text.get_char(1) == '#'
}

/// Whether `text` holds ASCII characters only.
pub fn all_ascii(text: &str) -> (r: bool)
    ensures
        r == is_ascii_text(text@),
{
    let chars = chars_of(text);
    let mut i: usize = 0;
    while i < chars.len()
        invariant
            chars@ == text@,
            i <= chars@.len(),
            forall|j: int| 0 <= j < i ==> #[trigger] text@[j] <= '\u{7f}',
        decreases chars@.len() - i,
    {
        if chars[i] > '\u{7f}' {
            assert(text@[i as int] > '\u{7f}');
            return false;
        }
        i = i + 1;
    }
    true
}

/// Whether `c` is a character of space or comments.
fn padding(c: char) -> (r: bool)
    ensures
        r == is_padding(c),
{
    c == '/' || c == ' ' || ('\t' <= c && c <= '\r') || c == '\u{85}' || c == '\u{a0}' || c
        == '\u{1680}' || ('\u{2000}' <= c && c <= '\u{200a}') || c == '\u{200e}' || c == '\u{200f}'
        || c == '\u{2028}' || c == '\u{2029}' || c == '\u{202f}' || c == '\u{205f}' || c
        == '\u{3000}' || c == '\u{feff}'
}

/// Whether no space and no comment stands in `text`.
pub fn unpadded(text: &str) -> (r: bool)
    ensures
        r == is_unpadded(text@),
{
    let chars = chars_of(text);
    let mut i: usize = 0;
    while i < chars.len()
        invariant
            chars@ == text@,
            i <= chars@.len(),
            forall|j: int| 0 <= j < i ==> !is_padding(#[trigger] text@[j]),
        decreases chars@.len() - i,
    {
        if padding(chars[i]) {
            assert(is_padding(text@[i as int]));
            return false;
        }
        i = i + 1;
    }
    true
}

/// Splits a path into its segments.
pub fn split_path(path: &str) -> (r: Vec<String>)
    ensures
        texts(r@) == segments(path@),
{
    let chars = chars_of(path);
    let mut r: Vec<String> = Vec::new();
    let mut start: usize = 0;
    let mut i: usize = 0;
    assert(path@.skip(0) =~= path@);
    while i < chars.len()
        invariant
            chars@ == path@,
            start <= i <= chars@.len(),
            segments(path@) == texts(r@) + segments(path@.skip(start as int)),
            forall|j: int|
                start <= j < i && j + 1 < path@.len() ==> !(#[trigger] path@[j] == ':' && path@[j
                    + 1] == ':'),
        decreases chars@.len() - i,
    {
        if chars[i] == ':' && i < chars.len() - 1 && chars[i + 1] == ':' {
            let ghost rest = path@.skip(start as int);
            let ghost done = texts(r@);
            let segment = path.substring_char(start, i);
            r.push(segment.to_owned());
            proof {
                let k = i - start;
                assert(first_separator(rest, k));
                let m = choose|m: int| first_separator(rest, m);
                assert(first_separator(rest, m));
                assert(m == k);
                assert(rest.take(k) =~= segment@);
                assert(rest.skip(k + 2) =~= path@.skip(i + 2));
                assert(texts(r@) =~= done + seq![segment@]);
                assert(done + (seq![segment@] + segments(path@.skip(i + 2))) =~= texts(r@)
                    + segments(path@.skip(i + 2)));
            }
            i = i + 2;
            start = i;
        } else {
            i = i + 1;
        }
    }
    let ghost done = texts(r@);
    let last = path.substring_char(start, chars.len());
    r.push(last.to_owned());
    proof {
        let rest = path@.skip(start as int);
        assert(rest =~= last@);
        assert forall|m: int| !first_separator(rest, m) by {
            if first_separator(rest, m) {
                assert(path@[start + m] == rest[m]);
                assert(path@[start + m + 1] == rest[m + 1]);
            }
        }
        assert(texts(r@) =~= done + seq![last@]);
    }
    r
}

/// Splits a text into its lines.
pub fn split_lines(text: &str) -> (r: Vec<String>)
    ensures
        texts(r@) == lines(text@),
{
    let chars = chars_of(text);
    let mut r: Vec<String> = Vec::new();
    let mut start: usize = 0;
    let mut i: usize = 0;
    assert(text@.skip(0) =~= text@);
    while i < chars.len()
        invariant
            chars@ == text@,
            start <= i <= chars@.len(),
            lines(text@) == texts(r@) + lines(text@.skip(start as int)),
            forall|j: int| start <= j < i ==> #[trigger] text@[j] != '\n',
        decreases chars@.len() - i,
    {
        if chars[i] == '\n' {
            let ghost rest = text@.skip(start as int);
            let ghost done = texts(r@);
            let end: usize = if start < i && chars[i - 1] == '\r' {
                i - 1
            } else {
                i
            };
            let line = text.substring_char(start, end);
            r.push(line.to_owned());
            proof {
                let k = i - start;
                assert(first_newline(rest, k));
                let m = choose|m: int| first_newline(rest, m);
                assert(first_newline(rest, m));
                assert(m == k);
                assert(without_return(rest.take(k)) =~= line@);
                assert(rest.skip(k + 1) =~= text@.skip(i + 1));
                assert(texts(r@) =~= done + seq![line@]);
                assert(done + (seq![line@] + lines(text@.skip(i + 1))) =~= texts(r@) + lines(
                    text@.skip(i + 1),
                ));
            }
            i = i + 1;
            start = i;
        } else {
            i = i + 1;
        }
    }
    let ghost rest = text@.skip(start as int);
    let ghost done = texts(r@);
    if start < chars.len() {
        let last = text.substring_char(start, chars.len());
        r.push(last.to_owned());
        proof {
            assert(rest =~= last@);
            assert forall|m: int| !first_newline(rest, m) by {
                if first_newline(rest, m) {
                    assert(text@[start + m] == rest[m]);
                }
            }
            assert(texts(r@) =~= done + seq![last@]);
        }
    }
    assert(texts(r@) =~= done + lines(rest));
    r
}

} // verus!
