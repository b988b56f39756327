//! Character-level helpers: white space, line splitting and field splitting.
use vstd::prelude::*;

verus! {

/// The characters with the Unicode `White_Space` property, which is what the
/// `\s` class of the line grammar stands for.
pub open spec fn is_white_space(c: char) -> bool {
    ('\u{9}' <= c && c <= '\u{d}') || c == ' ' || c == '\u{85}' || c == '\u{a0}'
        || c == '\u{1680}' || ('\u{2000}' <= c && c <= '\u{200a}') || c == '\u{2028}'
        || c == '\u{2029}' || c == '\u{202f}' || c == '\u{205f}' || c == '\u{3000}'
}

pub fn white_space(c: char) -> (r: bool)
    ensures
        r == is_white_space(c),
{
    ('\u{9}' <= c && c <= '\u{d}') || c == ' ' || c == '\u{85}' || c == '\u{a0}'
        || c == '\u{1680}' || ('\u{2000}' <= c && c <= '\u{200a}') || c == '\u{2028}'
        || c == '\u{2029}' || c == '\u{202f}' || c == '\u{205f}' || c == '\u{3000}'
}

/// Splitting `s` at every `sep`: the pieces that a separator has closed, and
/// the piece still open after the last separator.
pub open spec fn split_at_sep(s: Seq<char>, sep: char) -> (Seq<Seq<char>>, Seq<char>)
    decreases s.len(),
{
    if s.len() == 0 {
        (Seq::empty(), Seq::empty())
    } else {
        let (done, open) = split_at_sep(s.drop_last(), sep);
        if s.last() == sep {
            (done.push(open), Seq::empty())
        } else {
            (done, open.push(s.last()))
        }
    }
}

/// The pieces of `s` between single `sep` characters, empty pieces included:
/// `n` separators give `n + 1` pieces.
pub open spec fn split_fields(s: Seq<char>, sep: char) -> Seq<Seq<char>> {
    split_at_sep(s, sep).0.push(split_at_sep(s, sep).1)
}

/// A line with its `"\r"` terminator part removed.
pub open spec fn strip_cr(l: Seq<char>) -> Seq<char> {
    if l.len() > 0 && l.last() == '\r' {
        l.drop_last()
    } else {
        l
    }
}

/// The lines of a text: pieces ended by `"\n"` or `"\r\n"`, the line
/// ending removed, and a last piece without an ending if it is not empty.
pub open spec fn lines(s: Seq<char>) -> Seq<Seq<char>> {
    let (done, open) = split_at_sep(s, '\n');
    let ended = done.map_values(|l: Seq<char>| strip_cr(l));
    if open.len() == 0 {
        ended
    } else {
        ended.push(open)
    }
}

/// A text that can stand as one line: no line feed in it, and no carriage
/// return at its end.
pub open spec fn is_line(l: Seq<char>) -> bool {
    !l.contains('\n') && (l.len() == 0 || l.last() != '\r')
}

/// Relies on `String::push`: the character is appended.
pub assume_specification[ String::push ](s: &mut String, ch: char)
    ensures
        final(s)@ == old(s)@.push(ch),
;

/// The characters of `s`, in order.
pub fn chars_of(s: &str) -> (r: Vec<char>)
    ensures
        r@ == s@,
{
    let mut r: Vec<char> = Vec::new();
    for c in it: s.chars()
        invariant
            r@ == it.seq().take(it.index() as int),
    {
        r.push(c);
    }
    r
}

} // verus!
