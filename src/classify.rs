//! The line grammar: which lines start a cohort, which add a reading, and
//! which are noise.
use vstd::prelude::*;
use crate::cohort::{texts, Cohort, CohortView, Reading, ReadingView};
use crate::text::{is_white_space, split_at_sep, split_fields, white_space};

verus! {

/// What one line of input contributes.
pub enum LineKind {
    /// `"<WORD>"`, then optionally white space and tags.
    Header { word_form: Seq<char>, tags: Seq<Seq<char>> },
    /// White space, `"BASE"`, then optionally white space and tags.
    Reading { base_form: Seq<char>, tags: Seq<Seq<char>> },
    /// Anything else.
    Noise,
}

/// The tags of a trailing tag string: none for an empty string, else its
/// pieces between single spaces.
pub open spec fn tag_tokens(t: Seq<char>) -> Seq<Seq<char>> {
    if t.len() == 0 {
        Seq::empty()
    } else {
        split_fields(t, ' ')
    }
}

/// The tags of line `l` whose quoted field closes just before `end`: the tag
/// string is what follows the whole run of white space from `end`, so a field
/// followed by nothing but white space has no tags.
pub open spec fn trailing_tags(l: Seq<char>, end: int) -> Seq<Seq<char>> {
    tag_tokens(l.subrange(white_run_end(l, end), l.len() as int))
}

/// Position `k` can end a header's word form: `>"` stands there, followed by
/// the end of the line or by white space.
pub open spec fn closes_header(l: Seq<char>, k: int) -> bool {
    &&& 2 <= k
    &&& k + 2 <= l.len()
    &&& l[k] == '>'
    &&& l[k + 1] == '"'
    &&& (k + 2 == l.len() || is_white_space(l[k + 2]))
}

/// The first position from `k` on that can end a header's word form.
pub open spec fn header_close_from(l: Seq<char>, k: int) -> Option<int>
    decreases l.len() - k,
{
    if k < 2 || k + 2 > l.len() {
        None
    } else if closes_header(l, k) {
        Some(k)
    } else {
        header_close_from(l, k + 1)
    }
}

/// Where a header line's word form ends: the line starts with `"<`, and the
/// word form is the shortest that a closing `>"` can end.
pub open spec fn header_close(l: Seq<char>) -> Option<int> {
    if l.len() >= 2 && l[0] == '"' && l[1] == '<' {
        header_close_from(l, 2)
    } else {
        None
    }
}

/// The end of the run of white space in `l` that starts at `i`.
pub open spec fn white_run_end(l: Seq<char>, i: int) -> int
    decreases l.len() - i,
{
    if 0 <= i < l.len() && is_white_space(l[i]) {
        white_run_end(l, i + 1)
    } else {
        i
    }
}

/// Position `k` can end a reading's base form: `"` stands there, followed by
/// the end of the line or by white space.
pub open spec fn closes_reading(l: Seq<char>, k: int) -> bool {
    &&& 0 <= k < l.len()
    &&& l[k] == '"'
    &&& (k + 1 == l.len() || is_white_space(l[k + 1]))
}

/// The first position from `k` on that can end a reading's base form.
pub open spec fn reading_close_from(l: Seq<char>, k: int) -> Option<int>
    decreases l.len() - k,
{
    if k < 0 || k >= l.len() {
        None
    } else if closes_reading(l, k) {
        Some(k)
    } else {
        reading_close_from(l, k + 1)
    }
}

/// Where a reading line's opening quote stands: after the leading white space.
pub open spec fn reading_open(l: Seq<char>) -> int {
    white_run_end(l, 0)
}

/// Where a reading line's base form ends: the line starts with white space
/// and then `"`, and the base form is the shortest that a closing `"` can end.
pub open spec fn reading_close(l: Seq<char>) -> Option<int> {
    let n = reading_open(l);
    if 1 <= n < l.len() && l[n] == '"' {
        reading_close_from(l, n + 1)
    } else {
        None
    }
}

/// The verdict on one line.
pub open spec fn classify(l: Seq<char>) -> LineKind {
    match header_close(l) {
        Some(k) => LineKind::Header { word_form: l.subrange(2, k), tags: trailing_tags(l, k + 2) },
        None => match reading_close(l) {
            Some(k) => LineKind::Reading {
                base_form: l.subrange(reading_open(l) + 1, k),
                tags: trailing_tags(l, k + 1),
            },
            None => LineKind::Noise,
        },
    }
}

/// The characters `l[from..to]` as a string.
fn string_of(l: &Vec<char>, from: usize, to: usize) -> (r: String)
    requires
        from <= to <= l.len(),
    ensures
        r@ == l@.subrange(from as int, to as int),
{
    let mut s = String::new();
    for i in from..to
        invariant
            from <= i <= to <= l.len(),
            s@ == l@.subrange(from as int, i as int),
    {
        s.push(l[i]);
        assert(s@ =~= l@.subrange(from as int, i + 1));
    }
    s
}

/// The tags of the tag string `l[from..]`.
fn tags_from(l: &Vec<char>, from: usize) -> (r: Vec<String>)
    requires
        from <= l.len(),
    ensures
        texts(r@) == tag_tokens(l@.subrange(from as int, l.len() as int)),
{
    let ghost t = l@.subrange(from as int, l.len() as int);
    if from == l.len() {
        return Vec::new();
    }
    let mut done: Vec<String> = Vec::new();
    let mut open = String::new();
    for i in from..l.len()
        invariant
            from <= i <= l.len(),
            t == l@.subrange(from as int, l.len() as int),
            (texts(done@), open@) == split_at_sep(t.take(i - from), ' '),
    {
        let ghost pre = t.take(i - from);
        assert(t.take(i - from + 1).drop_last() =~= pre);
        if l[i] == ' ' {
            done.push(open);
            open = String::new();
            assert(texts(done@) =~= split_at_sep(pre, ' ').0.push(
                split_at_sep(pre, ' ').1,
            ));
        } else {
            open.push(l[i]);
        }
    }
    assert(t.take(l.len() - from) =~= t);
    done.push(open);
    assert(texts(done@) =~= split_fields(t, ' '));
    done
}

/// The end of the run of white space in `l` that starts at `from`.
fn skip_white(l: &Vec<char>, from: usize) -> (r: usize)
    requires
        from <= l.len(),
    ensures
        from <= r <= l.len(),
        r == white_run_end(l@, from as int),
{
    let mut n = from;
    while n < l.len() && white_space(l[n])
        invariant
            from <= n <= l.len(),
            white_run_end(l@, from as int) == white_run_end(l@, n as int),
        decreases l.len() - n,
    {
        n = n + 1;
    }
    n
}

/// The first position from `k` on that can end a header's word form.
fn find_header_close(l: &Vec<char>, k: usize) -> (r: Option<usize>)
    requires
        k >= 2,
    ensures
        r matches Some(j) ==> k <= j && j + 2 <= l.len(),
        r matches Some(j) ==> header_close_from(l@, k as int) == Some(j as int),
        r is None ==> header_close_from(l@, k as int) is None,
{
    let mut j = k;
    while l.len() >= 2 && j <= l.len() - 2
        invariant
            2 <= k <= j,
            header_close_from(l@, k as int) == header_close_from(l@, j as int),
        decreases l.len() - j,
    {
        if l[j] == '>' && l[j + 1] == '"' && (j + 2 == l.len() || white_space(l[j + 2])) {
            return Some(j);
        }
        j = j + 1;
    }
    None
}

/// The first position from `k` on that can end a reading's base form.
fn find_reading_close(l: &Vec<char>, k: usize) -> (r: Option<usize>)
    ensures
        r matches Some(j) ==> k <= j < l.len(),
        r matches Some(j) ==> reading_close_from(l@, k as int) == Some(j as int),
        r is None ==> reading_close_from(l@, k as int) is None,
{
    let mut j = k;
    while j < l.len()
        invariant
            k <= j,
            reading_close_from(l@, k as int) == reading_close_from(l@, j as int),
        decreases l.len() - j,
    {
        if l[j] == '"' && (j + 1 == l.len() || white_space(l[j + 1])) {
            return Some(j);
        }
        j = j + 1;
    }
    None
}

impl Cohort {
    /// The cohort that a header line starts, with no readings yet; `None`
    /// for a line that is no header.
    pub fn from_line(l: &Vec<char>) -> (r: Option<Cohort>)
        ensures
            match classify(l@) {
                LineKind::Header { word_form, tags } => r matches Some(c) && c@ == (CohortView {
                    word_form,
                    tags,
                    readings: Seq::empty(),
                }),
                _ => r is None,
            },
    {
        if l.len() < 2 || l[0] != '"' || l[1] != '<' {
            return None;
        }
        match find_header_close(l, 2) {
            Some(k) => {
                let word_form = string_of(l, 2, k);
                let tags = tags_from(l, skip_white(l, k + 2));
                let c = Cohort { word_form, tags, readings: Vec::new() };
                assert(c@.readings =~= Seq::<ReadingView>::empty());
                assert(c@.tags =~= trailing_tags(l@, k + 2));
                Some(c)
            },
            None => None,
        }
    }
}

impl Reading {
    /// The reading that a reading line gives; `None` for a line that is no
    /// reading line (a header line included).
    pub fn from_line(l: &Vec<char>) -> (r: Option<Reading>)
        ensures
            match classify(l@) {
                LineKind::Reading { base_form, tags } => r matches Some(x) && x@ == (ReadingView {
                    base_form,
                    tags,
                }),
                _ => r is None,
            },
    {
        if l.len() >= 2 && l[0] == '"' && l[1] == '<' {
            if find_header_close(l, 2).is_some() {
                return None;
            }
        }
        let n = skip_white(l, 0);
        if n == 0 || n >= l.len() || l[n] != '"' {
            return None;
        }
        match find_reading_close(l, n + 1) {
            Some(k) => {
                let base_form = string_of(l, n + 1, k);
                let tags = tags_from(l, skip_white(l, k + 1));
                let x = Reading { base_form, tags };
                assert(x@.tags =~= trailing_tags(l@, k + 1));
                Some(x)
            },
            None => None,
        }
    }
}

} // verus!
