//! Properties that relate parsing and writing.
use vstd::prelude::*;
use crate::classify::{
    classify, closes_header, closes_reading, header_close, header_close_from, reading_close,
    reading_close_from, reading_open, tag_tokens, trailing_tags, white_run_end, LineKind,
};
use crate::cohort::{
    header_text, reading_text, render, render_cohort, render_readings, CohortView, ReadingView,
};
use crate::parse::{parse, parse_lines, step, with_reading};
use crate::text::{is_line, is_white_space, lines, split_at_sep, strip_cr};

verus! {

/// Lines joined back into a text, each followed by a line feed.
pub open spec fn join_lines(ls: Seq<Seq<char>>) -> Seq<char>
    decreases ls.len(),
{
    if ls.len() == 0 {
        Seq::empty()
    } else {
        join_lines(ls.drop_last()) + ls.last() + seq!['\n']
    }
}

proof fn lemma_split_without_sep(s: Seq<char>, sep: char)
    requires
        !s.contains(sep),
    ensures
        split_at_sep(s, sep) == (Seq::<Seq<char>>::empty(), s),
    decreases s.len(),
{
    if s.len() == 0 {
        assert(s =~= Seq::<char>::empty());
    } else {
        assert(!s.drop_last().contains(sep)) by {
            if s.drop_last().contains(sep) {
                let i = choose|i: int| 0 <= i < s.drop_last().len() && s.drop_last()[i] == sep;
                assert(s[i] == sep);
            }
        }
        assert(s[s.len() - 1] != sep);
        lemma_split_without_sep(s.drop_last(), sep);
        assert(s.drop_last().push(s.last()) =~= s);
    }
}

proof fn lemma_split_append(a: Seq<char>, b: Seq<char>, sep: char)
    requires
        a.len() == 0 || a.last() == sep,
    ensures
        split_at_sep(a + b, sep).0 == split_at_sep(a, sep).0 + split_at_sep(b, sep).0,
        split_at_sep(a + b, sep).1 == split_at_sep(b, sep).1,
    decreases b.len(),
{
    if b.len() == 0 {
        assert(a + b =~= a);
        assert(split_at_sep(a, sep).1 == Seq::<char>::empty());
        assert(split_at_sep(a, sep).0 + Seq::<Seq<char>>::empty() =~= split_at_sep(a, sep).0);
    } else {
        lemma_split_append(a, b.drop_last(), sep);
        assert((a + b).drop_last() =~= a + b.drop_last());
        let x = split_at_sep(a, sep).0;
        let y = split_at_sep(b.drop_last(), sep);
        assert((x + y.0).push(y.1) =~= x + y.0.push(y.1));
    }
}

/// Splitting a text after a line feed: the lines before it and those after.
proof fn lemma_lines_append(a: Seq<char>, b: Seq<char>)
    requires
        a.len() == 0 || a.last() == '\n',
    ensures
        lines(a + b) == lines(a) + lines(b),
{
    lemma_split_append(a, b, '\n');
    assert(split_at_sep(a, '\n').1 == Seq::<char>::empty());
    let da = split_at_sep(a, '\n').0;
    let db = split_at_sep(b, '\n').0;
    assert((da + db).map_values(|l: Seq<char>| strip_cr(l)) =~= da.map_values(
        |l: Seq<char>| strip_cr(l),
    ) + db.map_values(|l: Seq<char>| strip_cr(l)));
    let ob = split_at_sep(b, '\n').1;
    if ob.len() > 0 {
        assert((da.map_values(|l: Seq<char>| strip_cr(l)) + db.map_values(
            |l: Seq<char>| strip_cr(l),
        )).push(ob) =~= da.map_values(|l: Seq<char>| strip_cr(l)) + db.map_values(
            |l: Seq<char>| strip_cr(l),
        ).push(ob));
    }
}

proof fn lemma_lines_of_line(l: Seq<char>)
    requires
        !l.contains('\n'),
    ensures
        lines(l + seq!['\n']) == seq![strip_cr(l)],
{
    lemma_split_without_sep(l, '\n');
    let s = l + seq!['\n'];
    assert(s.drop_last() =~= l);
    assert(split_at_sep(s, '\n').0 =~= seq![l]);
    assert(split_at_sep(s, '\n').0.map_values(|x: Seq<char>| strip_cr(x)) =~= seq![strip_cr(l)]);
}

/// Joined lines split back into the same lines.
proof fn lemma_lines_join(ls: Seq<Seq<char>>)
    requires
        forall|i: int| 0 <= i < ls.len() ==> is_line(#[trigger] ls[i]),
    ensures
        lines(join_lines(ls)) == ls,
    decreases ls.len(),
{
    if ls.len() == 0 {
        assert(lines(Seq::<char>::empty()) =~= Seq::<Seq<char>>::empty());
    } else {
        let init = ls.drop_last();
        assert forall|i: int| 0 <= i < init.len() implies is_line(#[trigger] init[i]) by {
            assert(init[i] == ls[i]);
        }
        lemma_lines_join(init);
        assert(is_line(ls[ls.len() - 1]));
        lemma_lines_of_line(ls.last());
        let j = join_lines(init);
        assert(join_lines(ls) =~= j + (ls.last() + seq!['\n']));
        if init.len() > 0 {
            assert(j.last() == '\n');
        }
        lemma_lines_append(j, ls.last() + seq!['\n']);
        assert(init + seq![ls.last()] =~= ls);
    }
}

/// Lines that leave the cohorts read so far alike leave them alike whatever
/// lines follow.
proof fn lemma_parse_lines_congruent(x: Seq<Seq<char>>, y: Seq<Seq<char>>, q: Seq<Seq<char>>)
    requires
        parse_lines(x) == parse_lines(y),
    ensures
        parse_lines(x + q) == parse_lines(y + q),
    decreases q.len(),
{
    if q.len() == 0 {
        assert(x + q =~= x);
        assert(y + q =~= y);
    } else {
        lemma_parse_lines_congruent(x, y, q.drop_last());
        assert((x + q).drop_last() =~= x + q.drop_last());
        assert((y + q).drop_last() =~= y + q.drop_last());
    }
}

proof fn lemma_parse_lines_push(x: Seq<Seq<char>>, l: Seq<char>)
    ensures
        parse_lines(x.push(l)) == step(parse_lines(x), l),
{
    assert(x.push(l).drop_last() =~= x);
}

proof fn lemma_header_close_at(l: Seq<char>, k: int, e: int)
    requires
        2 <= k <= e,
        closes_header(l, e),
        forall|j: int| k <= j < e ==> !closes_header(l, j),
    ensures
        header_close_from(l, k) == Some(e),
    decreases e - k,
{
    if k < e {
        lemma_header_close_at(l, k + 1, e);
    }
}

proof fn lemma_reading_close_at(l: Seq<char>, k: int, e: int)
    requires
        0 <= k <= e,
        closes_reading(l, e),
        forall|j: int| k <= j < e ==> !closes_reading(l, j),
    ensures
        reading_close_from(l, k) == Some(e),
    decreases e - k,
{
    if k < e {
        lemma_reading_close_at(l, k + 1, e);
    }
}

proof fn lemma_white_run_at(l: Seq<char>, i: int, e: int)
    requires
        0 <= i <= e < l.len(),
        !is_white_space(l[e]),
        forall|j: int| i <= j < e ==> is_white_space(l[j]),
    ensures
        white_run_end(l, i) == e,
    decreases e - i,
{
    if i < e {
        lemma_white_run_at(l, i + 1, e);
    }
}

/// A run of white space measured inside `b` is measured the same inside
/// `a + b`, shifted by the length of `a`.
proof fn lemma_white_run_shift(a: Seq<char>, b: Seq<char>, i: int)
    requires
        0 <= i <= b.len(),
    ensures
        white_run_end(a + b, a.len() + i) == a.len() + white_run_end(b, i),
        i <= white_run_end(b, i) <= b.len(),
    decreases b.len() - i,
{
    if i < b.len() {
        assert((a + b)[a.len() + i] == b[i]);
        if is_white_space(b[i]) {
            lemma_white_run_shift(a, b, i + 1);
        }
    }
}

/// The tags after a quoted field that closes where `a` ends and `b` begins
/// are those of the text after the white-space run that opens `b`.
proof fn lemma_trailing_tags_of_rest(a: Seq<char>, b: Seq<char>)
    ensures
        trailing_tags(a + b, a.len() as int) == trailing_tags(b, 0),
{
    lemma_white_run_shift(a, b, 0);
    let w = white_run_end(b, 0);
    assert((a + b).subrange(a.len() + w, (a + b).len() as int) =~= b.subrange(w, b.len() as int));
}

/// A header line `"<WORD>"`, followed by nothing or by white space and a
/// tag string: when the word form holds no double quote, the line is read
/// as a header with exactly that word form, and the tags are those of the
/// text after the whole run of white space.
pub proof fn lemma_header_line(word_form: Seq<char>, rest: Seq<char>)
    requires
        !word_form.contains('"'),
        rest.len() == 0 || is_white_space(rest[0]),
    ensures
        classify(header_text(word_form, Seq::empty()) + rest) == (LineKind::Header {
            word_form,
            tags: trailing_tags(rest, 0),
        }),
{
    let h = header_text(word_form, Seq::empty());
    let l = h + rest;
    let e = word_form.len() + 2int;
    assert(h =~= seq!['"', '<'] + word_form + seq!['>', '"']);
    assert(l[0] == '"' && l[1] == '<' && l[e] == '>' && l[e + 1] == '"');
    assert forall|j: int| 2 <= j < e implies !closes_header(l, j) by {
        if j + 1 < e {
            assert(l[j + 1] == word_form[j - 1]);
        }
    }
    if rest.len() > 0 {
        assert(l[e + 2] == rest[0]);
    }
    lemma_header_close_at(l, 2, e);
    assert(header_close(l) == Some(e));
    assert(l.subrange(2, e) =~= word_form);
    lemma_trailing_tags_of_rest(h, rest);
}

/// A reading line: white space, `"BASE"`, then nothing or white space and a
/// tag string. When the base form holds no double quote, the first quoted
/// field is the base form, whatever the tag string holds (quotes and
/// `"<...>"` tokens included), and the tags are those of the text after the
/// whole run of white space.
pub proof fn lemma_reading_line(indent: Seq<char>, base_form: Seq<char>, rest: Seq<char>)
    requires
        indent.len() > 0,
        forall|i: int| 0 <= i < indent.len() ==> is_white_space(#[trigger] indent[i]),
        !base_form.contains('"'),
        rest.len() == 0 || is_white_space(rest[0]),
    ensures
        classify(indent + seq!['"'] + base_form + seq!['"'] + rest) == (LineKind::Reading {
            base_form,
            tags: trailing_tags(rest, 0),
        }),
{
    let h = indent + seq!['"'] + base_form + seq!['"'];
    let l = h + rest;
    let n = indent.len() as int;
    let e = n + 1 + base_form.len() as int;
    assert(l[0] == indent[0]);
    assert(header_close(l) is None);
    assert forall|j: int| 0 <= j < n implies is_white_space(l[j]) by {
        assert(l[j] == indent[j]);
    }
    assert(l[n] == '"');
    lemma_white_run_at(l, 0, n);
    assert(reading_open(l) == n);
    assert forall|j: int| n + 1 <= j < e implies !closes_reading(l, j) by {
        assert(l[j] == base_form[j - n - 1]);
    }
    assert(l[e] == '"');
    if rest.len() > 0 {
        assert(l[e + 1] == rest[0]);
    }
    lemma_reading_close_at(l, n + 1, e);
    assert(reading_close(l) == Some(e));
    assert(l.subrange(n + 1, e) =~= base_form);
    lemma_trailing_tags_of_rest(h, rest);
}

/// Every character of `s` is white space.
pub open spec fn all_white(s: Seq<char>) -> bool {
    forall|i: int| 0 <= i < s.len() ==> is_white_space(#[trigger] s[i])
}

proof fn lemma_white_run_to_end(l: Seq<char>, i: int)
    requires
        0 <= i <= l.len(),
        all_white(l.subrange(i, l.len() as int)),
    ensures
        white_run_end(l, i) == l.len(),
    decreases l.len() - i,
{
    if i < l.len() {
        assert(l.subrange(i, l.len() as int)[0] == l[i]);
        assert(all_white(l.subrange(i + 1, l.len() as int))) by {
            assert forall|j: int| 0 <= j < l.len() - i - 1 implies is_white_space(
                #[trigger] l.subrange(i + 1, l.len() as int)[j],
            ) by {
                assert(l.subrange(i + 1, l.len() as int)[j] == l.subrange(i, l.len() as int)[j + 1]);
            }
        }
        lemma_white_run_to_end(l, i + 1);
    }
}

/// A header or reading line whose quoted field closes at the end of the
/// line, or before nothing but white space, has no tags: not one empty tag.
pub proof fn lemma_no_trailing_tags(l: Seq<char>)
    ensures
        match classify(l) {
            LineKind::Header { word_form, tags } => all_white(
                l.subrange(word_form.len() + 4int, l.len() as int),
            ) ==> tags.len() == 0,
            LineKind::Reading { base_form, tags } => all_white(
                l.subrange(reading_open(l) + base_form.len() + 2, l.len() as int),
            ) ==> tags.len() == 0,
            LineKind::Noise => true,
        },
{
    match header_close(l) {
        Some(k) => {
            lemma_close_header_bounds(l, 2);
            if all_white(l.subrange(k + 2, l.len() as int)) {
                lemma_white_run_to_end(l, k + 2);
                assert(l.subrange(l.len() as int, l.len() as int) =~= Seq::<char>::empty());
            }
        },
        None => match reading_close(l) {
            Some(k) => {
                lemma_close_reading_bounds(l, reading_open(l) + 1);
                if all_white(l.subrange(k + 1, l.len() as int)) {
                    lemma_white_run_to_end(l, k + 1);
                    assert(l.subrange(l.len() as int, l.len() as int) =~= Seq::<char>::empty());
                }
            },
            None => {},
        },
    }
}

proof fn lemma_close_header_bounds(l: Seq<char>, k: int)
    ensures
        header_close_from(l, k) matches Some(j) ==> k <= j && j + 2 <= l.len(),
    decreases l.len() - k,
{
    if !(k < 2 || k + 2 > l.len()) && !closes_header(l, k) {
        lemma_close_header_bounds(l, k + 1);
    }
}

proof fn lemma_close_reading_bounds(l: Seq<char>, k: int)
    ensures
        reading_close_from(l, k) matches Some(j) ==> k <= j < l.len(),
    decreases l.len() - k,
{
    if !(k < 0 || k >= l.len()) && !closes_reading(l, k) {
        lemma_close_reading_bounds(l, k + 1);
    }
}

/// A line that starts with `:` is noise.
pub proof fn lemma_colon_line_is_noise(l: Seq<char>)
    requires
        l.len() > 0,
        l[0] == ':',
    ensures
        classify(l) is Noise,
{
    assert(white_run_end(l, 0) == 0);
}

/// A noise line anywhere between lines changes neither the cohorts read nor
/// the text they are written back to. The line may end in a carriage return,
/// which is no part of what is classified.
pub proof fn lemma_noise_line(before: Seq<char>, l: Seq<char>, after: Seq<char>)
    requires
        before.len() == 0 || before.last() == '\n',
        !l.contains('\n'),
        classify(strip_cr(l)) is Noise,
    ensures
        parse(before + l + seq!['\n'] + after) == parse(before + after),
        render(parse(before + l + seq!['\n'] + after)) == render(parse(before + after)),
{
    let nl = l + seq!['\n'];
    assert(before + l + seq!['\n'] + after =~= before + (nl + after));
    lemma_lines_append(before, nl + after);
    assert(nl.len() > 0 && nl.last() == '\n');
    lemma_lines_append(nl, after);
    lemma_lines_of_line(l);
    lemma_lines_append(before, after);
    let lb = lines(before);
    let m = strip_cr(l);
    lemma_parse_lines_push(lb, m);
    assert(lb + (seq![m] + lines(after)) =~= lb.push(m) + lines(after));
    lemma_parse_lines_congruent(lb.push(m), lb, lines(after));
}

/// A reading line before the first cohort header is dropped: with only
/// lines other than headers before it, taking it out changes nothing. The
/// line may end in a carriage return, which is no part of what is classified.
pub proof fn lemma_orphan_reading(before: Seq<char>, l: Seq<char>, after: Seq<char>)
    requires
        before.len() == 0 || before.last() == '\n',
        forall|i: int| 0 <= i < lines(before).len() ==> !(classify(#[trigger] lines(before)[i]) is Header),
        !l.contains('\n'),
        classify(strip_cr(l)) is Reading,
    ensures
        parse(before + l + seq!['\n'] + after) == parse(before + after),
{
    let nl = l + seq!['\n'];
    assert(before + l + seq!['\n'] + after =~= before + (nl + after));
    lemma_lines_append(before, nl + after);
    assert(nl.len() > 0 && nl.last() == '\n');
    lemma_lines_append(nl, after);
    lemma_lines_of_line(l);
    lemma_lines_append(before, after);
    let lb = lines(before);
    let m = strip_cr(l);
    lemma_no_header_no_cohort(lb);
    lemma_parse_lines_push(lb, m);
    assert(lb + (seq![m] + lines(after)) =~= lb.push(m) + lines(after));
    lemma_parse_lines_congruent(lb.push(m), lb, lines(after));
}

proof fn lemma_no_header_no_cohort(ls: Seq<Seq<char>>)
    requires
        forall|i: int| 0 <= i < ls.len() ==> !(classify(#[trigger] ls[i]) is Header),
    ensures
        parse_lines(ls).len() == 0,
    decreases ls.len(),
{
    if ls.len() > 0 {
        let init = ls.drop_last();
        assert forall|i: int| 0 <= i < init.len() implies !(classify(#[trigger] init[i]) is Header) by {
            assert(init[i] == ls[i]);
        }
        lemma_no_header_no_cohort(init);
        assert(!(classify(ls[ls.len() - 1]) is Header));
    }
}

/// A line in written form: a header line exactly as its cohort is written,
/// or a reading line exactly as its reading is written.
pub open spec fn is_canonical_line(l: Seq<char>) -> bool {
    match classify(l) {
        LineKind::Header { word_form, tags } => l == header_text(word_form, tags),
        LineKind::Reading { base_form, tags } => l == reading_text(base_form, tags),
        LineKind::Noise => false,
    }
}

/// A text in written form: lines each ended by a single line feed, every
/// one of them a header or reading line in written form, the first a header.
pub open spec fn is_canonical(s: Seq<char>) -> bool {
    &&& s == join_lines(lines(s))
    &&& forall|i: int| 0 <= i < lines(s).len() ==> is_canonical_line(#[trigger] lines(s)[i])
    &&& lines(s).len() > 0 ==> classify(lines(s)[0]) is Header
}

proof fn lemma_render_parse_lines(ls: Seq<Seq<char>>)
    requires
        forall|i: int| 0 <= i < ls.len() ==> is_canonical_line(#[trigger] ls[i]),
        ls.len() > 0 ==> classify(ls[0]) is Header,
    ensures
        render(parse_lines(ls)) == join_lines(ls),
        ls.len() > 0 ==> parse_lines(ls).len() > 0,
    decreases ls.len(),
{
    if ls.len() > 0 {
        let init = ls.drop_last();
        let l = ls.last();
        assert forall|i: int| 0 <= i < init.len() implies is_canonical_line(#[trigger] init[i]) by {
            assert(init[i] == ls[i]);
        }
        if init.len() > 0 {
            assert(init[0] == ls[0]);
        }
        lemma_render_parse_lines(init);
        let cs = parse_lines(init);
        assert(is_canonical_line(ls[ls.len() - 1]));
        match classify(l) {
            LineKind::Header { word_form, tags } => {
                let c = CohortView { word_form, tags, readings: Seq::empty() };
                assert(cs.push(c).drop_last() =~= cs);
                assert(render_readings(Seq::<ReadingView>::empty()) =~= Seq::<char>::empty());
                assert(render(cs.push(c)) =~= join_lines(ls));
            },
            LineKind::Reading { base_form, tags } => {
                let r = ReadingView { base_form, tags };
                let c = cs.last();
                let cs2 = cs.update(cs.len() - 1, with_reading(c, r));
                assert(cs2.drop_last() =~= cs.drop_last());
                assert(c.readings.push(r).drop_last() =~= c.readings);
                assert(render_cohort(with_reading(c, r)) =~= render_cohort(c) + l + seq!['\n']);
                assert(render(cs2) =~= join_lines(ls));
            },
            LineKind::Noise => {},
        }
    }
}

/// Text in written form is written back unchanged after parsing, and the
/// cohorts parsed from it are parsed again, unchanged, from what they are
/// written to.
pub proof fn lemma_canonical_round_trip(s: Seq<char>)
    requires
        is_canonical(s),
    ensures
        render(parse(s)) == s,
        parse(render(parse(s))) == parse(s),
{
    lemma_render_parse_lines(lines(s));
}

/// The readings that the reading lines among `ls` give, in their order.
pub open spec fn reading_views(ls: Seq<Seq<char>>) -> Seq<ReadingView>
    decreases ls.len(),
{
    if ls.len() == 0 {
        Seq::empty()
    } else {
        match classify(ls.last()) {
            LineKind::Reading { base_form, tags } => reading_views(ls.drop_last()).push(
                ReadingView { base_form, tags },
            ),
            _ => reading_views(ls.drop_last()),
        }
    }
}

/// A header line, then lines that are no header lines (reading lines, with
/// any noise among them), then the next header line or the end of the text:
/// the cohort that the header starts has the header's word form and tags and
/// exactly one reading per reading line, in their order; the cohorts before
/// it are those of the text before.
pub proof fn lemma_readings_accumulate(
    before: Seq<char>,
    header: Seq<char>,
    body: Seq<Seq<char>>,
    after: Seq<char>,
)
    requires
        before.len() == 0 || before.last() == '\n',
        is_line(header),
        classify(header) is Header,
        forall|i: int| 0 <= i < body.len() ==> is_line(#[trigger] body[i]) && !(classify(body[i]) is Header),
        lines(after).len() == 0 || classify(lines(after)[0]) is Header,
    ensures
        ({
            let cs = parse(before + header + seq!['\n'] + join_lines(body) + after);
            let k = parse(before).len();
            &&& cs.len() > k
            &&& cs.take(k as int) == parse(before)
            &&& classify(header) == (LineKind::Header {
                word_form: cs[k as int].word_form,
                tags: cs[k as int].tags,
            })
            &&& cs[k as int].readings == reading_views(body)
        }),
{
    lemma_lines_around(before, header, body, after);
    let lb = lines(before);
    let la = lines(after);
    lemma_body_prefix(lb, header, body, body.len() as int);
    assert(body.take(body.len() as int) =~= body);
    lemma_cohort_kept(lb.push(header) + body, la, parse_lines(lb).len() as int);
    let px = parse_lines(lb.push(header) + body);
    let k = parse_lines(lb).len();
    assert(px[k as int] == px.last());
    let cs = parse_lines(lb.push(header) + body + la);
    assert forall|i: int| 0 <= i < k implies cs.take(k as int)[i] == parse_lines(lb)[i] by {
        assert(px.drop_last()[i] == px[i]);
    }
    assert(cs.take(k as int) =~= parse_lines(lb));
}

proof fn lemma_lines_around(before: Seq<char>, header: Seq<char>, body: Seq<Seq<char>>, after: Seq<char>)
    requires
        before.len() == 0 || before.last() == '\n',
        is_line(header),
        forall|i: int| 0 <= i < body.len() ==> is_line(#[trigger] body[i]),
    ensures
        lines(before + header + seq!['\n'] + join_lines(body) + after) == lines(before).push(header)
            + body + lines(after),
{
    let nl = header + seq!['\n'];
    let jb = join_lines(body);
    assert(before + header + seq!['\n'] + jb + after =~= before + (nl + (jb + after)));
    lemma_lines_append(before, nl + (jb + after));
    assert(nl.len() > 0 && nl.last() == '\n');
    lemma_lines_append(nl, jb + after);
    lemma_lines_of_line(header);
    if body.len() > 0 {
        assert(jb.last() == '\n');
    }
    lemma_lines_append(jb, after);
    lemma_lines_join(body);
    assert(lines(before) + (seq![header] + (body + lines(after))) =~= lines(before).push(header)
        + body + lines(after));
}

/// The cohorts up to `k`, the last read, stay as they are when lines
/// follow that start with a header line.
proof fn lemma_cohort_kept(x: Seq<Seq<char>>, la: Seq<Seq<char>>, k: int)
    requires
        0 <= k,
        parse_lines(x).len() == k + 1,
        la.len() == 0 || classify(la[0]) is Header,
    ensures
        parse_lines(x + la).len() > k,
        forall|i: int| 0 <= i <= k ==> #[trigger] parse_lines(x + la)[i] == parse_lines(x)[i],
{
    if la.len() == 0 {
        assert(x + la =~= x);
    } else {
        let y = x.push(la[0]);
        assert(x + la =~= y + la.drop_first());
        lemma_parse_lines_push(x, la[0]);
        lemma_only_last_changes(y, la.drop_first());
        assert forall|i: int| 0 <= i <= k implies #[trigger] parse_lines(x + la)[i] == parse_lines(x)[i] by {
            assert(parse_lines(y)[i] == parse_lines(x)[i]);
        }
    }
}

/// Lines that follow change only the last cohort read so far, and add
/// cohorts after it.
proof fn lemma_only_last_changes(x: Seq<Seq<char>>, q: Seq<Seq<char>>)
    ensures
        parse_lines(x + q).len() >= parse_lines(x).len(),
        forall|i: int|
            0 <= i < parse_lines(x).len() - 1 ==> #[trigger] parse_lines(x + q)[i] == parse_lines(x)[i],
    decreases q.len(),
{
    if q.len() == 0 {
        assert(x + q =~= x);
    } else {
        let y = x + q.drop_last();
        lemma_only_last_changes(x, q.drop_last());
        assert((x + q).drop_last() =~= y);
        let py = parse_lines(y);
        assert forall|i: int| 0 <= i < parse_lines(x).len() - 1 implies #[trigger] parse_lines(x + q)[i]
            == parse_lines(x)[i] by {
            assert(py[i] == parse_lines(x)[i]);
        }
    }
}

proof fn lemma_body_prefix(lb: Seq<Seq<char>>, header: Seq<char>, body: Seq<Seq<char>>, n: int)
    requires
        classify(header) is Header,
        0 <= n <= body.len(),
        forall|i: int| 0 <= i < body.len() ==> !(classify(#[trigger] body[i]) is Header),
    ensures
        ({
            let cs = parse_lines(lb.push(header) + body.take(n));
            &&& cs.len() == parse_lines(lb).len() + 1
            &&& cs.drop_last() == parse_lines(lb)
            &&& classify(header) == (LineKind::Header {
                word_form: cs.last().word_form,
                tags: cs.last().tags,
            })
            &&& cs.last().readings == reading_views(body.take(n))
        }),
    decreases n,
{
    if n == 0 {
        assert(lb.push(header) + body.take(0) =~= lb.push(header));
        lemma_parse_lines_push(lb, header);
        assert(parse_lines(lb).push(parse_lines(lb.push(header)).last()).drop_last() =~= parse_lines(lb));
        assert(body.take(0) =~= Seq::<Seq<char>>::empty());
    } else {
        lemma_body_prefix(lb, header, body, n - 1);
        let x = lb.push(header) + body.take(n - 1);
        assert(lb.push(header) + body.take(n) =~= x.push(body[n - 1]));
        lemma_parse_lines_push(x, body[n - 1]);
        assert(body.take(n).drop_last() =~= body.take(n - 1));
        assert(body.take(n).last() == body[n - 1]);
        let cs = parse_lines(x);
        assert(!(classify(body[n - 1]) is Header));
        match classify(body[n - 1]) {
            LineKind::Reading { base_form, tags } => {
                let r = ReadingView { base_form, tags };
                let cs2 = cs.update(cs.len() - 1, with_reading(cs.last(), r));
                assert(cs2.drop_last() =~= cs.drop_last());
            },
            _ => {},
        }
    }
}

proof fn lemma_readings_prefix(lb: Seq<Seq<char>>, header: Seq<char>, rs: Seq<Seq<char>>, n: int)
    requires
        classify(header) is Header,
        0 <= n <= rs.len(),
        forall|i: int| 0 <= i < rs.len() ==> classify(#[trigger] rs[i]) is Reading,
    ensures
        ({
            let cs = parse_lines(lb.push(header) + rs.take(n));
            &&& cs.len() == parse_lines(lb).len() + 1
            &&& cs.drop_last() == parse_lines(lb)
            &&& classify(header) == (LineKind::Header {
                word_form: cs.last().word_form,
                tags: cs.last().tags,
            })
            &&& cs.last().readings.len() == n
            &&& forall|i: int|
                0 <= i < n ==> classify(#[trigger] rs[i]) == (LineKind::Reading {
                    base_form: cs.last().readings[i].base_form,
                    tags: cs.last().readings[i].tags,
                })
        }),
    decreases n,
{
    if n == 0 {
        assert(lb.push(header) + rs.take(0) =~= lb.push(header));
        lemma_parse_lines_push(lb, header);
        assert(parse_lines(lb).push(parse_lines(lb.push(header)).last()).drop_last() =~= parse_lines(lb));
    } else {
        lemma_readings_prefix(lb, header, rs, n - 1);
        let x = lb.push(header) + rs.take(n - 1);
        assert(lb.push(header) + rs.take(n) =~= x.push(rs[n - 1]));
        lemma_parse_lines_push(x, rs[n - 1]);
        let cs = parse_lines(x);
        assert(classify(rs[n - 1]) is Reading);
        let c = cs.last();
        match classify(rs[n - 1]) {
            LineKind::Reading { base_form, tags } => {
                let r = ReadingView { base_form, tags };
                let cs2 = cs.update(cs.len() - 1, with_reading(c, r));
                assert(cs2.drop_last() =~= cs.drop_last());
                assert(cs2.last() == with_reading(c, r));
                assert forall|i: int| 0 <= i < n implies classify(#[trigger] rs[i]) == (LineKind::Reading {
                    base_form: cs2.last().readings[i].base_form,
                    tags: cs2.last().readings[i].tags,
                }) by {
                    if i < n - 1 {
                        assert(cs2.last().readings[i] == c.readings[i]);
                    }
                }
            },
            _ => {},
        }
    }
}

/// The lines that a cohort is written to, without line feeds.
pub open spec fn cohort_lines(c: CohortView) -> Seq<Seq<char>> {
    seq![header_text(c.word_form, c.tags)] + c.readings.map_values(
        |r: ReadingView| reading_text(r.base_form, r.tags),
    )
}

/// The lines that a sequence of cohorts is written to, without line feeds.
pub open spec fn written_lines(cs: Seq<CohortView>) -> Seq<Seq<char>>
    decreases cs.len(),
{
    if cs.len() == 0 {
        Seq::empty()
    } else {
        written_lines(cs.drop_last()) + cohort_lines(cs.last())
    }
}

/// A cohort that reads back as itself: its header line and each reading line
/// are single lines, and each is read as the header or reading it was
/// written from.
pub open spec fn reads_back(c: CohortView) -> bool {
    &&& is_line(header_text(c.word_form, c.tags))
    &&& classify(header_text(c.word_form, c.tags)) == (LineKind::Header {
        word_form: c.word_form,
        tags: c.tags,
    })
    &&& forall|i: int|
        0 <= i < c.readings.len() ==> {
            let r = #[trigger] c.readings[i];
            &&& is_line(reading_text(r.base_form, r.tags))
            &&& classify(reading_text(r.base_form, r.tags)) == (LineKind::Reading {
                base_form: r.base_form,
                tags: r.tags,
            })
        }
}

proof fn lemma_join_append(a: Seq<Seq<char>>, b: Seq<Seq<char>>)
    ensures
        join_lines(a + b) == join_lines(a) + join_lines(b),
    decreases b.len(),
{
    if b.len() == 0 {
        assert(a + b =~= a);
        assert(join_lines(a) + join_lines(b) =~= join_lines(a));
    } else {
        lemma_join_append(a, b.drop_last());
        assert((a + b).drop_last() =~= a + b.drop_last());
        assert(join_lines(a + b) =~= join_lines(a) + join_lines(b));
    }
}

proof fn lemma_render_readings_join(rs: Seq<ReadingView>)
    ensures
        render_readings(rs) == join_lines(
            rs.map_values(|r: ReadingView| reading_text(r.base_form, r.tags)),
        ),
    decreases rs.len(),
{
    let f = |r: ReadingView| reading_text(r.base_form, r.tags);
    if rs.len() > 0 {
        lemma_render_readings_join(rs.drop_last());
        assert(rs.map_values(f).drop_last() =~= rs.drop_last().map_values(f));
    } else {
        assert(rs.map_values(f) =~= Seq::<Seq<char>>::empty());
    }
}

proof fn lemma_render_written_lines(cs: Seq<CohortView>)
    ensures
        render(cs) == join_lines(written_lines(cs)),
    decreases cs.len(),
{
    if cs.len() > 0 {
        let c = cs.last();
        lemma_render_written_lines(cs.drop_last());
        lemma_join_append(written_lines(cs.drop_last()), cohort_lines(c));
        let rl = c.readings.map_values(|r: ReadingView| reading_text(r.base_form, r.tags));
        lemma_join_append(seq![header_text(c.word_form, c.tags)], rl);
        lemma_render_readings_join(c.readings);
        let one = seq![header_text(c.word_form, c.tags)];
        assert(one.drop_last() =~= Seq::<Seq<char>>::empty());
        assert(join_lines(one.drop_last()) == Seq::<char>::empty());
        assert(join_lines(one) =~= header_text(c.word_form, c.tags) + seq!['\n']);
    }
}

proof fn lemma_parse_written_lines(cs: Seq<CohortView>)
    requires
        forall|i: int| 0 <= i < cs.len() ==> reads_back(#[trigger] cs[i]),
    ensures
        parse_lines(written_lines(cs)) == cs,
        forall|i: int| 0 <= i < written_lines(cs).len() ==> is_line(#[trigger] written_lines(cs)[i]),
    decreases cs.len(),
{
    if cs.len() > 0 {
        let init = cs.drop_last();
        let c = cs.last();
        assert forall|i: int| 0 <= i < init.len() implies reads_back(#[trigger] init[i]) by {
            assert(init[i] == cs[i]);
        }
        lemma_parse_written_lines(init);
        assert(reads_back(cs[cs.len() - 1]));
        let h = header_text(c.word_form, c.tags);
        let rl = c.readings.map_values(|r: ReadingView| reading_text(r.base_form, r.tags));
        let lb = written_lines(init);
        assert(written_lines(cs) =~= lb.push(h) + rl);
        assert forall|i: int| 0 <= i < rl.len() implies classify(#[trigger] rl[i]) is Reading by {
            assert(reads_back(c));
            let r = c.readings[i];
            assert(classify(reading_text(r.base_form, r.tags)) is Reading);
        }
        lemma_readings_prefix(lb, h, rl, rl.len() as int);
        assert(rl.take(rl.len() as int) =~= rl);
        let out = parse_lines(lb.push(h) + rl);
        assert forall|i: int| 0 <= i < c.readings.len() implies out.last().readings[i]
            == c.readings[i] by {
            let r = c.readings[i];
            assert(classify(rl[i]) == (LineKind::Reading { base_form: r.base_form, tags: r.tags }));
        }
        assert(out.last().readings =~= c.readings);
        assert(out.last().word_form == c.word_form && out.last().tags == c.tags);
        assert(out.last() == c);
        assert forall|i: int| 0 <= i < cs.len() implies out[i] == cs[i] by {
            if i < init.len() {
                assert(out[i] == out.drop_last()[i]);
                assert(init[i] == cs[i]);
            }
        }
        assert(out =~= cs);
        let wl = written_lines(cs);
        assert forall|i: int| 0 <= i < wl.len() implies is_line(#[trigger] wl[i]) by {
            if i < lb.len() {
                assert(wl[i] == lb[i]);
            } else if i > lb.len() {
                let r = c.readings[i - lb.len() - 1];
                assert(wl[i] == reading_text(r.base_form, r.tags));
            }
        }
    }
}

/// Cohorts that each read back as themselves are parsed, unchanged, from the
/// text they are written to.
pub proof fn lemma_written_cohorts_read_back(cs: Seq<CohortView>)
    requires
        forall|i: int| 0 <= i < cs.len() ==> reads_back(#[trigger] cs[i]),
    ensures
        parse(render(cs)) == cs,
{
    lemma_render_written_lines(cs);
    lemma_parse_written_lines(cs);
    lemma_lines_join(written_lines(cs));
}


/// A line that opens as a written header (`"<`) or as a written reading
/// (four spaces and `"`).
pub open spec fn opens_written_line(l: Seq<char>) -> bool {
    ||| l.len() >= 2 && l[0] == '"' && l[1] == '<'
    ||| l.len() >= 5 && l.take(5) == seq![' ', ' ', ' ', ' ', '"']
}

/// What any cohorts are written to is lines, each ended by a line feed, and
/// each opening as a header or a reading: no other line is ever written.
pub proof fn lemma_written_lines_open(cs: Seq<CohortView>)
    ensures
        render(cs) == join_lines(written_lines(cs)),
        forall|i: int|
            0 <= i < written_lines(cs).len() ==> opens_written_line(#[trigger] written_lines(cs)[i]),
    decreases cs.len(),
{
    lemma_render_written_lines(cs);
    if cs.len() > 0 {
        let c = cs.last();
        lemma_written_lines_open(cs.drop_last());
        let lb = written_lines(cs.drop_last());
        let wl = written_lines(cs);
        assert forall|i: int| 0 <= i < wl.len() implies opens_written_line(#[trigger] wl[i]) by {
            if i < lb.len() {
                assert(wl[i] == lb[i]);
            } else if i == lb.len() {
                assert(wl[i] == header_text(c.word_form, c.tags));
            } else {
                let r = c.readings[i - lb.len() - 1];
                let t = reading_text(r.base_form, r.tags);
                assert(wl[i] == t);
                assert(t.take(5) =~= seq![' ', ' ', ' ', ' ', '"']);
            }
        }
    }
}

} // verus!
