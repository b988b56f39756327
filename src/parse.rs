//! Building the cohort sequence from text, one line at a time.
use vstd::prelude::*;
use crate::classify::{classify, LineKind};
use crate::cohort::{cohort_views, Cohort, CohortView, Reading, ReadingView};
use crate::text::{chars_of, lines, split_at_sep, strip_cr};

verus! {

/// `c` with one more reading at the end.
pub open spec fn with_reading(c: CohortView, r: ReadingView) -> CohortView {
    CohortView { word_form: c.word_form, tags: c.tags, readings: c.readings.push(r) }
}

/// What one line does to the cohorts read so far: a header line adds a
/// cohort without readings; a reading line adds a reading to the last
/// cohort, and is dropped while there is none; any other line does nothing.
pub open spec fn step(cs: Seq<CohortView>, l: Seq<char>) -> Seq<CohortView> {
    match classify(l) {
        LineKind::Header { word_form, tags } => cs.push(
            CohortView { word_form, tags, readings: Seq::empty() },
        ),
        LineKind::Reading { base_form, tags } => if cs.len() == 0 {
            cs
        } else {
            cs.update(cs.len() - 1, with_reading(cs.last(), ReadingView { base_form, tags }))
        },
        LineKind::Noise => cs,
    }
}

/// The cohorts that a sequence of lines gives, read in order.
pub open spec fn parse_lines(ls: Seq<Seq<char>>) -> Seq<CohortView>
    decreases ls.len(),
{
    if ls.len() == 0 {
        Seq::empty()
    } else {
        step(parse_lines(ls.drop_last()), ls.last())
    }
}

/// The cohorts of a text.
pub open spec fn parse(s: Seq<char>) -> Seq<CohortView> {
    parse_lines(lines(s))
}

/// Applies one line to the cohorts read so far.
fn add_line(out: &mut Vec<Cohort>, l: &Vec<char>)
    ensures
        cohort_views(final(out)@) == step(cohort_views(old(out)@), l@),
{
    let ghost before = cohort_views(out@);
    match Cohort::from_line(l) {
        Some(c) => {
            out.push(c);
            assert(cohort_views(out@) =~= step(before, l@));
        },
        None => {
            if out.len() == 0 {
                return;
            }
            match Reading::from_line(l) {
                Some(r) => {
                    match out.pop() {
                        Some(mut last) => {
                            let ghost old_last = last@;
                            last.readings.push(r);
                            assert(last@.readings =~= old_last.readings.push(r@));
                            assert(last@ == with_reading(old_last, r@));
                            out.push(last);
                            assert(cohort_views(out@) =~= step(before, l@));
                        },
                        None => {},
                    }
                },
                None => {},
            }
        },
    }
}

/// Reads a text into cohorts. Lines are ended by `"\n"` or `"\r\n"`; lines
/// that are neither a cohort header nor a reading, and readings before the
/// first header, are skipped. Never fails.
pub fn from_string(input: &str) -> (r: Vec<Cohort>)
    ensures
        cohort_views(r@) == parse(input@),
{
    let cs = chars_of(input);
    let mut out: Vec<Cohort> = Vec::new();
    let mut line: Vec<char> = Vec::new();
    for i in 0..cs.len()
        invariant
            cs@ == input@,
            cohort_views(out@) == parse_lines(
                split_at_sep(cs@.take(i as int), '\n').0.map_values(|l: Seq<char>| strip_cr(l)),
            ),
            line@ == split_at_sep(cs@.take(i as int), '\n').1,
    {
        let ghost pre = cs@.take(i as int);
        let ghost done = split_at_sep(pre, '\n').0.map_values(|l: Seq<char>| strip_cr(l));
        assert(cs@.take(i + 1).drop_last() =~= pre);
        if cs[i] == '\n' {
            let n = line.len();
            if n > 0 && line[n - 1] == '\r' {
                line.pop();
                assert(line@ =~= strip_cr(split_at_sep(pre, '\n').1));
            }
            add_line(&mut out, &line);
            line = Vec::new();
            proof {
                let next = split_at_sep(cs@.take(i + 1), '\n').0.map_values(
                    |l: Seq<char>| strip_cr(l),
                );
                assert(next.drop_last() =~= done);
            }
        } else {
            line.push(cs[i]);
        }
    }
    assert(cs@.take(cs.len() as int) =~= cs@);
    if line.len() > 0 {
        add_line(&mut out, &line);
        proof {
            let done = split_at_sep(cs@, '\n').0.map_values(|l: Seq<char>| strip_cr(l));
            assert(done.push(line@).drop_last() =~= done);
        }
    }
    out
}

} // verus!
