//! The parsed structure, its mathematical view, and how it is written out.
//!
//! Parsed values own their text: every field is copied out of the input, so
//! callers may drop the input as soon as parsing returns.
use vstd::prelude::*;
use vstd::string::StringExecFns;

verus! {

/// What a [`Reading`] stands for: a base form and its tags.
pub struct ReadingView {
    pub base_form: Seq<char>,
    pub tags: Seq<Seq<char>>,
}

/// What a [`Cohort`] stands for: a word form, its tags and its readings.
pub struct CohortView {
    pub word_form: Seq<char>,
    pub tags: Seq<Seq<char>>,
    pub readings: Seq<ReadingView>,
}

/// One candidate analysis of a cohort's token.
#[derive(Debug, Clone)]
pub struct Reading {
    pub base_form: String,
    pub tags: Vec<String>,
}

/// One token of the stream, with the tags on the token and its readings.
#[derive(Debug, Clone)]
pub struct Cohort {
    pub word_form: String,
    pub tags: Vec<String>,
    pub readings: Vec<Reading>,
}

/// The character sequences held by a vector of strings.
pub open spec fn texts(v: Seq<String>) -> Seq<Seq<char>> {
    v.map_values(|t: String| t@)
}

impl View for Reading {
    type V = ReadingView;

    open spec fn view(&self) -> ReadingView {
        ReadingView { base_form: self.base_form@, tags: texts(self.tags@) }
    }
}

impl View for Cohort {
    type V = CohortView;

    open spec fn view(&self) -> CohortView {
        CohortView {
            word_form: self.word_form@,
            tags: texts(self.tags@),
            readings: self.readings@.map_values(|r: Reading| r@),
        }
    }
}

/// The views of a sequence of cohorts.
pub open spec fn cohort_views(cs: Seq<Cohort>) -> Seq<CohortView> {
    cs.map_values(|c: Cohort| c@)
}

/// Each tag preceded by one space.
pub open spec fn render_tags(tags: Seq<Seq<char>>) -> Seq<char>
    decreases tags.len(),
{
    if tags.len() == 0 {
        Seq::empty()
    } else {
        render_tags(tags.drop_last()) + seq![' '] + tags.last()
    }
}

/// A cohort's header line, without its line feed: `"<WORD>"` and the tags.
pub open spec fn header_text(word_form: Seq<char>, tags: Seq<Seq<char>>) -> Seq<char> {
    seq!['"', '<'] + word_form + seq!['>', '"'] + render_tags(tags)
}

/// A reading's line, without its line feed: four spaces, `"BASE"` and the tags.
pub open spec fn reading_text(base_form: Seq<char>, tags: Seq<Seq<char>>) -> Seq<char> {
    seq![' ', ' ', ' ', ' ', '"'] + base_form + seq!['"'] + render_tags(tags)
}

/// The lines of a cohort's readings, each ended by a line feed.
pub open spec fn render_readings(rs: Seq<ReadingView>) -> Seq<char>
    decreases rs.len(),
{
    if rs.len() == 0 {
        Seq::empty()
    } else {
        render_readings(rs.drop_last()) + reading_text(rs.last().base_form, rs.last().tags)
            + seq!['\n']
    }
}

/// A cohort as text: its header line, then one line per reading.
pub open spec fn render_cohort(c: CohortView) -> Seq<char> {
    header_text(c.word_form, c.tags) + seq!['\n'] + render_readings(c.readings)
}

/// A sequence of cohorts as text: the cohorts one after the other.
pub open spec fn render(cs: Seq<CohortView>) -> Seq<char>
    decreases cs.len(),
{
    if cs.len() == 0 {
        Seq::empty()
    } else {
        render(cs.drop_last()) + render_cohort(cs.last())
    }
}

/// Appends each tag, preceded by one space.
fn append_tags(s: &mut String, tags: &Vec<String>)
    ensures
        final(s)@ == old(s)@ + render_tags(texts(tags@)),
{
    let ghost start = s@;
    for i in 0..tags.len()
        invariant
            s@ == start + render_tags(texts(tags@.take(i as int))),
    {
        proof {
            assert(tags@.take(i + 1).drop_last() =~= tags@.take(i as int));
            assert(texts(tags@.take(i + 1)).drop_last() =~= texts(tags@.take(i as int)));
        }
        s.push(' ');
        s.append(tags[i].as_str());
        proof {
            assert(s@ =~= start + render_tags(texts(tags@.take(i + 1))));
        }
    }
    assert(tags@.take(tags.len() as int) =~= tags@);
}

impl Cohort {
    /// The cohort's header line and one line per reading, each ended by a
    /// line feed.
    pub fn to_string(&self) -> (r: String)
        ensures
            r@ == render_cohort(self@),
    {
        let mut s = String::new();
        s.push('"');
        s.push('<');
        s.append(self.word_form.as_str());
        s.push('>');
        s.push('"');
        append_tags(&mut s, &self.tags);
        s.push('\n');
        assert(s@ =~= header_text(self@.word_form, self@.tags) + seq!['\n']);
        let ghost head = s@;
        let ghost rs = self@.readings;
        for i in 0..self.readings.len()
            invariant
                rs == self@.readings,
                s@ == head + render_readings(rs.take(i as int)),
        {
            let r = &self.readings[i];
            let ghost before = s@;
            s.push(' ');
            s.push(' ');
            s.push(' ');
            s.push(' ');
            s.push('"');
            s.append(r.base_form.as_str());
            s.push('"');
            append_tags(&mut s, &r.tags);
            s.push('\n');
            proof {
                assert(rs.take(i + 1).drop_last() =~= rs.take(i as int));
                assert(s@ =~= before + reading_text(r@.base_form, r@.tags) + seq!['\n']);
                assert(s@ =~= head + render_readings(rs.take(i + 1)));
            }
        }
        assert(rs.take(self.readings.len() as int) =~= rs);
        s
    }
}

/// The text of all cohorts, one after the other.
pub fn to_cg3_string(input: &[Cohort]) -> (r: String)
    ensures
        r@ == render(cohort_views(input@)),
{
    let mut s = String::new();
    for i in 0..input.len()
        invariant
            s@ == render(cohort_views(input@.take(i as int))),
    {
        let part = input[i].to_string();
        s.append(part.as_str());
        proof {
            assert(cohort_views(input@.take(i + 1)).drop_last()
                =~= cohort_views(input@.take(i as int)));
            assert(s@ =~= render(cohort_views(input@.take(i + 1))));
        }
    }
    assert(input@.take(input.len() as int) =~= input@);
    s
}

} // verus!
