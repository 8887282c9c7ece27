//! The rows of a course catalogue, and what the selection types offer to a
//! data set that holds such rows: the selection read from them, the
//! row-wise conflict filter, and the search pattern for course codes.

use crate::course::{Conflict, Course, CourseView};
use crate::course_map::{spec_add, CourseMap};
use vstd::prelude::*;
use vstd::string::StringExecFns;

verus! {

/// One row of the catalogue: one section of one course.
#[derive(Debug)]
pub struct Row {
    pub code: String,
    pub title: String,
    pub section: String,
    pub session: u64,
    pub prereq: String,
}

/// The course that a row describes, holding the row's section alone.
pub open spec fn row_course(row: Row) -> CourseView {
    CourseView {
        code: row.code@,
        title: row.title@,
        sections: seq![(row.section@, row.session)],
        prereq: row.prereq@,
    }
}

/// The selection read from `rows`: each row merged in under its course
/// code, first to last. A course takes its title and prerequisites from its
/// first row; of two rows for one section the later mask stands.
pub open spec fn spec_from_rows(rows: Seq<Row>) -> Seq<(Seq<char>, CourseView)>
    decreases rows.len(),
{
    if rows.len() == 0 {
        Seq::empty()
    } else {
        spec_add(spec_from_rows(rows.drop_last()), rows.last().code@, row_course(rows.last()))
    }
}

/// For each code in turn, the bar that separates it from the code before
/// it, and the code.
pub open spec fn spec_alternatives(codes: Seq<String>) -> Seq<char>
    decreases codes.len(),
{
    if codes.len() == 0 {
        Seq::empty()
    } else if codes.len() == 1 {
        codes[0]@
    } else {
        spec_alternatives(codes.drop_last()) + seq!['|'] + codes.last()@
    }
}

/// The pattern that finds any of `codes` in a text, whatever the case of
/// its letters.
pub open spec fn spec_contains_pattern(codes: Seq<String>) -> Seq<char> {
    seq!['(', '?', 'i', ')'] + spec_alternatives(codes)
}

impl CourseMap {
    /// The selection read from the rows of a data frame, in the order of
    /// the rows.
    pub fn from_df(df: &Vec<Row>) -> (r: CourseMap)
        ensures
            r.wf(),
            r@ == spec_from_rows(df@),
    {
        let mut r = CourseMap::new(Vec::new());
        let mut i: usize = 0;
        assert(df@.take(0) =~= Seq::empty());
        while i < df.len()
            invariant
                i <= df.len(),
                r.wf(),
                r@ == spec_from_rows(df@.take(i as int)),
            decreases df.len() - i,
        {
            proof {
                assert(df@.take(i + 1).drop_last() =~= df@.take(i as int));
                assert(df@.take(i + 1).last() == df@[i as int]);
            }
            let row = &df[i];
            let mut sections: Vec<(String, u64)> = Vec::new();
            sections.push((row.section.clone(), row.session));
            let course = Course::new(
                row.code.clone(),
                row.title.clone(),
                sections,
                row.prereq.clone(),
            );
            proof {
                let one = seq![(row.section@, row.session)];
                assert(crate::course::entries_view(sections@) =~= one);
                assert(one.drop_last() =~= Seq::empty());
                assert(crate::keyed::put_all(Seq::empty(), one.drop_last()) =~= Seq::empty());
                assert(crate::keyed::put_all(Seq::empty(), one) =~= one);
                assert(course@ == row_course(*row));
            }
            r.add(row.code.clone(), course);
            i += 1;
        }
        assert(df@.take(i as int) =~= df@);
        r
    }
}

/// For each mask of `sessions`, whether it is free of `courses`: the filter
/// that keeps the rows of a data set which can still be attended.
pub fn no_conflict_flags<T: Conflict>(courses: &T, sessions: &Vec<u64>) -> (r: Vec<bool>)
    ensures
        r.len() == sessions.len(),
        forall|i: int|
            0 <= i < r.len() ==> #[trigger] r[i] == !courses.spec_conflict_with(sessions[i]),
{
    let mut r: Vec<bool> = Vec::new();
    let mut i: usize = 0;
    while i < sessions.len()
        invariant
            i <= sessions.len(),
            r.len() == i,
            forall|j: int|
                0 <= j < i ==> #[trigger] r[j] == !courses.spec_conflict_with(sessions[j]),
        decreases sessions.len() - i,
    {
        r.push(!courses.conflict_with(sessions[i]));
        i += 1;
    }
    r
}

/// The pattern by which a data set finds the rows whose course code holds
/// one of `codes`, whatever the case of its letters: `(?i)` and the codes
/// with a bar between them.
pub fn contains_pattern(codes: &Vec<String>) -> (r: String)
    ensures
        r@ == spec_contains_pattern(codes@),
{
    let mut r = String::from_str("(?i)");
    proof {
        reveal_strlit("(?i)");
        reveal_strlit("|");
        assert(r@ =~= seq!['(', '?', 'i', ')']);
        assert(codes@.take(0) =~= Seq::empty());
    }
    let mut i: usize = 0;
    while i < codes.len()
        invariant
            i <= codes.len(),
            "|"@ == seq!['|'],
            r@ == spec_contains_pattern(codes@.take(i as int)),
        decreases codes.len() - i,
    {
        proof {
            assert(codes@.take(i + 1).drop_last() =~= codes@.take(i as int));
            assert(codes@.take(i + 1).last() == codes@[i as int]);
            if i == 0 {
                assert(codes@.take(1)[0] == codes@[0]);
            }
        }
        if i > 0 {
            r.append("|");
        }
        r.append(codes[i].as_str());
        proof {
            assert(r@ =~= spec_contains_pattern(codes@.take(i + 1)));
        }
        i += 1;
    }
    assert(codes@.take(i as int) =~= codes@);
    r
}

} // verus!
