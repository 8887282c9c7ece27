//! A selection of courses keyed by course code: the timetable under
//! construction, with one or several candidate sections per course.

use crate::course::{any_section_conflicts, Conflict, Course, CourseView, InvalidSelection};
use crate::keyed::{
    distinct_keys, has_key, key_index, lemma_key_index_unique, lemma_put, lemma_without, lookup, put,
    put_all, without,
};
use crate::mask::{lemma_union_conflicts, spec_conflicts, spec_union_all};
use vstd::prelude::*;

verus! {

/// The entries of a selection as mathematical values.
pub open spec fn courses_view(v: Seq<(String, Course)>) -> Seq<(Seq<char>, CourseView)> {
    Seq::new(v.len(), |i: int| (v[i].0@, v[i].1@))
}

/// Every course of `m` holds each of its section identifiers once.
pub open spec fn courses_wf(m: Seq<(Seq<char>, CourseView)>) -> bool {
    forall|i: int| 0 <= i < m.len() ==> distinct_keys((#[trigger] m[i]).1.sections)
}

/// `m` after merging the course `c` in under `code`: where the code is
/// known, the entry keeps its place, title and prerequisites and takes the
/// sections of `c` in; where it is new, `c` goes to the end.
pub open spec fn spec_add(m: Seq<(Seq<char>, CourseView)>, code: Seq<char>, c: CourseView) -> Seq<
    (Seq<char>, CourseView),
> {
    if has_key(m, code) {
        let i = key_index(m, code);
        m.update(
            i,
            (code, CourseView { sections: put_all(m[i].1.sections, c.sections), ..m[i].1 }),
        )
    } else {
        m.push((code, c))
    }
}

/// The time slots occupied by any section of any course of `m`.
pub open spec fn spec_occupancy(m: Seq<(Seq<char>, CourseView)>) -> u64
    decreases m.len(),
{
    if m.len() == 0 {
        0
    } else {
        spec_occupancy(m.drop_last()) | spec_union_all(m.last().1.sections)
    }
}

/// Some section of some course of `m` shares a time slot with `session`.
pub open spec fn any_course_conflicts(m: Seq<(Seq<char>, CourseView)>, session: u64) -> bool {
    exists|i: int| 0 <= i < m.len() && any_section_conflicts((#[trigger] m[i]).1.sections, session)
}

/// A mask collides with the occupancy of a selection exactly when it
/// collides with a section of one of its courses.
pub proof fn lemma_occupancy_conflicts(m: Seq<(Seq<char>, CourseView)>, x: u64)
    ensures
        spec_conflicts(spec_occupancy(m), x) == any_course_conflicts(m, x),
    decreases m.len(),
{
    if m.len() == 0 {
        crate::mask::union_identity(x);
    } else {
        let rest = m.drop_last();
        lemma_occupancy_conflicts(rest, x);
        crate::course::lemma_union_all_conflicts(m.last().1.sections, x);
        lemma_union_conflicts(spec_occupancy(rest), spec_union_all(m.last().1.sections), x);
        if any_course_conflicts(rest, x) {
            let i = choose|i: int|
                0 <= i < rest.len() && any_section_conflicts((#[trigger] rest[i]).1.sections, x);
            assert(m[i] == rest[i]);
        }
        if any_course_conflicts(m, x) {
            let i = choose|i: int|
                0 <= i < m.len() && any_section_conflicts((#[trigger] m[i]).1.sections, x);
            if i < rest.len() {
                assert(rest[i] == m[i]);
            }
        }
    }
}

/// Merging a course in twice is merging it in once.
pub proof fn add_idempotent(m: Seq<(Seq<char>, CourseView)>, code: Seq<char>, c: CourseView)
    requires
        distinct_keys(m),
        courses_wf(m),
        distinct_keys(c.sections),
    ensures
        spec_add(spec_add(m, code, c), code, c) == spec_add(m, code, c),
{
    let once = spec_add(m, code, c);
    if has_key(m, code) {
        let i = key_index(m, code);
        assert(0 <= i < m.len() && m[i].0 == code);
        let merged = put_all(m[i].1.sections, c.sections);
        assert(once[i].0 == code);
        assert forall|a: int, b: int| 0 <= a < b < once.len() implies (#[trigger] once[a]).0 != (
        #[trigger] once[b]).0 by {
            assert(once[a].0 == m[a].0);
            assert(once[b].0 == m[b].0);
        }
        lemma_key_index_unique(once, code, i);
        crate::keyed::lemma_put_all_absorbed(m[i].1.sections, c.sections);
        assert(spec_add(once, code, c) =~= once);
    } else {
        let n = m.len() as int;
        lemma_put(m, code, c);
        assert(once == put(m, code, c));
        assert(once[n].0 == code);
        lemma_key_index_unique(once, code, n);
        crate::keyed::lemma_put_all_absorbed(Seq::empty(), c.sections);
        crate::keyed::lemma_put_all_onto_empty(c.sections);
        assert(spec_add(once, code, c) =~= once);
    }
}

/// Courses by code, in the order in which the codes came.
#[derive(Debug)]
pub struct CourseMap {
    courses: Vec<(String, Course)>,
}

impl View for CourseMap {
    type V = Seq<(Seq<char>, CourseView)>;

    closed spec fn view(&self) -> Seq<(Seq<char>, CourseView)> {
        courses_view(self.courses@)
    }
}

/// The position of the entry of `v` under `key`, if there is one.
fn find_course(v: &Vec<(String, Course)>, key: &str) -> (r: Option<usize>)
    requires
        distinct_keys(courses_view(v@)),
    ensures
        match r {
            Some(i) => i < v.len() && has_key(courses_view(v@), key@) && key_index(
                courses_view(v@),
                key@,
            ) == i,
            None => !has_key(courses_view(v@), key@),
        },
{
    let wanted: String = key.to_owned();
    let ghost s = courses_view(v@);
    let mut i: usize = 0;
    while i < v.len()
        invariant
            i <= v.len(),
            wanted@ == key@,
            s == courses_view(v@),
            distinct_keys(s),
            forall|j: int| 0 <= j < i ==> (#[trigger] s[j]).0 != key@,
        decreases v.len() - i,
    {
        if v[i].0 == wanted {
            proof {
                assert(s[i as int].0 == key@);
                lemma_key_index_unique(s, key@, i as int);
            }
            return Some(i);
        }
        assert(s[i as int].0 == v[i as int].0@);
        i += 1;
    }
    None
}

impl CourseMap {
    /// No course code occurs twice, and every course is well formed.
    pub open spec fn wf(&self) -> bool {
        distinct_keys(self@) && courses_wf(self@)
    }

    /// A selection holding `courses` stored first to last: of two entries
    /// under one code the later course stands, at the earlier position.
    pub fn new(courses: Vec<(String, Course)>) -> (r: CourseMap)
        requires
            forall|i: int| 0 <= i < courses.len() ==> (#[trigger] courses[i]).1.wf(),
        ensures
            r.wf(),
            r@ == put_all(Seq::empty(), courses_view(courses@)),
    {
        let ghost xs = courses_view(courses@);
        let mut r = CourseMap { courses: Vec::new() };
        let mut i: usize = 0;
        assert(r@ =~= put_all(Seq::empty(), xs.take(0)));
        while i < courses.len()
            invariant
                i <= courses.len(),
                xs == courses_view(courses@),
                forall|j: int| 0 <= j < courses.len() ==> (#[trigger] courses[j]).1.wf(),
                r.wf(),
                r@ == put_all(Seq::empty(), xs.take(i as int)),
            decreases courses.len() - i,
        {
            proof {
                assert(xs.take(i + 1).drop_last() =~= xs.take(i as int));
                assert(xs.take(i + 1).last() == xs[i as int]);
            }
            r.insert(courses[i].0.clone(), courses[i].1.clone());
            i += 1;
        }
        assert(xs.take(i as int) =~= xs);
        r
    }

    /// Stores `course` under `code`, in place of the course that stood there
    /// if there was one.
    pub fn insert(&mut self, code: String, course: Course)
        requires
            old(self).wf(),
            course.wf(),
        ensures
            final(self).wf(),
            final(self)@ == put(old(self)@, code@, course@),
    {
        let ghost s = self@;
        proof {
            lemma_put(s, code@, course@);
        }
        match find_course(&self.courses, code.as_str()) {
            Some(i) => {
                self.courses[i] = (code, course);
                assert(self@ =~= put(s, code@, course@));
            },
            None => {
                self.courses.push((code, course));
                assert(self@ =~= put(s, code@, course@));
            },
        }
        assert(courses_wf(self@)) by {
            let t = self@;
            assert forall|j: int| 0 <= j < t.len() implies distinct_keys(
                (#[trigger] t[j]).1.sections,
            ) by {
                if has_key(s, code@) && j == key_index(s, code@) {
                } else if j < s.len() {
                    assert(t[j] == s[j]);
                }
            }
        }
    }

    /// How many courses the selection holds.
    pub fn len(&self) -> (r: usize)
        ensures
            r == self@.len(),
    {
        self.courses.len()
    }

    /// Whether the selection holds no course.
    pub fn is_empty(&self) -> (r: bool)
        ensures
            r == (self@.len() == 0),
    {
        self.courses.len() == 0
    }

    /// The code of the entry at position `i`.
    pub fn code_at(&self, i: usize) -> (r: &String)
        requires
            i < self@.len(),
        ensures
            r@ == self@[i as int].0,
    {
        &self.courses[i].0
    }

    /// The course of the entry at position `i`.
    pub fn course_at(&self, i: usize) -> (r: &Course)
        requires
            i < self@.len(),
            self.wf(),
        ensures
            r@ == self@[i as int].1,
            r.wf(),
    {
        assert(self@[i as int].1 == self.courses[i as int].1@);
        &self.courses[i].1
    }

    /// The course stored under `code`, if any.
    pub fn get(&self, code: &str) -> (r: Option<&Course>)
        requires
            self.wf(),
        ensures
            match r {
                Some(c) => lookup(self@, code@) == Some(c@) && c.wf(),
                None => lookup(self@, code@).is_none(),
            },
    {
        match find_course(&self.courses, code) {
            Some(i) => {
                assert(self@[i as int].1 == self.courses[i as int].1@);
                Some(&self.courses[i].1)
            },
            None => None,
        }
    }

    /// Merges `course` into the selection under `code`. A known code keeps
    /// its place, title and prerequisites and takes the sections of `course`
    /// in; a new code goes to the end with `course` as it is.
    pub fn add(&mut self, code: String, course: Course)
        requires
            old(self).wf(),
            course.wf(),
        ensures
            final(self).wf(),
            final(self)@ == spec_add(old(self)@, code@, course@),
    {
        let ghost s = self@;
        let ghost c = course@;
        match find_course(&self.courses, code.as_str()) {
            Some(i) => {
                let mut merged = self.courses[i].1.clone();
                assert(merged@ == s[i as int].1);
                merged.extend(course.into_sections());
                proof {
                    crate::keyed::lemma_put_all_distinct(s[i as int].1.sections, c.sections);
                }
                self.courses[i] = (code, merged);
                assert(self@ =~= spec_add(s, code@, c));
                assert(distinct_keys(self@)) by {
                    let t = self@;
                    assert forall|a: int, b: int| 0 <= a < b < t.len() implies (#[trigger] t[a]).0
                        != (#[trigger] t[b]).0 by {
                        assert(t[a].0 == s[a].0);
                        assert(t[b].0 == s[b].0);
                    }
                }
                assert(courses_wf(self@)) by {
                    let t = self@;
                    assert forall|j: int| 0 <= j < t.len() implies distinct_keys(
                        (#[trigger] t[j]).1.sections,
                    ) by {
                        if j != i {
                            assert(t[j] == s[j]);
                        }
                    }
                }
            },
            None => {
                proof {
                    lemma_put(s, code@, c);
                }
                self.courses.push((code, course));
                assert(self@ =~= spec_add(s, code@, c));
                assert(self@ =~= put(s, code@, c));
                assert(courses_wf(self@)) by {
                    let t = self@;
                    assert forall|j: int| 0 <= j < t.len() implies distinct_keys(
                        (#[trigger] t[j]).1.sections,
                    ) by {
                        if j < s.len() {
                            assert(t[j] == s[j]);
                        }
                    }
                }
            },
        }
    }

    /// Stores every course of `other` in the selection, first to last, each in
    /// place of the course that stood under its code if there was one.
    pub fn extend(&mut self, other: CourseMap)
        requires
            old(self).wf(),
            other.wf(),
        ensures
            final(self).wf(),
            final(self)@ == put_all(old(self)@, other@),
    {
        let ghost s = self@;
        let ghost xs = other@;
        let mut i: usize = 0;
        assert(xs.take(0) =~= Seq::empty());
        while i < other.courses.len()
            invariant
                i <= other.courses.len(),
                xs == other@,
                other.wf(),
                self.wf(),
                self@ == put_all(s, xs.take(i as int)),
            decreases other.courses.len() - i,
        {
            proof {
                assert(xs.take(i + 1).drop_last() =~= xs.take(i as int));
                assert(xs.take(i + 1).last() == xs[i as int]);
                assert(xs[i as int].1 == other.courses[i as int].1@);
            }
            self.insert(other.courses[i].0.clone(), other.courses[i].1.clone());
            i += 1;
        }
        assert(xs.take(i as int) =~= xs);
    }

    /// Takes the course under `code` out of the selection and returns it; a
    /// code that is not there changes nothing.
    pub fn remove(&mut self, code: &str) -> (r: Option<Course>)
        requires
            old(self).wf(),
        ensures
            final(self).wf(),
            final(self)@ == without(old(self)@, code@),
            match r {
                Some(c) => lookup(old(self)@, code@) == Some(c@) && c.wf(),
                None => lookup(old(self)@, code@).is_none(),
            },
    {
        let ghost s = self@;
        proof {
            lemma_without(s, code@);
        }
        match find_course(&self.courses, code) {
            Some(i) => {
                let gone = self.courses.remove(i);
                assert(self@ =~= without(s, code@));
                assert(gone.1@ == s[i as int].1);
                assert(courses_wf(self@)) by {
                    let t = self@;
                    assert forall|j: int| 0 <= j < t.len() implies distinct_keys(
                        (#[trigger] t[j]).1.sections,
                    ) by {
                        if j < i {
                            assert(t[j] == s[j]);
                        } else {
                            assert(t[j] == s[j + 1]);
                        }
                    }
                }
                Some(gone.1)
            },
            None => None,
        }
    }

    /// Empties the selection.
    pub fn clear(&mut self)
        ensures
            final(self).wf(),
            final(self)@ == Seq::<(Seq<char>, CourseView)>::empty(),
    {
        self.courses.clear();
        assert(self@ =~= Seq::<(Seq<char>, CourseView)>::empty());
    }

    /// The mask of the section `section` of the course under `code`, if the
    /// selection holds both.
    pub fn get_session(&self, code: &str, section: &str) -> (r: Option<u64>)
        requires
            self.wf(),
        ensures
            r == match lookup(self@, code@) {
                Some(c) => lookup(c.sections, section@),
                None => None,
            },
    {
        match self.get(code) {
            Some(course) => course.get(section),
            None => None,
        }
    }

    /// The course codes, in the order of the entries.
    pub fn keys(&self) -> (r: Vec<String>)
        ensures
            r.len() == self@.len(),
            forall|i: int| 0 <= i < r.len() ==> (#[trigger] r[i])@ == self@[i].0,
    {
        let mut r: Vec<String> = Vec::new();
        let mut i: usize = 0;
        while i < self.courses.len()
            invariant
                i <= self.courses.len(),
                r.len() == i,
                forall|j: int| 0 <= j < i ==> (#[trigger] r[j])@ == self@[j].0,
            decreases self.courses.len() - i,
        {
            r.push(self.courses[i].0.clone());
            i += 1;
        }
        r
    }

    /// The time slots that the sections of all courses occupy together.
    pub fn occupancy(&self) -> (r: u64)
        ensures
            r == spec_occupancy(self@),
    {
        let ghost s = self@;
        let mut acc: u64 = 0;
        let mut i: usize = 0;
        assert(s.take(0) =~= Seq::empty());
        while i < self.courses.len()
            invariant
                i <= self.courses.len(),
                s == self@,
                acc == spec_occupancy(s.take(i as int)),
            decreases self.courses.len() - i,
        {
            proof {
                assert(s.take(i + 1).drop_last() =~= s.take(i as int));
                assert(s.take(i + 1).last() == s[i as int]);
                assert(s[i as int].1 == self.courses[i as int].1@);
            }
            acc = acc | self.courses[i].1.occupancy();
            i += 1;
        }
        assert(s.take(i as int) =~= s);
        acc
    }

    /// The selection that holds `course` alone, under its own code.
    pub fn from(course: Course) -> (r: CourseMap)
        requires
            course.wf(),
        ensures
            r.wf(),
            r@ == seq![(course@.code, course@)],
    {
        let mut courses: Vec<(String, Course)> = Vec::new();
        let code = course.code().clone();
        courses.push((code, course));
        let r = CourseMap { courses };
        assert(r@ =~= seq![(course@.code, course@)]);
        r
    }

    /// Whether a course is stored under `code`.
    pub fn contains_key(&self, code: &str) -> (r: bool)
        requires
            self.wf(),
        ensures
            r == has_key(self@, code@),
    {
        find_course(&self.courses, code).is_some()
    }
}

impl Course {
    /// The one course of a selection that holds exactly one; a selection of
    /// none or of several is refused, with the number of its courses.
    pub fn try_from(value: CourseMap) -> (r: Result<Course, InvalidSelection>)
        requires
            value.wf(),
        ensures
            match r {
                Ok(c) => value@.len() == 1 && c@ == value@[0].1 && c.wf(),
                Err(e) => value@.len() != 1 && e.courses == value@.len(),
            },
    {
        if value.len() != 1 {
            return Err(InvalidSelection { courses: value.len() });
        }
        Ok(value.course_at(0).clone())
    }
}

impl Clone for CourseMap {
    fn clone(&self) -> (r: CourseMap)
        ensures
            r@ == self@,
    {
        let mut courses: Vec<(String, Course)> = Vec::new();
        let mut i: usize = 0;
        while i < self.courses.len()
            invariant
                i <= self.courses.len(),
                courses.len() == i,
                forall|j: int|
                    0 <= j < i ==> (#[trigger] courses[j]).0@ == self.courses[j].0@ && courses[j].1@
                        == self.courses[j].1@,
            decreases self.courses.len() - i,
        {
            courses.push((self.courses[i].0.clone(), self.courses[i].1.clone()));
            i += 1;
        }
        let r = CourseMap { courses };
        assert(r@ =~= self@);
        r
    }
}

impl Conflict for CourseMap {
    /// A selection is in the way of `session` as soon as one section of one
    /// of its courses is.
    open spec fn spec_conflict_with(&self, session: u64) -> bool {
        any_course_conflicts(self@, session)
    }

    fn conflict_with(&self, session: u64) -> (r: bool) {
        let ghost s = self@;
        let mut i: usize = 0;
        while i < self.courses.len()
            invariant
                i <= self.courses.len(),
                s == self@,
                forall|j: int| 0 <= j < i ==> !any_section_conflicts((#[trigger] s[j]).1.sections, session),
            decreases self.courses.len() - i,
        {
            assert(s[i as int].1 == self.courses[i as int].1@);
            if self.courses[i].1.conflict_with(session) {
                return true;
            }
            i += 1;
        }
        false
    }
}

} // verus!
