//! The shape in which courses are handed to a presentation layer: plain
//! records with public fields, in a fixed order.

use crate::course::{entries_view, Course, CourseView};
use crate::course_map::CourseMap;
use vstd::prelude::*;

verus! {

/// One section of a course: its identifier and the time slots it occupies.
#[derive(Debug)]
pub struct Section {
    pub section: String,
    pub session: u64,
}

/// The sections of a record as mathematical values.
pub open spec fn sections_view(v: Seq<Section>) -> Seq<(Seq<char>, u64)> {
    Seq::new(v.len(), |i: int| (v[i].section@, v[i].session))
}

/// One course with its sections in order.
#[derive(Debug)]
pub struct CourseInfo {
    pub code: String,
    pub title: String,
    pub sections: Vec<Section>,
    pub prereq: String,
}

impl View for CourseInfo {
    type V = CourseView;

    open spec fn view(&self) -> CourseView {
        CourseView {
            code: self.code@,
            title: self.title@,
            sections: sections_view(self.sections@),
            prereq: self.prereq@,
        }
    }
}

impl CourseInfo {
    /// The record of `course`: the same code, title and prerequisites, and
    /// the same sections in the same order.
    pub fn from(course: Course) -> (r: CourseInfo)
        ensures
            r@ == course@,
    {
        let code = course.code().clone();
        let title = course.title().clone();
        let prereq = course.prereq().clone();
        let pairs = course.into_sections();
        let mut sections: Vec<Section> = Vec::new();
        let mut i: usize = 0;
        while i < pairs.len()
            invariant
                i <= pairs.len(),
                sections.len() == i,
                forall|j: int|
                    0 <= j < i ==> (#[trigger] sections[j]).section@ == pairs[j].0@
                        && sections[j].session == pairs[j].1,
            decreases pairs.len() - i,
        {
            sections.push(Section { section: pairs[i].0.clone(), session: pairs[i].1 });
            i += 1;
        }
        assert(sections_view(sections@) =~= entries_view(pairs@));
        CourseInfo { code, title, sections, prereq }
    }
}

/// The courses of a selection, in its order.
#[derive(Debug)]
pub struct CourseList {
    pub courses: Vec<CourseInfo>,
}

impl View for CourseList {
    type V = Seq<CourseView>;

    open spec fn view(&self) -> Seq<CourseView> {
        Seq::new(self.courses.len() as nat, |i: int| self.courses[i]@)
    }
}

impl CourseList {
    /// The records of the courses of `map`, in the order of the selection.
    pub fn from(map: CourseMap) -> (r: CourseList)
        requires
            map.wf(),
        ensures
            r@ == Seq::new(map@.len(), |i: int| map@[i].1),
    {
        let mut courses: Vec<CourseInfo> = Vec::new();
        let mut i: usize = 0;
        while i < map.len()
            invariant
                i <= map@.len(),
                map.wf(),
                courses.len() == i,
                forall|j: int| 0 <= j < i ==> (#[trigger] courses[j])@ == map@[j].1,
            decreases map@.len() - i,
        {
            courses.push(CourseInfo::from(map.course_at(i).clone()));
            i += 1;
        }
        let r = CourseList { courses };
        assert(r@ =~= Seq::new(map@.len(), |i: int| map@[i].1));
        r
    }
}

} // verus!
