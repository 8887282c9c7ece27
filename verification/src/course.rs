//! A course: its identity, its prerequisites, and the sections it is
//! offered in, each with the weekly time slots it occupies.

use crate::keyed::{
    distinct_keys, has_key, key_index, lemma_key_index_unique, lemma_put, lookup, put, put_all,
};
use crate::mask::spec_conflicts;
use vstd::prelude::*;

verus! {

/// What can be asked whether it collides with a set of time slots.
pub trait Conflict {
    /// The meaning of `conflict_with`.
    spec fn spec_conflict_with(&self, session: u64) -> bool;

    /// Whether `self` occupies a time slot that `session` occupies too.
    fn conflict_with(&self, session: u64) -> (r: bool)
        ensures
            r == self.spec_conflict_with(session),
    ;
}

/// The mathematical value of a `Course`.
pub ghost struct CourseView {
    pub code: Seq<char>,
    pub title: Seq<char>,
    /// Section identifier and time-slot mask, in the order the sections came.
    pub sections: Seq<(Seq<char>, u64)>,
    pub prereq: Seq<char>,
}

/// Some mask in `sections` shares a time slot with `session`.
pub open spec fn any_section_conflicts(sections: Seq<(Seq<char>, u64)>, session: u64) -> bool {
    exists|i: int| 0 <= i < sections.len() && spec_conflicts((#[trigger] sections[i]).1, session)
}

/// A mask collides with the union of a section list exactly when it
/// collides with one of the sections.
pub proof fn lemma_union_all_conflicts(sections: Seq<(Seq<char>, u64)>, x: u64)
    ensures
        spec_conflicts(crate::mask::spec_union_all(sections), x) == any_section_conflicts(
            sections,
            x,
        ),
    decreases sections.len(),
{
    if sections.len() == 0 {
        crate::mask::union_identity(x);
    } else {
        let rest = sections.drop_last();
        lemma_union_all_conflicts(rest, x);
        crate::mask::lemma_union_conflicts(
            crate::mask::spec_union_all(rest),
            sections.last().1,
            x,
        );
        if any_section_conflicts(rest, x) {
            let i = choose|i: int|
                0 <= i < rest.len() && spec_conflicts((#[trigger] rest[i]).1, x);
            assert(sections[i] == rest[i]);
        }
        if any_section_conflicts(sections, x) {
            let i = choose|i: int|
                0 <= i < sections.len() && spec_conflicts((#[trigger] sections[i]).1, x);
            if i < rest.len() {
                assert(rest[i] == sections[i]);
            }
        }
    }
}

/// The entries of a section list as mathematical values.
pub open spec fn entries_view(v: Seq<(String, u64)>) -> Seq<(Seq<char>, u64)> {
    Seq::new(v.len(), |i: int| (v[i].0@, v[i].1))
}

/// A course with the sections that are still candidates for it.
#[derive(Debug)]
pub struct Course {
    code: String,
    title: String,
    sections: Vec<(String, u64)>,
    prereq: String,
}

impl View for Course {
    type V = CourseView;

    closed spec fn view(&self) -> CourseView {
        CourseView {
            code: self.code@,
            title: self.title@,
            sections: entries_view(self.sections@),
            prereq: self.prereq@,
        }
    }
}

/// The position of the first entry of `v` under `key`, if there is one.
fn find_section(v: &Vec<(String, u64)>, key: &str) -> (r: Option<usize>)
    ensures
        match r {
            Some(i) => i < v.len() && v[i as int].0@ == key@ && forall|j: int|
                0 <= j < i ==> v[j].0@ != key@,
            None => !has_key(entries_view(v@), key@),
        },
{
    let wanted: String = key.to_owned();
    let mut i: usize = 0;
    while i < v.len()
        invariant
            i <= v.len(),
            wanted@ == key@,
            forall|j: int| 0 <= j < i ==> v[j].0@ != key@,
        decreases v.len() - i,
    {
        if v[i].0 == wanted {
            return Some(i);
        }
        i += 1;
    }
    proof {
        let s = entries_view(v@);
        if has_key(s, key@) {
            let j = key_index(s, key@);
            assert(s[j].0 == key@);
            assert(v[j].0@ == key@);
        }
    }
    None
}

/// Stores `mask` under `key` in `v`: in place where the key is present, at
/// the end where it is new.
fn put_section(v: &mut Vec<(String, u64)>, key: String, mask: u64)
    requires
        distinct_keys(entries_view(old(v)@)),
    ensures
        entries_view(final(v)@) == put(entries_view(old(v)@), key@, mask),
        distinct_keys(entries_view(final(v)@)),
{
    let ghost s = entries_view(v@);
    proof {
        lemma_put(s, key@, mask);
    }
    match find_section(v, key.as_str()) {
        Some(i) => {
            proof {
                assert(s[i as int].0 == key@);
                lemma_key_index_unique(s, key@, i as int);
            }
            v[i] = (key, mask);
            assert(entries_view(v@) =~= put(s, key@, mask));
        },
        None => {
            v.push((key, mask));
            assert(entries_view(v@) =~= put(s, key@, mask));
        },
    }
}

/// A copy of a section list.
fn clone_sections(v: &Vec<(String, u64)>) -> (r: Vec<(String, u64)>)
    ensures
        entries_view(r@) == entries_view(v@),
{
    let mut r: Vec<(String, u64)> = Vec::new();
    let mut i: usize = 0;
    while i < v.len()
        invariant
            i <= v.len(),
            r.len() == i,
            forall|j: int| 0 <= j < i ==> r[j].0@ == v[j].0@ && r[j].1 == v[j].1,
        decreases v.len() - i,
    {
        r.push((v[i].0.clone(), v[i].1));
        i += 1;
    }
    assert(entries_view(r@) =~= entries_view(v@));
    r
}

impl Course {
    /// No section identifier occurs twice.
    pub open spec fn wf(&self) -> bool {
        distinct_keys(self@.sections)
    }

    /// A course with the given identity, holding `sections` stored first to
    /// last: of two entries under one identifier the later mask stands, at the
    /// earlier position.
    pub fn new(code: String, title: String, sections: Vec<(String, u64)>, prereq: String) -> (r:
        Course)
        ensures
            r.wf(),
            r@ == (CourseView {
                code: code@,
                title: title@,
                sections: put_all(Seq::empty(), entries_view(sections@)),
                prereq: prereq@,
            }),
    {
        let ghost xs = entries_view(sections@);
        let mut kept: Vec<(String, u64)> = Vec::new();
        let mut i: usize = 0;
        assert(entries_view(kept@) =~= put_all(Seq::empty(), xs.take(0)));
        while i < sections.len()
            invariant
                i <= sections.len(),
                xs == entries_view(sections@),
                distinct_keys(entries_view(kept@)),
                entries_view(kept@) == put_all(Seq::empty(), xs.take(i as int)),
            decreases sections.len() - i,
        {
            proof {
                assert(xs.take(i + 1).drop_last() =~= xs.take(i as int));
                assert(xs.take(i + 1).last() == xs[i as int]);
            }
            put_section(&mut kept, sections[i].0.clone(), sections[i].1);
            i += 1;
        }
        assert(xs.take(i as int) =~= xs);
        Course { code, title, sections: kept, prereq }
    }

    /// The course code.
    pub fn code(&self) -> (r: &String)
        ensures
            r@ == self@.code,
    {
        &self.code
    }

    /// The course title.
    pub fn title(&self) -> (r: &String)
        ensures
            r@ == self@.title,
    {
        &self.title
    }

    /// The prerequisite course codes, joined by `&`.
    pub fn prereq(&self) -> (r: &String)
        ensures
            r@ == self@.prereq,
    {
        &self.prereq
    }

    /// How many sections the course holds.
    pub fn len(&self) -> (r: usize)
        ensures
            r == self@.sections.len(),
    {
        self.sections.len()
    }

    /// Whether the course holds no section.
    pub fn is_empty(&self) -> (r: bool)
        ensures
            r == (self@.sections.len() == 0),
    {
        self.sections.len() == 0
    }

    /// The identifier of the section at position `i`.
    pub fn section_at(&self, i: usize) -> (r: &String)
        requires
            i < self@.sections.len(),
        ensures
            r@ == self@.sections[i as int].0,
    {
        &self.sections[i].0
    }

    /// The time-slot mask of the section at position `i`.
    pub fn session_at(&self, i: usize) -> (r: u64)
        requires
            i < self@.sections.len(),
        ensures
            r == self@.sections[i as int].1,
    {
        self.sections[i].1
    }

    /// The sections in order, each as identifier and mask.
    pub fn sections(&self) -> (r: Vec<(String, u64)>)
        ensures
            entries_view(r@) == self@.sections,
    {
        clone_sections(&self.sections)
    }

    /// The mask of the section called `section`, if the course holds it.
    pub fn get(&self, section: &str) -> (r: Option<u64>)
        requires
            self.wf(),
        ensures
            r == lookup(self@.sections, section@),
    {
        match find_section(&self.sections, section) {
            Some(i) => {
                proof {
                    assert(self@.sections[i as int].0 == section@);
                    lemma_key_index_unique(self@.sections, section@, i as int);
                }
                Some(self.sections[i].1)
            },
            None => None,
        }
    }

    /// This course restricted to its section at position `i`.
    pub fn only(&self, i: usize) -> (r: Course)
        requires
            i < self@.sections.len(),
        ensures
            r.wf(),
            r@ == (CourseView { sections: seq![self@.sections[i as int]], ..self@ }),
    {
        let mut one: Vec<(String, u64)> = Vec::new();
        one.push((self.sections[i].0.clone(), self.sections[i].1));
        assert(entries_view(one@) =~= seq![self@.sections[i as int]]);
        Course {
            code: self.code.clone(),
            title: self.title.clone(),
            sections: one,
            prereq: self.prereq.clone(),
        }
    }

    /// Stores every entry of `sections` in the course, first to last: a new
    /// identifier goes to the end, a known one has its mask replaced.
    pub fn extend(&mut self, sections: Vec<(String, u64)>)
        requires
            old(self).wf(),
        ensures
            final(self).wf(),
            final(self)@ == (CourseView {
                sections: put_all(old(self)@.sections, entries_view(sections@)),
                ..old(self)@
            }),
    {
        let ghost xs = entries_view(sections@);
        let ghost before = self@;
        let mut i: usize = 0;
        assert(xs.take(0) =~= Seq::empty());
        while i < sections.len()
            invariant
                i <= sections.len(),
                xs == entries_view(sections@),
                self.wf(),
                self@ == (CourseView {
                    sections: put_all(before.sections, xs.take(i as int)),
                    ..before
                }),
            decreases sections.len() - i,
        {
            proof {
                assert(xs.take(i + 1).drop_last() =~= xs.take(i as int));
                assert(xs.take(i + 1).last() == xs[i as int]);
            }
            put_section(&mut self.sections, sections[i].0.clone(), sections[i].1);
            i += 1;
        }
        assert(xs.take(i as int) =~= xs);
    }

    /// The sections of the course, given up by it.
    pub fn into_sections(self) -> (r: Vec<(String, u64)>)
        ensures
            entries_view(r@) == self@.sections,
    {
        self.sections
    }

    /// The time slots that the sections of the course occupy together.
    pub fn occupancy(&self) -> (r: u64)
        ensures
            r == crate::mask::spec_union_all(self@.sections),
    {
        let mut acc: u64 = 0;
        let mut i: usize = 0;
        let ghost s = self@.sections;
        assert(s.take(0) =~= Seq::empty());
        while i < self.sections.len()
            invariant
                i <= self.sections.len(),
                s == self@.sections,
                s.len() == self.sections.len(),
                forall|j: int| 0 <= j < s.len() ==> s[j].1 == self.sections[j].1,
                acc == crate::mask::spec_union_all(s.take(i as int)),
            decreases self.sections.len() - i,
        {
            proof {
                assert(s.take(i + 1).drop_last() =~= s.take(i as int));
                assert(s.take(i + 1).last() == s[i as int]);
            }
            acc = acc | self.sections[i].1;
            i += 1;
        }
        assert(s.take(i as int) =~= s);
        acc
    }
}

/// Why a selection cannot be read as one course: it holds `courses`
/// courses, not exactly one.
#[derive(Debug, Clone, Copy, PartialEq, Eq)]
pub struct InvalidSelection {
    pub courses: usize,
}

impl InvalidSelection {
    /// The failure in words.
    pub fn message(&self) -> (r: String)
        ensures
            r@ == "CourseMap must have exactly one course"@,
    {
        "CourseMap must have exactly one course".to_owned()
    }
}

impl Clone for Course {
    fn clone(&self) -> (r: Course)
        ensures
            r@ == self@,
    {
        Course {
            code: self.code.clone(),
            title: self.title.clone(),
            sections: clone_sections(&self.sections),
            prereq: self.prereq.clone(),
        }
    }
}

impl Conflict for Course {
    /// A course is in the way of `session` as soon as one of its sections is.
    open spec fn spec_conflict_with(&self, session: u64) -> bool {
        any_section_conflicts(self@.sections, session)
    }

    fn conflict_with(&self, session: u64) -> (r: bool) {
        let mut i: usize = 0;
        while i < self.sections.len()
            invariant
                i <= self.sections.len(),
                forall|j: int| 0 <= j < i ==> !spec_conflicts(self@.sections[j].1, session),
            decreases self.sections.len() - i,
        {
            if self.sections[i].1 & session != 0 {
                assert(spec_conflicts(self@.sections[i as int].1, session));
                return true;
            }
            i += 1;
        }
        false
    }
}

} // verus!
