//! The combination engine: every way to pick one section per course so that
//! no two picks, and no pick and the seed, share a time slot.
//!
//! A *choice* names, for each of the first courses of a selection, the
//! position of one of its sections. The engine walks the courses in order and
//! keeps the frontier of the choices that are still free of conflicts.

use crate::course::{Course, CourseView};
use crate::course_map::{spec_add, spec_occupancy, CourseMap};
use crate::mask::{conflicts, spec_conflicts, union};
use vstd::prelude::*;

verus! {

/// The mask of the section that `choice` picks for the course at position `j`.
pub open spec fn chosen_mask(
    courses: Seq<(Seq<char>, CourseView)>,
    choice: Seq<int>,
    j: int,
) -> u64 {
    courses[j].1.sections[choice[j]].1
}

/// `choice` picks an existing section for each of the first `choice.len()`
/// courses.
pub open spec fn in_range(courses: Seq<(Seq<char>, CourseView)>, choice: Seq<int>) -> bool {
    &&& choice.len() <= courses.len()
    &&& forall|j: int|
        0 <= j < choice.len() ==> 0 <= #[trigger] choice[j] < courses[j].1.sections.len()
}

/// No picked section shares a time slot with the seed or with another picked
/// section.
pub open spec fn conflict_free(
    courses: Seq<(Seq<char>, CourseView)>,
    seed: u64,
    choice: Seq<int>,
) -> bool {
    &&& in_range(courses, choice)
    &&& forall|j: int|
        0 <= j < choice.len() ==> !spec_conflicts(seed, #[trigger] chosen_mask(courses, choice, j))
    &&& forall|i: int, j: int|
        0 <= i < j < choice.len() ==> !spec_conflicts(
            #[trigger] chosen_mask(courses, choice, i),
            #[trigger] chosen_mask(courses, choice, j),
        )
}

/// The time slots taken by the seed and by the sections that `choice` picks.
pub open spec fn occupied(
    courses: Seq<(Seq<char>, CourseView)>,
    seed: u64,
    choice: Seq<int>,
) -> u64
    decreases choice.len(),
{
    if choice.len() == 0 {
        seed
    } else {
        occupied(courses, seed, choice.drop_last()) | chosen_mask(
            courses,
            choice,
            choice.len() - 1,
        )
    }
}

/// The course `c` restricted to its section at position `i`.
pub open spec fn single(c: CourseView, i: int) -> CourseView {
    CourseView { sections: seq![c.sections[i]], ..c }
}

/// The selection that `choice` stands for: `base` with, for each course in
/// turn, the picked section merged in under the course's code.
pub open spec fn assignment(
    base: Seq<(Seq<char>, CourseView)>,
    courses: Seq<(Seq<char>, CourseView)>,
    choice: Seq<int>,
) -> Seq<(Seq<char>, CourseView)>
    decreases choice.len(),
{
    if choice.len() == 0 {
        base
    } else {
        let j = choice.len() - 1;
        spec_add(
            assignment(base, courses, choice.drop_last()),
            courses[j].0,
            single(courses[j].1, choice[j]),
        )
    }
}

/// The choices that extend `p` by one of the first `n` sections of the next
/// course without a conflict, in the order of the sections.
pub open spec fn extensions(
    courses: Seq<(Seq<char>, CourseView)>,
    seed: u64,
    p: Seq<int>,
    n: int,
) -> Seq<Seq<int>>
    decreases n,
{
    if n <= 0 {
        Seq::empty()
    } else {
        let rest = extensions(courses, seed, p, n - 1);
        if spec_conflicts(
            occupied(courses, seed, p),
            courses[p.len() as int].1.sections[n - 1].1,
        ) {
            rest
        } else {
            rest.push(p.push(n - 1))
        }
    }
}

/// The extensions of the first `m` choices of `front` by the sections of the
/// course at position `k`, choice after choice.
pub open spec fn expand(
    courses: Seq<(Seq<char>, CourseView)>,
    seed: u64,
    front: Seq<Seq<int>>,
    k: int,
    m: int,
) -> Seq<Seq<int>>
    decreases m,
{
    if m <= 0 {
        Seq::empty()
    } else {
        expand(courses, seed, front, k, m - 1) + extensions(
            courses,
            seed,
            front[m - 1],
            courses[k].1.sections.len() as int,
        )
    }
}

/// The frontier after the first `k` courses: the choices for them that are
/// free of conflicts, in the order in which the engine finds them.
pub open spec fn frontier(courses: Seq<(Seq<char>, CourseView)>, seed: u64, k: int) -> Seq<
    Seq<int>,
>
    decreases k,
{
    if k <= 0 {
        seq![Seq::empty()]
    } else {
        let prev = frontier(courses, seed, k - 1);
        expand(courses, seed, prev, k - 1, prev.len() as int)
    }
}

/// The timetables for `courses` on top of `seed`, in order: none where there
/// is no course, else one for each choice of the last frontier.
pub open spec fn spec_schedules(
    courses: Seq<(Seq<char>, CourseView)>,
    seed: Seq<(Seq<char>, CourseView)>,
) -> Seq<Seq<(Seq<char>, CourseView)>> {
    if courses.len() == 0 {
        Seq::empty()
    } else {
        let last = frontier(courses, spec_occupancy(seed), courses.len() as int);
        Seq::new(last.len(), |i: int| assignment(seed, courses, last[i]))
    }
}

/// Once a frontier is empty, every later one is.
pub proof fn lemma_frontier_stays_empty(
    courses: Seq<(Seq<char>, CourseView)>,
    seed: u64,
    k: int,
    n: int,
)
    requires
        0 <= k <= n,
        frontier(courses, seed, k).len() == 0,
    ensures
        frontier(courses, seed, n).len() == 0,
    decreases n - k,
{
    if k < n {
        lemma_frontier_stays_empty(courses, seed, k, n - 1);
        assert(expand(courses, seed, frontier(courses, seed, n - 1), n - 1, 0).len() == 0);
    }
}

/// The masks and selections in `masks` and `maps` are those of `choices`.
spec fn represents(
    masks: Seq<u64>,
    maps: Seq<CourseMap>,
    base: Seq<(Seq<char>, CourseView)>,
    courses: Seq<(Seq<char>, CourseView)>,
    seed: u64,
    choices: Seq<Seq<int>>,
) -> bool {
    &&& masks.len() == choices.len()
    &&& maps.len() == choices.len()
    &&& forall|i: int|
        #![trigger choices[i]]
        #![trigger masks[i]]
        #![trigger maps[i]]
        0 <= i < choices.len() ==> {
            &&& masks[i] == occupied(courses, seed, choices[i])
            &&& maps[i]@ == assignment(base, courses, choices[i])
            &&& maps[i].wf()
        }
}

/// Appends to `masks` and `maps` the extensions of one partial timetable by
/// the sections of `course` that fit into it.
fn extend_partial(
    mask: u64,
    map: &CourseMap,
    code: &String,
    course: &Course,
    masks: &mut Vec<u64>,
    maps: &mut Vec<CourseMap>,
    Ghost(base): Ghost<Seq<(Seq<char>, CourseView)>>,
    Ghost(courses): Ghost<Seq<(Seq<char>, CourseView)>>,
    Ghost(seed): Ghost<u64>,
    Ghost(p): Ghost<Seq<int>>,
    Ghost(done): Ghost<Seq<Seq<int>>>,
)
    requires
        p.len() < courses.len(),
        courses[p.len() as int] == (code@, course@),
        course.wf(),
        map.wf(),
        mask == occupied(courses, seed, p),
        map@ == assignment(base, courses, p),
        represents(old(masks)@, old(maps)@, base, courses, seed, done),
    ensures
        represents(
            final(masks)@,
            final(maps)@,
            base,
            courses,
            seed,
            done + extensions(courses, seed, p, course@.sections.len() as int),
        ),
{
    let ghost k = p.len() as int;
    let mut j: usize = 0;
    assert(done + extensions(courses, seed, p, 0) =~= done);
    while j < course.len()
        invariant
            j <= course@.sections.len(),
            k == p.len(),
            k < courses.len(),
            courses[k] == (code@, course@),
            course.wf(),
            map.wf(),
            mask == occupied(courses, seed, p),
            map@ == assignment(base, courses, p),
            represents(
                masks@,
                maps@,
                base,
                courses,
                seed,
                done + extensions(courses, seed, p, j as int),
            ),
        decreases course@.sections.len() - j,
    {
        let ghost before = done + extensions(courses, seed, p, j as int);
        let slot = course.session_at(j);
        if !conflicts(mask, slot) {
            let mut picked = map.clone();
            picked.add(code.clone(), course.only(j));
            let taken = union(mask, slot);
            masks.push(taken);
            maps.push(picked);
            proof {
                let q = p.push(j as int);
                assert(q.drop_last() =~= p);
                assert(chosen_mask(courses, q, k) == slot);
                assert(taken == occupied(courses, seed, q));
                assert(picked@ == assignment(base, courses, q));
                let after = done + extensions(courses, seed, p, j + 1);
                assert(after =~= before.push(q));
                assert forall|i: int| 0 <= i < after.len() implies {
                    &&& masks@[i] == occupied(courses, seed, #[trigger] after[i])
                    &&& maps@[i]@ == assignment(base, courses, after[i])
                    &&& maps@[i].wf()
                } by {
                    if i < before.len() {
                        assert(after[i] == before[i]);
                    }
                }
            }
        } else {
            assert(done + extensions(courses, seed, p, j + 1) =~= before);
        }
        j += 1;
    }
}

/// The next frontier: the extensions of every partial timetable of the
/// current one by the sections of the course at position `k`.
fn expand_frontier(
    front_masks: &Vec<u64>,
    front_maps: &Vec<CourseMap>,
    code: &String,
    course: &Course,
    Ghost(base): Ghost<Seq<(Seq<char>, CourseView)>>,
    Ghost(courses): Ghost<Seq<(Seq<char>, CourseView)>>,
    Ghost(seed): Ghost<u64>,
    Ghost(k): Ghost<int>,
    Ghost(choices): Ghost<Seq<Seq<int>>>,
) -> (r: (Vec<u64>, Vec<CourseMap>))
    requires
        0 <= k < courses.len(),
        courses[k] == (code@, course@),
        course.wf(),
        forall|i: int| 0 <= i < choices.len() ==> (#[trigger] choices[i]).len() == k,
        represents(front_masks@, front_maps@, base, courses, seed, choices),
    ensures
        represents(
            r.0@,
            r.1@,
            base,
            courses,
            seed,
            expand(courses, seed, choices, k, choices.len() as int),
        ),
{
    let mut masks: Vec<u64> = Vec::new();
    let mut maps: Vec<CourseMap> = Vec::new();
    let mut m: usize = 0;
    while m < front_masks.len()
        invariant
            m <= choices.len(),
            0 <= k < courses.len(),
            courses[k] == (code@, course@),
            course.wf(),
            forall|i: int| 0 <= i < choices.len() ==> (#[trigger] choices[i]).len() == k,
            represents(front_masks@, front_maps@, base, courses, seed, choices),
            represents(masks@, maps@, base, courses, seed, expand(courses, seed, choices, k, m as int)),
        decreases choices.len() - m,
    {
        proof {
            assert(choices[m as int].len() == k);
            assert(front_masks@[m as int] == occupied(courses, seed, choices[m as int]));
            assert(front_maps@[m as int].wf());
        }
        extend_partial(
            front_masks[m],
            &front_maps[m],
            code,
            course,
            &mut masks,
            &mut maps,
            Ghost(base),
            Ghost(courses),
            Ghost(seed),
            Ghost(choices[m as int]),
            Ghost(expand(courses, seed, choices, k, m as int)),
        );
        m += 1;
    }
    (masks, maps)
}

impl CourseMap {
    /// Every timetable that picks one section for each course of `self`, on
    /// top of the courses of `seed`, such that no pick shares a time slot with
    /// another pick or with any section of `seed`.
    ///
    /// The timetables come in the order of the search: the courses are taken
    /// in the order of `self`, the sections in the order of their course.
    /// `None` says that there is a course to place and no way to place them
    /// all; without any course the answer is the empty list.
    pub fn keep_no_conflict_with(&self, seed: &CourseMap) -> (r: Option<Vec<CourseMap>>)
        requires
            self.wf(),
            seed.wf(),
        ensures
            match r {
                Some(v) => {
                    &&& self@.len() == 0 || spec_schedules(self@, seed@).len() > 0
                    &&& v.len() == spec_schedules(self@, seed@).len()
                    &&& forall|i: int|
                        0 <= i < v.len() ==> (#[trigger] v[i])@ == spec_schedules(self@, seed@)[i]
                            && v[i].wf()
                },
                None => self@.len() > 0 && spec_schedules(self@, seed@).len() == 0,
            },
    {
        let n = self.len();
        if n == 0 {
            return Some(Vec::new());
        }
        let ghost courses = self@;
        let ghost base = seed@;
        let start = seed.occupancy();
        let mut masks: Vec<u64> = Vec::new();
        let mut maps: Vec<CourseMap> = Vec::new();
        masks.push(start);
        maps.push(seed.clone());
        let mut k: usize = 0;
        while k < n
            invariant
                k <= n,
                n == courses.len(),
                courses == self@,
                base == seed@,
                start == spec_occupancy(base),
                self.wf(),
                forall|i: int|
                    0 <= i < frontier(courses, start, k as int).len() ==> (#[trigger] frontier(
                        courses,
                        start,
                        k as int,
                    )[i]).len() == k,
                represents(masks@, maps@, base, courses, start, frontier(courses, start, k as int)),
                masks.len() > 0,
            decreases n - k,
        {
            let ghost choices = frontier(courses, start, k as int);
            let code = self.code_at(k);
            let course = self.course_at(k);
            let next = expand_frontier(
                &masks,
                &maps,
                code,
                course,
                Ghost(base),
                Ghost(courses),
                Ghost(start),
                Ghost(k as int),
                Ghost(choices),
            );
            proof {
                lemma_expand_lengths(courses, start, choices, k as int, choices.len() as int);
            }
            if next.0.len() == 0 {
                proof {
                    lemma_frontier_stays_empty(courses, start, k + 1, n as int);
                }
                return None;
            }
            masks = next.0;
            maps = next.1;
            k += 1;
        }
        Some(maps)
    }

    /// Every timetable that picks one section for each course of `self` such
    /// that no two picks share a time slot, in the order of the search.
    /// `None` says that there is a course to place and no way to place them
    /// all; without any course the answer is the empty list.
    pub fn keep_no_conflict(&self) -> (r: Option<Vec<CourseMap>>)
        requires
            self.wf(),
        ensures
            match r {
                Some(v) => {
                    &&& self@.len() == 0 || spec_schedules(self@, Seq::empty()).len() > 0
                    &&& v.len() == spec_schedules(self@, Seq::empty()).len()
                    &&& forall|i: int|
                        0 <= i < v.len() ==> (#[trigger] v[i])@ == spec_schedules(
                            self@,
                            Seq::empty(),
                        )[i] && v[i].wf()
                },
                None => self@.len() > 0 && spec_schedules(self@, Seq::empty()).len() == 0,
            },
    {
        let seed = CourseMap::new(Vec::new());
        self.keep_no_conflict_with(&seed)
    }
}

/// A choice made by extending a choice for `k` courses picks for `k + 1`.
pub proof fn lemma_extensions_lengths(
    courses: Seq<(Seq<char>, CourseView)>,
    seed: u64,
    p: Seq<int>,
    n: int,
)
    ensures
        forall|i: int|
            0 <= i < extensions(courses, seed, p, n).len() ==> (#[trigger] extensions(
                courses,
                seed,
                p,
                n,
            )[i]).len() == p.len() + 1,
    decreases n,
{
    if n > 0 {
        lemma_extensions_lengths(courses, seed, p, n - 1);
        let rest = extensions(courses, seed, p, n - 1);
        let all = extensions(courses, seed, p, n);
        assert forall|i: int| 0 <= i < all.len() implies (#[trigger] all[i]).len() == p.len()
            + 1 by {
            if i < rest.len() {
                assert(all[i] == rest[i]);
            }
        }
    }
}

/// Every choice of the frontier made from choices for `k` courses picks for
/// `k + 1`.
pub proof fn lemma_expand_lengths(
    courses: Seq<(Seq<char>, CourseView)>,
    seed: u64,
    front: Seq<Seq<int>>,
    k: int,
    m: int,
)
    requires
        m <= front.len(),
        forall|i: int| 0 <= i < front.len() ==> (#[trigger] front[i]).len() == k,
    ensures
        forall|i: int|
            0 <= i < expand(courses, seed, front, k, m).len() ==> (#[trigger] expand(
                courses,
                seed,
                front,
                k,
                m,
            )[i]).len() == k + 1,
    decreases m,
{
    if m > 0 {
        let n = courses[k].1.sections.len() as int;
        lemma_expand_lengths(courses, seed, front, k, m - 1);
        lemma_extensions_lengths(courses, seed, front[m - 1], n);
        let head = expand(courses, seed, front, k, m - 1);
        let tail = extensions(courses, seed, front[m - 1], n);
        let all = expand(courses, seed, front, k, m);
        assert(all == head + tail);
        assert forall|i: int| 0 <= i < all.len() implies (#[trigger] all[i]).len() == k + 1 by {
            if i < head.len() {
                assert(all[i] == head[i]);
            } else {
                assert(all[i] == tail[i - head.len()]);
            }
        }
    }
}

} // verus!
