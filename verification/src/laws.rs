//! What the combination engine's frontier means: it holds exactly the
//! choices that are free of conflicts.

use crate::course::CourseView;
use crate::course_map::{any_course_conflicts, lemma_occupancy_conflicts, spec_add, spec_occupancy};
use crate::keyed::{distinct_keys, has_key, key_index};
use crate::mask::{lemma_union_conflicts, spec_conflicts, spec_union};
use crate::scheduler::{
    assignment, chosen_mask, conflict_free, expand, extensions, frontier, occupied, single,
    spec_schedules,
};
use vstd::prelude::*;

verus! {

/// Some section picked by `p` shares a time slot with `x`.
pub open spec fn pick_conflicts(
    courses: Seq<(Seq<char>, CourseView)>,
    p: Seq<int>,
    x: u64,
) -> bool {
    exists|j: int| 0 <= j < p.len() && spec_conflicts(#[trigger] chosen_mask(courses, p, j), x)
}

/// `e` is `p` with one more pick, a section of the next course that fits
/// into the time slots which `p` and the seed leave free.
pub open spec fn extends(
    courses: Seq<(Seq<char>, CourseView)>,
    seed: u64,
    p: Seq<int>,
    e: Seq<int>,
) -> bool {
    &&& e.len() == p.len() + 1
    &&& e.drop_last() == p
    &&& 0 <= e.last() < courses[p.len() as int].1.sections.len()
    &&& !spec_conflicts(
        occupied(courses, seed, p),
        courses[p.len() as int].1.sections[e.last()].1,
    )
}

/// A mask collides with the running mask of a choice exactly when it
/// collides with the seed or with one of the picked sections.
pub proof fn lemma_occupied_conflicts(
    courses: Seq<(Seq<char>, CourseView)>,
    seed: u64,
    p: Seq<int>,
    x: u64,
)
    ensures
        spec_conflicts(occupied(courses, seed, p), x) == (spec_conflicts(seed, x)
            || pick_conflicts(courses, p, x)),
    decreases p.len(),
{
    if p.len() > 0 {
        let q = p.drop_last();
        let last = p.len() - 1;
        lemma_occupied_conflicts(courses, seed, q, x);
        lemma_union_conflicts(occupied(courses, seed, q), chosen_mask(courses, p, last), x);
        assert(occupied(courses, seed, p) == spec_union(
            occupied(courses, seed, q),
            chosen_mask(courses, p, last),
        ));
        if pick_conflicts(courses, q, x) {
            let j = choose|j: int|
                0 <= j < q.len() && spec_conflicts(#[trigger] chosen_mask(courses, q, j), x);
            assert(chosen_mask(courses, p, j) == chosen_mask(courses, q, j));
        }
        if pick_conflicts(courses, p, x) {
            let j = choose|j: int|
                0 <= j < p.len() && spec_conflicts(#[trigger] chosen_mask(courses, p, j), x);
            if j < last {
                assert(chosen_mask(courses, q, j) == chosen_mask(courses, p, j));
            }
        }
    }
}

/// Extending a choice that is free of conflicts gives one that is.
pub proof fn lemma_extends_conflict_free(
    courses: Seq<(Seq<char>, CourseView)>,
    seed: u64,
    p: Seq<int>,
    e: Seq<int>,
)
    requires
        p.len() < courses.len(),
        conflict_free(courses, seed, p),
        extends(courses, seed, p, e),
    ensures
        conflict_free(courses, seed, e),
{
    let k = p.len() as int;
    let x = courses[k].1.sections[e.last()].1;
    lemma_occupied_conflicts(courses, seed, p, x);
    assert(chosen_mask(courses, e, k) == x);
    assert forall|j: int| 0 <= j < k implies e[j] == p[j] && chosen_mask(courses, e, j)
        == chosen_mask(courses, p, j) by {
        assert(e.drop_last()[j] == e[j]);
    }
    assert forall|j: int| 0 <= j < e.len() implies 0 <= #[trigger] e[j]
        < courses[j].1.sections.len() by {
        if j < k {
            assert(e[j] == p[j]);
        }
    }
    assert forall|j: int| 0 <= j < e.len() implies !spec_conflicts(
        seed,
        #[trigger] chosen_mask(courses, e, j),
    ) by {
        if j < k {
            assert(chosen_mask(courses, e, j) == chosen_mask(courses, p, j));
        }
    }
    assert forall|i: int, j: int| 0 <= i < j < e.len() implies !spec_conflicts(
        #[trigger] chosen_mask(courses, e, i),
        #[trigger] chosen_mask(courses, e, j),
    ) by {
        assert(chosen_mask(courses, e, i) == chosen_mask(courses, p, i));
        if j < k {
            assert(chosen_mask(courses, e, j) == chosen_mask(courses, p, j));
        } else {
            assert(!pick_conflicts(courses, p, x));
        }
    }
}

/// A choice that is free of conflicts extends its own beginning, which is
/// free of conflicts too.
pub proof fn lemma_conflict_free_extends(
    courses: Seq<(Seq<char>, CourseView)>,
    seed: u64,
    e: Seq<int>,
)
    requires
        e.len() > 0,
        conflict_free(courses, seed, e),
    ensures
        conflict_free(courses, seed, e.drop_last()),
        extends(courses, seed, e.drop_last(), e),
{
    let p = e.drop_last();
    let k = p.len() as int;
    let x = courses[k].1.sections[e.last()].1;
    assert(chosen_mask(courses, e, k) == x);
    assert forall|j: int| 0 <= j < k implies p[j] == e[j] && chosen_mask(courses, p, j)
        == chosen_mask(courses, e, j) by {}
    assert forall|j: int| 0 <= j < p.len() implies 0 <= #[trigger] p[j]
        < courses[j].1.sections.len() by {
        assert(p[j] == e[j]);
    }
    assert forall|j: int| 0 <= j < p.len() implies !spec_conflicts(
        seed,
        #[trigger] chosen_mask(courses, p, j),
    ) by {
        assert(chosen_mask(courses, p, j) == chosen_mask(courses, e, j));
    }
    assert forall|i: int, j: int| 0 <= i < j < p.len() implies !spec_conflicts(
        #[trigger] chosen_mask(courses, p, i),
        #[trigger] chosen_mask(courses, p, j),
    ) by {
        assert(chosen_mask(courses, p, i) == chosen_mask(courses, e, i));
        assert(chosen_mask(courses, p, j) == chosen_mask(courses, e, j));
    }
    lemma_occupied_conflicts(courses, seed, p, x);
    if pick_conflicts(courses, p, x) {
        let j = choose|j: int|
            0 <= j < p.len() && spec_conflicts(#[trigger] chosen_mask(courses, p, j), x);
        assert(chosen_mask(courses, p, j) == chosen_mask(courses, e, j));
        assert(!spec_conflicts(chosen_mask(courses, e, j), chosen_mask(courses, e, k)));
    }
    assert(e[k] == e.last());
}

/// Every member of `extensions` extends `p`.
pub proof fn lemma_extensions_sound(
    courses: Seq<(Seq<char>, CourseView)>,
    seed: u64,
    p: Seq<int>,
    n: int,
)
    requires
        n <= courses[p.len() as int].1.sections.len(),
    ensures
        forall|i: int|
            0 <= i < extensions(courses, seed, p, n).len() ==> extends(
                courses,
                seed,
                p,
                #[trigger] extensions(courses, seed, p, n)[i],
            ),
    decreases n,
{
    if n > 0 {
        lemma_extensions_sound(courses, seed, p, n - 1);
        let rest = extensions(courses, seed, p, n - 1);
        let all = extensions(courses, seed, p, n);
        assert forall|i: int| 0 <= i < all.len() implies extends(
            courses,
            seed,
            p,
            #[trigger] all[i],
        ) by {
            if i < rest.len() {
                assert(all[i] == rest[i]);
            } else {
                let e = p.push(n - 1);
                assert(all[i] == e);
                assert(e.drop_last() =~= p);
            }
        }
    }
}

/// Every extension of `p` by one of the first `n` sections is a member of
/// `extensions`.
pub proof fn lemma_extensions_complete(
    courses: Seq<(Seq<char>, CourseView)>,
    seed: u64,
    p: Seq<int>,
    n: int,
    e: Seq<int>,
)
    requires
        extends(courses, seed, p, e),
        e.last() < n,
    ensures
        extensions(courses, seed, p, n).contains(e),
    decreases n,
{
    let rest = extensions(courses, seed, p, n - 1);
    let all = extensions(courses, seed, p, n);
    if e.last() == n - 1 {
        assert(p.push(n - 1) =~= e);
        assert(all == rest.push(e));
        assert(all[rest.len() as int] == e);
    } else {
        lemma_extensions_complete(courses, seed, p, n - 1, e);
        let i = choose|i: int| 0 <= i < rest.len() && rest[i] == e;
        assert(all[i] == e);
    }
}

/// Every member of `expand` extends one of the first `m` choices of `front`.
pub proof fn lemma_expand_sound(
    courses: Seq<(Seq<char>, CourseView)>,
    seed: u64,
    front: Seq<Seq<int>>,
    k: int,
    m: int,
)
    requires
        0 <= k < courses.len(),
        m <= front.len(),
        forall|a: int| 0 <= a < front.len() ==> (#[trigger] front[a]).len() == k,
    ensures
        forall|i: int|
            0 <= i < expand(courses, seed, front, k, m).len() ==> exists|a: int|
                0 <= a < m && extends(
                    courses,
                    seed,
                    #[trigger] front[a],
                    #[trigger] expand(courses, seed, front, k, m)[i],
                ),
    decreases m,
{
    if m > 0 {
        let n = courses[k].1.sections.len() as int;
        lemma_expand_sound(courses, seed, front, k, m - 1);
        assert(front[m - 1].len() == k);
        lemma_extensions_sound(courses, seed, front[m - 1], n);
        let head = expand(courses, seed, front, k, m - 1);
        let tail = extensions(courses, seed, front[m - 1], n);
        let all = expand(courses, seed, front, k, m);
        assert(all == head + tail);
        assert forall|i: int| 0 <= i < all.len() implies exists|a: int|
            0 <= a < m && extends(courses, seed, #[trigger] front[a], #[trigger] all[i]) by {
            if i < head.len() {
                assert(all[i] == head[i]);
                let a = choose|a: int|
                    0 <= a < m - 1 && extends(courses, seed, #[trigger] front[a], head[i]);
                assert(0 <= a < m && extends(courses, seed, front[a], all[i]));
            } else {
                assert(all[i] == tail[i - head.len()]);
                assert(extends(courses, seed, front[m - 1], all[i]));
            }
        }
    }
}

/// Every extension of one of the first `m` choices of `front` is a member
/// of `expand`.
pub proof fn lemma_expand_complete(
    courses: Seq<(Seq<char>, CourseView)>,
    seed: u64,
    front: Seq<Seq<int>>,
    k: int,
    m: int,
    a: int,
    e: Seq<int>,
)
    requires
        0 <= a < m <= front.len(),
        front[a].len() == k,
        extends(courses, seed, front[a], e),
    ensures
        expand(courses, seed, front, k, m).contains(e),
    decreases m,
{
    let n = courses[k].1.sections.len() as int;
    let head = expand(courses, seed, front, k, m - 1);
    let tail = extensions(courses, seed, front[m - 1], n);
    let all = expand(courses, seed, front, k, m);
    assert(all == head + tail);
    if a == m - 1 {
        lemma_extensions_complete(courses, seed, front[a], n, e);
        let i = choose|i: int| 0 <= i < tail.len() && tail[i] == e;
        assert(all[head.len() + i] == e);
    } else {
        lemma_expand_complete(courses, seed, front, k, m - 1, a, e);
        let i = choose|i: int| 0 <= i < head.len() && head[i] == e;
        assert(all[i] == e);
    }
}

/// Soundness of the search: every choice of the frontier after `k` courses
/// picks a section for each of them, and no pick shares a time slot with the
/// seed or with another pick.
pub proof fn frontier_sound(courses: Seq<(Seq<char>, CourseView)>, seed: u64, k: int)
    requires
        0 <= k <= courses.len(),
    ensures
        forall|i: int|
            0 <= i < frontier(courses, seed, k).len() ==> {
                &&& (#[trigger] frontier(courses, seed, k)[i]).len() == k
                &&& conflict_free(courses, seed, frontier(courses, seed, k)[i])
            },
    decreases k,
{
    let now = frontier(courses, seed, k);
    if k == 0 {
        assert forall|i: int| 0 <= i < now.len() implies (#[trigger] now[i]).len() == k
            && conflict_free(courses, seed, now[i]) by {
            assert(now[i] == Seq::<int>::empty());
        }
    } else {
        let prev = frontier(courses, seed, k - 1);
        frontier_sound(courses, seed, k - 1);
        lemma_expand_sound(courses, seed, prev, k - 1, prev.len() as int);
        assert forall|i: int| 0 <= i < now.len() implies (#[trigger] now[i]).len() == k
            && conflict_free(courses, seed, now[i]) by {
            let a = choose|a: int|
                0 <= a < prev.len() && extends(courses, seed, #[trigger] prev[a], now[i]);
            lemma_extends_conflict_free(courses, seed, prev[a], now[i]);
        }
    }
}

/// Completeness of the search: every choice for the first `k` courses whose
/// picks share no time slot with the seed or with one another is in the
/// frontier after `k` courses.
pub proof fn frontier_complete(
    courses: Seq<(Seq<char>, CourseView)>,
    seed: u64,
    k: int,
    choice: Seq<int>,
)
    requires
        0 <= k <= courses.len(),
        choice.len() == k,
        conflict_free(courses, seed, choice),
    ensures
        frontier(courses, seed, k).contains(choice),
    decreases k,
{
    let now = frontier(courses, seed, k);
    if k == 0 {
        assert(choice =~= Seq::<int>::empty());
        assert(now[0] == choice);
    } else {
        let prev = frontier(courses, seed, k - 1);
        let p = choice.drop_last();
        lemma_conflict_free_extends(courses, seed, choice);
        frontier_complete(courses, seed, k - 1, p);
        frontier_sound(courses, seed, k - 1);
        let a = choose|a: int| 0 <= a < prev.len() && prev[a] == p;
        lemma_expand_complete(courses, seed, prev, k - 1, prev.len() as int, a, choice);
    }
}

/// `a` comes before `b` in the order of the search: at the first course for
/// which they pick differently, `a` picks the earlier section.
pub open spec fn before(a: Seq<int>, b: Seq<int>) -> bool {
    exists|d: int|
        0 <= d < a.len() && d < b.len() && a.take(d) == b.take(d) && #[trigger] a[d] < b[d]
}

/// The members of `extensions` pick sections at growing positions.
pub proof fn lemma_extensions_sorted(
    courses: Seq<(Seq<char>, CourseView)>,
    seed: u64,
    p: Seq<int>,
    n: int,
)
    ensures
        forall|i: int|
            0 <= i < extensions(courses, seed, p, n).len() ==> (#[trigger] extensions(
                courses,
                seed,
                p,
                n,
            )[i]).last() < n,
        forall|i: int, j: int|
            0 <= i < j < extensions(courses, seed, p, n).len() ==> (#[trigger] extensions(
                courses,
                seed,
                p,
                n,
            )[i]).last() < (#[trigger] extensions(courses, seed, p, n)[j]).last(),
    decreases n,
{
    if n > 0 {
        lemma_extensions_sorted(courses, seed, p, n - 1);
        let rest = extensions(courses, seed, p, n - 1);
        let all = extensions(courses, seed, p, n);
        assert forall|i: int| 0 <= i < all.len() implies (#[trigger] all[i]).last() < n by {
            if i < rest.len() {
                assert(all[i] == rest[i]);
            }
        }
        assert forall|i: int, j: int| 0 <= i < j < all.len() implies (#[trigger] all[i]).last() < (
        #[trigger] all[j]).last() by {
            assert(all[i] == rest[i]);
            if j < rest.len() {
                assert(all[j] == rest[j]);
            }
        }
    }
}

/// Of two members of `expand`, the earlier one extends an earlier choice of
/// `front`, or the same choice by an earlier section.
pub proof fn lemma_expand_sorted(
    courses: Seq<(Seq<char>, CourseView)>,
    seed: u64,
    front: Seq<Seq<int>>,
    k: int,
    m: int,
)
    requires
        0 <= k < courses.len(),
        m <= front.len(),
        forall|a: int| 0 <= a < front.len() ==> (#[trigger] front[a]).len() == k,
    ensures
        forall|i: int, j: int|
            0 <= i < j < expand(courses, seed, front, k, m).len() ==> exists|a: int, b: int|
                {
                    &&& 0 <= a <= b < m
                    &&& (#[trigger] expand(courses, seed, front, k, m)[i]).drop_last()
                        == #[trigger] front[a]
                    &&& (#[trigger] expand(courses, seed, front, k, m)[j]).drop_last()
                        == #[trigger] front[b]
                    &&& (a == b ==> expand(courses, seed, front, k, m)[i].last() < expand(
                        courses,
                        seed,
                        front,
                        k,
                        m,
                    )[j].last())
                },
    decreases m,
{
    if m > 0 {
        let n = courses[k].1.sections.len() as int;
        lemma_expand_sorted(courses, seed, front, k, m - 1);
        lemma_expand_sound(courses, seed, front, k, m - 1);
        assert(front[m - 1].len() == k);
        lemma_extensions_sound(courses, seed, front[m - 1], n);
        lemma_extensions_sorted(courses, seed, front[m - 1], n);
        let head = expand(courses, seed, front, k, m - 1);
        let tail = extensions(courses, seed, front[m - 1], n);
        let all = expand(courses, seed, front, k, m);
        assert(all == head + tail);
        assert forall|i: int, j: int| 0 <= i < j < all.len() implies exists|a: int, b: int|
            {
                &&& 0 <= a <= b < m
                &&& (#[trigger] all[i]).drop_last() == #[trigger] front[a]
                &&& (#[trigger] all[j]).drop_last() == #[trigger] front[b]
                &&& (a == b ==> all[i].last() < all[j].last())
            } by {
            if j < head.len() {
                assert(all[i] == head[i] && all[j] == head[j]);
                let (a, b) = choose|a: int, b: int|
                    {
                        &&& 0 <= a <= b < m - 1
                        &&& (#[trigger] head[i]).drop_last() == #[trigger] front[a]
                        &&& (#[trigger] head[j]).drop_last() == #[trigger] front[b]
                        &&& (a == b ==> head[i].last() < head[j].last())
                    };
                assert(0 <= a <= b < m && all[i].drop_last() == front[a] && all[j].drop_last()
                    == front[b]);
            } else if i < head.len() {
                assert(all[i] == head[i]);
                assert(all[j] == tail[j - head.len()]);
                let a = choose|a: int|
                    0 <= a < m - 1 && extends(courses, seed, #[trigger] front[a], head[i]);
                assert(extends(courses, seed, front[m - 1], tail[j - head.len()]));
                assert(0 <= a <= m - 1 < m && all[i].drop_last() == front[a] && all[j].drop_last()
                    == front[m - 1]);
            } else {
                assert(all[i] == tail[i - head.len()]);
                assert(all[j] == tail[j - head.len()]);
                assert(extends(courses, seed, front[m - 1], tail[i - head.len()]));
                assert(extends(courses, seed, front[m - 1], tail[j - head.len()]));
                assert(0 <= m - 1 <= m - 1 < m && all[i].drop_last() == front[m - 1]
                    && all[j].drop_last() == front[m - 1]);
            }
        }
    }
}

/// The order of the search: the frontier lists its choices in growing
/// order, so that no choice is listed twice.
pub proof fn frontier_sorted(courses: Seq<(Seq<char>, CourseView)>, seed: u64, k: int)
    requires
        0 <= k <= courses.len(),
    ensures
        forall|i: int, j: int|
            0 <= i < j < frontier(courses, seed, k).len() ==> before(
                #[trigger] frontier(courses, seed, k)[i],
                #[trigger] frontier(courses, seed, k)[j],
            ),
        forall|i: int, j: int|
            0 <= i < j < frontier(courses, seed, k).len() ==> #[trigger] frontier(
                courses,
                seed,
                k,
            )[i] != #[trigger] frontier(courses, seed, k)[j],
    decreases k,
{
    let now = frontier(courses, seed, k);
    if k > 0 {
        let prev = frontier(courses, seed, k - 1);
        frontier_sorted(courses, seed, k - 1);
        frontier_sound(courses, seed, k - 1);
        frontier_sound(courses, seed, k);
        lemma_expand_sorted(courses, seed, prev, k - 1, prev.len() as int);
        assert forall|i: int, j: int| 0 <= i < j < now.len() implies before(
            #[trigger] now[i],
            #[trigger] now[j],
        ) by {
            let (a, b) = choose|a: int, b: int|
                {
                    &&& 0 <= a <= b < prev.len()
                    &&& (#[trigger] now[i]).drop_last() == #[trigger] prev[a]
                    &&& (#[trigger] now[j]).drop_last() == #[trigger] prev[b]
                    &&& (a == b ==> now[i].last() < now[j].last())
                };
            let x = now[i];
            let y = now[j];
            if a == b {
                assert(x.take(k - 1) =~= x.drop_last());
                assert(y.take(k - 1) =~= y.drop_last());
                assert(x[k - 1] < y[k - 1]);
            } else {
                assert(before(prev[a], prev[b]));
                let d = choose|d: int|
                    0 <= d < prev[a].len() && d < prev[b].len() && prev[a].take(d) == prev[b].take(
                        d,
                    ) && #[trigger] prev[a][d] < prev[b][d];
                assert(x.take(d) =~= prev[a].take(d));
                assert(y.take(d) =~= prev[b].take(d));
                assert(x[d] == x.drop_last()[d]);
                assert(y[d] == y.drop_last()[d]);
                assert(x[d] < y[d]);
            }
        }
    }
    assert forall|i: int, j: int| 0 <= i < j < now.len() implies #[trigger] now[i]
        != #[trigger] now[j] by {
        assert(before(now[i], now[j]));
    }
}

/// `list` holds its choices in growing order.
pub open spec fn sorted(list: Seq<Seq<int>>) -> bool {
    forall|i: int, j: int| 0 <= i < j < list.len() ==> before(#[trigger] list[i], #[trigger] list[j])
}

/// Of two choices, at most one comes before the other, and none before
/// itself.
pub proof fn lemma_before_asymmetric(a: Seq<int>, b: Seq<int>)
    requires
        before(a, b),
    ensures
        !before(b, a),
        a != b,
{
    let d = choose|d: int|
        0 <= d < a.len() && d < b.len() && a.take(d) == b.take(d) && #[trigger] a[d] < b[d];
    if before(b, a) {
        let e = choose|e: int|
            0 <= e < b.len() && e < a.len() && b.take(e) == a.take(e) && #[trigger] b[e] < a[e];
        if d < e {
            assert(b.take(e)[d] == a.take(e)[d]);
        } else if e < d {
            assert(a.take(d)[e] == b.take(d)[e]);
        }
    }
}

/// Two lists in growing order that hold the same choices are the same list.
pub proof fn lemma_sorted_lists_equal(a: Seq<Seq<int>>, b: Seq<Seq<int>>)
    requires
        sorted(a),
        sorted(b),
        forall|i: int| 0 <= i < a.len() ==> b.contains(#[trigger] a[i]),
        forall|i: int| 0 <= i < b.len() ==> a.contains(#[trigger] b[i]),
    ensures
        a == b,
    decreases a.len(),
{
    if a.len() == 0 {
        if b.len() > 0 {
            assert(a.contains(b[0]));
        }
        assert(a =~= b);
    } else {
        assert(b.contains(a[0]));
        let top = a.last();
        assert(b.contains(a[a.len() - 1]));
        assert(a.contains(b[b.len() - 1]));
        let j = choose|j: int| 0 <= j < b.len() && b[j] == top;
        let i = choose|i: int| 0 <= i < a.len() && a[i] == b.last();
        if j < b.len() - 1 && i < a.len() - 1 {
            assert(before(b[j], b[b.len() - 1]));
            assert(before(a[i], a[a.len() - 1]));
            lemma_before_asymmetric(top, b.last());
        }
        assert(b.last() == top);
        let a0 = a.drop_last();
        let b0 = b.drop_last();
        assert forall|x: int, y: int| 0 <= x < y < a0.len() implies before(
            #[trigger] a0[x],
            #[trigger] a0[y],
        ) by {
            assert(a0[x] == a[x] && a0[y] == a[y]);
        }
        assert forall|x: int, y: int| 0 <= x < y < b0.len() implies before(
            #[trigger] b0[x],
            #[trigger] b0[y],
        ) by {
            assert(b0[x] == b[x] && b0[y] == b[y]);
        }
        assert forall|x: int| 0 <= x < a0.len() implies b0.contains(#[trigger] a0[x]) by {
            assert(a0[x] == a[x]);
            assert(b.contains(a[x]));
            let y = choose|y: int| 0 <= y < b.len() && b[y] == a[x];
            assert(before(a[x], a[a.len() - 1]));
            lemma_before_asymmetric(a[x], top);
            assert(b0[y] == a0[x]);
        }
        assert forall|x: int| 0 <= x < b0.len() implies a0.contains(#[trigger] b0[x]) by {
            assert(b0[x] == b[x]);
            assert(a.contains(b[x]));
            let y = choose|y: int| 0 <= y < a.len() && a[y] == b[x];
            assert(before(b[x], b[b.len() - 1]));
            lemma_before_asymmetric(b[x], top);
            assert(a0[y] == b0[x]);
        }
        lemma_sorted_lists_equal(a0, b0);
        assert(a =~= a0.push(top));
        assert(b =~= b0.push(top));
    }
}

/// The frontier is determined by what it means: a list that holds exactly
/// the choices for the first `k` courses that are free of conflicts, in
/// growing order, is the frontier after `k` courses.
pub proof fn frontier_unique(
    courses: Seq<(Seq<char>, CourseView)>,
    seed: u64,
    k: int,
    list: Seq<Seq<int>>,
)
    requires
        0 <= k <= courses.len(),
        sorted(list),
        forall|i: int|
            0 <= i < list.len() ==> (#[trigger] list[i]).len() == k && conflict_free(
                courses,
                seed,
                list[i],
            ),
        forall|choice: Seq<int>|
            choice.len() == k && #[trigger] conflict_free(courses, seed, choice) ==> list.contains(
                choice,
            ),
    ensures
        list == frontier(courses, seed, k),
{
    let front = frontier(courses, seed, k);
    frontier_sound(courses, seed, k);
    frontier_sorted(courses, seed, k);
    assert forall|i: int| 0 <= i < list.len() implies front.contains(#[trigger] list[i]) by {
        frontier_complete(courses, seed, k, list[i]);
    }
    assert forall|i: int| 0 <= i < front.len() implies list.contains(#[trigger] front[i]) by {
        assert(conflict_free(courses, seed, front[i]));
    }
    lemma_sorted_lists_equal(list, front);
}

/// The courses that `choice` picks, each under its code and restricted to
/// the one section picked for it.
pub open spec fn picks(courses: Seq<(Seq<char>, CourseView)>, choice: Seq<int>) -> Seq<
    (Seq<char>, CourseView),
> {
    Seq::new(choice.len(), |j: int| (courses[j].0, single(courses[j].1, choice[j])))
}

/// No course of `courses` has a code that `base` holds.
pub open spec fn codes_apart(
    base: Seq<(Seq<char>, CourseView)>,
    courses: Seq<(Seq<char>, CourseView)>,
) -> bool {
    forall|j: int| 0 <= j < courses.len() ==> !has_key(base, (#[trigger] courses[j]).0)
}

/// Where the codes of the courses are distinct and new to `base`, the
/// selection of a choice is `base` followed by the picked courses in order.
pub proof fn lemma_assignment_appends(
    base: Seq<(Seq<char>, CourseView)>,
    courses: Seq<(Seq<char>, CourseView)>,
    choice: Seq<int>,
)
    requires
        distinct_keys(courses),
        codes_apart(base, courses),
        choice.len() <= courses.len(),
    ensures
        assignment(base, courses, choice) == base + picks(courses, choice),
    decreases choice.len(),
{
    if choice.len() == 0 {
        assert(base + picks(courses, choice) =~= base);
    } else {
        let j = choice.len() - 1;
        let q = choice.drop_last();
        lemma_assignment_appends(base, courses, q);
        let sofar = base + picks(courses, q);
        let code = courses[j].0;
        if has_key(sofar, code) {
            let i = key_index(sofar, code);
            assert(0 <= i < sofar.len() && sofar[i].0 == code);
            if i < base.len() {
                assert(sofar[i] == base[i]);
                assert(has_key(base, courses[j].0));
            } else {
                let a = i - base.len();
                assert(sofar[i] == picks(courses, q)[a]);
                assert(courses[a].0 != courses[j].0);
            }
        }
        assert(spec_add(sofar, code, single(courses[j].1, choice[j])) =~= base + picks(
            courses,
            choice,
        ));
    }
}

/// Soundness: every timetable of the engine is the selection of a choice
/// that picks one section for every course, and no pick shares a time slot
/// with another pick or with any section of the seed.
pub proof fn schedules_sound(
    courses: Seq<(Seq<char>, CourseView)>,
    seed: Seq<(Seq<char>, CourseView)>,
    i: int,
) -> (choice: Seq<int>)
    requires
        0 <= i < spec_schedules(courses, seed).len(),
    ensures
        choice.len() == courses.len(),
        conflict_free(courses, spec_occupancy(seed), choice),
        spec_schedules(courses, seed)[i] == assignment(seed, courses, choice),
        forall|j: int|
            0 <= j < courses.len() ==> !any_course_conflicts(
                seed,
                #[trigger] chosen_mask(courses, choice, j),
            ),
        forall|a: int, b: int|
            0 <= a < courses.len() && 0 <= b < courses.len() && a != b ==> !spec_conflicts(
                #[trigger] chosen_mask(courses, choice, a),
                #[trigger] chosen_mask(courses, choice, b),
            ),
{
    let start = spec_occupancy(seed);
    let n = courses.len() as int;
    frontier_sound(courses, start, n);
    let choice = frontier(courses, start, n)[i];
    assert forall|j: int| 0 <= j < courses.len() implies !any_course_conflicts(
        seed,
        #[trigger] chosen_mask(courses, choice, j),
    ) by {
        lemma_occupancy_conflicts(seed, chosen_mask(courses, choice, j));
    }
    assert forall|a: int, b: int|
        0 <= a < courses.len() && 0 <= b < courses.len() && a != b implies !spec_conflicts(
        #[trigger] chosen_mask(courses, choice, a),
        #[trigger] chosen_mask(courses, choice, b),
    ) by {
        crate::mask::conflicts_symmetric(
            chosen_mask(courses, choice, a),
            chosen_mask(courses, choice, b),
        );
    }
    choice
}

/// Completeness: every choice that picks one section for every course
/// without a conflict gives one of the engine's timetables.
pub proof fn schedules_complete(
    courses: Seq<(Seq<char>, CourseView)>,
    seed: Seq<(Seq<char>, CourseView)>,
    choice: Seq<int>,
)
    requires
        courses.len() > 0,
        choice.len() == courses.len(),
        conflict_free(courses, spec_occupancy(seed), choice),
    ensures
        spec_schedules(courses, seed).contains(assignment(seed, courses, choice)),
{
    let start = spec_occupancy(seed);
    let n = courses.len() as int;
    frontier_complete(courses, start, n, choice);
    let last = frontier(courses, start, n);
    let i = choose|i: int| 0 <= i < last.len() && last[i] == choice;
    assert(spec_schedules(courses, seed)[i] == assignment(seed, courses, choice));
}

/// Coverage: where the codes of the courses are distinct and new to the
/// seed, every timetable of the engine is the seed followed by the courses in
/// order, each under its code with exactly one of its sections.
pub proof fn schedules_cover(
    courses: Seq<(Seq<char>, CourseView)>,
    seed: Seq<(Seq<char>, CourseView)>,
    i: int,
)
    requires
        distinct_keys(courses),
        codes_apart(seed, courses),
        0 <= i < spec_schedules(courses, seed).len(),
    ensures
        spec_schedules(courses, seed)[i].len() == seed.len() + courses.len(),
        forall|j: int| 0 <= j < seed.len() ==> spec_schedules(courses, seed)[i][j] == seed[j],
        forall|j: int|
            #![trigger courses[j]]
            0 <= j < courses.len() ==> {
                let entry = spec_schedules(courses, seed)[i][seed.len() + j];
                &&& entry.0 == courses[j].0
                &&& entry.1.sections.len() == 1
                &&& exists|s: int|
                    0 <= s < courses[j].1.sections.len() && entry.1 == #[trigger] single(
                        courses[j].1,
                        s,
                    )
            },
{
    let choice = schedules_sound(courses, seed, i);
    lemma_assignment_appends(seed, courses, choice);
    let r = spec_schedules(courses, seed)[i];
    assert(r == seed + picks(courses, choice));
    assert forall|j: int| #![trigger courses[j]] 0 <= j < courses.len() implies {
        let entry = r[seed.len() + j];
        &&& entry.0 == courses[j].0
        &&& entry.1.sections.len() == 1
        &&& exists|s: int|
            0 <= s < courses[j].1.sections.len() && entry.1 == #[trigger] single(courses[j].1, s)
    } by {
        let entry = r[seed.len() + j];
        assert(entry == picks(courses, choice)[j]);
        assert(0 <= choice[j] < courses[j].1.sections.len());
        assert(entry.1 == single(courses[j].1, choice[j]));
    }
}

/// Freedom of conflicts: where the codes of the courses are distinct and
/// new to the seed, the sections that a timetable of the engine holds for
/// two different courses share no time slot, and none of them shares a time
/// slot with a section of the seed.
pub proof fn schedules_free_of_conflicts(
    courses: Seq<(Seq<char>, CourseView)>,
    seed: Seq<(Seq<char>, CourseView)>,
    i: int,
)
    requires
        distinct_keys(courses),
        codes_apart(seed, courses),
        0 <= i < spec_schedules(courses, seed).len(),
    ensures
        forall|a: int, b: int|
            #![trigger courses[a], courses[b]]
            0 <= a < courses.len() && 0 <= b < courses.len() && a != b ==> !spec_conflicts(
                spec_schedules(courses, seed)[i][seed.len() + a].1.sections[0].1,
                spec_schedules(courses, seed)[i][seed.len() + b].1.sections[0].1,
            ),
        forall|a: int|
            #![trigger courses[a]]
            0 <= a < courses.len() ==> !any_course_conflicts(
                seed,
                spec_schedules(courses, seed)[i][seed.len() + a].1.sections[0].1,
            ),
{
    let choice = schedules_sound(courses, seed, i);
    lemma_assignment_appends(seed, courses, choice);
    let r = spec_schedules(courses, seed)[i];
    assert(r == seed + picks(courses, choice));
    assert forall|a: int| 0 <= a < courses.len() implies r[seed.len() + a].1.sections[0].1
        == chosen_mask(courses, choice, a) by {
        assert(r[seed.len() + a] == picks(courses, choice)[a]);
    }
    assert forall|a: int, b: int|
        #![trigger courses[a], courses[b]]
        0 <= a < courses.len() && 0 <= b < courses.len() && a != b implies !spec_conflicts(
        r[seed.len() + a].1.sections[0].1,
        r[seed.len() + b].1.sections[0].1,
    ) by {
        assert(!spec_conflicts(
            chosen_mask(courses, choice, a),
            chosen_mask(courses, choice, b),
        ));
    }
    assert forall|a: int| #![trigger courses[a]] 0 <= a < courses.len() implies !any_course_conflicts(
        seed,
        r[seed.len() + a].1.sections[0].1,
    ) by {
        assert(!any_course_conflicts(seed, chosen_mask(courses, choice, a)));
    }
}

/// Infeasibility: where no choice picks one section for every course
/// without a conflict, the engine has no timetable.
pub proof fn schedules_infeasible(
    courses: Seq<(Seq<char>, CourseView)>,
    seed: Seq<(Seq<char>, CourseView)>,
)
    requires
        forall|choice: Seq<int>|
            choice.len() == courses.len() ==> !#[trigger] conflict_free(
                courses,
                spec_occupancy(seed),
                choice,
            ),
    ensures
        spec_schedules(courses, seed).len() == 0,
{
    if spec_schedules(courses, seed).len() > 0 {
        let choice = schedules_sound(courses, seed, 0);
        assert(conflict_free(courses, spec_occupancy(seed), choice));
    }
}

} // verus!
