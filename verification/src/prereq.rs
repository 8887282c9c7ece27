//! Prerequisites: the course codes that a course's prerequisite text
//! names, and whether a set of completed courses holds them all.

use crate::course::Course;
use vstd::prelude::*;
use vstd::string::StrSliceExecFns;
use vstd::string::StringExecFns;

verus! {

/// The sign between two course codes in a prerequisite text.
pub open spec fn separator() -> char {
    '&'
}

/// Reading `s` from the left: the codes that have ended, and the letters of
/// the code that has not.
pub open spec fn scan(s: Seq<char>) -> (Seq<Seq<char>>, Seq<char>)
    decreases s.len(),
{
    if s.len() == 0 {
        (Seq::empty(), Seq::empty())
    } else {
        let before = scan(s.drop_last());
        if s.last() == separator() {
            (close(before.0, before.1), Seq::empty())
        } else {
            (before.0, before.1.push(s.last()))
        }
    }
}

/// `done` with the code `current` at its end, unless that code is empty.
pub open spec fn close(done: Seq<Seq<char>>, current: Seq<char>) -> Seq<Seq<char>> {
    if current.len() > 0 {
        done.push(current)
    } else {
        done
    }
}

/// The course codes that the text `s` names: its pieces between the
/// separators, in order, the empty ones left out.
pub open spec fn spec_prerequisites(s: Seq<char>) -> Seq<Seq<char>> {
    close(scan(s).0, scan(s).1)
}

/// A text holds no separator.
pub open spec fn plain(s: Seq<char>) -> bool {
    forall|i: int| 0 <= i < s.len() ==> #[trigger] s[i] != separator()
}

/// Every code that has ended, and the one that has not, is free of
/// separators, and a code that has ended is not empty.
pub proof fn lemma_scan_clean(s: Seq<char>)
    ensures
        plain(scan(s).1),
        forall|i: int|
            0 <= i < scan(s).0.len() ==> (#[trigger] scan(s).0[i]).len() > 0 && plain(scan(s).0[i]),
    decreases s.len(),
{
    if s.len() > 0 {
        lemma_scan_clean(s.drop_last());
    }
}

/// Every prerequisite read from a text is a non-empty code without a
/// separator; a non-empty text without a separator is its own single code.
pub proof fn prerequisites_are_codes(s: Seq<char>)
    ensures
        forall|i: int|
            0 <= i < spec_prerequisites(s).len() ==> (#[trigger] spec_prerequisites(s)[i]).len() > 0
                && plain(spec_prerequisites(s)[i]),
        s.len() > 0 && plain(s) ==> spec_prerequisites(s) == seq![s],
        s.len() == 0 ==> spec_prerequisites(s).len() == 0,
{
    lemma_scan_clean(s);
    if plain(s) {
        lemma_scan_plain(s);
        if s.len() > 0 {
            assert(spec_prerequisites(s) =~= seq![s]);
        }
    }
}

/// Reading a text without a separator ends no code.
pub proof fn lemma_scan_plain(s: Seq<char>)
    requires
        plain(s),
    ensures
        scan(s) == (Seq::<Seq<char>>::empty(), s),
    decreases s.len(),
{
    if s.len() > 0 {
        let rest = s.drop_last();
        assert forall|i: int| 0 <= i < rest.len() implies #[trigger] rest[i] != separator() by {
            assert(rest[i] == s[i]);
        }
        lemma_scan_plain(rest);
        assert(s[s.len() - 1] != separator());
        assert(rest.push(s.last()) =~= s);
    } else {
        assert(s =~= Seq::empty());
    }
}

/// The texts of `v` as mathematical values.
pub open spec fn texts(v: Seq<String>) -> Seq<Seq<char>> {
    Seq::new(v.len(), |i: int| v[i]@)
}

/// Every code of `wanted` is one of `completed`.
pub open spec fn all_among(wanted: Seq<Seq<char>>, completed: Seq<Seq<char>>) -> bool {
    forall|i: int| 0 <= i < wanted.len() ==> completed.contains(#[trigger] wanted[i])
}

/// Whether `code` is one of `completed`.
fn is_among(code: &String, completed: &Vec<String>) -> (r: bool)
    ensures
        r == texts(completed@).contains(code@),
{
    let mut i: usize = 0;
    while i < completed.len()
        invariant
            i <= completed.len(),
            forall|j: int| 0 <= j < i ==> (#[trigger] completed[j])@ != code@,
        decreases completed.len() - i,
    {
        if completed[i] == *code {
            assert(texts(completed@)[i as int] == code@);
            return true;
        }
        i += 1;
    }
    proof {
        let t = texts(completed@);
        if t.contains(code@) {
            let j = choose|j: int| 0 <= j < t.len() && t[j] == code@;
            assert(completed[j]@ == code@);
        }
    }
    false
}

/// The course codes named by a prerequisite text.
pub fn split_prerequisites(text: &str) -> (r: Vec<String>)
    ensures
        texts(r@) == spec_prerequisites(text@),
{
    let n = text.unicode_len();
    let mut r: Vec<String> = Vec::new();
    let mut start: usize = 0;
    let mut i: usize = 0;
    proof {
        assert(text@.take(0) =~= Seq::empty());
        assert(texts(r@) =~= Seq::empty());
        assert(text@.subrange(0, 0) =~= Seq::empty());
    }
    while i < n
        invariant
            n == text@.len(),
            start <= i <= n,
            texts(r@) == scan(text@.take(i as int)).0,
            text@.subrange(start as int, i as int) == scan(text@.take(i as int)).1,
        decreases n - i,
    {
        let c = text.get_char(i);
        proof {
            assert(text@.take(i + 1).drop_last() =~= text@.take(i as int));
            assert(text@.take(i + 1).last() == c);
        }
        if c == '&' {
            if start < i {
                let piece = String::from_str(text.substring_char(start, i));
                let ghost before = texts(r@);
                r.push(piece);
                assert(texts(r@) =~= before.push(text@.subrange(start as int, i as int)));
            }
            start = i + 1;
            assert(text@.subrange(start as int, i + 1) =~= Seq::empty());
        } else {
            assert(text@.subrange(start as int, i + 1) =~= text@.subrange(
                start as int,
                i as int,
            ).push(c));
        }
        i += 1;
    }
    assert(text@.take(n as int) =~= text@);
    if start < n {
        let piece = String::from_str(text.substring_char(start, n));
        let ghost before = texts(r@);
        r.push(piece);
        assert(texts(r@) =~= before.push(text@.subrange(start as int, n as int)));
    }
    r
}

impl Course {
    /// The codes of the courses that must be completed before this one, in
    /// the order in which the prerequisite text names them.
    pub fn prerequisites(&self) -> (r: Vec<String>)
        ensures
            texts(r@) == spec_prerequisites(self@.prereq),
    {
        split_prerequisites(self.prereq().as_str())
    }

    /// Whether `completed` holds every prerequisite of this course.
    pub fn prerequisites_met(&self, completed: &Vec<String>) -> (r: bool)
        ensures
            r == all_among(spec_prerequisites(self@.prereq), texts(completed@)),
    {
        let wanted = self.prerequisites();
        let ghost w = texts(wanted@);
        let mut i: usize = 0;
        while i < wanted.len()
            invariant
                i <= wanted.len(),
                w == texts(wanted@),
                w == spec_prerequisites(self@.prereq),
                forall|j: int| 0 <= j < i ==> texts(completed@).contains(#[trigger] w[j]),
            decreases wanted.len() - i,
        {
            if !is_among(&wanted[i], completed) {
                proof {
                    assert(w[i as int] == wanted[i as int]@);
                    assert(!texts(completed@).contains(w[i as int]));
                }
                return false;
            }
            assert(w[i as int] == wanted[i as int]@);
            i += 1;
        }
        true
    }
}

} // verus!
