//! Weekly time occupancy as a 64-bit mask, and the conflict relation on it.

use vstd::prelude::*;

verus! {

/// Two masks conflict when they share at least one time slot.
pub open spec fn spec_conflicts(a: u64, b: u64) -> bool {
    a & b != 0
}

/// The slots occupied by either mask.
pub open spec fn spec_union(a: u64, b: u64) -> u64 {
    a | b
}

/// The slots occupied by at least one entry of `sections`.
pub open spec fn spec_union_all(sections: Seq<(Seq<char>, u64)>) -> u64
    decreases sections.len(),
{
    if sections.len() == 0 {
        0
    } else {
        spec_union_all(sections.drop_last()) | sections.last().1
    }
}

/// A mask collides with the union of two masks exactly when it collides
/// with one of them.
pub proof fn lemma_union_conflicts(a: u64, b: u64, x: u64)
    ensures
        spec_conflicts(spec_union(a, b), x) == (spec_conflicts(a, x) || spec_conflicts(b, x)),
{
    assert(((a | b) & x != 0) == ((a & x != 0) || (b & x != 0))) by (bit_vector);
}

/// Conflict is symmetric: `a` is in the way of `b` exactly when `b` is in
/// the way of `a`.
pub proof fn conflicts_symmetric(a: u64, b: u64)
    ensures
        spec_conflicts(a, b) == spec_conflicts(b, a),
{
    assert((a & b != 0) == (b & a != 0)) by (bit_vector);
}

/// Union does not depend on the order of its arguments.
pub proof fn union_commutative(a: u64, b: u64)
    ensures
        spec_union(a, b) == spec_union(b, a),
{
    assert(a | b == b | a) by (bit_vector);
}

/// Union does not depend on how its arguments are grouped.
pub proof fn union_associative(a: u64, b: u64, c: u64)
    ensures
        spec_union(spec_union(a, b), c) == spec_union(a, spec_union(b, c)),
{
    assert((a | b) | c == a | (b | c)) by (bit_vector);
}

/// The empty mask is the identity of union, and conflicts with nothing.
pub proof fn union_identity(a: u64)
    ensures
        spec_union(a, 0) == a,
        spec_union(0, a) == a,
        !spec_conflicts(0, a),
        !spec_conflicts(a, 0),
{
    assert(a | 0 == a) by (bit_vector);
    assert(0 | a == a) by (bit_vector);
    assert(0 & a == 0) by (bit_vector);
    assert(a & 0 == 0) by (bit_vector);
}

/// Whether two masks share a time slot.
pub fn conflicts(a: u64, b: u64) -> (r: bool)
    ensures
        r == spec_conflicts(a, b),
{
    a & b != 0
}

/// The mask that occupies every slot of `a` and every slot of `b`.
pub fn union(a: u64, b: u64) -> (r: u64)
    ensures
        r == spec_union(a, b),
{
    a | b
}

} // verus!
