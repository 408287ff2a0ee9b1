use vstd::prelude::*;

verus! {

/// A playing card: four independent attributes, each holding one of the
/// three symbolic values `0`, `1` and `2`.
#[derive(Clone, Copy, Debug, PartialEq, Eq, Structural)]
pub struct Card {
    pub shape: u32,
    pub color: u32,
    pub filling: u32,
    pub amount: u32,
}

impl Card {
    /// Every attribute holds one of the three admissible values.
    pub open spec fn wf(self) -> bool {
        self.shape < 3 && self.color < 3 && self.filling < 3 && self.amount < 3
    }
}

/// One attribute passes the set test when its three values are all equal
/// or pairwise distinct.
pub open spec fn spec_same_or_different(x: u32, y: u32, z: u32) -> bool {
    (x == y && y == z) || (x != y && y != z && z != x)
}

/// Exactly one pair among the three values is equal: the one way an
/// attribute can fail the set test.
pub open spec fn spec_exactly_two_equal(x: u32, y: u32, z: u32) -> bool {
    ||| (x == y && y != z)
    ||| (y == z && x != y)
    ||| (x == z && x != y)
}

/// Three cards form a set when every one of the four attributes passes
/// the per-attribute test.
pub open spec fn spec_is_set(a: Card, b: Card, c: Card) -> bool {
    &&& spec_same_or_different(a.color, b.color, c.color)
    &&& spec_same_or_different(a.shape, b.shape, c.shape)
    &&& spec_same_or_different(a.filling, b.filling, c.filling)
    &&& spec_same_or_different(a.amount, b.amount, c.amount)
}

/// Decides the per-attribute test: all three equal, or pairwise distinct.
pub fn all_same_or_different(first: u32, second: u32, third: u32) -> (r: bool)
    ensures
        r == spec_same_or_different(first, second, third),
{
    if first == second && second == third {
        true
    } else if first != second && second != third && third != first {
        true
    } else {
        false
    }
}

/// Decides whether the three cards form a valid set.
pub fn is_set(first: &Card, second: &Card, third: &Card) -> (r: bool)
    ensures
        r == spec_is_set(*first, *second, *third),
{
    if !all_same_or_different(first.color, second.color, third.color) {
        false
    } else if !all_same_or_different(first.shape, second.shape, third.shape) {
        false
    } else if !all_same_or_different(first.filling, second.filling, third.filling) {
        false
    } else if !all_same_or_different(first.amount, second.amount, third.amount) {
        false
    } else {
        true
    }
}

/// When every attribute of the three cards is all-equal or pairwise
/// distinct the cards form a set, and an attribute on which exactly one
/// pair of values agrees is exactly an attribute that spoils the set.
pub proof fn lemma_is_set_per_attribute(a: Card, b: Card, c: Card)
    ensures
        (spec_same_or_different(a.color, b.color, c.color)
            && spec_same_or_different(a.shape, b.shape, c.shape)
            && spec_same_or_different(a.filling, b.filling, c.filling)
            && spec_same_or_different(a.amount, b.amount, c.amount)) ==> spec_is_set(a, b, c),
        spec_exactly_two_equal(a.color, b.color, c.color) ==> !spec_is_set(a, b, c),
        spec_exactly_two_equal(a.shape, b.shape, c.shape) ==> !spec_is_set(a, b, c),
        spec_exactly_two_equal(a.filling, b.filling, c.filling) ==> !spec_is_set(a, b, c),
        spec_exactly_two_equal(a.amount, b.amount, c.amount) ==> !spec_is_set(a, b, c),
{
}

/// An attribute fails the per-attribute test exactly when one pair of its
/// values agrees and the third value stands apart.
pub proof fn lemma_exactly_two_equal_fails(x: u32, y: u32, z: u32)
    ensures
        spec_exactly_two_equal(x, y, z) <==> !spec_same_or_different(x, y, z),
{
}

/// The set predicate is symmetric: permuting the three cards in any of
/// the six orders leaves its value unchanged.
pub proof fn lemma_is_set_symmetric(a: Card, b: Card, c: Card)
    ensures
        spec_is_set(a, b, c) == spec_is_set(a, c, b),
        spec_is_set(a, b, c) == spec_is_set(b, a, c),
        spec_is_set(a, b, c) == spec_is_set(b, c, a),
        spec_is_set(a, b, c) == spec_is_set(c, a, b),
        spec_is_set(a, b, c) == spec_is_set(c, b, a),
{
}

} // verus!
