use vstd::prelude::*;
use crate::card::Card;
use crate::card::spec_is_set;
use crate::card::is_set;

verus! {

/// The recoverable "selection already full" condition: a fourth position
/// was offered while three others were chosen. The caller ignores it.
#[derive(Debug, Clone, Copy)]
pub struct FullError;

/// Three slots, each empty or holding one tableau position; no position
/// is held by two slots at once.
pub open spec fn sel_wf(s: Seq<Option<usize>>) -> bool {
    &&& s.len() == 3
    &&& forall|i: int, j: int|
        0 <= i < 3 && 0 <= j < 3 && i != j && s[i] is Some ==> s[i] != s[j]
}

/// Some slot holds position `p`.
pub open spec fn sel_contains(s: Seq<Option<usize>>, p: usize) -> bool {
    exists|i: int| 0 <= i < s.len() && s[i] == Some(p)
}

/// All three slots are occupied.
pub open spec fn sel_full(s: Seq<Option<usize>>) -> bool {
    forall|i: int| 0 <= i < s.len() ==> s[i] is Some
}

/// Every held position is a valid index into a tableau of length `n`.
pub open spec fn sel_indices_valid(s: Seq<Option<usize>>, n: int) -> bool {
    forall|i: int| 0 <= i < s.len() ==> ((#[trigger] s[i]) matches Some(p) ==> p < n)
}

/// The first unoccupied slot; meaningful only when some slot is empty.
pub open spec fn first_empty(s: Seq<Option<usize>>) -> int {
    if s[0] is None {
        0int
    } else if s[1] is None {
        1int
    } else {
        2int
    }
}

/// What one toggle of position `p` does to the slots: deselect `p` where
/// it is held; otherwise occupy the first empty slot with it; otherwise,
/// with all slots taken, change nothing.
pub open spec fn spec_toggle(s: Seq<Option<usize>>, p: usize) -> Seq<Option<usize>> {
    if sel_contains(s, p) {
        Seq::new(s.len(), |i: int| if s[i] == Some(p) { None } else { s[i] })
    } else if !sel_full(s) {
        s.update(first_empty(s), Some(p))
    } else {
        s
    }
}

/// A toggle is accepted unless the slots are full and `p` is not held.
pub open spec fn spec_toggle_accepted(s: Seq<Option<usize>>, p: usize) -> bool {
    sel_contains(s, p) || !sel_full(s)
}

/// A full selection whose three referenced tableau cards form a set.
pub open spec fn spec_resolves_to_set(s: Seq<Option<usize>>, cards: Seq<Card>) -> bool {
    &&& sel_full(s)
    &&& spec_is_set(
        cards[s[0]->0 as int],
        cards[s[1]->0 as int],
        cards[s[2]->0 as int],
    )
}

/// The positions of the tableau the player has currently chosen: up to
/// three of them, toggled one at a time.
pub struct CardSelection {
    card_nums: Vec<Option<usize>>,
}

impl View for CardSelection {
    type V = Seq<Option<usize>>;

    closed spec fn view(&self) -> Seq<Option<usize>> {
        self.card_nums@
    }
}

impl CardSelection {
    /// Exactly three slots, no position held twice.
    pub open spec fn wf(self) -> bool {
        sel_wf(self@)
    }

    /// A selection with all three slots empty.
    pub fn new() -> (r: CardSelection)
        ensures
            r.wf(),
            r@.len() == 3,
            forall|i: int| 0 <= i < 3 ==> r@[i] is None,
    {
        CardSelection { card_nums: vec![None, None, None] }
    }

    /// True exactly when all three slots are occupied.
    pub fn is_full(&self) -> (r: bool)
        requires
            self.wf(),
        ensures
            r == sel_full(self@),
    {
        let mut i: usize = 0;
        while i < 3
            invariant
                self.wf(),
                i <= 3,
                forall|j: int| 0 <= j < i ==> self@[j] is Some,
            decreases 3 - i,
        {
            if self.card_nums[i].is_none() {
                return false;
            }
            i = i + 1;
        }
        true
    }

    /// True exactly when some slot holds `card_nr`.
    pub fn is_selected(&self, card_nr: usize) -> (r: bool)
        requires
            self.wf(),
        ensures
            r == sel_contains(self@, card_nr),
    {
        let mut i: usize = 0;
        while i < 3
            invariant
                self.wf(),
                i <= 3,
                forall|j: int| 0 <= j < i ==> self@[j] != Some(card_nr),
            decreases 3 - i,
        {
            if let Some(held) = self.card_nums[i] {
                if held == card_nr {
                    return true;
                }
            }
            i = i + 1;
        }
        false
    }

    /// Deselects `next` if it is held; otherwise selects it into the first
    /// empty slot; otherwise reports the selection full and changes
    /// nothing. Deselection is never blocked by fullness.
    pub fn add_next_toggle(&mut self, next: usize) -> (r: Result<(), FullError>)
        requires
            old(self).wf(),
        ensures
            final(self).wf(),
            final(self)@ == spec_toggle(old(self)@, next),
            r is Ok <==> spec_toggle_accepted(old(self)@, next),
    {
        proof {
            lemma_toggle_preserves_wf(old(self)@, next);
        }
        if self.is_selected(next) {
            let mut i: usize = 0;
            while i < 3
                invariant
                    self@.len() == 3,
                    i <= 3,
                    forall|j: int| i <= j < 3 ==> self@[j] == old(self)@[j],
                    forall|j: int|
                        0 <= j < i ==> self@[j] == (if old(self)@[j] == Some(next) {
                            None
                        } else {
                            old(self)@[j]
                        }),
                decreases 3 - i,
            {
                let clear_it = if let Some(held) = self.card_nums[i] {
                    held == next
                } else {
                    false
                };
                if clear_it {
                    self.card_nums[i] = None;
                }
                i = i + 1;
            }
            proof {
                assert(self@ =~= spec_toggle(old(self)@, next));
            }
            return Ok(());
        }
        let mut i: usize = 0;
        while i < 3
            invariant
                self@ == old(self)@,
                i <= 3,
                old(self).wf(),
                !sel_contains(old(self)@, next),
                forall|j: int| 0 <= j < i ==> self@[j] is Some,
            decreases 3 - i,
        {
            if self.card_nums[i].is_none() {
                self.card_nums[i] = Some(next);
                proof {
                    assert(self@ =~= spec_toggle(old(self)@, next));
                }
                return Ok(());
            }
            i = i + 1;
        }
        Err(FullError)
    }

    /// Looks up the three chosen tableau cards and decides whether they
    /// form a set; a selection that is not full never does, and nothing
    /// is looked up for it.
    pub fn is_set(&self, cards: &Vec<Card>) -> (r: bool)
        requires
            self.wf(),
            sel_full(self@) ==> sel_indices_valid(self@, cards@.len() as int),
        ensures
            r == spec_resolves_to_set(self@, cards@),
    {
        if !self.is_full() {
            return false;
        }
        let a = self.card_nums[0].unwrap();
        let b = self.card_nums[1].unwrap();
        let c = self.card_nums[2].unwrap();
        is_set(&cards[a], &cards[b], &cards[c])
    }

    /// The position the slot `j` holds, if any.
    pub fn get_slot(&self, j: usize) -> (r: Option<usize>)
        requires
            self.wf(),
            j < 3,
        ensures
            r == self@[j as int],
    {
        self.card_nums[j]
    }

    /// Resets all three slots to empty.
    pub fn clear(&mut self)
        ensures
            final(self).wf(),
            final(self)@.len() == 3,
            forall|i: int| 0 <= i < 3 ==> final(self)@[i] is None,
    {
        self.card_nums = vec![None, None, None];
    }
}

/// A toggle keeps the selection well formed: three slots, no position
/// held twice.
pub proof fn lemma_toggle_preserves_wf(s: Seq<Option<usize>>, p: usize)
    requires
        sel_wf(s),
    ensures
        sel_wf(spec_toggle(s, p)),
{
    let t = spec_toggle(s, p);
    if sel_contains(s, p) {
        assert forall|i: int, j: int|
            0 <= i < 3 && 0 <= j < 3 && i != j && t[i] is Some implies t[i] != t[j] by {
            assert(t[i] == s[i]);
        }
    }
}

/// A toggle of a valid tableau position keeps every held position a
/// valid index into the tableau.
pub proof fn lemma_toggle_preserves_valid(s: Seq<Option<usize>>, p: usize, n: int)
    requires
        sel_wf(s),
        sel_indices_valid(s, n),
        p < n,
    ensures
        sel_indices_valid(spec_toggle(s, p), n),
{
    let t = spec_toggle(s, p);
    assert forall|i: int| 0 <= i < t.len() implies ((#[trigger] t[i]) matches Some(q) ==> q < n) by {
        if sel_contains(s, p) {
            assert(t[i] == s[i] || t[i] is None);
        } else if !sel_full(s) {
            if i != first_empty(s) {
                assert(t[i] == s[i]);
            }
        }
    }
}

/// Toggling a held position deselects it, whether or not the selection
/// is full, and leaves every other position as it was.
pub proof fn lemma_toggle_deselects(s: Seq<Option<usize>>, p: usize)
    requires
        sel_wf(s),
        sel_contains(s, p),
    ensures
        spec_toggle_accepted(s, p),
        !sel_contains(spec_toggle(s, p), p),
        forall|q: usize| q != p ==> sel_contains(spec_toggle(s, p), q) == sel_contains(s, q),
{
    let t = spec_toggle(s, p);
    assert forall|q: usize| q != p implies sel_contains(t, q) == sel_contains(s, q) by {
        if sel_contains(s, q) {
            let i = choose|i: int| 0 <= i < s.len() && s[i] == Some(q);
            assert(t[i] == Some(q));
        }
        if sel_contains(t, q) {
            let i = choose|i: int| 0 <= i < t.len() && t[i] == Some(q);
            assert(s[i] == Some(q));
        }
    }
}

/// A fourth position offered to a full selection is rejected and the
/// slots stand as they were.
pub proof fn lemma_toggle_full_rejected(s: Seq<Option<usize>>, p: usize)
    requires
        sel_wf(s),
        sel_full(s),
        !sel_contains(s, p),
    ensures
        !spec_toggle_accepted(s, p),
        spec_toggle(s, p) == s,
{
}

/// Toggling the same position twice leaves selected exactly the
/// positions that were selected before.
pub proof fn lemma_toggle_twice(s: Seq<Option<usize>>, p: usize)
    requires
        sel_wf(s),
    ensures
        forall|q: usize|
            sel_contains(spec_toggle(spec_toggle(s, p), p), q) == sel_contains(s, q),
{
    lemma_toggle_preserves_wf(s, p);
    let t1 = spec_toggle(s, p);
    let t2 = spec_toggle(t1, p);
    if sel_contains(s, p) {
        lemma_toggle_deselects(s, p);
        let j = first_empty(t1);
        let i0 = choose|i: int| 0 <= i < s.len() && s[i] == Some(p);
        assert(t1[i0] is None);
        assert(!sel_full(t1));
        assert(0 <= j < 3 && t1[j] is None);
        assert(t2 == t1.update(j, Some(p)));
        assert forall|q: usize|
            sel_contains(t2, q) == sel_contains(s, q) by {
            if q == p {
                assert(t2[j] == Some(p));
            } else {
                if sel_contains(s, q) {
                    let i = choose|i: int| 0 <= i < s.len() && s[i] == Some(q);
                    assert(t1[i] == Some(q));
                    assert(t2[i] == Some(q));
                }
                if sel_contains(t2, q) {
                    let i = choose|i: int| 0 <= i < t2.len() && t2[i] == Some(q);
                    assert(i != j);
                    assert(s[i] == Some(q));
                }
            }
        }
    } else if !sel_full(s) {
        let j = first_empty(s);
        assert(0 <= j < 3 && s[j] is None);
        assert(t1 == s.update(j, Some(p)));
        assert(sel_contains(t1, p));
        assert forall|q: usize|
            sel_contains(t2, q) == sel_contains(s, q) by {
            if q == p {
                assert(forall|i: int| 0 <= i < 3 ==> s[i] != Some(p));
                assert(forall|i: int| 0 <= i < 3 ==> t2[i] != Some(p));
            } else {
                assert forall|i: int| 0 <= i < 3 && t1[i] == Some(p) implies i == j by {
                    if i != j {
                        assert(s[i] == Some(p));
                    }
                }
                if sel_contains(s, q) {
                    let i = choose|i: int| 0 <= i < s.len() && s[i] == Some(q);
                    assert(i != j);
                    assert(t2[i] == Some(q));
                }
                if sel_contains(t2, q) {
                    let i = choose|i: int| 0 <= i < t2.len() && t2[i] == Some(q);
                    assert(t1[i] != Some(p));
                    assert(t1[i] == Some(q));
                    assert(i != j);
                    assert(s[i] == Some(q));
                }
            }
        }
    } else {
        assert(t1 == s);
        assert(t2 == s);
    }
}

/// From an empty selection, toggling three distinct positions fills it
/// with exactly those positions.
pub proof fn lemma_toggle_three_distinct(s: Seq<Option<usize>>, p1: usize, p2: usize, p3: usize)
    requires
        s.len() == 3,
        forall|i: int| 0 <= i < 3 ==> s[i] is None,
        p1 != p2,
        p1 != p3,
        p2 != p3,
    ensures
        ({
            let t = spec_toggle(spec_toggle(spec_toggle(s, p1), p2), p3);
            sel_full(t) && sel_contains(t, p1) && sel_contains(t, p2) && sel_contains(t, p3)
        }),
{
    let t1 = spec_toggle(s, p1);
    let t2 = spec_toggle(t1, p2);
    let t3 = spec_toggle(t2, p3);
    assert(s[0] is None && s[1] is None && s[2] is None);
    assert forall|i: int| 0 <= i < 3 implies s[i] != Some(p1) by {
        assert(s[i] is None);
    }
    assert(!sel_contains(s, p1) && !sel_full(s));
    assert(t1 == s.update(0, Some(p1)));
    assert(t1[0] == Some(p1) && t1[1] is None && t1[2] is None);
    assert forall|i: int| 0 <= i < 3 implies t1[i] != Some(p2) by {
        if i == 0 {
            assert(t1[i] == Some(p1));
        } else {
            assert(t1[i] is None);
        }
    }
    assert(!sel_contains(t1, p2) && !sel_full(t1));
    assert(first_empty(t1) == 1);
    assert(t2 == t1.update(1, Some(p2)));
    assert(t2[0] == Some(p1) && t2[1] == Some(p2) && t2[2] is None);
    assert forall|i: int| 0 <= i < 3 implies t2[i] != Some(p3) by {
        if i == 0 {
            assert(t2[i] == Some(p1));
        } else if i == 1 {
            assert(t2[i] == Some(p2));
        } else {
            assert(t2[i] is None);
        }
    }
    assert(!sel_contains(t2, p3) && !sel_full(t2));
    assert(first_empty(t2) == 2);
    assert(t3 == t2.update(2, Some(p3)));
    assert(t3[0] == Some(p1) && t3[1] == Some(p2) && t3[2] == Some(p3));
}

} // verus!
