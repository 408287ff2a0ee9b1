use vstd::prelude::*;
use vstd::arithmetic::div_mod::lemma_fundamental_div_mod;
use vstd::arithmetic::div_mod::lemma_fundamental_div_mod_converse;
use vstd::arithmetic::div_mod::lemma_mod_bound;
use vstd::seq_lib::group_to_multiset_ensures;
use rand::seq::SliceRandom;
use crate::card::Card;

verus! {

/// The card standing at position `i` of the freshly built deck, which
/// enumerates the four attributes in shape, color, filling, amount order.
pub open spec fn card_at(i: int) -> Card {
    Card {
        shape: (i / 27) as u32,
        color: ((i / 9) % 3) as u32,
        filling: ((i / 3) % 3) as u32,
        amount: (i % 3) as u32,
    }
}

/// The complete deck: one card of every combination, in enumeration order.
pub open spec fn full_deck() -> Seq<Card> {
    Seq::new(81, |i: int| card_at(i))
}

/// Splitting a deck position into its four attribute digits and
/// recombining them gives the position back, and every digit is in range.
proof fn lemma_card_index_digits(x: int)
    requires
        0 <= x < 81,
    ensures
        x == 27 * (x / 27) + 9 * ((x / 9) % 3) + 3 * ((x / 3) % 3) + (x % 3),
        0 <= x / 27 < 3,
        0 <= (x / 9) % 3 < 3,
        0 <= (x / 3) % 3 < 3,
        0 <= x % 3 < 3,
{
    let d0 = x % 3;
    let x1 = x / 3;
    lemma_fundamental_div_mod(x, 3);
    lemma_mod_bound(x, 3);
    let d1 = x1 % 3;
    let x2 = x1 / 3;
    lemma_fundamental_div_mod(x1, 3);
    lemma_mod_bound(x1, 3);
    let d2 = x2 % 3;
    let x3 = x2 / 3;
    lemma_fundamental_div_mod(x2, 3);
    lemma_mod_bound(x2, 3);
    assert(x == 27 * x3 + 9 * d2 + 3 * d1 + d0);
    lemma_fundamental_div_mod_converse(x, 9, 3 * x3 + d2, 3 * d1 + d0);
    lemma_fundamental_div_mod_converse(3 * x3 + d2, 3, x3, d2);
    lemma_fundamental_div_mod_converse(x, 27, x3, 9 * d2 + 3 * d1 + d0);
}

/// Distinct positions of the enumeration hold distinct cards.
pub proof fn lemma_card_at_injective(i: int, j: int)
    requires
        0 <= i < 81,
        0 <= j < 81,
        card_at(i) == card_at(j),
    ensures
        i == j,
{
    lemma_card_index_digits(i);
    lemma_card_index_digits(j);
}

/// The enumerated deck holds 81 admissible cards, none of them twice,
/// and every admissible card is among them.
pub proof fn lemma_full_deck_wf()
    ensures
        full_deck().len() == 81,
        full_deck().no_duplicates(),
        forall|k: int| 0 <= k < 81 ==> (#[trigger] full_deck()[k]).wf(),
        forall|c: Card| c.wf() ==> full_deck().contains(c),
{
    assert forall|k: int| 0 <= k < 81 implies (#[trigger] full_deck()[k]).wf() by {
        lemma_card_index_digits(k);
    }
    assert forall|i: int, j: int|
        0 <= i < 81 && 0 <= j < 81 && i != j implies full_deck()[i] != full_deck()[j] by {
        if card_at(i) == card_at(j) {
            lemma_card_at_injective(i, j);
        }
    }
    assert forall|c: Card| c.wf() implies full_deck().contains(c) by {
        let s = c.shape as int;
        let co = c.color as int;
        let f = c.filling as int;
        let a = c.amount as int;
        let idx = 27 * s + 9 * co + 3 * f + a;
        lemma_fundamental_div_mod_converse(idx, 27, s, 9 * co + 3 * f + a);
        lemma_fundamental_div_mod_converse(idx, 9, 3 * s + co, 3 * f + a);
        lemma_fundamental_div_mod_converse(3 * s + co, 3, s, co);
        lemma_fundamental_div_mod_converse(idx, 3, 9 * s + 3 * co + f, a);
        lemma_fundamental_div_mod_converse(9 * s + 3 * co + f, 3, 3 * s + co, f);
        assert(card_at(idx) == c);
        assert(full_deck()[idx] == c);
    }
}

/// Two sequences holding the same multiset of cards: if one has no
/// duplicates and only admissible cards, so has the other.
pub proof fn lemma_same_multiset_same_wf(s: Seq<Card>, t: Seq<Card>)
    requires
        s.to_multiset() == t.to_multiset(),
        s.no_duplicates(),
        forall|k: int| 0 <= k < s.len() ==> (#[trigger] s[k]).wf(),
    ensures
        t.no_duplicates(),
        forall|k: int| 0 <= k < t.len() ==> (#[trigger] t[k]).wf(),
{
    broadcast use group_to_multiset_ensures;

    s.lemma_multiset_has_no_duplicates();
    t.lemma_multiset_has_no_duplicates_conv();
    assert forall|k: int| 0 <= k < t.len() implies (#[trigger] t[k]).wf() by {
        assert(t.contains(t[k]));
        assert(s.to_multiset().count(t[k]) > 0);
        assert(s.contains(t[k]));
        let i = choose|i: int| 0 <= i < s.len() && s[i] == t[k];
        assert(s[i].wf());
    }
}

/// A sequence whose card counts nowhere exceed those of a sequence
/// without duplicates holding only admissible cards is itself free of
/// duplicates and holds only admissible cards.
pub proof fn lemma_counts_below_wf(s: Seq<Card>, t: Seq<Card>)
    requires
        forall|c: Card| #[trigger] s.to_multiset().count(c) <= t.to_multiset().count(c),
        t.no_duplicates(),
        forall|k: int| 0 <= k < t.len() ==> (#[trigger] t[k]).wf(),
    ensures
        s.no_duplicates(),
        forall|k: int| 0 <= k < s.len() ==> (#[trigger] s[k]).wf(),
{
    broadcast use group_to_multiset_ensures;

    t.lemma_multiset_has_no_duplicates();
    assert forall|x: Card| s.to_multiset().contains(x) implies s.to_multiset().count(x) == 1 by {
        assert(t.to_multiset().count(x) > 0);
        assert(t.to_multiset().count(x) == 1);
    }
    s.lemma_multiset_has_no_duplicates_conv();
    assert forall|k: int| 0 <= k < s.len() implies (#[trigger] s[k]).wf() by {
        assert(s.contains(s[k]));
        assert(s.to_multiset().count(s[k]) > 0);
        assert(t.to_multiset().count(s[k]) > 0);
        assert(t.contains(s[k]));
        let i = choose|i: int| 0 <= i < t.len() && t[i] == s[k];
        assert(t[i].wf());
    }
}

/// The bag of cards not yet dealt out. Cards leave through `draw` and
/// never return; no card value is ever held twice.
pub struct Deck {
    cards: Vec<Card>,
}

impl View for Deck {
    type V = Seq<Card>;

    closed spec fn view(&self) -> Seq<Card> {
        self.cards@
    }
}

impl Deck {
    /// No card appears twice, and every card held is admissible.
    pub open spec fn wf(self) -> bool {
        &&& self@.no_duplicates()
        &&& forall|k: int| 0 <= k < self@.len() ==> (#[trigger] self@[k]).wf()
    }

    /// Builds the complete deck of 81 cards in enumeration order.
    pub fn new() -> (deck: Deck)
        ensures
            deck@ == full_deck(),
            deck.wf(),
    {
        let mut cards: Vec<Card> = Vec::new();
        for idx in 0..81u32
            invariant
                cards@.len() == idx,
                forall|k: int| 0 <= k < idx ==> cards@[k] == card_at(k),
        {
            let card = Card {
                shape: idx / 27,
                color: (idx / 9) % 3,
                filling: (idx / 3) % 3,
                amount: idx % 3,
            };
            proof {
                lemma_card_index_digits(idx as int);
            }
            cards.push(card);
        }
        proof {
            assert(cards@ =~= full_deck());
            lemma_full_deck_wf();
        }
        Deck { cards }
    }

    /// Relies on rand's `SliceRandom::shuffle`: a Fisher-Yates pass that
    /// permutes the slice in place, leaving the same cards in a new order.
    #[verifier::external_body]
    fn shuffle_in_place(cards: &mut Vec<Card>)
        ensures
            final(cards)@.to_multiset() == old(cards)@.to_multiset(),
            final(cards)@.len() == old(cards)@.len(),
    {
        cards.shuffle(&mut rand::thread_rng());
    }

    /// Randomly permutes the remaining cards in place.
    pub fn shuffle(&mut self)
        ensures
            final(self)@.to_multiset() == old(self)@.to_multiset(),
            final(self)@.len() == old(self)@.len(),
            old(self).wf() ==> final(self).wf(),
    {
        Self::shuffle_in_place(&mut self.cards);
        proof {
            if old(self).wf() {
                lemma_same_multiset_same_wf(old(self)@, self@);
            }
        }
    }

    /// Builds the complete deck and shuffles it once: the same 81 cards,
    /// in random order.
    pub fn new_shuffled() -> (deck: Deck)
        ensures
            deck@.to_multiset() == full_deck().to_multiset(),
            deck@.len() == 81,
            deck.wf(),
    {
        let mut deck = Self::new();
        deck.shuffle();
        deck
    }

    /// Removes and returns one card, or reports the deck empty: a normal
    /// outcome, not a fault. The deck itself is then unchanged.
    pub fn draw(&mut self) -> (r: Option<Card>)
        ensures
            old(self)@.len() == 0 ==> r is None && final(self)@ == old(self)@,
            old(self)@.len() > 0 ==> r == Some(old(self)@.last())
                && final(self)@ == old(self)@.drop_last(),
            old(self).wf() ==> final(self).wf(),
    {
        self.cards.pop()
    }

    /// True exactly when no cards remain.
    pub fn is_empty(&self) -> (r: bool)
        ensures
            r == (self@.len() == 0),
    {
        self.cards.len() == 0
    }
}

} // verus!
