use vstd::prelude::*;
use vstd::seq_lib::group_to_multiset_ensures;
use vstd::seq_lib::lemma_multiset_commutative;
use vstd::multiset::group_multiset_axioms;
use vstd::multiset::Multiset;
use crate::card::Card;
use crate::card::is_set;
use crate::deck::Deck;
use crate::deck::full_deck;
use crate::deck::lemma_full_deck_wf;
use crate::selection::CardSelection;
use crate::selection::sel_full;
use crate::selection::sel_indices_valid;
use crate::selection::spec_toggle;
use crate::selection::spec_toggle_accepted;
use crate::selection::spec_resolves_to_set;
use crate::selection::lemma_toggle_preserves_valid;
use crate::selection::sel_wf;

verus! {

/// Moving the last card of `b` onto the end of `a` leaves the combined
/// bag of cards unchanged.
proof fn lemma_move_last(a: Seq<Card>, b: Seq<Card>)
    requires
        b.len() > 0,
    ensures
        (a.push(b.last()) + b.drop_last()).to_multiset() == (a + b).to_multiset(),
{
    broadcast use group_to_multiset_ensures;
    broadcast use group_multiset_axioms;

    lemma_multiset_commutative(a, b);
    lemma_multiset_commutative(a.push(b.last()), b.drop_last());
    assert(b.drop_last().push(b.last()) =~= b);
    assert(b.to_multiset() == b.drop_last().to_multiset().insert(b.last()));
    assert(a.push(b.last()).to_multiset() == a.to_multiset().insert(b.last()));
    assert((a.push(b.last()) + b.drop_last()).to_multiset() =~= (a + b).to_multiset());
}

/// One whole game: the visible tableau, the deck it deals from, the
/// player's current selection, and the score and state counters.
pub struct Board {
    pub cards: Vec<Card>,
    pub deck: Deck,
    pub card_selection: CardSelection,
    pub num_sets: u32,
    pub times_expanded: u32,
    pub finished: bool,
}

impl Board {
    /// The structural invariant of a live game: the deck is sound, every
    /// visible card is admissible, no card value appears twice across
    /// tableau and deck, the selection holds no position twice, and three
    /// cards have left play for every resolved set, so tableau and deck
    /// can never outgrow the 81 cards of one deck.
    pub open spec fn wf(self) -> bool {
        &&& self.deck.wf()
        &&& forall|k: int| 0 <= k < self.cards@.len() ==> (#[trigger] self.cards@[k]).wf()
        &&& (self.cards@ + self.deck@).no_duplicates()
        &&& self.card_selection.wf()
        &&& 3 * (self.num_sets as int) + self.cards@.len() + self.deck@.len() <= 81
    }

    /// Every selected position points into the current tableau.
    pub open spec fn sel_valid(self) -> bool {
        sel_indices_valid(self.card_selection@, self.cards@.len() as int)
    }

    /// Starts a game: a freshly shuffled deck, twelve cards dealt onto
    /// the tableau, nothing selected, all counters cleared.
    pub fn new() -> (board: Board)
        ensures
            board.wf(),
            board.sel_valid(),
            board.cards@.len() == 12,
            board.deck@.len() == 69,
            board.num_sets == 0,
            board.times_expanded == 0,
            board.finished == false,
            forall|i: int| 0 <= i < 3 ==> board.card_selection@[i] is None,
            (board.cards@ + board.deck@).to_multiset() == full_deck().to_multiset(),
    {
        let mut cards: Vec<Card> = Vec::new();
        let mut deck = Deck::new_shuffled();
        for i in 0..12
            invariant
                cards@.len() == i,
                deck@.len() == 81 - i,
                deck.wf(),
                (cards@ + deck@).to_multiset() == full_deck().to_multiset(),
        {
            proof {
                lemma_move_last(cards@, deck@);
            }
            match deck.draw() {
                Some(card) => {
                    cards.push(card);
                }
                None => {},
            }
        }
        proof {
            lemma_full_deck_wf();
            crate::deck::lemma_same_multiset_same_wf(full_deck(), cards@ + deck@);
            assert(forall|k: int|
                0 <= k < cards@.len() ==> cards@[k] == (cards@ + deck@)[k]);
        }
        Board {
            cards,
            deck,
            card_selection: CardSelection::new(),
            num_sets: 0,
            times_expanded: 0,
            finished: false,
        }
    }

    /// Throws the whole game away and starts a new one; nothing of the
    /// old state is kept.
    pub fn reset(&mut self)
        ensures
            final(self).wf(),
            final(self).sel_valid(),
            final(self).cards@.len() == 12,
            final(self).deck@.len() == 69,
            final(self).num_sets == 0,
            final(self).times_expanded == 0,
            final(self).finished == false,
            forall|i: int| 0 <= i < 3 ==> final(self).card_selection@[i] is None,
    {
        *self = Board::new();
    }
}

/// The cards that `k` consecutive draws take off the top of a deck, in
/// the order they are drawn.
pub open spec fn drawn_in_order(d: Seq<Card>, k: int) -> Seq<Card> {
    Seq::new(k as nat, |i: int| d[d.len() - 1 - i])
}

impl Board {
    /// Grows the tableau: up to three cards are drawn and appended, fewer
    /// when the deck runs out, and the expansion counter moves up by one.
    /// In a finished game nothing happens.
    pub fn expand(&mut self)
        requires
            old(self).wf(),
            old(self).times_expanded < u32::MAX,
        ensures
            final(self).wf(),
            old(self).finished ==> *final(self) == *old(self),
            !old(self).finished ==> ({
                let k = if old(self).deck@.len() < 3 {
                    old(self).deck@.len() as int
                } else {
                    3int
                };
                &&& final(self).cards@ == old(self).cards@ + drawn_in_order(old(self).deck@, k)
                &&& final(self).deck@ == old(self).deck@.take(old(self).deck@.len() - k)
                &&& final(self).times_expanded == old(self).times_expanded + 1
                &&& final(self).num_sets == old(self).num_sets
                &&& final(self).finished == old(self).finished
                &&& final(self).card_selection == old(self).card_selection
            }),
            old(self).sel_valid() ==> final(self).sel_valid(),
    {
        if self.finished {
            return ;
        }
        self.times_expanded = self.times_expanded + 1;
        let ghost c0 = self.cards@;
        let ghost d0 = self.deck@;
        let ghost m = d0.len() as int;
        let mut count: usize = 0;
        while count < 3
            invariant
                count <= 3,
                old(self).wf(),
                ({
                    let k = if m < count { m } else { count as int };
                    &&& self.cards@ == c0 + drawn_in_order(d0, k)
                    &&& self.deck@ == d0.take(m - k)
                }),
                self.deck.wf(),
                (self.cards@ + self.deck@).to_multiset() == (c0 + d0).to_multiset(),
                self.card_selection == old(self).card_selection,
                self.num_sets == old(self).num_sets,
                self.times_expanded == old(self).times_expanded + 1,
                self.finished == old(self).finished,
                c0 == old(self).cards@,
                d0 == old(self).deck@,
                m == d0.len(),
            decreases 3 - count,
        {
            let ghost k = if m < count { m } else { count as int };
            let ghost c_pre = self.cards@;
            let ghost d_pre = self.deck@;
            match self.deck.draw() {
                Some(card) => {
                    self.cards.push(card);
                    proof {
                        lemma_move_last(c_pre, d_pre);
                        assert(d0.take(m - k).last() == d0[m - 1 - k]);
                        assert(self.cards@ =~= c0 + drawn_in_order(d0, k + 1));
                        assert(self.deck@ =~= d0.take(m - (k + 1)));
                    }
                }
                None => {
                    proof {
                        assert(m - k == 0);
                        assert(self.cards@ == c0 + drawn_in_order(d0, k));
                    }
                },
            }
            count = count + 1;
        }
        proof {
            crate::deck::lemma_same_multiset_same_wf(
                old(self).cards@ + old(self).deck@,
                self.cards@ + self.deck@,
            );
            assert(forall|j: int|
                0 <= j < self.cards@.len() ==> self.cards@[j] == (self.cards@ + self.deck@)[j]);
        }
    }
}

/// Among the positions below `k`, how many complete a set together with
/// positions `i` and `j`.
pub open spec fn count_sets_k(s: Seq<Card>, i: int, j: int, k: int) -> int
    decreases k,
{
    if k <= 0 {
        0
    } else {
        count_sets_k(s, i, j, k - 1) + if crate::card::spec_is_set(s[i], s[j], s[k - 1]) {
            1int
        } else {
            0int
        }
    }
}

/// Among the pairs of positions below `j`, how many complete a set
/// together with position `i`.
pub open spec fn count_sets_j(s: Seq<Card>, i: int, j: int) -> int
    decreases j,
{
    if j <= 0 {
        0
    } else {
        count_sets_j(s, i, j - 1) + count_sets_k(s, i, j - 1, j - 1)
    }
}

/// The number of set-forming triples of positions that all lie below `i`.
pub open spec fn count_sets_i(s: Seq<Card>, i: int) -> int
    decreases i,
{
    if i <= 0 {
        0
    } else {
        count_sets_i(s, i - 1) + count_sets_j(s, i - 1, i - 1)
    }
}

/// The number of unordered triples of distinct tableau positions whose
/// three cards form a valid set.
pub open spec fn spec_count_sets(s: Seq<Card>) -> int {
    count_sets_i(s, s.len() as int)
}

proof fn lemma_count_k_bound(s: Seq<Card>, i: int, j: int, k: int)
    requires
        k >= 0,
    ensures
        0 <= count_sets_k(s, i, j, k) <= k,
    decreases k,
{
    if k > 0 {
        lemma_count_k_bound(s, i, j, k - 1);
    }
}

proof fn lemma_count_j_bound(s: Seq<Card>, i: int, j: int)
    requires
        j >= 0,
    ensures
        0 <= count_sets_j(s, i, j) <= j * j,
    decreases j,
{
    if j > 0 {
        lemma_count_j_bound(s, i, j - 1);
        lemma_count_k_bound(s, i, j - 1, j - 1);
        assert((j - 1) * (j - 1) + (j - 1) <= j * j) by (nonlinear_arith)
            requires j >= 1;
    }
}

proof fn lemma_count_i_bound(s: Seq<Card>, i: int)
    requires
        i >= 0,
    ensures
        0 <= count_sets_i(s, i) <= i * i * i,
    decreases i,
{
    if i > 0 {
        lemma_count_i_bound(s, i - 1);
        lemma_count_j_bound(s, i - 1, i - 1);
        assert((i - 1) * (i - 1) * (i - 1) + (i - 1) * (i - 1) <= i * i * i) by (nonlinear_arith)
            requires i >= 1;
    }
}

impl Board {
    /// Counts, by brute force over all unordered triples of positions,
    /// how many valid sets the current tableau offers. Nothing is
    /// mutated.
    pub fn count_sets(&self) -> (r: u32)
        requires
            self.wf(),
        ensures
            r as int == spec_count_sets(self.cards@),
    {
        let n = self.cards.len();
        proof {
            assert(n <= 81);
        }
        let mut set_count: u32 = 0;
        let mut i: usize = 0;
        while i < n
            invariant
                i <= n,
                n == self.cards@.len(),
                n <= 81,
                set_count as int == count_sets_i(self.cards@, i as int),
                set_count as int <= (i as int) * (i as int) * (i as int),
            decreases n - i,
        {
            let mut j: usize = 0;
            while j < i
                invariant
                    j <= i,
                    i < n,
                    n == self.cards@.len(),
                    n <= 81,
                    set_count as int == count_sets_i(self.cards@, i as int) + count_sets_j(
                        self.cards@,
                        i as int,
                        j as int,
                    ),
                decreases i - j,
            {
                let mut k: usize = 0;
                while k < j
                    invariant
                        k <= j,
                        j < i,
                        i < n,
                        n == self.cards@.len(),
                        n <= 81,
                        set_count as int == count_sets_i(self.cards@, i as int) + count_sets_j(
                            self.cards@,
                            i as int,
                            j as int,
                        ) + count_sets_k(self.cards@, i as int, j as int, k as int),
                    decreases j - k,
                {
                    if is_set(&self.cards[i], &self.cards[j], &self.cards[k]) {
                        proof {
                            lemma_count_i_bound(self.cards@, i as int);
                            lemma_count_j_bound(self.cards@, i as int, j as int);
                            lemma_count_k_bound(self.cards@, i as int, j as int, k as int);
                            let ii = i as int;
                            let jj = j as int;
                            assert(ii * ii * ii <= 81 * 81 * 81) by (nonlinear_arith)
                                requires 0 <= ii <= 81;
                            assert(jj * jj <= 81 * 81) by (nonlinear_arith)
                                requires 0 <= jj <= 81;
                        }
                        set_count = set_count + 1;
                    }
                    k = k + 1;
                }
                j = j + 1;
            }
            proof {
                lemma_count_i_bound(self.cards@, i as int + 1);
            }
            i = i + 1;
        }
        set_count
    }

    /// A click on tableau position `position`: in a running game the
    /// selection toggles that position, and a toggle refused because
    /// three other positions are chosen reports `false` and changes
    /// nothing. A finished game ignores the click.
    pub fn select(&mut self, position: usize) -> (r: bool)
        requires
            old(self).wf(),
            old(self).sel_valid(),
            position < old(self).cards@.len(),
        ensures
            final(self).wf(),
            final(self).sel_valid(),
            old(self).finished ==> *final(self) == *old(self) && r == false,
            !old(self).finished ==> ({
                &&& final(self).card_selection@ == spec_toggle(
                    old(self).card_selection@,
                    position,
                )
                &&& r == spec_toggle_accepted(old(self).card_selection@, position)
                &&& final(self).cards@ == old(self).cards@
                &&& final(self).deck@ == old(self).deck@
                &&& final(self).num_sets == old(self).num_sets
                &&& final(self).times_expanded == old(self).times_expanded
                &&& final(self).finished == old(self).finished
            }),
    {
        if self.finished {
            return false;
        }
        proof {
            lemma_toggle_preserves_valid(
                self.card_selection@,
                position,
                self.cards@.len() as int,
            );
        }
        self.card_selection.add_next_toggle(position).is_ok()
    }
}

/// The smaller of two mathematical integers.
pub open spec fn min_int(a: int, b: int) -> int {
    if a <= b {
        a
    } else {
        b
    }
}

/// The first slot of the selection holding tableau position `i`, or -1
/// when no slot does.
pub open spec fn slot_of(s: Seq<Option<usize>>, i: usize) -> int {
    if s[0] == Some(i) {
        0int
    } else if s[1] == Some(i) {
        1int
    } else if s[2] == Some(i) {
        2int
    } else {
        -1int
    }
}

/// How many slots before slot `j` are occupied: the number of cards
/// drawn before slot `j`'s own draw when the slots are refilled in
/// order.
pub open spec fn sel_ord(s: Seq<Option<usize>>, j: int) -> int {
    (if j > 0 && s[0] is Some {
        1int
    } else {
        0int
    }) + (if j > 1 && s[1] is Some {
        1int
    } else {
        0int
    })
}

/// How many of the three slots are occupied.
pub open spec fn sel_count(s: Seq<Option<usize>>) -> int {
    (if s[0] is Some {
        1int
    } else {
        0int
    }) + (if s[1] is Some {
        1int
    } else {
        0int
    }) + (if s[2] is Some {
        1int
    } else {
        0int
    })
}

/// The card the `o`-th draw takes from deck `d`, or nothing once the
/// deck has run dry.
pub open spec fn draw_opt(d: Seq<Card>, o: int) -> Option<Card> {
    if o < d.len() {
        Some(d[d.len() - 1 - o])
    } else {
        None
    }
}

/// What tableau position `i` holds after the selected positions are
/// refilled from deck `d`: a selected position takes its slot's draw —
/// nothing, when the deck has run dry — and every other position keeps
/// its card.
pub open spec fn opt_after_replace(
    cards: Seq<Card>,
    s: Seq<Option<usize>>,
    d: Seq<Card>,
    i: int,
) -> Option<Card> {
    if slot_of(s, i as usize) >= 0 {
        draw_opt(d, sel_ord(s, slot_of(s, i as usize)))
    } else {
        Some(cards[i])
    }
}

/// The whole tableau after a refill, position by position, before the
/// positions left without a card are dropped.
pub open spec fn opts_after_replace(
    cards: Seq<Card>,
    s: Seq<Option<usize>>,
    d: Seq<Card>,
) -> Seq<Option<Card>> {
    Seq::new(cards.len(), |i: int| opt_after_replace(cards, s, d, i))
}

/// The card position `i` holds after a refill that the deck could cover
/// in full.
pub open spec fn replaced_card(
    cards: Seq<Card>,
    s: Seq<Option<usize>>,
    d: Seq<Card>,
    i: int,
) -> Card {
    if slot_of(s, i as usize) >= 0 {
        d[d.len() - 1 - sel_ord(s, slot_of(s, i as usize))]
    } else {
        cards[i]
    }
}

/// The cards among `opts`, kept in order; positions holding nothing
/// disappear.
pub open spec fn flatten_somes(opts: Seq<Option<Card>>) -> Seq<Card>
    decreases opts.len(),
{
    if opts.len() == 0 {
        Seq::<Card>::empty()
    } else {
        let rest = flatten_somes(opts.drop_last());
        match opts.last() {
            Some(c) => rest.push(c),
            None => rest,
        }
    }
}

proof fn lemma_flatten_somes_len(opts: Seq<Option<Card>>)
    ensures
        flatten_somes(opts).len() <= opts.len(),
    decreases opts.len(),
{
    if opts.len() > 0 {
        lemma_flatten_somes_len(opts.drop_last());
    }
}

proof fn lemma_flatten_somes_concat(a: Seq<Option<Card>>, b: Seq<Option<Card>>)
    ensures
        flatten_somes(a + b) == flatten_somes(a) + flatten_somes(b),
    decreases b.len(),
{
    if b.len() == 0 {
        assert(a + b =~= a);
        assert(flatten_somes(a) + flatten_somes(b) =~= flatten_somes(a));
    } else {
        lemma_flatten_somes_concat(a, b.drop_last());
        assert((a + b).drop_last() =~= a + b.drop_last());
        assert((a + b).last() == b.last());
        match b.last() {
            Some(c) => {
                assert(flatten_somes(a + b) == (flatten_somes(a) + flatten_somes(
                    b.drop_last(),
                )).push(c));
                assert((flatten_somes(a) + flatten_somes(b.drop_last())).push(c) =~= flatten_somes(
                    a,
                ) + flatten_somes(b.drop_last()).push(c));
            }
            None => {},
        }
    }
}

/// A run of slots that all hold a card flattens to exactly those cards.
proof fn lemma_flatten_somes_all_some(opts: Seq<Option<Card>>)
    requires
        forall|i: int| 0 <= i < opts.len() ==> (#[trigger] opts[i]) is Some,
    ensures
        flatten_somes(opts).len() == opts.len(),
        forall|i: int| 0 <= i < opts.len() ==> flatten_somes(opts)[i] == opts[i]->0,
    decreases opts.len(),
{
    if opts.len() > 0 {
        lemma_flatten_somes_all_some(opts.drop_last());
    }
}

/// A position holding nothing contributes nothing: dropping it from the
/// run leaves the kept cards unchanged.
proof fn lemma_flatten_skip_none(u: Seq<Option<Card>>, p: int)
    requires
        0 <= p < u.len(),
        u[p] is None,
    ensures
        flatten_somes(u.remove(p)) == flatten_somes(u),
{
    let l = u.take(p);
    let r = u.skip(p + 1);
    assert(u =~= (l + seq![u[p]]) + r);
    assert(u.remove(p) =~= l + r);
    lemma_flatten_somes_concat(l, seq![u[p]]);
    lemma_flatten_somes_concat(l + seq![u[p]], r);
    lemma_flatten_somes_concat(l, r);
    assert(flatten_somes(seq![u[p]]) == Seq::<Card>::empty()) by {
        assert(seq![u[p]].len() == 1);
        assert(seq![u[p]].drop_last() =~= Seq::<Option<Card>>::empty());
        assert(flatten_somes(Seq::<Option<Card>>::empty()) == Seq::<Card>::empty());
        assert(seq![u[p]].last() == u[p]);
    }
    assert(flatten_somes(u) == (flatten_somes(l) + Seq::<Card>::empty()) + flatten_somes(r));
    assert((flatten_somes(l) + Seq::<Card>::empty()) + flatten_somes(r) =~= flatten_somes(l)
        + flatten_somes(r));
}

/// Replacing the card at one occupied position changes the bag of kept
/// cards by taking that card out and, when a new card stands there,
/// putting the new card in.
proof fn lemma_flatten_somes_update(opts: Seq<Option<Card>>, p: int, w: Option<Card>)
    requires
        0 <= p < opts.len(),
        opts[p] is Some,
    ensures
        flatten_somes(opts).to_multiset().count(opts[p]->0) >= 1,
        w is None ==> flatten_somes(opts.update(p, w)).to_multiset() == flatten_somes(
            opts,
        ).to_multiset().remove(opts[p]->0),
        w matches Some(u) ==> flatten_somes(opts.update(p, w)).to_multiset() == flatten_somes(
            opts,
        ).to_multiset().remove(opts[p]->0).insert(u),
{
    broadcast use group_to_multiset_ensures;
    broadcast use group_multiset_axioms;

    let l = opts.take(p);
    let mid = seq![opts[p]];
    let r = opts.skip(p + 1);
    assert(opts =~= (l + mid) + r);
    assert(opts.update(p, w) =~= (l + seq![w]) + r);
    let v = opts[p]->0;
    assert(flatten_somes(mid) == seq![v]) by {
        assert(mid.len() == 1);
        assert(mid.drop_last() =~= Seq::<Option<Card>>::empty());
        assert(flatten_somes(Seq::<Option<Card>>::empty()) == Seq::<Card>::empty());
        assert(mid.last() == opts[p]);
        assert(flatten_somes(mid) == Seq::<Card>::empty().push(v));
        assert(Seq::<Card>::empty().push(v) =~= seq![v]);
    }
    lemma_flatten_somes_concat(l, mid);
    lemma_flatten_somes_concat(l + mid, r);
    lemma_flatten_somes_concat(l, seq![w]);
    lemma_flatten_somes_concat(l + seq![w], r);
    let fl = flatten_somes(l);
    let fr = flatten_somes(r);
    assert(flatten_somes(opts) == (fl + seq![v]) + fr);
    lemma_multiset_commutative(fl + seq![v], fr);
    lemma_multiset_commutative(fl, seq![v]);
    assert(seq![v].to_multiset() =~= Multiset::<Card>::empty().insert(v)) by {
        assert(seq![v].drop_first() =~= Seq::<Card>::empty());
        assert(Seq::<Card>::empty().push(v) =~= seq![v]);
        assert(Seq::<Card>::empty().push(v).to_multiset() =~= Seq::<
            Card,
        >::empty().to_multiset().insert(v));
        assert(Seq::<Card>::empty().to_multiset() =~= Multiset::<Card>::empty());
    }
    assert(flatten_somes(opts).to_multiset().count(v) >= 1);
    match w {
        Some(u) => {
            assert(flatten_somes(seq![w]) == seq![u]) by {
                assert(seq![w].len() == 1);
                assert(seq![w].drop_last() =~= Seq::<Option<Card>>::empty());
                assert(flatten_somes(Seq::<Option<Card>>::empty()) == Seq::<Card>::empty());
                assert(seq![w].last() == w);
                assert(flatten_somes(seq![w]) == Seq::<Card>::empty().push(u));
                assert(Seq::<Card>::empty().push(u) =~= seq![u]);
            }
            assert(flatten_somes(opts.update(p, w)) == (fl + seq![u]) + fr);
            lemma_multiset_commutative(fl + seq![u], fr);
            lemma_multiset_commutative(fl, seq![u]);
            assert(seq![u].to_multiset() =~= Multiset::<Card>::empty().insert(u)) by {
                assert(Seq::<Card>::empty().push(u) =~= seq![u]);
                assert(Seq::<Card>::empty().push(u).to_multiset() =~= Seq::<
                    Card,
                >::empty().to_multiset().insert(u));
                assert(Seq::<Card>::empty().to_multiset() =~= Multiset::<Card>::empty());
            }
            assert(flatten_somes(opts.update(p, w)).to_multiset() =~= flatten_somes(
                opts,
            ).to_multiset().remove(v).insert(u));
        }
        None => {
            assert(flatten_somes(seq![w]) == Seq::<Card>::empty()) by {
                assert(seq![w].len() == 1);
                assert(seq![w].drop_last() =~= Seq::<Option<Card>>::empty());
                assert(flatten_somes(Seq::<Option<Card>>::empty()) == Seq::<Card>::empty());
                assert(seq![w].last() == w);
            }
            assert(flatten_somes(opts.update(p, w)) == (fl + Seq::<Card>::empty()) + fr);
            assert((fl + Seq::<Card>::empty()) + fr =~= fl + fr);
            lemma_multiset_commutative(fl, fr);
            assert(flatten_somes(opts.update(p, w)).to_multiset() =~= flatten_somes(
                opts,
            ).to_multiset().remove(v));
        }
    }
}

/// Refills one selected tableau position with the next draw: the
/// position's card leaves the live bag of cards, and whatever the deck
/// hands over moves from deck to tableau.
fn replace_one(
    opts: &mut Vec<Option<Card>>,
    deck: &mut Deck,
    pos: usize,
    Ghost(c0): Ghost<Seq<Card>>,
    Ghost(d0): Ghost<Seq<Card>>,
    Ghost(ord): Ghost<int>,
)
    requires
        pos < old(opts)@.len(),
        old(opts)@[pos as int] == Some(c0[pos as int]),
        0 <= ord,
        old(deck)@ == d0.take(d0.len() - min_int(ord, d0.len() as int)),
        old(deck).wf(),
    ensures
        final(opts)@ == old(opts)@.update(pos as int, draw_opt(d0, ord)),
        final(deck)@ == d0.take(d0.len() - min_int(ord + 1, d0.len() as int)),
        final(deck).wf(),
        flatten_somes(final(opts)@).to_multiset().add(final(deck)@.to_multiset())
            == flatten_somes(old(opts)@).to_multiset().add(old(deck)@.to_multiset()).remove(
            c0[pos as int],
        ),
{
    proof {
        broadcast use group_to_multiset_ensures;
        broadcast use group_multiset_axioms;

        lemma_flatten_somes_update(opts@, pos as int, draw_opt(d0, ord));
    }
    let ghost m = d0.len() as int;
    let ghost d_pre = deck@;
    let dr = deck.draw();
    proof {
        if ord < m {
            assert(d_pre.len() == m - ord);
            assert(d_pre.last() == d0[m - 1 - ord]);
            assert(dr == draw_opt(d0, ord));
            assert(deck@ =~= d0.take(m - (ord + 1)));
            assert(d_pre =~= deck@.push(d0[m - 1 - ord]));
            assert(d_pre.to_multiset() == deck@.to_multiset().insert(d0[m - 1 - ord]));
        } else {
            assert(d_pre.len() == 0);
            assert(dr == draw_opt(d0, ord));
            assert(deck@ == d_pre);
        }
    }
    opts[pos] = dr;
    proof {
        let before = flatten_somes(old(opts)@).to_multiset();
        let after = flatten_somes(opts@).to_multiset();
        let v = c0[pos as int];
        if ord < m {
            let u = d0[m - 1 - ord];
            assert(after == before.remove(v).insert(u));
            assert(after.add(deck@.to_multiset()) =~= before.add(d_pre.to_multiset()).remove(v));
        } else {
            assert(after == before.remove(v));
            assert(after.add(deck@.to_multiset()) =~= before.add(d_pre.to_multiset()).remove(v));
        }
    }
}

impl Board {
    /// Replaces each selected position's card with a fresh draw from the
    /// deck, in slot order; tableau size is unchanged as long as the deck
    /// can cover the selection, and a position whose draw comes up empty
    /// disappears from the tableau. Selection and counters are untouched.
    #[verifier::rlimit(100)]
    pub fn replace_cards(&mut self)
        requires
            old(self).wf(),
            old(self).sel_valid(),
        ensures
            final(self).wf(),
            final(self).cards@ == flatten_somes(
                opts_after_replace(old(self).cards@, old(self).card_selection@, old(self).deck@),
            ),
            final(self).deck@ == old(self).deck@.take(
                old(self).deck@.len() - min_int(
                    sel_count(old(self).card_selection@),
                    old(self).deck@.len() as int,
                ),
            ),
            final(self).card_selection == old(self).card_selection,
            final(self).num_sets == old(self).num_sets,
            final(self).times_expanded == old(self).times_expanded,
            final(self).finished == old(self).finished,
            sel_count(old(self).card_selection@) <= old(self).deck@.len() ==> ({
                &&& final(self).cards@.len() == old(self).cards@.len()
                &&& forall|i: int|
                    0 <= i < old(self).cards@.len() ==> final(self).cards@[i] == replaced_card(
                        old(self).cards@,
                        old(self).card_selection@,
                        old(self).deck@,
                        i,
                    )
            }),
            sel_full(old(self).card_selection@) ==> final(self).cards@.len()
                + final(self).deck@.len() + 3 <= old(self).cards@.len() + old(self).deck@.len(),
    {
        let ghost c0 = self.cards@;
        let ghost s = self.card_selection@;
        let ghost d0 = self.deck@;
        let ghost m = d0.len() as int;
        let ghost total0 = (c0 + d0).to_multiset();

        let n = self.cards.len();
        let mut opts: Vec<Option<Card>> = Vec::new();
        let mut idx: usize = 0;
        while idx < n
            invariant
                idx <= n,
                n == c0.len(),
                self.cards@ == c0,
                opts@.len() == idx,
                forall|i: int| 0 <= i < idx ==> opts@[i] == Some(c0[i]),
            decreases n - idx,
        {
            opts.push(Some(self.cards[idx]));
            idx = idx + 1;
        }
        proof {
            broadcast use group_to_multiset_ensures;
            broadcast use group_multiset_axioms;

            lemma_flatten_somes_all_some(opts@);
            assert(flatten_somes(opts@) =~= c0);
            lemma_multiset_commutative(c0, d0);
            assert(d0.take(m - min_int(0, m)) =~= d0);
        }
        let ghost o0 = opts@;
        let ghost live0 = flatten_somes(o0).to_multiset().add(d0.to_multiset());
        assert(live0 == total0);

        if let Some(p0) = self.card_selection.get_slot(0) {
            replace_one(&mut opts, &mut self.deck, p0, Ghost(c0), Ghost(d0), Ghost(sel_ord(s, 0)));
        }
        let ghost o1 = opts@;
        let ghost d1 = self.deck@;
        let ghost live1 = flatten_somes(o1).to_multiset().add(d1.to_multiset());
        proof {
            broadcast use group_multiset_axioms;

            assert(forall|x: Card| live1.count(x) <= live0.count(x));
            assert(o1 == if s[0] is Some {
                o0.update(s[0]->0 as int, draw_opt(d0, sel_ord(s, 0)))
            } else {
                o0
            });
            assert(d1 == d0.take(m - min_int(sel_ord(s, 1), m)));
        }

        if let Some(p1) = self.card_selection.get_slot(1) {
            proof {
                assert(opts@[p1 as int] == Some(c0[p1 as int]));
            }
            replace_one(&mut opts, &mut self.deck, p1, Ghost(c0), Ghost(d0), Ghost(sel_ord(s, 1)));
        }
        let ghost o2 = opts@;
        let ghost d2 = self.deck@;
        let ghost live2 = flatten_somes(o2).to_multiset().add(d2.to_multiset());
        proof {
            broadcast use group_multiset_axioms;

            assert(forall|x: Card| live2.count(x) <= live1.count(x));
            assert(o2 == if s[1] is Some {
                o1.update(s[1]->0 as int, draw_opt(d0, sel_ord(s, 1)))
            } else {
                o1
            });
            assert(d2 == d0.take(m - min_int(sel_ord(s, 2), m)));
        }

        if let Some(p2) = self.card_selection.get_slot(2) {
            proof {
                assert(opts@[p2 as int] == Some(c0[p2 as int]));
            }
            replace_one(&mut opts, &mut self.deck, p2, Ghost(c0), Ghost(d0), Ghost(sel_ord(s, 2)));
        }
        let ghost o3 = opts@;
        let ghost d3 = self.deck@;
        let ghost live3 = flatten_somes(o3).to_multiset().add(d3.to_multiset());
        proof {
            broadcast use group_multiset_axioms;

            assert(forall|x: Card| live3.count(x) <= live2.count(x));
            assert(d3 == d0.take(m - min_int(sel_count(s), m)));
            assert(o3 =~= opts_after_replace(c0, s, d0));
        }

        let mut new_cards: Vec<Card> = Vec::new();
        let mut idx2: usize = 0;
        let on = opts.len();
        while idx2 < on
            invariant
                idx2 <= on,
                on == opts@.len(),
                opts@ == o3,
                new_cards@ == flatten_somes(o3.take(idx2 as int)),
            decreases on - idx2,
        {
            proof {
                assert(o3.take(idx2 as int + 1).drop_last() =~= o3.take(idx2 as int));
                assert(o3.take(idx2 as int + 1).last() == o3[idx2 as int]);
            }
            match opts[idx2] {
                Some(card) => {
                    new_cards.push(card);
                }
                None => {},
            }
            idx2 = idx2 + 1;
        }
        proof {
            assert(o3.take(on as int) =~= o3);
        }
        self.cards = new_cards;

        proof {
            broadcast use group_multiset_axioms;

            lemma_multiset_commutative(self.cards@, self.deck@);
            assert(forall|x: Card|
                (self.cards@ + self.deck@).to_multiset().count(x) <= total0.count(x));
            crate::deck::lemma_counts_below_wf(self.cards@ + self.deck@, c0 + d0);
            assert(forall|j: int|
                0 <= j < self.cards@.len() ==> self.cards@[j] == (self.cards@ + self.deck@)[j]);
            lemma_flatten_somes_len(o3);
            if sel_count(s) <= m {
                assert forall|i: int| 0 <= i < c0.len() implies (#[trigger] o3[i]) is Some by {
                    if slot_of(s, i as usize) >= 0 {
                        assert(sel_ord(s, slot_of(s, i as usize)) < sel_count(s));
                    }
                }
                lemma_flatten_somes_all_some(o3);
            }
            if sel_full(s) {
                assert(sel_count(s) == 3);
                let n_ = c0.len() as int;
                let q0 = s[0]->0 as int;
                let q1 = s[1]->0 as int;
                let q2 = s[2]->0 as int;
                assert(q0 != q1 && q0 != q2 && q1 != q2);
                assert(0 <= q0 < n_ && 0 <= q1 < n_ && 0 <= q2 < n_);
                if m < 3 {
                    assert(sel_ord(s, 0) == 0 && sel_ord(s, 1) == 1 && sel_ord(s, 2) == 2);
                    assert(slot_of(s, s[0]->0) == 0);
                    assert(slot_of(s, s[1]->0) == 1);
                    assert(slot_of(s, s[2]->0) == 2);
                    assert(o3[q0] == draw_opt(d0, 0));
                    assert(o3[q1] == draw_opt(d0, 1));
                    assert(o3[q2] == draw_opt(d0, 2));
                    if m == 2 {
                        assert(o3[q2] is None);
                        lemma_flatten_skip_none(o3, q2);
                        lemma_flatten_somes_len(o3.remove(q2));
                        assert(self.cards@.len() <= n_ - 1);
                    } else if m == 1 {
                        assert(o3[q1] is None && o3[q2] is None);
                        let hi = if q1 >= q2 {
                            q1
                        } else {
                            q2
                        };
                        let lo = if q1 >= q2 {
                            q2
                        } else {
                            q1
                        };
                        lemma_flatten_skip_none(o3, hi);
                        let o4 = o3.remove(hi);
                        assert(o4[lo] == o3[lo]);
                        lemma_flatten_skip_none(o4, lo);
                        lemma_flatten_somes_len(o4.remove(lo));
                        assert(self.cards@.len() <= n_ - 2);
                    } else {
                        assert(m == 0);
                        assert(o3[q0] is None && o3[q1] is None && o3[q2] is None);
                        let h = if q0 >= q1 && q0 >= q2 {
                            q0
                        } else if q1 >= q2 {
                            q1
                        } else {
                            q2
                        };
                        let l2 = if q0 <= q1 && q0 <= q2 {
                            q0
                        } else if q1 <= q2 {
                            q1
                        } else {
                            q2
                        };
                        let md = q0 + q1 + q2 - h - l2;
                        assert(l2 < md && md < h);
                        assert(o3[h] is None && o3[md] is None && o3[l2] is None);
                        lemma_flatten_skip_none(o3, h);
                        let o4 = o3.remove(h);
                        assert(o4[md] == o3[md] && o4[l2] == o3[l2]);
                        lemma_flatten_skip_none(o4, md);
                        let o5 = o4.remove(md);
                        assert(o5[l2] == o4[l2]);
                        lemma_flatten_skip_none(o5, l2);
                        lemma_flatten_somes_len(o5.remove(l2));
                        assert(self.cards@.len() <= n_ - 3);
                    }
                }
            }
        }
    }

    /// Settles a completed selection: when the three chosen cards form a
    /// set the score moves up by one and the tableau is mended — by
    /// pulling tail cards down while an expansion is outstanding, else
    /// by drawing replacements; when they do not, nothing moves. Either
    /// way the selection is cleared afterwards, and a game whose tableau
    /// has emptied is finished. A selection that is not full never
    /// resolves, and a finished game ignores the call.
    pub fn resolve_selection(&mut self)
        requires
            old(self).wf(),
            old(self).sel_valid(),
        ensures
            final(self).wf(),
            final(self).sel_valid(),
            old(self).finished ==> *final(self) == *old(self),
            !old(self).finished ==> ({
                let s = old(self).card_selection@;
                let c0 = old(self).cards@;
                let d0 = old(self).deck@;
                &&& (forall|i: int| 0 <= i < 3 ==> final(self).card_selection@[i] is None)
                &&& final(self).finished == (final(self).cards@.len() == 0)
                &&& (!spec_resolves_to_set(s, c0) ==> ({
                    &&& final(self).cards@ == c0
                    &&& final(self).deck@ == d0
                    &&& final(self).num_sets == old(self).num_sets
                    &&& final(self).times_expanded == old(self).times_expanded
                }))
                &&& (spec_resolves_to_set(s, c0) ==> ({
                    &&& final(self).num_sets == old(self).num_sets + 1
                    &&& (old(self).times_expanded > 0 ==> ({
                        &&& final(self).cards@ == spec_remove_result(c0, s)
                        &&& final(self).cards@.len() == c0.len() - 3
                        &&& final(self).deck@ == d0
                        &&& final(self).times_expanded == old(self).times_expanded - 1
                    }))
                    &&& (old(self).times_expanded == 0 ==> ({
                        &&& final(self).cards@ == flatten_somes(opts_after_replace(c0, s, d0))
                        &&& final(self).deck@ == d0.take(d0.len() - min_int(3, d0.len() as int))
                        &&& final(self).times_expanded == 0
                        &&& (3 <= d0.len() ==> final(self).cards@.len() == c0.len()
                            && (forall|i: int|
                                0 <= i < c0.len() ==> final(self).cards@[i] == replaced_card(
                                    c0,
                                    s,
                                    d0,
                                    i,
                                )))
                    }))
                }))
            }),
    {
        if self.finished {
            return ;
        }
        let is_a_set = self.card_selection.is_set(&self.cards);
        if is_a_set {
            proof {
                assert(sel_count(self.card_selection@) == 3);
            }
            if self.times_expanded > 0 {
                self.remove_cards();
                self.times_expanded = self.times_expanded - 1;
            } else {
                self.replace_cards();
            }
            proof {
                assert(self.num_sets < u32::MAX);
            }
            self.num_sets = self.num_sets + 1;
        }
        self.card_selection.clear();
        self.finished = self.cards.len() == 0;
    }
}

/// Whether tableau position `i` is one of the three selected positions.
pub open spec fn sel_has(s: Seq<Option<usize>>, i: int) -> bool {
    0 <= i && (s[0] == Some(i as usize) || s[1] == Some(i as usize) || s[2] == Some(i as usize))
}

/// The tail positions — the last three of the tableau — that are not
/// themselves selected, in increasing order: their cards move down into
/// the freed positions.
pub open spec fn movable_idxs(s: Seq<Option<usize>>, n: int) -> Seq<int> {
    (if !sel_has(s, n - 3) {
        seq![n - 3]
    } else {
        Seq::<int>::empty()
    }) + (if !sel_has(s, n - 2) {
        seq![n - 2]
    } else {
        Seq::<int>::empty()
    }) + (if !sel_has(s, n - 1) {
        seq![n - 1]
    } else {
        Seq::<int>::empty()
    })
}

/// How many selected positions lie strictly below position `p`.
pub open spec fn sel_rank(s: Seq<Option<usize>>, p: int) -> int {
    (if s[0] matches Some(q) && q < p {
        1int
    } else {
        0int
    }) + (if s[1] matches Some(q) && q < p {
        1int
    } else {
        0int
    }) + (if s[2] matches Some(q) && q < p {
        1int
    } else {
        0int
    })
}

/// Which position of the old tableau the card at position `i` of the
/// shrunken tableau comes from: the lowest freed position takes the
/// lowest movable tail card, the next freed position the next one, and
/// every other position keeps its own card.
pub open spec fn remove_src(s: Seq<Option<usize>>, n: int, i: int) -> int {
    if sel_has(s, i) {
        movable_idxs(s, n)[sel_rank(s, i)]
    } else {
        i
    }
}

/// The tableau after the three selected cards leave it: the tail closes
/// over the freed positions and the tableau shrinks by three.
pub open spec fn spec_remove_result(cards: Seq<Card>, s: Seq<Option<usize>>) -> Seq<Card> {
    let n = cards.len() as int;
    Seq::new((n - 3) as nat, |i: int| cards[remove_src(s, n, i)])
}

/// The source positions of the shrunken tableau: movable tail positions
/// are in range, unselected, and strictly ordered; ranks of freed
/// positions stay within them; and no source position is used twice.
#[verifier::rlimit(80)]
proof fn lemma_remove_src_props(s: Seq<Option<usize>>, n: int)
    requires
        sel_wf(s),
        sel_full(s),
        sel_indices_valid(s, n),
        3 <= n <= usize::MAX,
    ensures
        forall|r: int|
            0 <= r < movable_idxs(s, n).len() ==> n - 3 <= #[trigger] movable_idxs(s, n)[r] < n
                && !sel_has(s, movable_idxs(s, n)[r]),
        forall|r1: int, r2: int|
            0 <= r1 < r2 < movable_idxs(s, n).len() ==> movable_idxs(s, n)[r1] < movable_idxs(
                s,
                n,
            )[r2],
        forall|i: int|
            0 <= i < n - 3 && sel_has(s, i) ==> 0 <= sel_rank(s, i) < movable_idxs(s, n).len(),
        forall|i: int|
            0 <= i < n - 3 ==> 0 <= #[trigger] remove_src(s, n, i) < n,
        forall|i: int, j: int|
            0 <= i < n - 3 && 0 <= j < n - 3 && i != j ==> remove_src(s, n, i) != remove_src(
                s,
                n,
                j,
            ),
{
    let a = s[0]->0;
    let b = s[1]->0;
    let c = s[2]->0;
    assert(s[0] is Some && s[1] is Some && s[2] is Some);
    assert(s[0] == Some(a) && s[1] == Some(b) && s[2] == Some(c));
    assert(a != b && a != c && b != c);
    assert((s[0] matches Some(p) ==> p < n) && (s[1] matches Some(p) ==> p < n) && (
    s[2] matches Some(p) ==> p < n));
    assert(a < n && b < n && c < n);
    let mov = movable_idxs(s, n);
    assert forall|i: int| 0 <= i < n - 3 && sel_has(s, i) implies 0 <= sel_rank(s, i)
        < mov.len() by {
        assert(i == a as int || i == b as int || i == c as int);
    }
    assert forall|i: int, j: int|
        0 <= i < n - 3 && 0 <= j < n - 3 && i != j implies remove_src(s, n, i) != remove_src(
        s,
        n,
        j,
    ) by {
        if sel_has(s, i) && sel_has(s, j) {
            if i < j {
                assert(sel_rank(s, i) < sel_rank(s, j));
            } else {
                assert(sel_rank(s, j) < sel_rank(s, i));
            }
        }
    }
}

impl Board {
    /// Takes the three selected cards off the tableau: their positions
    /// are refilled with the unselected cards of the tableau's last
    /// three positions — lowest freed position first — and the tableau
    /// shrinks by three. Deck, selection and counters are untouched.
    pub fn remove_cards(&mut self)
        requires
            old(self).wf(),
            old(self).sel_valid(),
            sel_full(old(self).card_selection@),
        ensures
            final(self).wf(),
            final(self).cards@ == spec_remove_result(old(self).cards@, old(self).card_selection@),
            final(self).cards@.len() == old(self).cards@.len() - 3,
            final(self).deck@ == old(self).deck@,
            final(self).card_selection == old(self).card_selection,
            final(self).num_sets == old(self).num_sets,
            final(self).times_expanded == old(self).times_expanded,
            final(self).finished == old(self).finished,
    {
        let ghost c0 = self.cards@;
        let ghost s = self.card_selection@;

        let a = match self.card_selection.get_slot(0) {
            Some(p) => p,
            None => {
                proof {
                    assert(false);
                }
                0
            },
        };
        let b = match self.card_selection.get_slot(1) {
            Some(p) => p,
            None => {
                proof {
                    assert(false);
                }
                0
            },
        };
        let c = match self.card_selection.get_slot(2) {
            Some(p) => p,
            None => {
                proof {
                    assert(false);
                }
                0
            },
        };
        let n = self.cards.len();
        let ghost nn = n as int;
        proof {
            assert(s[0] == Some(a) && s[1] == Some(b) && s[2] == Some(c));
            assert(a != b && a != c && b != c);
            assert(a < n && b < n && c < n);
            assert(n >= 3);
            lemma_remove_src_props(s, nn);
        }

        let mut moved: Vec<Card> = Vec::new();
        let i0 = n - 3;
        if !(i0 == a || i0 == b || i0 == c) {
            moved.push(self.cards[i0]);
        }
        let i1 = n - 2;
        if !(i1 == a || i1 == b || i1 == c) {
            moved.push(self.cards[i1]);
        }
        let i2 = n - 1;
        if !(i2 == a || i2 == b || i2 == c) {
            moved.push(self.cards[i2]);
        }
        proof {
            assert(moved@.len() == movable_idxs(s, nn).len());
            assert(forall|r: int|
                0 <= r < moved@.len() ==> moved@[r] == c0[#[trigger] movable_idxs(s, nn)[r]]);
        }

        let mut new_cards: Vec<Card> = Vec::new();
        let mut used: usize = 0;
        let mut idx: usize = 0;
        while idx < n - 3
            invariant
                idx <= n - 3,
                n == c0.len(),
                n >= 3,
                nn == n,
                self.cards@ == c0,
                self.card_selection@ == s,
                sel_wf(s),
                sel_full(s),
                sel_indices_valid(s, nn),
                s[0] == Some(a),
                s[1] == Some(b),
                s[2] == Some(c),
                a != b && a != c && b != c,
                a < n && b < n && c < n,
                moved@.len() == movable_idxs(s, nn).len(),
                forall|r: int|
                    0 <= r < moved@.len() ==> moved@[r] == c0[#[trigger] movable_idxs(s, nn)[r]],
                used as int == sel_rank(s, idx as int),
                new_cards@ == spec_remove_result(c0, s).take(idx as int),
            decreases n - 3 - idx,
        {
            proof {
                lemma_remove_src_props(s, nn);
            }
            if idx == a || idx == b || idx == c {
                proof {
                    assert(sel_has(s, idx as int));
                    assert(used < moved@.len());
                }
                new_cards.push(moved[used]);
                used = used + 1;
            } else {
                proof {
                    assert(!sel_has(s, idx as int));
                }
                new_cards.push(self.cards[idx]);
            }
            proof {
                assert(used as int == sel_rank(s, idx as int + 1));
                assert(new_cards@ =~= spec_remove_result(c0, s).take(idx as int + 1));
            }
            idx = idx + 1;
        }
        proof {
            assert(spec_remove_result(c0, s).take(nn - 3) =~= spec_remove_result(c0, s));
        }
        self.cards = new_cards;

        proof {
            lemma_remove_src_props(s, nn);
            let d = self.deck@;
            let newc = self.cards@;
            let oldcat = c0 + d;
            assert(oldcat.no_duplicates());
            assert(forall|i: int| 0 <= i < nn ==> oldcat[i] == c0[i]);
            assert(forall|i: int| 0 <= i < d.len() ==> oldcat[nn + i] == d[i]);
            assert forall|i: int|
                0 <= i < newc.len() implies (#[trigger] newc[i]) == c0[remove_src(s, nn, i)]
                && (#[trigger] newc[i]).wf() by {
                assert(newc[i] == c0[remove_src(s, nn, i)]);
                assert(c0[remove_src(s, nn, i)] == oldcat[remove_src(s, nn, i)]);
                assert(oldcat[remove_src(s, nn, i)].wf());
            }
            let newcat = newc + d;
            assert forall|x: int, y: int|
                0 <= x < newcat.len() && 0 <= y < newcat.len() && x != y implies newcat[x]
                != newcat[y] by {
                if x < newc.len() && y < newc.len() {
                    assert(newcat[x] == c0[remove_src(s, nn, x)]);
                    assert(newcat[y] == c0[remove_src(s, nn, y)]);
                    assert(remove_src(s, nn, x) != remove_src(s, nn, y));
                    assert(oldcat[remove_src(s, nn, x)] != oldcat[remove_src(s, nn, y)]);
                } else if x < newc.len() {
                    assert(newcat[x] == oldcat[remove_src(s, nn, x)]);
                    assert(newcat[y] == d[y - newc.len()]);
                    assert(newcat[y] == oldcat[nn + (y - newc.len())]);
                    assert(remove_src(s, nn, x) < nn);
                } else if y < newc.len() {
                    assert(newcat[y] == oldcat[remove_src(s, nn, y)]);
                    assert(newcat[x] == oldcat[nn + (x - newc.len())]);
                    assert(remove_src(s, nn, y) < nn);
                } else {
                    assert(newcat[x] == oldcat[nn + (x - newc.len())]);
                    assert(newcat[y] == oldcat[nn + (y - newc.len())]);
                }
            }
            assert(newcat.no_duplicates());
        }
    }
}

} // verus!
