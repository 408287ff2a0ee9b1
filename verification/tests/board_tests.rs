use set_game::Board;
use set_game::Card;
use set_game::CardSelection;
use set_game::Deck;

fn card(shape: u32, color: u32, filling: u32, amount: u32) -> Card {
    Card { shape, color, filling, amount }
}

/// A deck with only the `keep` first-enumerated cards left in it.
fn drained_deck(keep: usize) -> Deck {
    let mut deck = Deck::new();
    for _ in 0..(81 - keep) {
        deck.draw().unwrap();
    }
    deck
}

/// A deterministic game: twelve cards dealt from an unshuffled deck.
/// Positions 2, 5 and 8 hold a known set; positions 0, 1 and 3 do not.
fn deterministic_board() -> Board {
    let mut deck = Deck::new();
    let mut cards = Vec::new();
    for _ in 0..12 {
        cards.push(deck.draw().unwrap());
    }
    Board {
        cards,
        deck,
        card_selection: CardSelection::new(),
        num_sets: 0,
        times_expanded: 0,
        finished: false,
    }
}

fn remaining(deck: &mut Deck) -> usize {
    let mut count = 0;
    while deck.draw().is_some() {
        count += 1;
    }
    count
}

#[test]
fn new_game_deals_twelve_and_keeps_69() {
    let mut board = Board::new();
    assert_eq!(board.cards.len(), 12);
    assert_eq!(board.num_sets, 0);
    assert_eq!(board.times_expanded, 0);
    assert!(!board.finished);
    assert!(!board.card_selection.is_full());
    for i in 0..12 {
        assert!(!board.card_selection.is_selected(i));
    }
    assert_eq!(remaining(&mut board.deck), 69);
}

#[test]
fn count_sets_finds_the_single_known_triple() {
    let board = Board {
        cards: vec![
            card(0, 1, 2, 0),
            card(2, 2, 0, 1),
            card(1, 1, 1, 0),
            card(2, 1, 2, 2),
            card(0, 2, 1, 2),
            card(0, 1, 1, 1),
            card(2, 2, 0, 2),
            card(2, 2, 2, 1),
            card(0, 2, 2, 0),
            card(1, 2, 0, 2),
            card(0, 1, 1, 0),
            card(0, 0, 2, 2),
        ],
        deck: drained_deck(0),
        card_selection: CardSelection::new(),
        num_sets: 0,
        times_expanded: 0,
        finished: false,
    };
    assert_eq!(board.count_sets(), 1);
}

#[test]
fn count_sets_reports_zero_without_a_triple() {
    let board = Board {
        cards: vec![
            card(2, 2, 0, 1),
            card(2, 2, 0, 2),
            card(1, 2, 1, 2),
            card(0, 0, 2, 0),
            card(1, 0, 0, 1),
            card(0, 0, 1, 2),
            card(2, 1, 2, 2),
            card(0, 1, 2, 2),
            card(1, 1, 0, 1),
            card(1, 2, 2, 2),
            card(0, 2, 0, 0),
            card(2, 1, 2, 0),
        ],
        deck: drained_deck(0),
        card_selection: CardSelection::new(),
        num_sets: 0,
        times_expanded: 0,
        finished: false,
    };
    assert_eq!(board.count_sets(), 0);
}

#[test]
fn resolving_a_set_replaces_the_three_cards_in_place() {
    let mut board = deterministic_board();
    let before2 = board.cards[2].clone();
    let before5 = board.cards[5].clone();
    let before8 = board.cards[8].clone();
    assert!(board.select(2));
    assert!(board.select(5));
    assert!(board.select(8));
    board.resolve_selection();
    assert_eq!(board.num_sets, 1);
    assert_eq!(board.cards.len(), 12);
    assert_ne!(board.cards[2], before2);
    assert_ne!(board.cards[5], before5);
    assert_ne!(board.cards[8], before8);
    // slot order decides which draw lands where
    assert_eq!(board.cards[2], card(2, 1, 1, 2));
    assert_eq!(board.cards[5], card(2, 1, 1, 1));
    assert_eq!(board.cards[8], card(2, 1, 1, 0));
    for i in 0..12 {
        assert!(!board.card_selection.is_selected(i));
    }
    assert!(!board.finished);
    assert_eq!(remaining(&mut board.deck), 66);
}

#[test]
fn resolving_a_set_after_an_expansion_shrinks_the_tableau() {
    let mut board = deterministic_board();
    board.expand();
    assert_eq!(board.cards.len(), 15);
    assert_eq!(board.times_expanded, 1);
    assert!(board.select(2));
    assert!(board.select(5));
    assert!(board.select(8));
    board.resolve_selection();
    assert_eq!(board.num_sets, 1);
    assert_eq!(board.cards.len(), 12);
    assert_eq!(board.times_expanded, 0);
    // the freed positions took the expanded tail cards, lowest first
    assert_eq!(board.cards[2], card(2, 1, 1, 2));
    assert_eq!(board.cards[5], card(2, 1, 1, 1));
    assert_eq!(board.cards[8], card(2, 1, 1, 0));
    for i in 0..12 {
        assert!(!board.card_selection.is_selected(i));
    }
    assert_eq!(remaining(&mut board.deck), 66);
}

#[test]
fn resolving_a_non_set_changes_nothing_but_the_selection() {
    let mut board = deterministic_board();
    let before = board.cards.clone();
    assert!(board.select(0));
    assert!(board.select(1));
    assert!(board.select(3));
    board.resolve_selection();
    assert_eq!(board.num_sets, 0);
    assert_eq!(board.cards, before);
    for i in 0..12 {
        assert!(!board.card_selection.is_selected(i));
    }
    assert_eq!(remaining(&mut board.deck), 69);
}

#[test]
fn selecting_a_position_twice_deselects_it() {
    let mut board = deterministic_board();
    assert!(board.select(3));
    assert!(board.card_selection.is_selected(3));
    assert!(board.select(3));
    assert!(!board.card_selection.is_selected(3));
}

#[test]
fn fourth_selection_is_ignored() {
    let mut board = deterministic_board();
    assert!(board.select(0));
    assert!(board.select(1));
    assert!(board.select(2));
    assert!(!board.select(3));
    assert!(!board.card_selection.is_selected(3));
    assert!(board.card_selection.is_full());
}

#[test]
fn three_expansions_then_a_fourth_still_draw_correctly() {
    let mut board = Board::new();
    for round in 1..=3u32 {
        assert!(board.times_expanded < 3 && !board.deck.is_empty());
        board.expand();
        assert_eq!(board.times_expanded, round);
        assert_eq!(board.cards.len(), 12 + 3 * round as usize);
    }
    // the caller's gate now refuses the action...
    assert!(!(board.times_expanded < 3 && !board.deck.is_empty()));
    // ...but a call that slips through still draws up to three
    board.expand();
    assert_eq!(board.times_expanded, 4);
    assert_eq!(board.cards.len(), 24);
    assert_eq!(remaining(&mut board.deck), 81 - 24);
}

#[test]
fn expansion_stops_early_on_a_nearly_empty_deck() {
    let mut board = Board {
        cards: vec![
            card(2, 2, 0, 1),
            card(2, 2, 0, 2),
            card(1, 2, 1, 2),
            card(0, 0, 2, 0),
            card(1, 0, 0, 1),
            card(0, 0, 1, 2),
            card(2, 1, 2, 2),
            card(0, 1, 2, 2),
            card(1, 1, 0, 1),
            card(1, 2, 2, 2),
            card(0, 2, 0, 0),
            card(2, 1, 2, 0),
        ],
        deck: drained_deck(2),
        card_selection: CardSelection::new(),
        num_sets: 0,
        times_expanded: 0,
        finished: false,
    };
    board.expand();
    assert_eq!(board.cards.len(), 14);
    assert_eq!(board.times_expanded, 1);
    assert!(board.deck.is_empty());
    board.expand();
    assert_eq!(board.cards.len(), 14);
    assert_eq!(board.times_expanded, 2);
}

#[test]
fn emptied_tableau_finishes_the_game() {
    let mut board = Board {
        cards: vec![card(0, 0, 0, 0), card(1, 1, 1, 1), card(2, 2, 2, 2)],
        deck: drained_deck(0),
        card_selection: CardSelection::new(),
        num_sets: 0,
        times_expanded: 0,
        finished: false,
    };
    assert!(board.select(0));
    assert!(board.select(1));
    assert!(board.select(2));
    board.resolve_selection();
    assert_eq!(board.num_sets, 1);
    assert_eq!(board.cards.len(), 0);
    assert!(board.finished);
    // a finished game ignores every further operation
    board.expand();
    assert_eq!(board.times_expanded, 0);
    board.resolve_selection();
    assert_eq!(board.num_sets, 1);
    assert!(board.finished);
}

#[test]
fn reset_starts_over_completely() {
    let mut board = deterministic_board();
    board.expand();
    assert!(board.select(2));
    assert!(board.select(5));
    assert!(board.select(8));
    board.resolve_selection();
    board.reset();
    assert_eq!(board.cards.len(), 12);
    assert_eq!(board.num_sets, 0);
    assert_eq!(board.times_expanded, 0);
    assert!(!board.finished);
    assert!(!board.card_selection.is_full());
    assert_eq!(remaining(&mut board.deck), 69);
}
