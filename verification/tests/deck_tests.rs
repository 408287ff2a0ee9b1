use set_game::Card;
use set_game::Deck;

fn index_of(c: &Card) -> usize {
    (27 * c.shape + 9 * c.color + 3 * c.filling + c.amount) as usize
}

#[test]
fn fresh_deck_deals_all_81_in_enumeration_order() {
    let mut deck = Deck::new();
    let mut drawn: Vec<Card> = Vec::new();
    while let Some(card) = deck.draw() {
        drawn.push(card);
    }
    assert_eq!(drawn.len(), 81);
    // drawing pops from the back, so the enumeration comes out reversed
    for (k, card) in drawn.iter().enumerate() {
        assert_eq!(index_of(card), 80 - k);
    }
    assert!(deck.is_empty());
}

#[test]
fn shuffled_deck_holds_81_unique_cards() {
    let mut deck = Deck::new_shuffled();
    let mut seen = [false; 81];
    let mut count = 0;
    while let Some(card) = deck.draw() {
        let i = index_of(&card);
        assert!(!seen[i], "card dealt twice");
        seen[i] = true;
        count += 1;
    }
    assert_eq!(count, 81);
    assert!(seen.iter().all(|&s| s));
}

#[test]
fn exhausted_deck_keeps_reporting_empty() {
    let mut deck = Deck::new_shuffled();
    for _ in 0..81 {
        assert!(deck.draw().is_some());
    }
    assert!(deck.is_empty());
    assert!(deck.draw().is_none());
    assert!(deck.draw().is_none());
    assert!(deck.draw().is_none());
    assert!(deck.is_empty());
}

#[test]
fn fresh_deck_is_not_empty() {
    let deck = Deck::new();
    assert!(!deck.is_empty());
    let shuffled = Deck::new_shuffled();
    assert!(!shuffled.is_empty());
}
