use set_game::Card;
use set_game::CardSelection;

fn card(shape: u32, color: u32, filling: u32, amount: u32) -> Card {
    Card { shape, color, filling, amount }
}

#[test]
fn new_selection_is_empty() {
    let sel = CardSelection::new();
    assert!(!sel.is_full());
    assert!(!sel.is_selected(0));
    assert!(!sel.is_selected(7));
}

#[test]
fn toggle_twice_returns_to_empty() {
    let mut sel = CardSelection::new();
    assert!(sel.add_next_toggle(5).is_ok());
    assert!(sel.is_selected(5));
    assert!(sel.add_next_toggle(5).is_ok());
    assert!(!sel.is_selected(5));
    assert!(!sel.is_full());
}

#[test]
fn three_distinct_toggles_fill_the_selection() {
    let mut sel = CardSelection::new();
    assert!(sel.add_next_toggle(1).is_ok());
    assert!(sel.add_next_toggle(4).is_ok());
    assert!(sel.add_next_toggle(9).is_ok());
    assert!(sel.is_full());
    assert!(sel.is_selected(1));
    assert!(sel.is_selected(4));
    assert!(sel.is_selected(9));
}

#[test]
fn fourth_distinct_toggle_is_rejected() {
    let mut sel = CardSelection::new();
    sel.add_next_toggle(1).unwrap();
    sel.add_next_toggle(4).unwrap();
    sel.add_next_toggle(9).unwrap();
    assert!(sel.add_next_toggle(2).is_err());
    assert!(sel.is_full());
    assert!(!sel.is_selected(2));
    assert!(sel.is_selected(1));
    assert!(sel.is_selected(4));
    assert!(sel.is_selected(9));
}

#[test]
fn deselection_is_never_blocked_by_fullness() {
    let mut sel = CardSelection::new();
    sel.add_next_toggle(1).unwrap();
    sel.add_next_toggle(4).unwrap();
    sel.add_next_toggle(9).unwrap();
    assert!(sel.is_full());
    assert!(sel.add_next_toggle(4).is_ok());
    assert!(!sel.is_selected(4));
    assert!(!sel.is_full());
    assert!(sel.is_selected(1));
    assert!(sel.is_selected(9));
}

#[test]
fn clear_empties_all_slots() {
    let mut sel = CardSelection::new();
    sel.add_next_toggle(0).unwrap();
    sel.add_next_toggle(2).unwrap();
    sel.clear();
    assert!(!sel.is_full());
    assert!(!sel.is_selected(0));
    assert!(!sel.is_selected(2));
}

#[test]
fn full_selection_of_a_set_resolves() {
    let cards = vec![
        card(0, 0, 0, 0),
        card(1, 1, 1, 1),
        card(2, 2, 2, 2),
        card(0, 1, 2, 0),
    ];
    let mut sel = CardSelection::new();
    sel.add_next_toggle(0).unwrap();
    sel.add_next_toggle(1).unwrap();
    sel.add_next_toggle(2).unwrap();
    assert!(sel.is_set(&cards));
}

#[test]
fn full_selection_of_a_non_set_does_not_resolve() {
    let cards = vec![
        card(0, 0, 0, 0),
        card(1, 1, 1, 1),
        card(2, 2, 2, 1),
        card(0, 1, 2, 0),
    ];
    let mut sel = CardSelection::new();
    sel.add_next_toggle(0).unwrap();
    sel.add_next_toggle(1).unwrap();
    sel.add_next_toggle(2).unwrap();
    assert!(!sel.is_set(&cards));
}

#[test]
fn partial_selection_never_resolves() {
    let cards = vec![card(0, 0, 0, 0), card(1, 1, 1, 1), card(2, 2, 2, 2)];
    let mut sel = CardSelection::new();
    sel.add_next_toggle(0).unwrap();
    sel.add_next_toggle(1).unwrap();
    assert!(!sel.is_set(&cards));
}
