use set_game::Card;
use set_game::all_same_or_different;
use set_game::is_set;

fn card(shape: u32, color: u32, filling: u32, amount: u32) -> Card {
    Card { shape, color, filling, amount }
}

#[test]
fn all_same_accepted() {
    assert!(all_same_or_different(0, 0, 0));
    assert!(all_same_or_different(2, 2, 2));
}

#[test]
fn all_different_accepted() {
    assert!(all_same_or_different(0, 1, 2));
    assert!(all_same_or_different(2, 0, 1));
}

#[test]
fn exactly_two_equal_rejected() {
    assert!(!all_same_or_different(0, 0, 1));
    assert!(!all_same_or_different(0, 1, 0));
    assert!(!all_same_or_different(1, 0, 0));
    assert!(!all_same_or_different(2, 2, 0));
}

#[test]
fn is_set_all_attributes_different() {
    let a = card(0, 0, 0, 0);
    let b = card(1, 1, 1, 1);
    let c = card(2, 2, 2, 2);
    assert!(is_set(&a, &b, &c));
}

#[test]
fn is_set_mixed_attributes() {
    // shape equal, color equal, filling all different, amount equal
    let a = card(2, 2, 0, 0);
    let b = card(2, 2, 1, 0);
    let c = card(2, 2, 2, 0);
    assert!(is_set(&a, &b, &c));
}

#[test]
fn is_set_rejects_one_spoiled_attribute() {
    // amount has exactly two equal values; the rest pass
    let a = card(0, 0, 0, 0);
    let b = card(1, 1, 1, 0);
    let c = card(2, 2, 2, 1);
    assert!(!is_set(&a, &b, &c));
}

#[test]
fn is_set_symmetric_in_all_orders() {
    let a = card(0, 1, 2, 0);
    let b = card(1, 1, 1, 1);
    let c = card(2, 1, 0, 2);
    assert!(is_set(&a, &b, &c));
    assert!(is_set(&a, &c, &b));
    assert!(is_set(&b, &a, &c));
    assert!(is_set(&b, &c, &a));
    assert!(is_set(&c, &a, &b));
    assert!(is_set(&c, &b, &a));

    let d = card(0, 1, 2, 1);
    assert!(!is_set(&a, &b, &d));
    assert!(!is_set(&a, &d, &b));
    assert!(!is_set(&b, &a, &d));
    assert!(!is_set(&b, &d, &a));
    assert!(!is_set(&d, &a, &b));
    assert!(!is_set(&d, &b, &a));
}
