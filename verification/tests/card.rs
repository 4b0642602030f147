use tabua::card::{Card, CardSetBuilder};

#[test]
fn generate_card_set() {
    let deck = CardSetBuilder::new("back")
        .with_cards("front_1", 1)
        .with_cards("front_2", 2)
        .generate_deck();

    assert_eq!(
        deck,
        vec![
            Card::new("front_1", "back"),
            Card::new("front_2", "back"),
            Card::new("front_2", "back")
        ]
    );
}

#[test]
fn card_sides() {
    let mut card = Card::new(5u32, "hidden");
    assert_eq!(*card.front(), 5);
    assert_eq!(*card.back(), "hidden");

    *card.front_mut() = 8;
    assert_eq!(*card.front(), 8);
    assert_eq!(*card.back(), "hidden");

    *card.back_mut() = "shown";
    assert_eq!(*card.back(), "shown");
    assert_eq!(*card.front(), 8);
}

#[test]
fn generate_empty_deck() {
    let deck: Vec<Card<u8, u8>> = CardSetBuilder::new(0u8).generate_deck();
    assert!(deck.is_empty());

    let deck = CardSetBuilder::new(0u8).with_cards(1u8, 0).generate_deck();
    assert!(deck.is_empty());
}
