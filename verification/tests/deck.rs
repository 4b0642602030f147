use tabua::deck::Deck;

#[test]
fn draw_takes_the_top() {
    let mut deck = vec![1u32, 2, 3];
    assert_eq!(deck.draw(), Some(3));
    assert_eq!(deck.draw(), Some(2));
    assert_eq!(deck.draw(), Some(1));
    assert_eq!(deck.draw(), None);
}

#[test]
fn peek_is_top_first_and_leaves_the_deck() {
    let deck = vec![1u32, 2, 3];
    assert_eq!(deck.peek(2), vec![&3, &2]);
    assert_eq!(deck.peek(9), vec![&3, &2, &1]);
    assert_eq!(deck.peek(0), Vec::<&u32>::new());
    assert_eq!(deck, vec![1, 2, 3]);
}

#[test]
fn peek_top_is_the_last_token() {
    let deck = vec![4u8, 7];
    assert_eq!(deck.peek_top(), Some(&7));
    let empty: Vec<u8> = vec![];
    assert_eq!(empty.peek_top(), None);
}

#[test]
fn put_top_and_bottom() {
    let mut deck = vec![2u8, 3];
    deck.put_top(4);
    assert_eq!(deck, vec![2, 3, 4]);
    deck.put_bottom(1);
    assert_eq!(deck, vec![1, 2, 3, 4]);
}

#[test]
fn shuffle_keeps_the_tokens() {
    let mut deck: Vec<u32> = (0..50).collect();
    deck.shuffle();
    assert_eq!(deck.len(), 50);
    let mut sorted = deck.clone();
    sorted.sort();
    assert_eq!(sorted, (0..50).collect::<Vec<u32>>());
}

#[test]
fn draw_random_removes_one_token() {
    let mut deck: Vec<u32> = (0..10).collect();
    let drawn = deck.draw_random().unwrap();
    assert!(drawn < 10);
    assert_eq!(deck.len(), 9);
    assert!(!deck.contains(&drawn));

    let mut empty: Vec<u32> = vec![];
    assert_eq!(empty.draw_random(), None);
}

#[test]
fn put_random_inserts_below_the_top() {
    let mut deck = vec![0u8, 0, 0];
    deck.put_random(9);
    assert_eq!(deck.len(), 4);
    assert_ne!(deck[3], 9);
    assert!(deck.contains(&9));
}
