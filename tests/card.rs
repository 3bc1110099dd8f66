use poker::card::{
    count_cards, display_card, display_cards, get_suit, get_value, ACE, CLUB, DIAMOND, HEART,
    KING, QUEEN, SPADE, SUIT_MASK, TEN, THREE, TWO, VALUE_MASK,
};

#[test]
fn test_create_card() {
    let card = HEART | ACE;
    assert_eq!(display_card(card), "AH");
}

#[test]
fn test_zeros() {
    assert_eq!(TWO.trailing_zeros(), 1, "Two trailing ones");
    assert_eq!(THREE.trailing_zeros(), 2, "Three trailing ones");
    assert_eq!(ACE.trailing_zeros(), 13, "Ace trailing ones");
}

#[test]
fn test_card_rank() {
    let val = get_value(HEART | QUEEN);
    let val2 = get_value(HEART | THREE);

    assert!(val > val2, "Queen is greater than three");
}

#[test]
fn suit_and_value_split_every_card() {
    for &suit in &[HEART, DIAMOND, CLUB, SPADE] {
        for shift in 1..14u32 {
            let card = suit | (1u32 << shift);
            assert_eq!(get_suit(card) & get_value(card), 0);
            assert_eq!(get_suit(card) | get_value(card), card);
            assert_eq!(get_suit(card), suit);
            assert_eq!(get_value(card), 1u32 << shift);
        }
    }
    assert_eq!(SUIT_MASK & VALUE_MASK, 0);
}

#[test]
fn display_ten_and_unknown() {
    assert_eq!(display_card(SPADE | TEN), "10S");
    assert_eq!(display_card(CLUB | KING), "KC");
    assert_eq!(display_card(0), "UnknownUnknown");
    assert_eq!(display_card(HEART | DIAMOND | ACE), "AUnknown");
    assert_eq!(display_card(HEART | ACE | KING), "UnknownH");
}

#[test]
fn display_card_lists() {
    assert_eq!(display_cards(&vec![]), "");
    assert_eq!(display_cards(&vec![HEART | ACE]), "AH");
    assert_eq!(display_cards(&vec![HEART | ACE, DIAMOND | TWO, CLUB | TEN]), "AH, 2D, 10C");
}

#[test]
fn rank_counts_sum_to_length() {
    let cards = vec![HEART | ACE, DIAMOND | ACE, CLUB | TWO, SPADE | KING, HEART | TEN];
    let counts = count_cards(&cards);
    let total: u32 = counts.iter().map(|&c| c as u32).sum();
    assert_eq!(total, 5);
    assert_eq!(counts[0], 0);
    assert_eq!(counts[13], 2);
    assert_eq!(count_cards(&vec![]).iter().map(|&c| c as u32).sum::<u32>(), 0);
}
