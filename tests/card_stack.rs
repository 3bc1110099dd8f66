use std::cmp::Ordering;

use poker::card::{
    count_cards, Card, ACE, CLUB, DIAMOND, EIGHT, FIVE, FOUR, HEART, JACK, KING, NINE, QUEEN,
    SEVEN, SIX, SPADE, SUIT_MASK, TEN, THREE, TWO,
};
use poker::card_stack::{checked_value, get_hand, sort_cards, value, CardStack, Hand};

fn stack_of(cards: &[Card]) -> CardStack {
    let mut stack = CardStack::new(7);
    for &c in cards {
        stack.push(c);
    }
    stack
}

#[test]
fn test_card_stack_ordering() {
    let mut stack1 = CardStack::new(7);
    stack1.push(HEART | ACE);
    stack1.push(HEART | TWO);
    stack1.push(HEART | THREE);

    let mut stack2 = CardStack::new(7);
    stack2.push(HEART | TWO);
    stack2.push(HEART | THREE);
    stack2.push(HEART | FOUR);

    assert_eq!(stack1.cmp(&stack2), Ordering::Greater);
}

#[test]
fn test_card_stack_order_equal() {
    let mut stack1 = CardStack::new(7);
    stack1.push(HEART | TWO);
    stack1.push(DIAMOND | TWO);
    stack1.push(HEART | THREE);

    let mut stack2 = CardStack::new(7);
    stack2.push(CLUB | TWO);
    stack2.push(SPADE | TWO);
    stack2.push(SPADE | THREE);

    assert_eq!(stack1.cmp(&stack2), Ordering::Equal);
}

#[test]
fn test_card_stack_ordering_full_house() {
    let mut stack1 = CardStack::new(7);
    stack1.push(HEART | TWO);
    stack1.push(DIAMOND | TWO);
    stack1.push(HEART | THREE);
    stack1.push(DIAMOND | THREE);
    stack1.push(SPADE | THREE);

    let mut stack2 = CardStack::new(7);
    stack2.push(HEART | THREE);
    stack2.push(DIAMOND | THREE);
    stack2.push(SPADE | THREE);
    stack2.push(HEART | FOUR);
    stack2.push(DIAMOND | FOUR);

    assert_eq!(stack1.cmp(&stack2), Ordering::Less);
}

#[test]
fn test_card_stack_ordering_kind() {
    let mut stack1 = CardStack::new(7);
    stack1.push(HEART | TWO);
    stack1.push(DIAMOND | TWO);
    stack1.push(CLUB | TWO);
    stack1.push(SPADE | TWO);
    stack1.push(SPADE | THREE);
    stack1.push(HEART | ACE);
    stack1.push(CLUB | TWO);

    let mut stack2 = CardStack::new(7);
    stack2.push(HEART | THREE);
    stack2.push(CLUB | THREE);
    stack2.push(CLUB | TWO);
    stack2.push(SPADE | TWO);
    stack2.push(SPADE | THREE);
    stack2.push(HEART | ACE);
    stack2.push(CLUB | TWO);

    assert_eq!(
        stack1.cmp(&stack2),
        Ordering::Greater,
        "{} should be greater than {}",
        stack1.value(),
        stack2.value()
    );
}

#[test]
fn test_card_deck_creation() {
    let deck = CardStack::standard_deck();
    assert_eq!(deck.cards.len(), 52);
}

#[test]
fn test_card_count() {
    let mut stack = CardStack::new(7);
    stack.push(HEART | KING);
    stack.push(HEART | TWO);
    stack.push(HEART | THREE);
    stack.push(SPADE | TWO);
    stack.push(HEART | FIVE);
    stack.push(DIAMOND | TWO);

    let counts = count_cards(&stack.cards);

    assert_eq!(counts[0], 0, "counting none");
    assert_eq!(counts[1], 3, "counting Twos");
    assert_eq!(counts[2], 1, "counting Threes");
    assert_eq!(counts[3], 0, "counting Fours");
    assert_eq!(counts[4], 1, "counting Fives");
    assert_eq!(counts[5], 0, "counting Sixes");
    assert_eq!(counts[6], 0, "counting Sevens");
    assert_eq!(counts[7], 0, "counting Eights");
    assert_eq!(counts[8], 0, "counting Nines");
    assert_eq!(counts[9], 0, "counting Tens");
    assert_eq!(counts[10], 0, "counting Jacks");
    assert_eq!(counts[11], 0, "counting Queens");
    assert_eq!(counts[12], 1, "counting Kings");
    assert_eq!(counts[13], 0, "counting Aces");
}

#[test]
fn test_card_stack_sort() {
    let mut stack = CardStack::new(7);
    stack.push(HEART | ACE);
    stack.push(HEART | TWO);
    stack.push(HEART | THREE);
    stack.push(DIAMOND | ACE);
    stack.push(SPADE | TWO);
    stack.push(HEART | QUEEN);
    stack.push(DIAMOND | TWO);

    stack.sort();

    let mut expected = CardStack::new(7);
    expected.push(HEART | TWO);
    expected.push(SPADE | TWO);
    expected.push(DIAMOND | TWO);
    expected.push(HEART | ACE);
    expected.push(DIAMOND | ACE);
    expected.push(HEART | QUEEN);
    expected.push(HEART | THREE);

    assert_eq!(stack.to_string(), expected.to_string(), "stack is not sorted right");

    let mut stack = CardStack::new(7);
    stack.push(HEART | TEN);
    stack.push(HEART | JACK);
    stack.push(HEART | QUEEN);
    stack.push(HEART | KING);
    stack.push(HEART | ACE);
    stack.push(HEART | TWO);
    stack.push(HEART | THREE);

    stack.sort();

    let mut expected = CardStack::new(7);
    expected.push(HEART | ACE);
    expected.push(HEART | KING);
    expected.push(HEART | QUEEN);
    expected.push(HEART | JACK);
    expected.push(HEART | TEN);
    expected.push(HEART | THREE);
    expected.push(HEART | TWO);

    assert_eq!(stack.to_string(), expected.to_string());

    let mut stack = CardStack::new(7);
    stack.push(HEART | TWO);
    stack.push(DIAMOND | TWO);
    stack.push(HEART | THREE);
    stack.push(DIAMOND | THREE);
    stack.push(SPADE | THREE);
    stack.push(HEART | ACE);
    stack.push(CLUB | TWO);

    stack.sort();

    let mut expected = CardStack::new(7);
    expected.push(HEART | THREE);
    expected.push(DIAMOND | THREE);
    expected.push(SPADE | THREE);
    expected.push(HEART | TWO);
    expected.push(DIAMOND | TWO);
    expected.push(CLUB | TWO);
    expected.push(HEART | ACE);

    assert_eq!(stack.to_string(), expected.to_string());
}

#[test]
fn test_is_flush() {
    let c1 = HEART | ACE;
    let c2 = HEART | TWO;
    let c3 = HEART | THREE;
    let c4 = HEART | FOUR;
    let c5 = HEART | FIVE;

    let cards = c1 | c2 | c3 | c4 | c5;

    assert_eq!(cards & SUIT_MASK, HEART);
    assert_ne!(cards & SUIT_MASK, SPADE);
    assert_ne!(cards & SUIT_MASK, CLUB);
    assert_ne!(cards & SUIT_MASK, DIAMOND);
}

#[test]
fn test_is_not_flush() {
    let c1 = HEART | ACE;
    let c2 = HEART | TWO;
    let c3 = DIAMOND | THREE;
    let c4 = HEART | FOUR;
    let c5 = HEART | FIVE;

    let cards = c1 | c2 | c3 | c4 | c5;

    assert_ne!(cards & SUIT_MASK, SUIT_MASK);
    assert_ne!(cards & SUIT_MASK, HEART | SPADE);
    assert_eq!(cards & SUIT_MASK, HEART | DIAMOND);
}

#[test]
fn test_card_stack_shuffle() {
    let mut stack = CardStack::new(7);
    stack.push(HEART | ACE);
    stack.push(HEART | TWO);
    stack.push(HEART | THREE);
    stack.push(SPADE | TWO);
    stack.push(HEART | FIVE);
    stack.push(DIAMOND | TWO);

    let original_stack = stack.cards.clone();
    stack.shuffle();

    assert_ne!(stack.cards, original_stack);
}

#[test]
fn test_full_house() {
    let mut stack = CardStack::new(7);
    stack.push(HEART | TWO);
    stack.push(DIAMOND | TWO);
    stack.push(HEART | THREE);
    stack.push(DIAMOND | THREE);
    stack.push(SPADE | THREE);
    stack.push(HEART | ACE);
    stack.push(CLUB | TWO);

    assert_eq!(Hand::FullHouse, stack.get_hand())
}

#[test]
fn test_four_of_a_kind() {
    let mut stack = CardStack::new(7);
    stack.push(HEART | TWO);
    stack.push(DIAMOND | TWO);
    stack.push(CLUB | TWO);
    stack.push(SPADE | TWO);
    stack.push(SPADE | THREE);
    stack.push(HEART | ACE);
    stack.push(CLUB | TEN);

    assert_eq!(Hand::FourOfAKind, stack.get_hand())
}

#[test]
fn test_straight_flush() {
    let mut stack = CardStack::new(7);
    stack.push(HEART | TWO);
    stack.push(HEART | THREE);
    stack.push(HEART | FOUR);
    stack.push(HEART | FIVE);
    stack.push(HEART | SIX);
    stack.push(HEART | SEVEN);
    stack.push(HEART | EIGHT);

    assert_eq!(Hand::StraightFlush, stack.get_hand())
}

#[test]
fn test_royal_flush() {
    let mut stack = CardStack::new(7);
    stack.push(HEART | TEN);
    stack.push(HEART | JACK);
    stack.push(HEART | QUEEN);
    stack.push(HEART | KING);
    stack.push(HEART | ACE);
    stack.push(HEART | TWO);
    stack.push(HEART | THREE);

    assert_eq!(Hand::RoyalFlush, stack.get_hand())
}

#[test]
fn classification_ignores_input_order() {
    let royal = [HEART | ACE, HEART | KING, HEART | QUEEN, HEART | JACK, HEART | TEN];
    let orders: [[usize; 5]; 4] = [[0, 1, 2, 3, 4], [4, 3, 2, 1, 0], [2, 0, 4, 1, 3], [1, 3, 0, 4, 2]];
    for order in orders.iter() {
        let cards: Vec<Card> = order.iter().map(|&i| royal[i]).collect();
        assert_eq!(get_hand(&cards), Hand::RoyalFlush);
    }
    let full = [HEART | NINE, CLUB | NINE, SPADE | FOUR, DIAMOND | NINE, HEART | FOUR];
    for order in orders.iter() {
        let cards: Vec<Card> = order.iter().map(|&i| full[i]).collect();
        assert_eq!(get_hand(&cards), Hand::FullHouse);
    }
}

#[test]
fn wheel_is_never_royal() {
    let suited = vec![HEART | ACE, HEART | TWO, HEART | THREE, HEART | FOUR, HEART | FIVE];
    assert_eq!(get_hand(&suited), Hand::StraightFlush);
    let mixed = vec![HEART | ACE, CLUB | TWO, HEART | THREE, SPADE | FOUR, HEART | FIVE];
    assert_eq!(get_hand(&mixed), Hand::Straight);
    let reversed = vec![HEART | FIVE, HEART | FOUR, HEART | THREE, HEART | TWO, HEART | ACE];
    assert_eq!(get_hand(&reversed), Hand::StraightFlush);
}

#[test]
fn categories_rank_in_order() {
    let four = get_hand(&vec![HEART | TWO, DIAMOND | TWO, CLUB | TWO, SPADE | TWO, HEART | THREE]);
    let full = get_hand(&vec![HEART | THREE, DIAMOND | THREE, CLUB | THREE, SPADE | TWO, HEART | TWO]);
    let three = get_hand(&vec![HEART | NINE, DIAMOND | NINE, CLUB | NINE, SPADE | TWO, HEART | KING]);
    let two_pair = get_hand(&vec![HEART | NINE, DIAMOND | NINE, CLUB | TWO, SPADE | TWO, HEART | KING]);
    let pair = get_hand(&vec![HEART | NINE, DIAMOND | NINE, CLUB | FIVE, SPADE | TWO, HEART | KING]);
    let high = get_hand(&vec![HEART | NINE, DIAMOND | SEVEN, CLUB | FIVE, SPADE | TWO, HEART | KING]);
    assert_eq!(four, Hand::FourOfAKind);
    assert_eq!(full, Hand::FullHouse);
    assert_eq!(three, Hand::ThreeOfAKind);
    assert_eq!(two_pair, Hand::TwoPair);
    assert_eq!(pair, Hand::Pair);
    assert_eq!(high, Hand::HighCard);
    assert!(four > full);
    assert!(full > three);
    assert!(three > two_pair);
    assert!(two_pair > pair);
    assert!(pair > high);
}

#[test]
fn empty_hand_is_high_card_of_no_strength() {
    assert_eq!(get_hand(&vec![]), Hand::HighCard);
    assert_eq!(value(&vec![]), 0);
}

#[test]
fn strength_formula() {
    // 2 + 2 + 4 for the ranks, 2^2 for the Twos, 1^1 for the Three.
    assert_eq!(value(&vec![HEART | TWO, DIAMOND | TWO, HEART | THREE]), 13);
    // Five Twos and a Three and an Ace: 10 + 4 + 8192, then 5^5 + 1 + 1.
    let v = value(&vec![HEART | TWO, DIAMOND | TWO, CLUB | TWO, SPADE | TWO, SPADE | THREE, HEART | ACE, CLUB | TWO]);
    assert_eq!(v, 8206 + 3125 + 2);
}

#[test]
fn stack_equality_ignores_suit() {
    let a = stack_of(&[HEART | TWO, DIAMOND | TWO, HEART | THREE]);
    let b = stack_of(&[CLUB | TWO, SPADE | TWO, SPADE | THREE]);
    let c = stack_of(&[CLUB | TWO, SPADE | FOUR, SPADE | THREE]);
    assert!(a.eq(&b));
    assert!(!a.eq(&c));
    assert_ne!(a.cards, b.cards);
}

#[test]
fn sort_is_a_permutation() {
    let mut cards = vec![CLUB | NINE, HEART | KING, SPADE | NINE, DIAMOND | FOUR, HEART | NINE];
    sort_cards(&mut cards);
    assert_eq!(cards, vec![CLUB | NINE, SPADE | NINE, HEART | NINE, HEART | KING, DIAMOND | FOUR]);
}

#[test]
fn standard_deck_has_each_card_once() {
    let deck = CardStack::standard_deck();
    assert_eq!(deck.max_cards, 52);
    let mut seen = deck.cards.clone();
    seen.sort();
    seen.dedup();
    assert_eq!(seen.len(), 52);
    for &suit in &[HEART, DIAMOND, CLUB, SPADE] {
        for shift in 1..14u32 {
            assert!(deck.cards.contains(&(suit | (1u32 << shift))));
        }
    }
}

#[test]
fn standard_deck_comes_shuffled() {
    let mut fresh = Vec::new();
    for &suit in &[HEART, DIAMOND, CLUB, SPADE] {
        for &rank in &[ACE, TWO, THREE, FOUR, FIVE, SIX, SEVEN, EIGHT, NINE, TEN, JACK, QUEEN, KING] {
            fresh.push(suit | rank);
        }
    }
    let deck = CardStack::standard_deck();
    assert_ne!(deck.cards, fresh);
}

#[test]
fn push_pop_and_from() {
    let mut stack = CardStack::new(1);
    stack.push(HEART | ACE);
    stack.push(HEART | KING);
    assert_eq!(stack.cards.len(), 2);
    assert_eq!(stack.pop(), Some(HEART | KING));
    assert_eq!(stack.pop(), Some(HEART | ACE));
    assert_eq!(stack.pop(), None);
    let from = CardStack::from(vec![CLUB | TWO, CLUB | THREE]);
    assert_eq!(from.max_cards, 2);
    assert_eq!(from.cards, vec![CLUB | TWO, CLUB | THREE]);
}

#[test]
fn ten_to_ace_in_mixed_suits_is_a_straight() {
    let cards = vec![TEN | HEART, JACK | DIAMOND, QUEEN | CLUB, KING | SPADE, ACE | HEART];
    assert_eq!(get_hand(&cards), Hand::Straight);
    let suited = vec![TEN | SPADE, JACK | SPADE, QUEEN | SPADE, KING | SPADE, ACE | SPADE];
    assert_eq!(get_hand(&suited), Hand::RoyalFlush);
}

#[test]
fn large_stacks_compare_by_strength() {
    let a = stack_of(&[
        HEART | TWO, DIAMOND | TWO, HEART | THREE, CLUB | FOUR, SPADE | FIVE, HEART | SIX,
        DIAMOND | SEVEN, CLUB | EIGHT,
    ]);
    let b = stack_of(&[
        CLUB | TWO, SPADE | TWO, SPADE | THREE, HEART | FOUR, HEART | FIVE, CLUB | SIX,
        SPADE | SEVEN, HEART | EIGHT,
    ]);
    assert!(a.eq(&b));
    assert_eq!(a.cmp(&b), Ordering::Equal);
    assert_ne!(a.cards, b.cards);
}

#[test]
fn strength_beyond_u32_is_reported() {
    let nine = vec![HEART | TWO; 9];
    // 9 * 2 for the ranks, 9^9 for the Twos.
    assert_eq!(checked_value(&nine), Some(18 + 387_420_489));
    let ten = vec![HEART | TWO; 10];
    assert_eq!(checked_value(&ten), None);
    assert_eq!(checked_value(&vec![HEART | TWO, DIAMOND | TWO, HEART | THREE]), Some(13));
}

#[test]
fn cards_without_suits_are_still_ordered() {
    let mut cards = vec![THREE, TWO | THREE, ACE, TWO];
    sort_cards(&mut cards);
    // Two cards have the Two bit and two the Three bit. The Two-and-Three card
    // keys on its lowest rank bit, the Two, and has the highest value of the
    // cards in groups of two.
    assert_eq!(cards, vec![TWO | THREE, THREE, TWO, ACE]);
    assert_eq!(get_hand(&vec![TWO, TWO, ACE]), Hand::Pair);
}
