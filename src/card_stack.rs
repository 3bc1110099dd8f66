//! Hand evaluation and the card stack: decks, boards and hole cards.

use rand::seq::SliceRandom;
use vstd::arithmetic::power::pow;
use vstd::prelude::*;

use crate::card::{
    all_valid, count_cards, get_value, has_bit, is_rank, is_suit, rank_count, valid_card, Card,
    ACE, CLUB, DIAMOND, EIGHT, FIVE, FOUR, HEART, JACK, KING, NINE, QUEEN, SEVEN, SIX, SPADE,
    SUIT_MASK, TEN, THREE, TWO, VALUE_MASK,
};

verus! {

/// The ten hand categories, weakest first.
#[derive(Debug, Clone, Copy, PartialEq, Eq, Structural, PartialOrd, Ord)]
pub enum Hand {
    HighCard,
    Pair,
    TwoPair,
    ThreeOfAKind,
    Straight,
    Flush,
    FullHouse,
    FourOfAKind,
    StraightFlush,
    RoyalFlush,
}

pub const LOW_STRAIGHT: Card = ACE | TWO | THREE | FOUR | FIVE;
pub const STRAIGHT_1: Card = TWO | THREE | FOUR | FIVE | SIX;
pub const STRAIGHT_2: Card = THREE | FOUR | FIVE | SIX | SEVEN;
pub const STRAIGHT_3: Card = FOUR | FIVE | SIX | SEVEN | EIGHT;
pub const STRAIGHT_4: Card = FIVE | SIX | SEVEN | EIGHT | NINE;
pub const STRAIGHT_5: Card = SIX | SEVEN | EIGHT | NINE | TEN;
pub const STRAIGHT_6: Card = SEVEN | EIGHT | NINE | TEN | JACK;
pub const STRAIGHT_7: Card = EIGHT | NINE | TEN | JACK | QUEEN;
pub const STRAIGHT_8: Card = NINE | TEN | JACK | QUEEN | KING;
pub const HIGH_STRAIGHT: Card = TEN | JACK | QUEEN | KING | ACE;

/// The slot of the rank-count table that a card's rank bits key on: the
/// position of their lowest bit, 1 to 13, or 0 where there is none.
pub open spec fn rank_index(v: Card) -> int {
    if v & 0x2 != 0 {
        1
    } else if v & 0x4 != 0 {
        2
    } else if v & 0x8 != 0 {
        3
    } else if v & 0x10 != 0 {
        4
    } else if v & 0x20 != 0 {
        5
    } else if v & 0x40 != 0 {
        6
    } else if v & 0x80 != 0 {
        7
    } else if v & 0x100 != 0 {
        8
    } else if v & 0x200 != 0 {
        9
    } else if v & 0x400 != 0 {
        10
    } else if v & 0x800 != 0 {
        11
    } else if v & 0x1000 != 0 {
        12
    } else if v & 0x2000 != 0 {
        13
    } else {
        0
    }
}

/// The card carries at least one rank bit.
pub open spec fn has_rank(c: Card) -> bool {
    c & VALUE_MASK != 0
}

pub open spec fn all_ranked(s: Seq<Card>) -> bool {
    forall|i: int| 0 <= i < s.len() ==> has_rank(#[trigger] s[i])
}

/// How many cards of the hand `s` share the rank of `c`.
pub open spec fn group_size(s: Seq<Card>, c: Card) -> nat {
    rank_count(s, rank_index(c & VALUE_MASK))
}

/// In the canonical order of the hand `s`, `a` goes before `b`: its rank group
/// is larger, or as large and of a higher rank.
pub open spec fn goes_before(s: Seq<Card>, a: Card, b: Card) -> bool {
    group_size(s, a) > group_size(s, b) || (group_size(s, a) == group_size(s, b) && (a
        & VALUE_MASK) > (b & VALUE_MASK))
}

/// `x` put into `t` just before the first card that it goes before.
pub open spec fn insert_in_order(t: Seq<Card>, x: Card, s: Seq<Card>) -> Seq<Card>
    decreases t.len(),
{
    if t.len() == 0 {
        seq![x]
    } else if goes_before(s, x, t[0]) {
        seq![x] + t
    } else {
        seq![t[0]] + insert_in_order(t.drop_first(), x, s)
    }
}

/// The cards of `p` put in order one by one, in their order in `p`, each after
/// the cards that it does not go before: a stable sort by the order of `s`.
pub open spec fn arrange(p: Seq<Card>, s: Seq<Card>) -> Seq<Card>
    decreases p.len(),
{
    if p.len() == 0 {
        Seq::empty()
    } else {
        insert_in_order(arrange(p.drop_last(), s), p.last(), s)
    }
}

/// The canonical order of a hand: larger rank groups first, higher ranks
/// first among groups of one size, and cards of one rank as they came.
pub open spec fn canonical_order(s: Seq<Card>) -> Seq<Card> {
    arrange(s, s)
}

/// The union of all the cards' bits.
pub open spec fn or_all(s: Seq<Card>) -> Card
    decreases s.len(),
{
    if s.len() == 0 {
        0
    } else {
        or_all(s.drop_last()) | s.last()
    }
}

/// The suit bits of the union name a single suit.
pub open spec fn is_flush(s: Seq<Card>) -> bool {
    is_suit(or_all(s) & SUIT_MASK)
}

pub open spec fn is_straight(s: Seq<Card>) -> bool {
    let v = or_all(s) & VALUE_MASK;
    v & LOW_STRAIGHT == LOW_STRAIGHT || v & STRAIGHT_1 == STRAIGHT_1 || v & STRAIGHT_2
        == STRAIGHT_2 || v & STRAIGHT_3 == STRAIGHT_3 || v & STRAIGHT_4 == STRAIGHT_4 || v
        & STRAIGHT_5 == STRAIGHT_5 || v & STRAIGHT_6 == STRAIGHT_6 || v & STRAIGHT_7
        == STRAIGHT_7 || v & STRAIGHT_8 == STRAIGHT_8 || v & HIGH_STRAIGHT == HIGH_STRAIGHT
}

pub open spec fn is_high_straight(s: Seq<Card>) -> bool {
    (or_all(s) & VALUE_MASK) & HIGH_STRAIGHT == HIGH_STRAIGHT
}

/// How many of the slots below `n` of the rank-count table of `s` hold `k`.
pub open spec fn slots_holding(s: Seq<Card>, k: nat, n: int) -> nat
    decreases n,
{
    if n <= 0 {
        0
    } else {
        slots_holding(s, k, n - 1) + if rank_count(s, n - 1) == k {
            1nat
        } else {
            0nat
        }
    }
}

/// The first five cards of the canonical order, or all of them if fewer.
pub open spec fn best_five(s: Seq<Card>) -> Seq<Card> {
    let t = canonical_order(s);
    if t.len() > 5 {
        t.take(5)
    } else {
        t
    }
}

/// The category of a hand: straights and flushes are read off all the cards,
/// rank groups off the best five.
pub open spec fn hand_of(s: Seq<Card>) -> Hand {
    let top = best_five(s);
    if is_flush(s) && is_high_straight(s) {
        Hand::RoyalFlush
    } else if is_flush(s) && is_straight(s) {
        Hand::StraightFlush
    } else if is_straight(s) {
        Hand::Straight
    } else if slots_holding(top, 4, 14) > 0 {
        Hand::FourOfAKind
    } else if slots_holding(top, 3, 14) > 0 && slots_holding(top, 2, 14) > 0 {
        Hand::FullHouse
    } else if slots_holding(top, 3, 14) > 0 {
        Hand::ThreeOfAKind
    } else if slots_holding(top, 2, 14) == 2 {
        Hand::TwoPair
    } else if slots_holding(top, 2, 14) > 0 {
        Hand::Pair
    } else {
        Hand::HighCard
    }
}

/// The sum of the cards' rank flags.
pub open spec fn rank_sum(s: Seq<Card>) -> nat
    decreases s.len(),
{
    if s.len() == 0 {
        0
    } else {
        rank_sum(s.drop_last()) + (s.last() & VALUE_MASK) as nat
    }
}

/// `n` to the power `n`, where an empty slot gives nothing.
pub open spec fn self_power(n: nat) -> nat {
    if n == 0 {
        0
    } else {
        pow(n as int, n) as nat
    }
}

/// The bonus of the slots below `n`: `count^count` for each.
pub open spec fn group_bonus(s: Seq<Card>, n: int) -> nat
    decreases n,
{
    if n <= 0 {
        0
    } else {
        group_bonus(s, n - 1) + self_power(rank_count(s, n - 1))
    }
}

/// The strength of a hand: the sum of its rank flags and of the group bonuses.
pub open spec fn strength(s: Seq<Card>) -> nat {
    rank_sum(s) + group_bonus(s, 14)
}

proof fn lemma_insert_at(t: Seq<Card>, x: Card, s: Seq<Card>, p: int)
    requires
        0 <= p <= t.len(),
        forall|k: int| 0 <= k < p ==> !goes_before(s, x, #[trigger] t[k]),
        p < t.len() ==> goes_before(s, x, t[p]),
    ensures
        insert_in_order(t, x, s) == t.insert(p, x),
    decreases p,
{
    if p == 0 {
        if t.len() == 0 {
            assert(t.insert(0, x) =~= seq![x]);
        } else {
            assert(t.insert(0, x) =~= seq![x] + t);
        }
    } else {
        let r = t.drop_first();
        assert forall|k: int| 0 <= k < p - 1 implies !goes_before(s, x, #[trigger] r[k]) by {
            assert(r[k] == t[k + 1]);
        }
        lemma_insert_at(r, x, s, p - 1);
        assert(t.insert(p, x) =~= seq![t[0]] + r.insert(p - 1, x));
    }
}

/// The slot that a card's rank bits key on: their lowest bit.
fn rank_slot(v: Card) -> (r: usize)
    requires
        v & VALUE_MASK != 0,
    ensures
        r == rank_index(v),
        1 <= r <= 13,
{
    if v & 0x2 != 0 {
        1
    } else if v & 0x4 != 0 {
        2
    } else if v & 0x8 != 0 {
        3
    } else if v & 0x10 != 0 {
        4
    } else if v & 0x20 != 0 {
        5
    } else if v & 0x40 != 0 {
        6
    } else if v & 0x80 != 0 {
        7
    } else if v & 0x100 != 0 {
        8
    } else if v & 0x200 != 0 {
        9
    } else if v & 0x400 != 0 {
        10
    } else if v & 0x800 != 0 {
        11
    } else if v & 0x1000 != 0 {
        12
    } else {
        assert(v & 0x2000 != 0) by (bit_vector)
            requires
                v & 0x3ffe != 0,
                v & 0x2 == 0,
                v & 0x4 == 0,
                v & 0x8 == 0,
                v & 0x10 == 0,
                v & 0x20 == 0,
                v & 0x40 == 0,
                v & 0x80 == 0,
                v & 0x100 == 0,
                v & 0x200 == 0,
                v & 0x400 == 0,
                v & 0x800 == 0,
                v & 0x1000 == 0,
        ;
        13
    }
}

fn card_goes_before(a: Card, b: Card, counts: &[u8; 14], Ghost(s): Ghost<Seq<Card>>) -> (r: bool)
    requires
        has_rank(a),
        has_rank(b),
        forall|i: int| 0 <= i < 14 ==> counts@[i] == rank_count(s, i),
    ensures
        r == goes_before(s, a, b),
{
    let av = get_value(a);
    let bv = get_value(b);
    assert((a & 0x3ffe) & 0x3ffe == a & 0x3ffe && (b & 0x3ffe) & 0x3ffe == b & 0x3ffe) by (bit_vector);
    let ac = counts[rank_slot(av)];
    let bc = counts[rank_slot(bv)];
    ac > bc || (ac == bc && av > bv)
}

/// Puts the cards in canonical order: larger rank groups first, higher ranks
/// first among groups of one size, and cards of one rank in their former order.
/// Each card must carry a rank bit: a card without one (such as a concealed
/// card) has no rank group to be ordered by.
pub fn sort_cards(cards: &mut Vec<Card>)
    requires
        old(cards)@.len() <= 255,
        all_ranked(old(cards)@),
    ensures
        final(cards)@ == canonical_order(old(cards)@),
        final(cards)@.to_multiset() == old(cards)@.to_multiset(),
{
    let ghost s = cards@;
    let counts = count_cards(cards);
    let mut out: Vec<Card> = Vec::new();
    let mut i: usize = 0;
    assert(out@ =~= s.take(0));
    while i < cards.len()
        invariant
            s == cards@,
            i <= s.len(),
            s.len() <= 255,
            all_ranked(s),
            all_ranked(out@),
            forall|k: int| 0 <= k < 14 ==> counts@[k] == rank_count(s, k),
            out@ == arrange(s.take(i as int), s),
            out@.to_multiset() == s.take(i as int).to_multiset(),
        decreases s.len() - i,
    {
        let x = cards[i];
        let mut p: usize = 0;
        while p < out.len() && !card_goes_before(x, out[p], &counts, Ghost(s))
            invariant
                p <= out@.len(),
                has_rank(x),
                all_ranked(out@),
                forall|k: int| 0 <= k < 14 ==> counts@[k] == rank_count(s, k),
                forall|k: int| 0 <= k < p ==> !goes_before(s, x, #[trigger] out@[k]),
            decreases out@.len() - p,
        {
            p = p + 1;
        }
        proof {
            lemma_insert_at(out@, x, s, p as int);
            assert(s.take(i as int + 1).drop_last() =~= s.take(i as int));
            assert(s.take(i as int + 1) =~= s.take(i as int).push(x));
            vstd::seq_lib::to_multiset_insert(out@, p as int, x);
            vstd::seq_lib::to_multiset_build(s.take(i as int), x);
        }
        out.insert(p, x);
        i = i + 1;
    }
    assert(s.take(s.len() as int) =~= s);
    *cards = out;
}

fn slots_with(counts: &[u8; 14], k: u8, Ghost(s): Ghost<Seq<Card>>) -> (r: u8)
    requires
        forall|i: int| 0 <= i < 14 ==> counts@[i] == rank_count(s, i),
    ensures
        r == slots_holding(s, k as nat, 14),
{
    let mut n: u8 = 0;
    let mut i: usize = 0;
    while i < 14
        invariant
            i <= 14,
            n <= i,
            n == slots_holding(s, k as nat, i as int),
            forall|j: int| 0 <= j < 14 ==> counts@[j] == rank_count(s, j),
        decreases 14 - i,
    {
        if counts[i] == k {
            n = n + 1;
        }
        i = i + 1;
    }
    n
}

/// The category of a hand. Each card must carry a rank bit, as the canonical
/// order that picks the best five keys on it.
pub fn get_hand(cards: &Vec<Card>) -> (r: Hand)
    requires
        cards@.len() <= 255,
        all_ranked(cards@),
    ensures
        r == hand_of(cards@),
{
    let mut sorted = cards.clone();
    assert(sorted@ == cards@);
    sort_cards(&mut sorted);

    let mut mask: Card = 0;
    let mut j: usize = 0;
    while j < cards.len()
        invariant
            j <= cards@.len(),
            mask == or_all(cards@.take(j as int)),
        decreases cards@.len() - j,
    {
        assert(cards@.take(j as int + 1).drop_last() =~= cards@.take(j as int));
        mask = mask | cards[j];
        j = j + 1;
    }
    assert(cards@.take(cards@.len() as int) =~= cards@);
    let v = mask & VALUE_MASK;
    let s = mask & SUIT_MASK;
    let flush = s == HEART || s == DIAMOND || s == CLUB || s == SPADE;
    let straight = v & LOW_STRAIGHT == LOW_STRAIGHT || v & STRAIGHT_1 == STRAIGHT_1 || v
        & STRAIGHT_2 == STRAIGHT_2 || v & STRAIGHT_3 == STRAIGHT_3 || v & STRAIGHT_4
        == STRAIGHT_4 || v & STRAIGHT_5 == STRAIGHT_5 || v & STRAIGHT_6 == STRAIGHT_6 || v
        & STRAIGHT_7 == STRAIGHT_7 || v & STRAIGHT_8 == STRAIGHT_8 || v & HIGH_STRAIGHT
        == HIGH_STRAIGHT;
    let high_straight = v & HIGH_STRAIGHT == HIGH_STRAIGHT;

    if flush && high_straight {
        return Hand::RoyalFlush;
    }
    if flush && straight {
        return Hand::StraightFlush;
    }
    if straight {
        return Hand::Straight;
    }
    if sorted.len() > 5 {
        sorted.truncate(5);
    }
    assert(sorted@ == best_five(cards@));
    let count = count_cards(&sorted);
    let fours = slots_with(&count, 4, Ghost(sorted@));
    let threes = slots_with(&count, 3, Ghost(sorted@));
    let pairs = slots_with(&count, 2, Ghost(sorted@));
    if fours > 0 {
        Hand::FourOfAKind
    } else if threes > 0 && pairs > 0 {
        Hand::FullHouse
    } else if threes > 0 {
        Hand::ThreeOfAKind
    } else if pairs == 2 {
        Hand::TwoPair
    } else if pairs > 0 {
        Hand::Pair
    } else {
        Hand::HighCard
    }
}


proof fn lemma_rank_sum_prefix(s: Seq<Card>, j: int)
    requires
        0 <= j <= s.len(),
    ensures
        rank_sum(s.take(j)) <= rank_sum(s),
    decreases s.len(),
{
    if j < s.len() {
        assert(s.take(j) =~= s.drop_last().take(j));
        lemma_rank_sum_prefix(s.drop_last(), j);
    } else {
        assert(s.take(j) =~= s);
    }
}

proof fn lemma_bonus_prefix(s: Seq<Card>, i: int)
    requires
        0 <= i <= 14,
    ensures
        group_bonus(s, i) <= group_bonus(s, 14),
    decreases 14 - i,
{
    if i < 14 {
        lemma_bonus_prefix(s, i + 1);
    }
}

/// How many cards have bit `idx` set.
fn slot_count(cards: &Vec<Card>, idx: u32) -> (r: usize)
    requires
        idx < 14,
    ensures
        r == rank_count(cards@, idx as int),
{
    let mut n: usize = 0;
    let mut j: usize = 0;
    while j < cards.len()
        invariant
            j <= cards@.len(),
            idx < 14,
            n == rank_count(cards@.take(j as int), idx as int),
            n <= j,
        decreases cards@.len() - j,
    {
        assert(cards@.take(j as int + 1).drop_last() =~= cards@.take(j as int));
        if cards[j] & (1u32 << idx) != 0 {
            n = n + 1;
        }
        j = j + 1;
    }
    assert(cards@.take(cards@.len() as int) =~= cards@);
    n
}

/// `c^c` for a nonempty slot, 0 for an empty one, where it fits in a `u32`.
fn checked_self_power(c: usize) -> (r: Option<u32>)
    ensures
        r == if self_power(c as nat) <= u32::MAX {
            Some(self_power(c as nat) as u32)
        } else {
            None::<u32>
        },
{
    if c == 0 {
        return Some(0);
    }
    if c > 0xffff_ffff {
        proof {
            vstd::arithmetic::power::lemma_pow_increases(c as nat, 1, c as nat);
            vstd::arithmetic::power::lemma_pow1(c as int);
        }
        return None;
    }
    let mut p: u64 = 1;
    let mut k: usize = 0;
    proof {
        vstd::arithmetic::power::lemma_pow0(c as int);
    }
    while k < c
        invariant
            1 <= c <= 0xffff_ffff,
            k <= c,
            p == pow(c as int, k as nat),
            p <= u32::MAX,
        decreases c - k,
    {
        assert(p * (c as u64) <= 0xffff_ffff * 0xffff_ffff) by (nonlinear_arith)
            requires
                p <= 0xffff_ffff,
                c <= 0xffff_ffff,
        ;
        proof {
            vstd::arithmetic::power::lemma_pow_adds(c as int, k as nat, 1);
            vstd::arithmetic::power::lemma_pow1(c as int);
        }
        p = p * (c as u64);
        k = k + 1;
        if p > 0xffff_ffff {
            proof {
                vstd::arithmetic::power::lemma_pow_increases(c as nat, k as nat, c as nat);
            }
            return None;
        }
    }
    Some(p as u32)
}

/// The strength of a hand, where it fits in a `u32`; `None` where it does not.
pub fn checked_value(cards: &Vec<Card>) -> (r: Option<Card>)
    ensures
        r == if strength(cards@) <= u32::MAX {
            Some(strength(cards@) as Card)
        } else {
            None::<Card>
        },
{
    let mut total: u64 = 0;
    let mut j: usize = 0;
    while j < cards.len()
        invariant
            j <= cards@.len(),
            total == rank_sum(cards@.take(j as int)),
            total <= u32::MAX,
        decreases cards@.len() - j,
    {
        assert(cards@.take(j as int + 1).drop_last() =~= cards@.take(j as int));
        let c = cards[j];
        assert(c & 0x3ffe <= 0x3ffe) by (bit_vector);
        total = total + get_value(c) as u64;
        j = j + 1;
        if total > 0xffff_ffff {
            proof {
                lemma_rank_sum_prefix(cards@, j as int);
            }
            return None;
        }
    }
    assert(cards@.take(cards@.len() as int) =~= cards@);
    let mut i: u32 = 0;
    while i < 14
        invariant
            i <= 14,
            total == rank_sum(cards@) + group_bonus(cards@, i as int),
            total <= u32::MAX,
        decreases 14 - i,
    {
        let n = slot_count(cards, i);
        match checked_self_power(n) {
            None => {
                proof {
                    lemma_bonus_prefix(cards@, i as int + 1);
                }
                return None;
            },
            Some(p) => {
                total = total + p as u64;
                i = i + 1;
                if total > 0xffff_ffff {
                    proof {
                        lemma_bonus_prefix(cards@, i as int);
                    }
                    return None;
                }
            },
        }
    }
    Some(total as u32)
}

/// The strength of a hand: the sum of its rank flags, plus `count^count` for
/// each nonempty slot of its rank-count table. The result is a `u32`, so the
/// strength must fit in one; `checked_value` tells whether it does.
pub fn value(cards: &Vec<Card>) -> (r: Card)
    requires
        strength(cards@) <= u32::MAX,
    ensures
        r == strength(cards@),
{
    match checked_value(cards) {
        Some(v) => v,
        None => 0,
    }
}

/// Relies on rand's `SliceRandom::shuffle` with the thread-local generator:
/// it only swaps cards, so the result holds the same cards.
#[verifier::external_body]
pub fn shuffle(cards: &mut Vec<Card>)
    ensures
        final(cards)@.to_multiset() == old(cards)@.to_multiset(),
{
    cards.shuffle(&mut rand::thread_rng());
}

fn fresh_deck_card(k: usize) -> (r: Card)
    requires
        k < 52,
    ensures
        r == fresh_card(k as int),
{
    let b = k / 13;
    let j = k % 13;
    let su = if b == 0 {
        HEART
    } else if b == 1 {
        DIAMOND
    } else if b == 2 {
        CLUB
    } else {
        SPADE
    };
    let v = if j == 0 {
        ACE
    } else if j == 1 {
        TWO
    } else if j == 2 {
        THREE
    } else if j == 3 {
        FOUR
    } else if j == 4 {
        FIVE
    } else if j == 5 {
        SIX
    } else if j == 6 {
        SEVEN
    } else if j == 7 {
        EIGHT
    } else if j == 8 {
        NINE
    } else if j == 9 {
        TEN
    } else if j == 10 {
        JACK
    } else if j == 11 {
        QUEEN
    } else {
        KING
    };
    su | v
}

/// Which way the strengths `a` and `b` compare.
pub open spec fn compare(a: nat, b: nat) -> core::cmp::Ordering {
    if a < b {
        core::cmp::Ordering::Less
    } else if a == b {
        core::cmp::Ordering::Equal
    } else {
        core::cmp::Ordering::Greater
    }
}

/// The suit of the `i`-th block of thirteen cards of a fresh deck.
pub open spec fn suit_at(i: int) -> Card {
    if i == 0 {
        HEART
    } else if i == 1 {
        DIAMOND
    } else if i == 2 {
        CLUB
    } else {
        SPADE
    }
}

/// The rank of the `j`-th card of a block of a fresh deck: Ace, then Two to King.
pub open spec fn rank_at(j: int) -> Card {
    if j == 0 {
        ACE
    } else if j == 1 {
        TWO
    } else if j == 2 {
        THREE
    } else if j == 3 {
        FOUR
    } else if j == 4 {
        FIVE
    } else if j == 5 {
        SIX
    } else if j == 6 {
        SEVEN
    } else if j == 7 {
        EIGHT
    } else if j == 8 {
        NINE
    } else if j == 9 {
        TEN
    } else if j == 10 {
        JACK
    } else if j == 11 {
        QUEEN
    } else {
        KING
    }
}

/// The `k`-th card of a fresh, unshuffled deck.
pub open spec fn fresh_card(k: int) -> Card {
    suit_at(k / 13) | rank_at(k % 13)
}

proof fn lemma_compose(su: Card, v: Card)
    requires
        is_suit(su),
        is_rank(v),
    ensures
        (su | v) & SUIT_MASK == su,
        (su | v) & VALUE_MASK == v,
        valid_card(su | v),
{
    assert((su | v) & 0x3c000u32 == su && (su | v) & 0x3ffeu32 == v) by (bit_vector)
        requires
            su == 0x4000u32 || su == 0x8000u32 || su == 0x10000u32 || su == 0x20000u32,
            v == 0x2u32 || v == 0x4u32 || v == 0x8u32 || v == 0x10u32 || v == 0x20u32 || v
                == 0x40u32 || v == 0x80u32 || v == 0x100u32 || v == 0x200u32 || v == 0x400u32
                || v == 0x800u32 || v == 0x1000u32 || v == 0x2000u32,
    ;
}

/// Where a suit flag stands among the blocks of a fresh deck.
spec fn suit_pos(su: Card) -> int {
    if su == HEART {
        0
    } else if su == DIAMOND {
        1
    } else if su == CLUB {
        2
    } else {
        3
    }
}

/// Where a rank flag stands within a block of a fresh deck.
spec fn rank_pos(v: Card) -> int {
    if v == TWO {
        1
    } else if v == THREE {
        2
    } else if v == FOUR {
        3
    } else if v == FIVE {
        4
    } else if v == SIX {
        5
    } else if v == SEVEN {
        6
    } else if v == EIGHT {
        7
    } else if v == NINE {
        8
    } else if v == TEN {
        9
    } else if v == JACK {
        10
    } else if v == QUEEN {
        11
    } else if v == KING {
        12
    } else {
        0
    }
}


/// A fresh deck holds each valid card once, and nothing else.
proof fn lemma_fresh_deck()
    ensures
        Seq::new(52, |k: int| fresh_card(k)).no_duplicates(),
        forall|c: Card| Seq::new(52, |k: int| fresh_card(k)).contains(c) <==> valid_card(c),
{
    let f = Seq::new(52, |k: int| fresh_card(k));
    assert forall|k: int| 0 <= k < 52 implies valid_card(#[trigger] f[k]) && (f[k] & SUIT_MASK)
        == suit_at(k / 13) && (f[k] & VALUE_MASK) == rank_at(k % 13) by {
        lemma_compose(suit_at(k / 13), rank_at(k % 13));
    }
    assert forall|i: int, j: int| 0 <= i < 52 && 0 <= j < 52 && i != j implies f[i] != f[j] by {
        if f[i] == f[j] {
            assert(suit_at(i / 13) == suit_at(j / 13));
            assert(rank_at(i % 13) == rank_at(j % 13));
            assert(i == 13 * (i / 13) + i % 13);
            assert(j == 13 * (j / 13) + j % 13);
        }
    }
    assert forall|c: Card| valid_card(c) implies f.contains(c) by {
        let su = c & SUIT_MASK;
        let v = c & VALUE_MASK;
        let k = 13 * suit_pos(su) + rank_pos(v);
        assert(k / 13 == suit_pos(su) && k % 13 == rank_pos(v));
        assert(f[k] == c);
    }
}


/// Two lists hold cards of the same ranks, position by position.
pub open spec fn same_ranks(s: Seq<Card>, t: Seq<Card>) -> bool {
    &&& s.len() == t.len()
    &&& forall|i: int| 0 <= i < s.len() ==> (#[trigger] s[i] & VALUE_MASK) == t[i] & VALUE_MASK
}

proof fn lemma_same_rank_bit(a: Card, b: Card, i: int)
    requires
        valid_card(a),
        valid_card(b),
        a & VALUE_MASK == b & VALUE_MASK,
        0 <= i < 14,
    ensures
        has_bit(a, i) == has_bit(b, i),
{
    let k = i as u32;
    assert((a & (1u32 << k) != 0) == (b & (1u32 << k) != 0)) by (bit_vector)
        requires
            a == (a & 0x3c000u32) | (a & 0x3ffeu32),
            b == (b & 0x3c000u32) | (b & 0x3ffeu32),
            a & 0x3ffeu32 == b & 0x3ffeu32,
            k < 14,
    ;
}

pub proof fn lemma_same_ranks_counts(s: Seq<Card>, t: Seq<Card>, i: int)
    requires
        all_valid(s),
        all_valid(t),
        same_ranks(s, t),
        0 <= i < 14,
    ensures
        rank_count(s, i) == rank_count(t, i),
        rank_sum(s) == rank_sum(t),
    decreases s.len(),
{
    if s.len() > 0 {
        lemma_same_rank_bit(s.last(), t.last(), i);
        assert(s.last() & VALUE_MASK == t.last() & VALUE_MASK);
        lemma_same_ranks_counts(s.drop_last(), t.drop_last(), i);
    }
}

proof fn lemma_same_ranks_bonus(s: Seq<Card>, t: Seq<Card>, n: int)
    requires
        all_valid(s),
        all_valid(t),
        same_ranks(s, t),
        n <= 14,
    ensures
        group_bonus(s, n) == group_bonus(t, n),
    decreases n,
{
    if n > 0 {
        lemma_same_ranks_counts(s, t, n - 1);
        lemma_same_ranks_bonus(s, t, n - 1);
    }
}

/// Strength ignores suits: hands with the same ranks in the same places are
/// equally strong, so their stacks compare equal.
pub proof fn lemma_strength_ignores_suits(s: Seq<Card>, t: Seq<Card>)
    requires
        all_valid(s),
        all_valid(t),
        same_ranks(s, t),
    ensures
        strength(s) == strength(t),
        compare(strength(s), strength(t)) == core::cmp::Ordering::Equal,
{
    lemma_same_ranks_counts(s, t, 0);
    lemma_same_ranks_bonus(s, t, 14);
}

/// A stack of cards with a declared, advisory capacity: a deck, a board or a hand.
#[derive(Debug, Clone)]
pub struct CardStack {
    pub max_cards: usize,
    pub cards: Vec<Card>,
}

impl CardStack {
    pub fn new(max_cards: usize) -> (r: CardStack)
        ensures
            r.max_cards == max_cards,
            r.cards@ == Seq::<Card>::empty(),
    {
        CardStack { max_cards, cards: Vec::with_capacity(max_cards) }
    }

    pub fn get_hand(&self) -> (r: Hand)
        requires
            self.cards@.len() <= 255,
            all_ranked(self.cards@),
        ensures
            r == hand_of(self.cards@),
    {
        get_hand(&self.cards)
    }

    pub fn value(&self) -> (r: Card)
        requires
            strength(self.cards@) <= u32::MAX,
        ensures
            r == strength(self.cards@),
    {
        value(&self.cards)
    }

    /// Adds a card on top; the capacity is not enforced.
    pub fn push(&mut self, card: Card)
        ensures
            final(self).cards@ == old(self).cards@.push(card),
            final(self).max_cards == old(self).max_cards,
    {
        self.cards.push(card);
    }

    /// Takes the top card, if any.
    pub fn pop(&mut self) -> (r: Option<Card>)
        ensures
            old(self).cards@.len() == 0 ==> r.is_none() && final(self).cards@ == old(self).cards@,
            old(self).cards@.len() > 0 ==> r == Some(old(self).cards@.last())
                && final(self).cards@ == old(self).cards@.drop_last(),
            final(self).max_cards == old(self).max_cards,
    {
        self.cards.pop()
    }

    pub fn shuffle(&mut self)
        ensures
            final(self).cards@.to_multiset() == old(self).cards@.to_multiset(),
            final(self).max_cards == old(self).max_cards,
    {
        shuffle(&mut self.cards)
    }

    pub fn sort(&mut self)
        requires
            old(self).cards@.len() <= 255,
            all_ranked(old(self).cards@),
        ensures
            final(self).cards@ == canonical_order(old(self).cards@),
            final(self).max_cards == old(self).max_cards,
    {
        sort_cards(&mut self.cards)
    }

    /// A standard deck: each of the 52 valid cards once, already shuffled.
    pub fn standard_deck() -> (r: CardStack)
        ensures
            r.max_cards == 52,
            r.cards@.len() == 52,
            r.cards@.no_duplicates(),
            forall|c: Card| r.cards@.contains(c) <==> valid_card(c),
    {
        let mut deck = CardStack::new(52);
        let mut k: usize = 0;
        while k < 52
            invariant
                k <= 52,
                deck.max_cards == 52,
                deck.cards@ == Seq::new(k as nat, |i: int| fresh_card(i)),
            decreases 52 - k,
        {
            deck.push(fresh_deck_card(k));
            assert(deck.cards@ =~= Seq::new(k as nat + 1, |i: int| fresh_card(i)));
            k = k + 1;
        }
        let ghost fresh = deck.cards@;
        proof {
            lemma_fresh_deck();
            fresh.lemma_multiset_has_no_duplicates();
        }
        deck.shuffle();
        proof {
            broadcast use vstd::seq_lib::group_to_multiset_ensures;

            assert(deck.cards@.len() == 52) by {
                vstd::seq_lib::to_multiset_len(deck.cards@);
                vstd::seq_lib::to_multiset_len(fresh);
            }
            deck.cards@.lemma_multiset_has_no_duplicates_conv();
            assert forall|c: Card| deck.cards@.contains(c) <==> fresh.contains(c) by {
                vstd::seq_lib::to_multiset_contains(deck.cards@, c);
                vstd::seq_lib::to_multiset_contains(fresh, c);
            }
        }
        deck
    }

    /// Compares two hands by strength, whatever their suits.
    pub fn cmp(&self, other: &CardStack) -> (r: core::cmp::Ordering)
        requires
            strength(self.cards@) <= u32::MAX,
            strength(other.cards@) <= u32::MAX,
        ensures
            r == compare(strength(self.cards@), strength(other.cards@)),
    {
        let a = self.value();
        let b = other.value();
        if a < b {
            core::cmp::Ordering::Less
        } else if a == b {
            core::cmp::Ordering::Equal
        } else {
            core::cmp::Ordering::Greater
        }
    }

    /// Two hands are equal when they are equally strong, whatever their suits.
    /// Strength is only computed where it fits in a `u32`, so this is a method
    /// with that precondition rather than `==`; the card lists themselves
    /// compare with `==` on `cards`.
    pub fn eq(&self, other: &CardStack) -> (r: bool)
        requires
            strength(self.cards@) <= u32::MAX,
            strength(other.cards@) <= u32::MAX,
        ensures
            r == (strength(self.cards@) == strength(other.cards@)),
    {
        self.value() == other.value()
    }

    /// The cards as text, separated by ", ".
    pub fn to_string(&self) -> (r: String)
        ensures
            r@ == crate::card::cards_text(self.cards@),
    {
        crate::card::display_cards(&self.cards)
    }
}


/// A stack that holds exactly the given cards, with room for just as many.
impl From<Vec<Card>> for CardStack {
    fn from(cards: Vec<Card>) -> (r: CardStack) {
        CardStack { max_cards: cards.len(), cards }
    }
}

impl vstd::std_specs::convert::FromSpecImpl<Vec<Card>> for CardStack {
    open spec fn obeys_from_spec() -> bool {
        true
    }

    open spec fn from_spec(v: Vec<Card>) -> CardStack {
        CardStack { max_cards: v@.len() as usize, cards: v }
    }
}

} // verus!
