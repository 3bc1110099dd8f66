//! Cards as bit patterns: one rank flag united with one suit flag.

use vstd::prelude::*;
use vstd::string::*;

verus! {

/// A card: the union of exactly one rank flag and exactly one suit flag.
pub type Card = u32;

/// The hidden card shown in place of another player's hole cards.
pub const CONCEALED: Card = 0;

/// The rank flags, Two to Ace, are bits 1 to 13; the suit flags are bits 14 to 17.
pub const TWO: Card = 0x2;
pub const THREE: Card = 0x4;
pub const FOUR: Card = 0x8;
pub const FIVE: Card = 0x10;
pub const SIX: Card = 0x20;
pub const SEVEN: Card = 0x40;
pub const EIGHT: Card = 0x80;
pub const NINE: Card = 0x100;
pub const TEN: Card = 0x200;
pub const JACK: Card = 0x400;
pub const QUEEN: Card = 0x800;
pub const KING: Card = 0x1000;
pub const ACE: Card = 0x2000;
pub const HEART: Card = 0x4000;
pub const DIAMOND: Card = 0x8000;
pub const CLUB: Card = 0x10000;
pub const SPADE: Card = 0x20000;

pub const SUIT_MASK: Card = 0x3c000;
pub const VALUE_MASK: Card = 0x3ffe;

/// The thirteen rank flags.
pub open spec fn is_rank(v: Card) -> bool {
    v == TWO || v == THREE || v == FOUR || v == FIVE || v == SIX || v == SEVEN || v == EIGHT
        || v == NINE || v == TEN || v == JACK || v == QUEEN || v == KING || v == ACE
}

/// The four suit flags.
pub open spec fn is_suit(s: Card) -> bool {
    s == HEART || s == DIAMOND || s == CLUB || s == SPADE
}

/// A well-formed card: one suit flag, one rank flag, and no other bit.
pub open spec fn valid_card(c: Card) -> bool {
    is_suit(c & SUIT_MASK) && is_rank(c & VALUE_MASK) && c == (c & SUIT_MASK) | (c & VALUE_MASK)
}

pub open spec fn all_valid(s: Seq<Card>) -> bool {
    forall|i: int| 0 <= i < s.len() ==> valid_card(#[trigger] s[i])
}

/// Whether bit `i` of `c` is set.
pub open spec fn has_bit(c: Card, i: int) -> bool {
    c & (1u32 << (i as u32)) != 0
}

/// How many cards of `s` have bit `i` set: for `1 <= i <= 13`, how many
/// cards of `s` have the rank whose flag is `1 << i`.
pub open spec fn rank_count(s: Seq<Card>, i: int) -> nat
    decreases s.len(),
{
    if s.len() == 0 {
        0
    } else {
        rank_count(s.drop_last(), i) + if has_bit(s.last(), i) {
            1nat
        } else {
            0nat
        }
    }
}

pub open spec fn rank_text(v: Card) -> Seq<char> {
    if v == ACE {
        seq!['A']
    } else if v == TWO {
        seq!['2']
    } else if v == THREE {
        seq!['3']
    } else if v == FOUR {
        seq!['4']
    } else if v == FIVE {
        seq!['5']
    } else if v == SIX {
        seq!['6']
    } else if v == SEVEN {
        seq!['7']
    } else if v == EIGHT {
        seq!['8']
    } else if v == NINE {
        seq!['9']
    } else if v == TEN {
        seq!['1', '0']
    } else if v == JACK {
        seq!['J']
    } else if v == QUEEN {
        seq!['Q']
    } else if v == KING {
        seq!['K']
    } else {
        unknown_text()
    }
}

pub open spec fn suit_text(s: Card) -> Seq<char> {
    if s == HEART {
        seq!['H']
    } else if s == DIAMOND {
        seq!['D']
    } else if s == CLUB {
        seq!['C']
    } else if s == SPADE {
        seq!['S']
    } else {
        unknown_text()
    }
}

pub open spec fn unknown_text() -> Seq<char> {
    seq!['U', 'n', 'k', 'n', 'o', 'w', 'n']
}

/// The text of a card: its rank, then its suit.
pub open spec fn card_text(c: Card) -> Seq<char> {
    rank_text(c & VALUE_MASK) + suit_text(c & SUIT_MASK)
}

/// The texts of the cards, joined by ", ".
pub open spec fn cards_text(s: Seq<Card>) -> Seq<char>
    decreases s.len(),
{
    if s.len() == 0 {
        Seq::empty()
    } else if s.len() == 1 {
        card_text(s[0])
    } else {
        cards_text(s.drop_last()) + seq![',', ' '] + card_text(s.last())
    }
}

pub fn get_suit(card: Card) -> (r: Card)
    ensures
        r == card & SUIT_MASK,
{
    card & SUIT_MASK
}

pub fn get_value(card: Card) -> (r: Card)
    ensures
        r == card & VALUE_MASK,
{
    card & VALUE_MASK
}

/// Suit and rank split a valid card into two disjoint halves that make it up.
pub proof fn lemma_suit_value_partition(c: Card)
    requires
        valid_card(c),
    ensures
        (c & SUIT_MASK) & (c & VALUE_MASK) == 0,
        (c & SUIT_MASK) | (c & VALUE_MASK) == c,
{
    assert((c & 0x3c000u32) & (c & 0x3ffeu32) == 0) by (bit_vector);
}

fn rank_str(v: Card) -> (r: &'static str)
    ensures
        r@ == rank_text(v),
{
    if v == ACE {
        proof { reveal_strlit("A"); }
        "A"
    } else if v == TWO {
        proof { reveal_strlit("2"); }
        "2"
    } else if v == THREE {
        proof { reveal_strlit("3"); }
        "3"
    } else if v == FOUR {
        proof { reveal_strlit("4"); }
        "4"
    } else if v == FIVE {
        proof { reveal_strlit("5"); }
        "5"
    } else if v == SIX {
        proof { reveal_strlit("6"); }
        "6"
    } else if v == SEVEN {
        proof { reveal_strlit("7"); }
        "7"
    } else if v == EIGHT {
        proof { reveal_strlit("8"); }
        "8"
    } else if v == NINE {
        proof { reveal_strlit("9"); }
        "9"
    } else if v == TEN {
        proof { reveal_strlit("10"); }
        "10"
    } else if v == JACK {
        proof { reveal_strlit("J"); }
        "J"
    } else if v == QUEEN {
        proof { reveal_strlit("Q"); }
        "Q"
    } else if v == KING {
        proof { reveal_strlit("K"); }
        "K"
    } else {
        proof { reveal_strlit("Unknown"); }
        "Unknown"
    }
}

fn suit_str(s: Card) -> (r: &'static str)
    ensures
        r@ == suit_text(s),
{
    if s == HEART {
        proof { reveal_strlit("H"); }
        "H"
    } else if s == DIAMOND {
        proof { reveal_strlit("D"); }
        "D"
    } else if s == CLUB {
        proof { reveal_strlit("C"); }
        "C"
    } else if s == SPADE {
        proof { reveal_strlit("S"); }
        "S"
    } else {
        proof { reveal_strlit("Unknown"); }
        "Unknown"
    }
}

/// The card as text, such as "AH" or "10S"; an unknown rank or suit reads "Unknown".
pub fn display_card(card: Card) -> (r: String)
    ensures
        r@ == card_text(card),
{
    let mut text = String::from_str(rank_str(get_value(card)));
    text.append(suit_str(get_suit(card)));
    text
}

/// The cards as text, separated by ", ".
pub fn display_cards(cards: &Vec<Card>) -> (r: String)
    ensures
        r@ == cards_text(cards@),
{
    let mut text = String::new();
    let mut i: usize = 0;
    while i < cards.len()
        invariant
            i <= cards@.len(),
            text@ == cards_text(cards@.take(i as int)),
        decreases cards@.len() - i,
    {
        proof {
            reveal_strlit(", ");
            let t = cards@.take(i as int + 1);
            assert(t.drop_last() =~= cards@.take(i as int));
        }
        if i > 0 {
            text.append(", ");
        }
        let piece = display_card(cards[i]);
        text.append(piece.as_str());
        i = i + 1;
    }
    assert(cards@.take(cards@.len() as int) =~= cards@);
    text
}

/// The rank-count table: slot `i` holds how many cards have bit `i` set, so
/// slots 1 to 13 count the Twos up to the Aces and slot 0 stays empty for
/// valid cards.
pub fn count_cards(cards: &Vec<Card>) -> (r: [u8; 14])
    requires
        cards@.len() <= 255,
    ensures
        forall|i: int| 0 <= i < 14 ==> r@[i] == rank_count(cards@, i),
{
    let mut counts = [0u8; 14];
    let mut idx: u32 = 0;
    while idx < 14
        invariant
            idx <= 14,
            cards@.len() <= 255,
            forall|k: int| 0 <= k < idx ==> counts@[k] == rank_count(cards@, k),
        decreases 14 - idx,
    {
        let mut n: u8 = 0;
        let mut j: usize = 0;
        while j < cards.len()
            invariant
                j <= cards@.len(),
                idx < 14,
                cards@.len() <= 255,
                n == rank_count(cards@.take(j as int), idx as int),
                n <= j,
            decreases cards@.len() - j,
        {
            proof {
                assert(cards@.take(j as int + 1).drop_last() =~= cards@.take(j as int));
            }
            if cards[j] & (1u32 << idx) != 0 {
                n = n + 1;
            }
            j = j + 1;
        }
        assert(cards@.take(cards@.len() as int) =~= cards@);
        counts[idx as usize] = n;
        idx = idx + 1;
    }
    counts
}


/// The sum of the first `n` slots of the rank-count table of `s`.
pub open spec fn counts_total(s: Seq<Card>, n: int) -> nat
    decreases n,
{
    if n <= 0 {
        0
    } else {
        counts_total(s, n - 1) + rank_count(s, n - 1)
    }
}

/// How many of the bits below `n` are set in `c`.
spec fn bits_below(c: Card, n: int) -> nat
    decreases n,
{
    if n <= 0 {
        0
    } else {
        bits_below(c, n - 1) + if has_bit(c, n - 1) {
            1nat
        } else {
            0nat
        }
    }
}

proof fn lemma_counts_total_step(s: Seq<Card>, n: int)
    requires
        s.len() > 0,
    ensures
        counts_total(s, n) == counts_total(s.drop_last(), n) + bits_below(s.last(), n),
    decreases n,
{
    if n > 0 {
        lemma_counts_total_step(s, n - 1);
    }
}

proof fn lemma_one_rank_bit(c: Card)
    requires
        valid_card(c),
    ensures
        bits_below(c, 14) == 1,
{
    reveal_with_fuel(bits_below, 15);
    assert(c & 1u32 == 0 && (c & 0x3ffeu32 == 0x2u32 || c & 0x3ffeu32 == 0x4u32 || c & 0x3ffeu32
        == 0x8u32 || c & 0x3ffeu32 == 0x10u32 || c & 0x3ffeu32 == 0x20u32 || c & 0x3ffeu32
        == 0x40u32 || c & 0x3ffeu32 == 0x80u32 || c & 0x3ffeu32 == 0x100u32 || c & 0x3ffeu32
        == 0x200u32 || c & 0x3ffeu32 == 0x400u32 || c & 0x3ffeu32 == 0x800u32 || c & 0x3ffeu32
        == 0x1000u32 || c & 0x3ffeu32 == 0x2000u32)) by (bit_vector)
        requires
            (c & 0x3c000u32 == 0x4000u32 || c & 0x3c000u32 == 0x8000u32 || c & 0x3c000u32
                == 0x10000u32 || c & 0x3c000u32 == 0x20000u32),
            (c & 0x3ffeu32 == 0x2u32 || c & 0x3ffeu32 == 0x4u32 || c & 0x3ffeu32 == 0x8u32 || c
                & 0x3ffeu32 == 0x10u32 || c & 0x3ffeu32 == 0x20u32 || c & 0x3ffeu32 == 0x40u32
                || c & 0x3ffeu32 == 0x80u32 || c & 0x3ffeu32 == 0x100u32 || c & 0x3ffeu32
                == 0x200u32 || c & 0x3ffeu32 == 0x400u32 || c & 0x3ffeu32 == 0x800u32 || c
                & 0x3ffeu32 == 0x1000u32 || c & 0x3ffeu32 == 0x2000u32),
            c == (c & 0x3c000u32) | (c & 0x3ffeu32),
    ;
    assert forall|i: u32| i < 14 implies (#[trigger] (c & (1u32 << i)) != 0) == ((c & 0x3ffeu32)
        == (1u32 << i)) by {
        assert((c & (1u32 << i) != 0) == ((c & 0x3ffeu32) == (1u32 << i))) by (bit_vector)
            requires
                i < 14,
                c & 1u32 == 0,
                (c & 0x3ffeu32 == 0x2u32 || c & 0x3ffeu32 == 0x4u32 || c & 0x3ffeu32 == 0x8u32
                    || c & 0x3ffeu32 == 0x10u32 || c & 0x3ffeu32 == 0x20u32 || c & 0x3ffeu32
                    == 0x40u32 || c & 0x3ffeu32 == 0x80u32 || c & 0x3ffeu32 == 0x100u32 || c
                    & 0x3ffeu32 == 0x200u32 || c & 0x3ffeu32 == 0x400u32 || c & 0x3ffeu32
                    == 0x800u32 || c & 0x3ffeu32 == 0x1000u32 || c & 0x3ffeu32 == 0x2000u32),
        ;
    }
    assert((1u32 << 0u32) == 1 && (1u32 << 1u32) == 2 && (1u32 << 2u32) == 4 && (1u32 << 3u32) == 8
        && (1u32 << 4u32) == 16 && (1u32 << 5u32) == 32 && (1u32 << 6u32) == 64 && (1u32 << 7u32)
        == 128 && (1u32 << 8u32) == 256 && (1u32 << 9u32) == 512 && (1u32 << 10u32) == 1024 && (
    1u32 << 11u32) == 2048 && (1u32 << 12u32) == 4096 && (1u32 << 13u32) == 8192) by (bit_vector);
    assert(has_bit(c, 0) == ((c & 0x3ffeu32) == (1u32 << 0u32)));
    assert(has_bit(c, 1) == ((c & 0x3ffeu32) == (1u32 << 1u32)));
    assert(has_bit(c, 2) == ((c & 0x3ffeu32) == (1u32 << 2u32)));
    assert(has_bit(c, 3) == ((c & 0x3ffeu32) == (1u32 << 3u32)));
    assert(has_bit(c, 4) == ((c & 0x3ffeu32) == (1u32 << 4u32)));
    assert(has_bit(c, 5) == ((c & 0x3ffeu32) == (1u32 << 5u32)));
    assert(has_bit(c, 6) == ((c & 0x3ffeu32) == (1u32 << 6u32)));
    assert(has_bit(c, 7) == ((c & 0x3ffeu32) == (1u32 << 7u32)));
    assert(has_bit(c, 8) == ((c & 0x3ffeu32) == (1u32 << 8u32)));
    assert(has_bit(c, 9) == ((c & 0x3ffeu32) == (1u32 << 9u32)));
    assert(has_bit(c, 10) == ((c & 0x3ffeu32) == (1u32 << 10u32)));
    assert(has_bit(c, 11) == ((c & 0x3ffeu32) == (1u32 << 11u32)));
    assert(has_bit(c, 12) == ((c & 0x3ffeu32) == (1u32 << 12u32)));
    assert(has_bit(c, 13) == ((c & 0x3ffeu32) == (1u32 << 13u32)));
}

/// The rank-count table of a list of valid cards sums to its length.
pub proof fn lemma_counts_sum_to_length(s: Seq<Card>)
    requires
        all_valid(s),
    ensures
        counts_total(s, 14) == s.len(),
    decreases s.len(),
{
    if s.len() == 0 {
        reveal_with_fuel(counts_total, 15);
    } else {
        lemma_counts_total_step(s, 14);
        lemma_one_rank_bit(s.last());
        lemma_counts_sum_to_length(s.drop_last());
    }
}

} // verus!
