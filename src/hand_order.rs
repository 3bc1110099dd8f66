//! The category of a hand does not depend on the order in which its cards come.

use vstd::prelude::*;

use crate::card::{all_valid, has_bit, rank_count, Card, VALUE_MASK};
use crate::card_stack::{
    arrange, best_five, canonical_order, goes_before, group_size, hand_of, insert_in_order,
    lemma_same_ranks_counts, or_all, same_ranks, slots_holding,
};

verus! {

/// The sort key of a card in the hand `s`: its group size, then its rank.
spec fn key(s: Seq<Card>, c: Card) -> int {
    group_size(s, c) * 0x4000 + (c & VALUE_MASK) as int
}

/// Non-increasing keys.
spec fn sorted_desc(r: Seq<Card>, s: Seq<Card>) -> bool {
    forall|i: int, j: int| 0 <= i < j < r.len() ==> key(s, #[trigger] r[i]) >= key(s, #[trigger] r[j])
}

proof fn lemma_key(s: Seq<Card>, a: Card, b: Card)
    ensures
        goes_before(s, a, b) == (key(s, a) > key(s, b)),
        key(s, a) == key(s, b) ==> (a & VALUE_MASK) == (b & VALUE_MASK),
{
    assert(a & 0x3ffeu32 < 0x4000u32) by (bit_vector);
    assert(b & 0x3ffeu32 < 0x4000u32) by (bit_vector);
}

proof fn lemma_insert_props(t: Seq<Card>, x: Card, s: Seq<Card>)
    requires
        sorted_desc(t, s),
    ensures
        insert_in_order(t, x, s).to_multiset() == t.to_multiset().insert(x),
        sorted_desc(insert_in_order(t, x, s), s),
    decreases t.len(),
{
    broadcast use vstd::multiset::group_multiset_axioms;

    let r = insert_in_order(t, x, s);
    if t.len() == 0 {
        assert(r =~= t.push(x));
        vstd::seq_lib::to_multiset_build(t, x);
    } else {
        lemma_key(s, x, t[0]);
        if goes_before(s, x, t[0]) {
            assert(r =~= t.insert(0, x));
            vstd::seq_lib::to_multiset_insert(t, 0, x);
            assert forall|i: int, j: int| 0 <= i < j < r.len() implies key(s, #[trigger] r[i])
                >= key(s, #[trigger] r[j]) by {
                if i > 0 {
                    assert(r[i] == t[i - 1] && r[j] == t[j - 1]);
                } else if j > 1 {
                    assert(r[j] == t[j - 1]);
                    assert(key(s, t[0]) >= key(s, t[j - 1]));
                }
            }
        } else {
            let rest = t.drop_first();
            assert forall|i: int, j: int| 0 <= i < j < rest.len() implies key(s, #[trigger] rest[i])
                >= key(s, #[trigger] rest[j]) by {
                assert(rest[i] == t[i + 1] && rest[j] == t[j + 1]);
            }
            lemma_insert_props(rest, x, s);
            let rr = insert_in_order(rest, x, s);
            assert(r =~= rr.insert(0, t[0]));
            vstd::seq_lib::to_multiset_insert(rr, 0, t[0]);
            assert(t =~= rest.insert(0, t[0]));
            vstd::seq_lib::to_multiset_insert(rest, 0, t[0]);
            assert(r.to_multiset() =~= t.to_multiset().insert(x));
            assert forall|i: int, j: int| 0 <= i < j < r.len() implies key(s, #[trigger] r[i])
                >= key(s, #[trigger] r[j]) by {
                if i > 0 {
                    assert(r[i] == rr[i - 1] && r[j] == rr[j - 1]);
                } else {
                    let y = rr[j - 1];
                    assert(r[j] == y);
                    vstd::seq_lib::to_multiset_contains(rr, y);
                    assert(rr.contains(y));
                    if y != x {
                        vstd::seq_lib::to_multiset_contains(rest, y);
                        let k = choose|k: int| 0 <= k < rest.len() && rest[k] == y;
                        assert(rest[k] == t[k + 1]);
                    }
                }
            }
        }
    }
}

proof fn lemma_arrange_props(p: Seq<Card>, s: Seq<Card>)
    ensures
        arrange(p, s).to_multiset() == p.to_multiset(),
        sorted_desc(arrange(p, s), s),
    decreases p.len(),
{
    if p.len() == 0 {
        assert(arrange(p, s) =~= p);
    } else {
        lemma_arrange_props(p.drop_last(), s);
        lemma_insert_props(arrange(p.drop_last(), s), p.last(), s);
        assert(p =~= p.drop_last().push(p.last()));
        vstd::seq_lib::to_multiset_build(p.drop_last(), p.last());
    }
}

/// Two orderings of one multiset by non-increasing key have the same keys.
proof fn lemma_unique_keys(r1: Seq<Card>, r2: Seq<Card>, s: Seq<Card>)
    requires
        sorted_desc(r1, s),
        sorted_desc(r2, s),
        r1.to_multiset() == r2.to_multiset(),
    ensures
        r1.len() == r2.len(),
        forall|i: int| 0 <= i < r1.len() ==> key(s, #[trigger] r1[i]) == key(s, r2[i]),
    decreases r1.len(),
{
    broadcast use vstd::multiset::group_multiset_axioms;

    vstd::seq_lib::to_multiset_len(r1);
    vstd::seq_lib::to_multiset_len(r2);
    if r1.len() > 0 {
        vstd::seq_lib::to_multiset_contains(r2, r1[0]);
        vstd::seq_lib::to_multiset_contains(r1, r1[0]);
        assert(r1.contains(r1[0]));
        let j = choose|j: int| 0 <= j < r2.len() && r2[j] == r1[0];
        vstd::seq_lib::to_multiset_contains(r1, r2[0]);
        vstd::seq_lib::to_multiset_contains(r2, r2[0]);
        assert(r2.contains(r2[0]));
        let k = choose|k: int| 0 <= k < r1.len() && r1[k] == r2[0];
        if j > 0 {
            assert(key(s, r2[0]) >= key(s, r2[j]));
        }
        if k > 0 {
            assert(key(s, r1[0]) >= key(s, r1[k]));
        }
        let m = key(s, r1[0]);
        assert(key(s, r2[0]) == m);
        let a = r1.remove(0);
        let b = r2.remove(j);
        vstd::seq_lib::to_multiset_remove(r1, 0);
        vstd::seq_lib::to_multiset_remove(r2, j);
        assert forall|x: int, y: int| 0 <= x < y < a.len() implies key(s, #[trigger] a[x]) >= key(
            s,
            #[trigger] a[y],
        ) by {
            assert(a[x] == r1[x + 1] && a[y] == r1[y + 1]);
        }
        assert forall|x: int, y: int| 0 <= x < y < b.len() implies key(s, #[trigger] b[x]) >= key(
            s,
            #[trigger] b[y],
        ) by {
            let x2 = if x < j {
                x
            } else {
                x + 1
            };
            let y2 = if y < j {
                y
            } else {
                y + 1
            };
            assert(b[x] == r2[x2] && b[y] == r2[y2]);
        }
        lemma_unique_keys(a, b, s);
        assert forall|i: int| 0 <= i < r1.len() implies key(s, #[trigger] r1[i]) == key(s, r2[i]) by {
            if i > 0 {
                assert(r1[i] == a[i - 1]);
                if i - 1 < j {
                    assert(b[i - 1] == r2[i - 1]);
                    if i - 1 > 0 {
                        assert(key(s, r2[0]) >= key(s, r2[i - 1]));
                    }
                    assert(key(s, r2[i - 1]) >= key(s, r2[j]));
                    if i < j {
                        assert(key(s, r2[i]) >= key(s, r2[j]));
                    }
                    assert(key(s, r2[0]) >= key(s, r2[i]));
                } else {
                    assert(b[i - 1] == r2[i]);
                }
            }
        }
    }
}

proof fn lemma_or_all_remove(t: Seq<Card>, j: int)
    requires
        0 <= j < t.len(),
    ensures
        or_all(t) == or_all(t.remove(j)) | t[j],
        forall|i: int| #[trigger] rank_count(t, i) == rank_count(t.remove(j), i) + if has_bit(t[j], i) {
            1int
        } else {
            0int
        },
    decreases t.len(),
{
    if j == t.len() - 1 {
        assert(t.remove(j) =~= t.drop_last());
        assert forall|i: int| #[trigger] rank_count(t, i) == rank_count(t.remove(j), i) + if has_bit(
            t[j],
            i,
        ) {
            1int
        } else {
            0int
        } by {
            assert(rank_count(t, i) == rank_count(t.drop_last(), i) + if has_bit(t.last(), i) {
                1nat
            } else {
                0nat
            });
        }
    } else {
        let u = t.drop_last();
        lemma_or_all_remove(u, j);
        assert(t.remove(j).drop_last() =~= u.remove(j));
        assert(t.remove(j).last() == t.last());
        let a = or_all(u.remove(j));
        let b = t[j];
        let c = t.last();
        assert((a | b) | c == (a | c) | b) by (bit_vector);
        assert forall|i: int| #[trigger] rank_count(t, i) == rank_count(t.remove(j), i) + if has_bit(
            t[j],
            i,
        ) {
            1int
        } else {
            0int
        } by {
            assert(rank_count(u, i) == rank_count(u.remove(j), i) + if has_bit(u[j], i) {
                1int
            } else {
                0int
            });
            assert(rank_count(t.remove(j), i) == rank_count(t.remove(j).drop_last(), i) + if has_bit(
                t.remove(j).last(),
                i,
            ) {
                1nat
            } else {
                0nat
            });
        }
    }
}

/// Rearranging a hand keeps the union of its cards and its rank counts.
proof fn lemma_perm_counts(s: Seq<Card>, t: Seq<Card>)
    requires
        s.to_multiset() == t.to_multiset(),
    ensures
        or_all(s) == or_all(t),
        forall|i: int| #[trigger] rank_count(s, i) == rank_count(t, i),
    decreases s.len(),
{
    broadcast use vstd::multiset::group_multiset_axioms;

    vstd::seq_lib::to_multiset_len(s);
    vstd::seq_lib::to_multiset_len(t);
    if s.len() == 0 {
        assert(s =~= t);
    } else {
        let x = s.last();
        vstd::seq_lib::to_multiset_contains(s, x);
        vstd::seq_lib::to_multiset_contains(t, x);
        assert(s.contains(x)) by {
            assert(s[s.len() - 1] == x);
        }
        let j = choose|j: int| 0 <= j < t.len() && t[j] == x;
        let u = t.remove(j);
        vstd::seq_lib::to_multiset_remove(t, j);
        assert(s =~= s.drop_last().push(x));
        vstd::seq_lib::to_multiset_build(s.drop_last(), x);
        assert(s.drop_last().to_multiset() =~= u.to_multiset());
        lemma_perm_counts(s.drop_last(), u);
        lemma_or_all_remove(t, j);
        assert forall|i: int| #[trigger] rank_count(s, i) == rank_count(t, i) by {
            assert(rank_count(s.drop_last(), i) == rank_count(u, i));
            assert(rank_count(t, i) == rank_count(u, i) + if has_bit(t[j], i) {
                1int
            } else {
                0int
            });
        }
    }
}

proof fn lemma_slots_same(a: Seq<Card>, b: Seq<Card>, k: nat, n: int)
    requires
        n <= 14,
        forall|i: int| 0 <= i < 14 ==> #[trigger] rank_count(a, i) == rank_count(b, i),
    ensures
        slots_holding(a, k, n) == slots_holding(b, k, n),
    decreases n,
{
    if n > 0 {
        lemma_slots_same(a, b, k, n - 1);
    }
}

proof fn lemma_valid_in_perm(r: Seq<Card>, s: Seq<Card>)
    requires
        all_valid(s),
        r.to_multiset() == s.to_multiset(),
    ensures
        all_valid(r),
{
    assert forall|i: int| 0 <= i < r.len() implies crate::card::valid_card(#[trigger] r[i]) by {
        vstd::seq_lib::to_multiset_contains(r, r[i]);
        vstd::seq_lib::to_multiset_contains(s, r[i]);
        assert(r.contains(r[i]));
        let k = choose|k: int| 0 <= k < s.len() && s[k] == r[i];
    }
}

/// A hand's category does not depend on the order of its cards.
pub proof fn lemma_hand_ignores_order(s: Seq<Card>, t: Seq<Card>)
    requires
        all_valid(s),
        s.to_multiset() == t.to_multiset(),
    ensures
        hand_of(s) == hand_of(t),
{
    lemma_perm_counts(s, t);
    let r1 = canonical_order(s);
    let r2 = canonical_order(t);
    lemma_arrange_props(s, s);
    lemma_arrange_props(t, t);
    assert forall|c: Card| #[trigger] key(t, c) == key(s, c) by {
        assert(rank_count(t, crate::card_stack::rank_index(c & VALUE_MASK)) == rank_count(
            s,
            crate::card_stack::rank_index(c & VALUE_MASK),
        ));
    }
    assert forall|i: int, j: int| 0 <= i < j < r2.len() implies key(s, #[trigger] r2[i]) >= key(
        s,
        #[trigger] r2[j],
    ) by {
        assert(key(t, r2[i]) >= key(t, r2[j]));
    }
    lemma_unique_keys(r1, r2, s);
    lemma_valid_in_perm(r1, s);
    lemma_valid_in_perm(t, s);
    lemma_valid_in_perm(r2, t);
    let a = best_five(s);
    let b = best_five(t);
    assert forall|i: int| 0 <= i < a.len() implies (#[trigger] a[i] & VALUE_MASK) == b[i]
        & VALUE_MASK by {
        lemma_key(s, r1[i], r2[i]);
    }
    assert(all_valid(a));
    assert(all_valid(b));
    assert forall|i: int| 0 <= i < 14 implies #[trigger] rank_count(a, i) == rank_count(b, i) by {
        lemma_same_ranks_counts(a, b, i);
    }
    lemma_slots_same(a, b, 4, 14);
    lemma_slots_same(a, b, 3, 14);
    lemma_slots_same(a, b, 2, 14);
}

} // verus!
