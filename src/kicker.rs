use vstd::prelude::*;

use crate::card::{
    all_valid, card_type_of_rank, is_rank, lemma_card_type_of_own_rank, Card, HIGHEST_RANK,
    LOWEST_RANK,
};
use crate::hand::{
    evaluate_spec, group_key, groups_of, hand_le, lemma_rank_count_push, lex_cmp,
    rank_count, ranks_above, ranks_with_count, ranks_with_count_above, repeat_rank, sorted_ranks,
    HandRank,
};

verus! {

broadcast use {vstd::seq_lib::group_to_multiset_ensures, vstd::multiset::group_multiset_axioms};

/// The categories that hold a kicker: a card whose rank occurs once and that
/// belongs to no straight or flush.
pub open spec fn has_kickers(category: HandRank) -> bool {
    ||| category == HandRank::HighCard
    ||| category == HandRank::Pair
    ||| category == HandRank::TwoPair
    ||| category == HandRank::ThreeOfAKind
    ||| category == HandRank::FourOfAKind
}

/// The strength that the rank groups alone give a hand, without straights
/// and flushes.
pub open spec fn grouped_strength(hand: Seq<Card>) -> int {
    if groups_of(hand, 4) == 1 {
        7
    } else if groups_of(hand, 3) == 1 && groups_of(hand, 2) == 1 {
        6
    } else if groups_of(hand, 3) == 1 {
        3
    } else if groups_of(hand, 2) == 2 {
        2
    } else if groups_of(hand, 2) == 1 {
        1
    } else {
        0
    }
}

/// The sum of the counts of the ranks above `r`.
pub open spec fn cards_above(hand: Seq<Card>, r: int) -> nat
    decreases HIGHEST_RANK - r,
{
    if r >= HIGHEST_RANK {
        0
    } else {
        cards_above(hand, r + 1) + rank_count(hand, r + 1)
    }
}

/// Replacing card `i` by a valid card of another rank moves one card from the
/// old rank's count to the new one's.
proof fn lemma_rank_count_update(hand: Seq<Card>, i: int, c: Card)
    requires
        0 <= i < hand.len(),
        c.is_valid(),
        hand[i].is_valid(),
        c.spec_rank() != hand[i].spec_rank(),
    ensures
        forall|q: int|
            is_rank(q) ==> #[trigger] rank_count(hand.update(i, c), q) == rank_count(hand, q) - (
            if q == hand[i].spec_rank() {
                1int
            } else {
                0int
            }) + (if q == c.spec_rank() {
                1int
            } else {
                0int
            }),
{
    let x = hand[i];
    let m = hand.to_multiset();
    vstd::seq_lib::to_multiset_update(hand, i, c);
    vstd::seq_lib::to_multiset_contains(hand, x);
    assert(hand.contains(x)) by {
        assert(hand[i] == x);
    }
    lemma_card_type_of_own_rank(c.card_type);
    lemma_card_type_of_own_rank(x.card_type);
    assert forall|q: int| is_rank(q) implies #[trigger] rank_count(hand.update(i, c), q)
        == rank_count(hand, q) - (if q == x.spec_rank() {
        1int
    } else {
        0int
    }) + (if q == c.spec_rank() {
        1int
    } else {
        0int
    }) by {
        assert(card_type_of_rank(q).spec_rank() == q);
        assert(q == c.spec_rank() <==> card_type_of_rank(q) == c.card_type);
        assert(q == x.spec_rank() <==> card_type_of_rank(q) == x.card_type);
    }
}

/// The counts of the ranks of a valid hand add up to its size.
proof fn lemma_cards_above_is_size(hand: Seq<Card>)
    requires
        all_valid(hand),
    ensures
        cards_above(hand, LOWEST_RANK - 1) == hand.len(),
    decreases hand.len(),
{
    if hand.len() > 0 {
        let p = hand.drop_last();
        let c = hand.last();
        assert(hand == p.push(c));
        assert(c.is_valid());
        assert(all_valid(p)) by {
            assert forall|k: int| 0 <= k < p.len() implies #[trigger] p[k].is_valid() by {
                assert(hand[k].is_valid());
            }
        }
        lemma_cards_above_is_size(p);
        lemma_rank_count_push(p, c);
        lemma_cards_above_push(p, c, LOWEST_RANK - 1);
        lemma_card_type_of_own_rank(c.card_type);
    } else {
        lemma_cards_above_empty(hand, LOWEST_RANK - 1);
    }
}

proof fn lemma_cards_above_empty(hand: Seq<Card>, r: int)
    requires
        hand.len() == 0,
    ensures
        cards_above(hand, r) == 0,
    decreases HIGHEST_RANK - r,
{
    if r < HIGHEST_RANK {
        lemma_cards_above_empty(hand, r + 1);
        assert(hand.to_multiset() =~= vstd::multiset::Multiset::empty());
    }
}

proof fn lemma_cards_above_push(hand: Seq<Card>, c: Card, r: int)
    requires
        c.is_valid(),
        LOWEST_RANK - 1 <= r,
    ensures
        cards_above(hand.push(c), r) == cards_above(hand, r) + if c.spec_rank() > r {
            1nat
        } else {
            0nat
        },
    decreases HIGHEST_RANK - r,
{
    lemma_card_type_of_own_rank(c.card_type);
    if r < HIGHEST_RANK {
        lemma_cards_above_push(hand, c, r + 1);
        lemma_rank_count_push(hand, c);
        assert(is_rank(r + 1));
    }
}

/// The cards above `r` are at least those that fall in groups of one to four.
proof fn lemma_cards_above_bounds_groups(hand: Seq<Card>, r: int)
    ensures
        cards_above(hand, r) >= ranks_with_count_above(hand, 1, r).len() + 2
            * ranks_with_count_above(hand, 2, r).len() + 3 * ranks_with_count_above(hand, 3, r).len()
            + 4 * ranks_with_count_above(hand, 4, r).len(),
    decreases HIGHEST_RANK - r,
{
    if r < HIGHEST_RANK {
        lemma_cards_above_bounds_groups(hand, r + 1);
    }
}

/// In a valid five-card hand, the groups hold at most five cards.
proof fn lemma_groups_fit_in_hand(hand: Seq<Card>)
    requires
        hand.len() == 5,
        all_valid(hand),
    ensures
        groups_of(hand, 1) + 2 * groups_of(hand, 2) + 3 * groups_of(hand, 3) + 4 * groups_of(hand, 4)
            <= 5,
{
    lemma_cards_above_is_size(hand);
    lemma_cards_above_bounds_groups(hand, LOWEST_RANK - 1);
}

/// When the counts of two hands differ at the ranks `a` and `b` only, so do
/// the numbers of groups of each size.
proof fn lemma_groups_change(h1: Seq<Card>, h2: Seq<Card>, n: nat, a: int, b: int, r: int)
    requires
        LOWEST_RANK - 1 <= r,
        a != b,
        forall|q: int| is_rank(q) && q != a && q != b ==> #[trigger] rank_count(h1, q) == rank_count(h2, q),
    ensures
        ranks_with_count_above(h2, n, r).len() as int == ranks_with_count_above(h1, n, r).len() as int
            + (if a > r && a <= HIGHEST_RANK {
            (if rank_count(h2, a) == n {
                1int
            } else {
                0int
            }) - (if rank_count(h1, a) == n {
                1int
            } else {
                0int
            })
        } else {
            0int
        }) + (if b > r && b <= HIGHEST_RANK {
            (if rank_count(h2, b) == n {
                1int
            } else {
                0int
            }) - (if rank_count(h1, b) == n {
                1int
            } else {
                0int
            })
        } else {
            0int
        }),
    decreases HIGHEST_RANK - r,
{
    if r < HIGHEST_RANK {
        lemma_groups_change(h1, h2, n, a, b, r + 1);
        if r + 1 != a && r + 1 != b && r + 1 >= LOWEST_RANK {
            assert(rank_count(h1, r + 1) == rank_count(h2, r + 1));
        }
    }
}

/// Hands that agree, at every rank above `r`, on whether its count is `n`
/// list the same ranks of count `n` above `r`.
proof fn lemma_same_groups(h1: Seq<Card>, h2: Seq<Card>, n: nat, r: int)
    requires
        LOWEST_RANK - 1 <= r,
        forall|q: int| is_rank(q) && q > r ==> (#[trigger] rank_count(h1, q) == n) == (rank_count(h2, q) == n),
    ensures
        ranks_with_count_above(h1, n, r) == ranks_with_count_above(h2, n, r),
    decreases HIGHEST_RANK - r,
{
    if r < HIGHEST_RANK {
        lemma_same_groups(h1, h2, n, r + 1);
        if r + 1 >= LOWEST_RANK {
            assert(is_rank(r + 1));
        }
    }
}

/// Hands that agree on the counts of the ranks above `r` list the same ranks
/// above `r`.
proof fn lemma_same_ranks_above(h1: Seq<Card>, h2: Seq<Card>, r: int)
    requires
        LOWEST_RANK - 1 <= r,
        forall|q: int| is_rank(q) && q > r ==> #[trigger] rank_count(h1, q) == rank_count(h2, q),
    ensures
        ranks_above(h1, r) == ranks_above(h2, r),
    decreases HIGHEST_RANK - r,
{
    if r < HIGHEST_RANK {
        lemma_same_ranks_above(h1, h2, r + 1);
        assert(is_rank(r + 1));
    }
}

/// The ranks of count `n` above `r2` start the list of those above `r`, and
/// the rest are at most `r2`.
proof fn lemma_groups_extend(hand: Seq<Card>, n: nat, r: int, r2: int)
    requires
        LOWEST_RANK - 1 <= r <= r2 <= HIGHEST_RANK,
    ensures
        ranks_with_count_above(hand, n, r).len() >= ranks_with_count_above(hand, n, r2).len(),
        ranks_with_count_above(hand, n, r).subrange(0, ranks_with_count_above(hand, n, r2).len() as int)
            == ranks_with_count_above(hand, n, r2),
        forall|j: int|
            ranks_with_count_above(hand, n, r2).len() <= j < ranks_with_count_above(hand, n, r).len()
                ==> #[trigger] ranks_with_count_above(hand, n, r)[j] <= r2,
    decreases r2 - r,
{
    if r < r2 {
        lemma_groups_extend(hand, n, r + 1, r2);
        let a = ranks_with_count_above(hand, n, r + 1);
        let b = ranks_with_count_above(hand, n, r);
        assert(b.subrange(0, a.len() as int) == a);
        let p = ranks_with_count_above(hand, n, r2);
        assert(b.subrange(0, p.len() as int) == a.subrange(0, p.len() as int));
        assert forall|j: int| p.len() <= j < b.len() implies #[trigger] b[j] <= r2 by {
            if j < a.len() {
                assert(b[j] == a[j]);
            } else {
                assert(b[j] == (r + 1) as u8);
            }
        }
    }
}

/// The ranks above `r2` start the list of those above `r`, and the rest are
/// at most `r2`.
proof fn lemma_ranks_extend(hand: Seq<Card>, r: int, r2: int)
    requires
        LOWEST_RANK - 1 <= r <= r2 <= HIGHEST_RANK,
    ensures
        ranks_above(hand, r).len() >= ranks_above(hand, r2).len(),
        ranks_above(hand, r).subrange(0, ranks_above(hand, r2).len() as int) == ranks_above(hand, r2),
        forall|j: int|
            ranks_above(hand, r2).len() <= j < ranks_above(hand, r).len() ==> #[trigger] ranks_above(
                hand,
                r,
            )[j] <= r2,
    decreases r2 - r,
{
    if r < r2 {
        lemma_ranks_extend(hand, r + 1, r2);
        let a = ranks_above(hand, r + 1);
        let b = ranks_above(hand, r);
        assert(b.subrange(0, a.len() as int) == a);
        let p = ranks_above(hand, r2);
        assert(b.subrange(0, p.len() as int) == a.subrange(0, p.len() as int));
        assert forall|j: int| p.len() <= j < b.len() implies #[trigger] b[j] <= r2 by {
            if j < a.len() {
                assert(b[j] == a[j]);
            } else {
                assert(b[j] == repeat_rank(r + 1, rank_count(hand, r + 1))[j - a.len()]);
            }
        }
    }
}

/// Two sequences that agree up to position `p`, where the second holds a
/// larger value or the first has ended, compare Less.
proof fn lemma_lex_less_at(a: Seq<u8>, b: Seq<u8>, p: int)
    requires
        0 <= p < b.len(),
        p <= a.len(),
        a.subrange(0, p) == b.subrange(0, p),
        p == a.len() || a[p] < b[p],
    ensures
        lex_cmp(a, b) == std::cmp::Ordering::Less,
    decreases p,
{
    if p > 0 {
        assert(a[0] == a.subrange(0, p)[0]);
        assert(b[0] == b.subrange(0, p)[0]);
        assert(a.drop_first().subrange(0, p - 1) == a.subrange(0, p).drop_first());
        assert(b.drop_first().subrange(0, p - 1) == b.subrange(0, p).drop_first());
        lemma_lex_less_at(a.drop_first(), b.drop_first(), p - 1);
    }
}

/// A common prefix does not change the lexicographic order.
proof fn lemma_lex_common_prefix(p: Seq<u8>, a: Seq<u8>, b: Seq<u8>)
    ensures
        lex_cmp(p + a, p + b) == lex_cmp(a, b),
    decreases p.len(),
{
    if p.len() > 0 {
        assert((p + a).drop_first() == p.drop_first() + a);
        assert((p + b).drop_first() == p.drop_first() + b);
        lemma_lex_common_prefix(p.drop_first(), a, b);
    } else {
        assert(p + a == a);
        assert(p + b == b);
    }
}

/// Moving a card from rank `r` up to rank `r2`, which the hand did not hold,
/// raises both the sorted ranks and the list of single ranks.
proof fn lemma_kicker_moves_up(hand: Seq<Card>, h2: Seq<Card>, r: int, r2: int)
    requires
        is_rank(r),
        is_rank(r2),
        r < r2,
        rank_count(hand, r) == 1,
        rank_count(hand, r2) == 0,
        rank_count(h2, r) == 0,
        rank_count(h2, r2) == 1,
        forall|q: int| is_rank(q) && q != r && q != r2 ==> #[trigger] rank_count(hand, q) == rank_count(h2, q),
    ensures
        lex_cmp(sorted_ranks(hand), sorted_ranks(h2)) == std::cmp::Ordering::Less,
        lex_cmp(group_key(hand), group_key(h2)) == std::cmp::Ordering::Less,
{
    // The sorted ranks.
    lemma_same_ranks_above(hand, h2, r2);
    let p = ranks_above(hand, r2);
    assert(ranks_above(hand, r2 - 1) == p + repeat_rank(r2, 0));
    assert(ranks_above(hand, r2 - 1) == p);
    assert(ranks_above(h2, r2 - 1) == p + repeat_rank(r2, 1));
    lemma_ranks_extend(hand, LOWEST_RANK - 1, r2 - 1);
    lemma_ranks_extend(h2, LOWEST_RANK - 1, r2 - 1);
    let a = sorted_ranks(hand);
    let b = sorted_ranks(h2);
    assert(b.subrange(0, p.len() as int + 1) == p + repeat_rank(r2, 1));
    assert(b[p.len() as int] == (p + repeat_rank(r2, 1))[p.len() as int]);
    assert(a.subrange(0, p.len() as int) == b.subrange(0, p.len() as int)) by {
        assert(b.subrange(0, p.len() as int) == (p + repeat_rank(r2, 1)).subrange(0, p.len() as int));
    }
    if a.len() > p.len() {
        assert(a[p.len() as int] <= r2 - 1);
    }
    lemma_lex_less_at(a, b, p.len() as int);

    // The single ranks, after the same groups of two to four.
    assert forall|q: int| is_rank(q) && q > r2 implies (#[trigger] rank_count(hand, q) == 1) == (
    rank_count(h2, q) == 1) by {}
    lemma_same_groups(hand, h2, 1, r2);
    let s = ranks_with_count_above(hand, 1, r2);
    assert(ranks_with_count_above(hand, 1, r2 - 1) == s);
    assert(ranks_with_count_above(h2, 1, r2 - 1) == s + seq![r2 as u8]);
    lemma_groups_extend(hand, 1, LOWEST_RANK - 1, r2 - 1);
    lemma_groups_extend(h2, 1, LOWEST_RANK - 1, r2 - 1);
    let sa = ranks_with_count(hand, 1);
    let sb = ranks_with_count(h2, 1);
    assert(sb.subrange(0, s.len() as int + 1) == s + seq![r2 as u8]);
    assert(sb[s.len() as int] == (s + seq![r2 as u8])[s.len() as int]);
    assert(sa.subrange(0, s.len() as int) == sb.subrange(0, s.len() as int)) by {
        assert(sb.subrange(0, s.len() as int) == (s + seq![r2 as u8]).subrange(0, s.len() as int));
    }
    if sa.len() > s.len() {
        assert(sa[s.len() as int] <= r2 - 1);
    }
    lemma_lex_less_at(sa, sb, s.len() as int);
    assert forall|q: int| is_rank(q) && q > LOWEST_RANK - 1 implies (#[trigger] rank_count(hand, q)
        == 2) == (rank_count(h2, q) == 2) by {}
    assert forall|q: int| is_rank(q) && q > LOWEST_RANK - 1 implies (#[trigger] rank_count(hand, q)
        == 3) == (rank_count(h2, q) == 3) by {}
    assert forall|q: int| is_rank(q) && q > LOWEST_RANK - 1 implies (#[trigger] rank_count(hand, q)
        == 4) == (rank_count(h2, q) == 4) by {}
    lemma_same_groups(hand, h2, 2, LOWEST_RANK - 1);
    lemma_same_groups(hand, h2, 3, LOWEST_RANK - 1);
    lemma_same_groups(hand, h2, 4, LOWEST_RANK - 1);
    let g = ranks_with_count(hand, 4) + ranks_with_count(hand, 3) + ranks_with_count(hand, 2);
    assert(group_key(hand) == g + sa);
    assert(group_key(h2) == g + sb);
    lemma_lex_common_prefix(g, sa, sb);
}

/// Replacing a kicker (a card whose rank occurs once, in a high card, a pair,
/// two pair, three or four of a kind) by a card of a strictly higher rank,
/// whatever its suit, never makes the hand weaker. Left out: a hand that
/// already holds four cards of the new rank, where a fifth would take a card
/// that a standard deck has only once.
pub proof fn lemma_higher_kicker_never_weaker(hand: Seq<Card>, i: int, c: Card)
    requires
        hand.len() == 5,
        all_valid(hand),
        c.is_valid(),
        0 <= i < hand.len(),
        has_kickers(evaluate_spec(hand).0),
        rank_count(hand, hand[i].spec_rank() as int) == 1,
        c.spec_rank() > hand[i].spec_rank(),
        rank_count(hand, c.spec_rank() as int) < 4,
    ensures
        hand_le(evaluate_spec(hand), evaluate_spec(hand.update(i, c))),
{
    let h2 = hand.update(i, c);
    let r = hand[i].spec_rank() as int;
    let r2 = c.spec_rank() as int;
    let k = rank_count(hand, r2);
    assert(hand[i].is_valid());
    lemma_card_type_of_own_rank(hand[i].card_type);
    lemma_card_type_of_own_rank(c.card_type);
    lemma_rank_count_update(hand, i, c);
    assert(rank_count(h2, r) == 0);
    assert(rank_count(h2, r2) == k + 1);
    assert forall|q: int| is_rank(q) && q != r && q != r2 implies #[trigger] rank_count(hand, q)
        == rank_count(h2, q) by {}
    assert(all_valid(h2)) by {
        assert forall|t: int| 0 <= t < h2.len() implies #[trigger] h2[t].is_valid() by {
            if t != i {
                assert(hand[t].is_valid());
            }
        }
    }
    lemma_groups_change(hand, h2, 1, r, r2, LOWEST_RANK - 1);
    lemma_groups_change(hand, h2, 2, r, r2, LOWEST_RANK - 1);
    lemma_groups_change(hand, h2, 3, r, r2, LOWEST_RANK - 1);
    lemma_groups_change(hand, h2, 4, r, r2, LOWEST_RANK - 1);
    lemma_groups_fit_in_hand(hand);
    let e1 = evaluate_spec(hand);
    let e2 = evaluate_spec(h2);
    assert(e1.0.spec_strength() == grouped_strength(hand));
    assert(e2.0.spec_strength() >= grouped_strength(h2));
    if k == 0 {
        assert(grouped_strength(h2) == grouped_strength(hand));
        if e2.0.spec_strength() == e1.0.spec_strength() {
            lemma_kicker_moves_up(hand, h2, r, r2);
        }
    } else {
        assert(grouped_strength(h2) > grouped_strength(hand));
    }
}

} // verus!
