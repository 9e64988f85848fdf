use vstd::prelude::*;

use itertools::Itertools;
use vstd::multiset::Multiset;

use crate::card::{all_valid, Card};
use crate::hand::HandRank;
use crate::hand::{
    compare_hands, evaluate, evaluate_spec, hand_cmp, hand_le, lemma_equal_strength_same_evaluation,
    lemma_evaluate_permutation, lemma_hand_cmp_reverse, lemma_hand_le_reflexive,
    lemma_hand_le_transitive, EvaluatedHand,
};

verus! {

broadcast use {vstd::seq_lib::group_to_multiset_ensures, vstd::multiset::group_multiset_axioms};

/// The error of `best_hand` for a pool of fewer than five or more than seven
/// cards; `size` is the size of the pool given.
#[derive(Debug, Clone, Copy, PartialEq, Eq, Structural)]
pub struct InvalidPoolSize {
    pub size: usize,
}

pub const HAND_SIZE: usize = 5;

pub const MAX_POOL_SIZE: usize = 7;

/// `idx` selects `k` distinct positions below `n`, in increasing order.
pub open spec fn is_combination(idx: Seq<usize>, n: int, k: int) -> bool {
    &&& idx.len() == k
    &&& forall|i: int| 0 <= i < idx.len() ==> #[trigger] idx[i] < n
    &&& forall|i: int, j: int| 0 <= i < j < idx.len() ==> #[trigger] idx[i] < #[trigger] idx[j]
}

/// The cards of the pool at the positions `idx`.
pub open spec fn pick(pool: Seq<Card>, idx: Seq<usize>) -> Seq<Card> {
    idx.map_values(|i: usize| pool[i as int])
}

/// `h` is a five-card hand that can be drawn from the pool: each card of `h`
/// occurs in the pool at least as often as in `h`.
pub open spec fn is_sub_hand(h: Seq<Card>, pool: Seq<Card>) -> bool {
    &&& h.len() == HAND_SIZE
    &&& h.to_multiset().subset_of(pool.to_multiset())
}

/// `e` is the evaluation of a hand drawn from the pool, and no hand drawn from
/// the pool evaluates higher.
pub open spec fn is_best_hand(pool: Seq<Card>, e: (HandRank, Seq<u8>)) -> bool {
    &&& exists|h: Seq<Card>| is_sub_hand(h, pool) && evaluate_spec(h) == e
    &&& forall|h: Seq<Card>| #[trigger] is_sub_hand(h, pool) ==> hand_le(evaluate_spec(h), e)
}

/// Relies on itertools' `Itertools::combinations` on the range `0..n`: it
/// yields every selection of `k` positions below `n` as a strictly increasing
/// vector.
#[verifier::external_body]
fn index_combinations(n: usize, k: usize) -> (r: Vec<Vec<usize>>)
    ensures
        forall|j: int| 0 <= j < r@.len() ==> is_combination(#[trigger] r@[j]@, n as int, k as int),
        forall|s: Seq<usize>|
            is_combination(s, n as int, k as int) ==> exists|j: int|
                0 <= j < r@.len() && #[trigger] r@[j]@ == s,
{
    (0..n).combinations(k).collect()
}

/// The cards of the pool at the positions `idx`.
fn pick_cards(pool: &[Card], idx: &Vec<usize>) -> (h: Vec<Card>)
    requires
        forall|i: int| 0 <= i < idx@.len() ==> #[trigger] idx@[i] < pool@.len(),
    ensures
        h@ == pick(pool@, idx@),
{
    let mut h: Vec<Card> = Vec::new();
    let mut i: usize = 0;
    while i < idx.len()
        invariant
            i <= idx@.len(),
            forall|t: int| 0 <= t < idx@.len() ==> #[trigger] idx@[t] < pool@.len(),
            h@ == pick(pool@, idx@.subrange(0, i as int)),
        decreases idx@.len() - i,
    {
        h.push(pool[idx[i]]);
        i = i + 1;
        assert(h@ == pick(pool@, idx@.subrange(0, i as int)));
    }
    assert(idx@.subrange(0, idx@.len() as int) == idx@);
    h
}

/// The cards at distinct positions of the pool are drawn from the pool.
proof fn lemma_pick_is_sub_multiset(pool: Seq<Card>, idx: Seq<usize>)
    requires
        is_combination(idx, pool.len() as int, idx.len() as int),
    ensures
        pick(pool, idx).to_multiset().subset_of(pool.to_multiset()),
    decreases pool.len(),
{
    if idx.len() == 0 {
        assert(pick(pool, idx) == Seq::<Card>::empty());
        assert(pick(pool, idx).to_multiset() =~= Multiset::empty());
    } else {
        assert(idx[0] < pool.len());
        let m = pool.len() - 1;
        let p = pool.drop_last();
        let x = pool.last();
        assert(pool =~= p.push(x));
        if idx.last() == m {
            let idx2 = idx.drop_last();
            assert forall|i: int| 0 <= i < idx2.len() implies #[trigger] idx2[i] < m by {
                assert(idx[i] < idx[idx.len() - 1]);
            }
            lemma_pick_is_sub_multiset(p, idx2);
            assert(pick(pool, idx) == pick(p, idx2).push(x));
        } else {
            assert forall|i: int| 0 <= i < idx.len() implies #[trigger] idx[i] < m by {
                if i < idx.len() - 1 {
                    assert(idx[i] < idx[idx.len() - 1]);
                }
            }
            lemma_pick_is_sub_multiset(p, idx);
            assert(pick(pool, idx) == pick(p, idx));
        }
    }
}

/// A hand drawn from the pool is, up to the order of its cards, the cards at
/// some distinct positions of the pool.
proof fn lemma_sub_multiset_positions(pool: Seq<Card>, h: Seq<Card>) -> (idx: Seq<usize>)
    requires
        h.to_multiset().subset_of(pool.to_multiset()),
        pool.len() <= usize::MAX,
    ensures
        is_combination(idx, pool.len() as int, h.len() as int),
        pick(pool, idx).to_multiset() == h.to_multiset(),
    decreases pool.len(),
{
    if pool.len() == 0 {
        assert(pool.to_multiset() =~= Multiset::empty());
        assert(h.to_multiset() =~= Multiset::empty());
        vstd::seq_lib::to_multiset_len(h);
        assert(h.len() == 0);
        assert(h =~= Seq::<Card>::empty());
        let idx = Seq::<usize>::empty();
        assert(pick(pool, idx) =~= Seq::<Card>::empty());
        idx
    } else {
        let m = pool.len() - 1;
        let p = pool.drop_last();
        let x = pool.last();
        assert(pool =~= p.push(x));
        if h.to_multiset().count(x) > 0 {
            let j = h.index_of(x);
            let h2 = h.remove(j);
            assert(h2.to_multiset() == h.to_multiset().remove(x));
            assert(h2.to_multiset().subset_of(p.to_multiset()));
            let idx2 = lemma_sub_multiset_positions(p, h2);
            let idx = idx2.push(m as usize);
            assert(pick(pool, idx) == pick(p, idx2).push(x));
            assert(pick(pool, idx).to_multiset() =~= h.to_multiset());
            idx
        } else {
            assert(h.to_multiset().subset_of(p.to_multiset()));
            let idx = lemma_sub_multiset_positions(p, h);
            assert(pick(pool, idx) == pick(p, idx));
            idx
        }
    }
}

/// Finds the best five-card hand within a pool of five to seven valid cards:
/// every combination of five cards is classified and the strongest kept.
pub fn best_hand(pool: &[Card]) -> (r: Result<EvaluatedHand, InvalidPoolSize>)
    requires
        all_valid(pool@),
    ensures
        r is Err <==> pool@.len() < HAND_SIZE || pool@.len() > MAX_POOL_SIZE,
        r matches Err(e) ==> e.size == pool@.len(),
        r matches Ok(e) ==> is_best_hand(pool@, e@),
{
    let n = pool.len();
    if n < HAND_SIZE || n > MAX_POOL_SIZE {
        return Err(InvalidPoolSize { size: n });
    }
    let combos = index_combinations(n, HAND_SIZE);
    proof {
        let first = seq![0usize, 1, 2, 3, 4];
        assert(is_combination(first, n as int, HAND_SIZE as int));
    }
    let first = pick_cards(pool, &combos[0]);
    let mut best = evaluate(first.as_slice());
    let ghost mut best_at: int = 0;
    proof {
        lemma_hand_le_reflexive(best@);
    }
    let mut j: usize = 1;
    while j < combos.len()
        invariant
            n == pool@.len(),
            HAND_SIZE <= n <= MAX_POOL_SIZE,
            all_valid(pool@),
            forall|t: int|
                0 <= t < combos@.len() ==> is_combination(
                    #[trigger] combos@[t]@,
                    n as int,
                    HAND_SIZE as int,
                ),
            1 <= j <= combos@.len(),
            0 <= best_at < j,
            best@ == evaluate_spec(pick(pool@, combos@[best_at]@)),
            forall|t: int|
                0 <= t < j ==> hand_le(evaluate_spec(pick(pool@, #[trigger] combos@[t]@)), best@),
        decreases combos@.len() - j,
    {
        assert(is_combination(combos@[j as int]@, n as int, HAND_SIZE as int));
        let hand = pick_cards(pool, &combos[j]);
        assert forall|i: int| 0 <= i < hand@.len() implies #[trigger] hand@[i].is_valid() by {
            assert(pool@[combos@[j as int]@[i] as int].is_valid());
        }
        let candidate = evaluate(hand.as_slice());
        let stronger = match compare_hands(&candidate, &best) {
            std::cmp::Ordering::Greater => true,
            _ => false,
        };
        if stronger {
            proof {
                lemma_hand_cmp_reverse(candidate@, best@);
                lemma_hand_le_reflexive(candidate@);
                assert forall|t: int| 0 <= t <= j implies hand_le(
                    evaluate_spec(pick(pool@, #[trigger] combos@[t]@)),
                    candidate@,
                ) by {
                    if t < j {
                        lemma_hand_le_transitive(
                            evaluate_spec(pick(pool@, combos@[t]@)),
                            best@,
                            candidate@,
                        );
                    }
                }
                best_at = j as int;
            }
            best = candidate;
        }
        j = j + 1;
    }
    proof {
        let h = pick(pool@, combos@[best_at]@);
        lemma_pick_is_sub_multiset(pool@, combos@[best_at]@);
        assert(is_sub_hand(h, pool@));
        assert forall|h: Seq<Card>| #[trigger] is_sub_hand(h, pool@) implies hand_le(
            evaluate_spec(h),
            best@,
        ) by {
            let idx = lemma_sub_multiset_positions(pool@, h);
            let t = choose|t: int| 0 <= t < combos@.len() && #[trigger] combos@[t]@ == idx;
            lemma_evaluate_permutation(pick(pool@, idx), h);
        }
    }
    Ok(best)
}

/// The best hand of a pool is unique: two evaluations that both meet the
/// definition are equal. So `best_hand` called twice on the same pool gives
/// the same result.
pub proof fn lemma_best_hand_unique(pool: Seq<Card>, e1: (HandRank, Seq<u8>), e2: (HandRank, Seq<u8>))
    requires
        is_best_hand(pool, e1),
        is_best_hand(pool, e2),
    ensures
        e1 == e2,
{
    let h1 = choose|h: Seq<Card>| is_sub_hand(h, pool) && evaluate_spec(h) == e1;
    let h2 = choose|h: Seq<Card>| is_sub_hand(h, pool) && evaluate_spec(h) == e2;
    assert(hand_le(evaluate_spec(h1), e2));
    assert(hand_le(evaluate_spec(h2), e1));
    lemma_equal_strength_same_evaluation(h1, h2);
}

/// The best hand does not depend on the order of the pool: two pools that
/// hold the same cards, in whatever order, have the same best hand.
pub proof fn lemma_best_hand_permutation(
    pool_a: Seq<Card>,
    pool_b: Seq<Card>,
    e1: (HandRank, Seq<u8>),
    e2: (HandRank, Seq<u8>),
)
    requires
        pool_a.to_multiset() == pool_b.to_multiset(),
        is_best_hand(pool_a, e1),
        is_best_hand(pool_b, e2),
    ensures
        e1 == e2,
{
    assert forall|h: Seq<Card>| #[trigger] is_sub_hand(h, pool_a) == is_sub_hand(h, pool_b) by {}
    let h2 = choose|h: Seq<Card>| is_sub_hand(h, pool_b) && evaluate_spec(h) == e2;
    assert(is_sub_hand(h2, pool_a));
    lemma_best_hand_unique(pool_a, e1, e2);
}

/// Hand `i` is at least as strong as every hand of the table.
pub open spec fn is_winner(hands: Seq<EvaluatedHand>, i: int) -> bool {
    forall|j: int| 0 <= j < hands.len() ==> hand_le(#[trigger] hands[j]@, hands[i]@)
}

/// The positions, in increasing order, of the strongest of the given hands:
/// a single position for an outright winner, several for a split.
pub fn winners(hands: &[EvaluatedHand]) -> (w: Vec<usize>)
    ensures
        forall|k: int| 0 <= k < w@.len() ==> #[trigger] w@[k] < hands@.len(),
        forall|a: int, b: int| 0 <= a < b < w@.len() ==> #[trigger] w@[a] < #[trigger] w@[b],
        forall|i: int|
            0 <= i < hands@.len() ==> (w@.contains(i as usize) <==> is_winner(hands@, i)),
{
    let n = hands.len();
    let mut w: Vec<usize> = Vec::new();
    if n == 0 {
        return w;
    }
    let mut top: usize = 0;
    let mut i: usize = 1;
    proof {
        lemma_hand_le_reflexive(hands@[0]@);
    }
    while i < n
        invariant
            n == hands@.len(),
            top < i <= n,
            forall|j: int| 0 <= j < i ==> hand_le(#[trigger] hands@[j]@, hands@[top as int]@),
        decreases n - i,
    {
        let stronger = match compare_hands(&hands[i], &hands[top]) {
            std::cmp::Ordering::Greater => true,
            _ => false,
        };
        if stronger {
            proof {
                lemma_hand_cmp_reverse(hands@[i as int]@, hands@[top as int]@);
                lemma_hand_le_reflexive(hands@[i as int]@);
                assert forall|j: int| 0 <= j <= i implies hand_le(
                    #[trigger] hands@[j]@,
                    hands@[i as int]@,
                ) by {
                    if j < i {
                        lemma_hand_le_transitive(
                            hands@[j]@,
                            hands@[top as int]@,
                            hands@[i as int]@,
                        );
                    }
                }
            }
            top = i;
        }
        i = i + 1;
    }
    let mut i: usize = 0;
    while i < n
        invariant
            n == hands@.len(),
            top < n,
            i <= n,
            forall|j: int| 0 <= j < n ==> hand_le(#[trigger] hands@[j]@, hands@[top as int]@),
            forall|k: int| 0 <= k < w@.len() ==> #[trigger] w@[k] < i,
            forall|a: int, b: int| 0 <= a < b < w@.len() ==> #[trigger] w@[a] < #[trigger] w@[b],
            forall|t: int|
                0 <= t < i ==> (w@.contains(t as usize) <==> hand_cmp(
                    #[trigger] hands@[t]@,
                    hands@[top as int]@,
                ) == std::cmp::Ordering::Equal),
        decreases n - i,
    {
        let tied = match compare_hands(&hands[i], &hands[top]) {
            std::cmp::Ordering::Equal => true,
            _ => false,
        };
        let ghost before = w@;
        if tied {
            w.push(i);
        }
        assert forall|t: int|
            0 <= t <= i implies (w@.contains(t as usize) <==> hand_cmp(
            #[trigger] hands@[t]@,
            hands@[top as int]@,
        ) == std::cmp::Ordering::Equal) by {
            if t < i {
                if w@.contains(t as usize) && !before.contains(t as usize) {
                    let k = choose|k: int| 0 <= k < w@.len() && w@[k] == t as usize;
                    assert(k == before.len());
                }
                if before.contains(t as usize) {
                    let k = choose|k: int| 0 <= k < before.len() && before[k] == t as usize;
                    assert(w@[k] == t as usize);
                }
            } else if tied {
                assert(w@[w@.len() - 1] == i);
            } else {
                if w@.contains(t as usize) {
                    let k = choose|k: int| 0 <= k < w@.len() && w@[k] == t as usize;
                    assert(w@[k] < i);
                }
            }
        }
        i = i + 1;
    }
    proof {
        let best = hands@[top as int]@;
        assert forall|t: int| 0 <= t < n implies (w@.contains(t as usize) <==> is_winner(hands@, t)) by {
            let h = hands@[t]@;
            lemma_hand_cmp_reverse(h, best);
            if hand_cmp(h, best) == std::cmp::Ordering::Equal {
                assert forall|j: int| 0 <= j < n implies hand_le(#[trigger] hands@[j]@, h) by {
                    assert(hand_le(hands@[j]@, best));
                }
            }
            if is_winner(hands@, t) {
                assert(hand_le(hands@[top as int]@, h));
            }
        }
    }
    w
}

/// Every five cards at distinct positions of a pool of seven valid cards form
/// a hand drawn from the pool that `evaluate` accepts: five valid cards, which
/// receive the one category and key of `evaluate_spec`.
pub proof fn lemma_every_five_of_seven_classifies(pool: Seq<Card>, idx: Seq<usize>)
    requires
        pool.len() == MAX_POOL_SIZE,
        all_valid(pool),
        is_combination(idx, MAX_POOL_SIZE as int, HAND_SIZE as int),
    ensures
        pick(pool, idx).len() == HAND_SIZE,
        all_valid(pick(pool, idx)),
        is_sub_hand(pick(pool, idx), pool),
{
    assert forall|i: int| 0 <= i < HAND_SIZE implies #[trigger] pick(pool, idx)[i].is_valid() by {
        assert(pool[idx[i] as int].is_valid());
    }
    lemma_pick_is_sub_multiset(pool, idx);
}

} // verus!
