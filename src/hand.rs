use vstd::prelude::*;

use crate::card::{
    all_valid, card_type_of_rank, is_rank, is_same_suit, lemma_card_type_of_own_rank,
    rank_successor, same_suit, spec_rank_successor, Card, Suit, HIGHEST_RANK, LOWEST_RANK,
};

verus! {

broadcast use vstd::seq_lib::group_to_multiset_ensures;

/// The hand categories in increasing strength. `RoyalFlush` is the ace-high
/// straight flush: it is reported apart but has the strength of any other
/// straight flush (see `strength`).
#[derive(Debug, Clone, Copy, PartialEq, Eq, Structural, Hash)]
pub enum HandRank {
    HighCard,
    Pair,
    TwoPair,
    ThreeOfAKind,
    Straight,
    Flush,
    FullHouse,
    FourOfAKind,
    StraightFlush,
    RoyalFlush,
}

impl HandRank {
    pub open spec fn spec_strength(&self) -> u8 {
        match self {
            HandRank::HighCard => 0,
            HandRank::Pair => 1,
            HandRank::TwoPair => 2,
            HandRank::ThreeOfAKind => 3,
            HandRank::Straight => 4,
            HandRank::Flush => 5,
            HandRank::FullHouse => 6,
            HandRank::FourOfAKind => 7,
            HandRank::StraightFlush => 8,
            HandRank::RoyalFlush => 8,
        }
    }

    /// The strength of the category, 0 (high card) to 8 (straight flush,
    /// royal or not).
    #[verifier::when_used_as_spec(spec_strength)]
    pub fn strength(&self) -> (s: u8)
        ensures
            s == self.spec_strength(),
    {
        match self {
            HandRank::HighCard => 0,
            HandRank::Pair => 1,
            HandRank::TwoPair => 2,
            HandRank::ThreeOfAKind => 3,
            HandRank::Straight => 4,
            HandRank::Flush => 5,
            HandRank::FullHouse => 6,
            HandRank::FourOfAKind => 7,
            HandRank::StraightFlush => 8,
            HandRank::RoyalFlush => 8,
        }
    }
}

/// The result of classifying five cards: the category and the ranks that
/// break ties between hands of that category, most significant first.
#[derive(Debug, Clone, PartialEq, Eq)]
pub struct EvaluatedHand {
    pub category: HandRank,
    pub tiebreak: Vec<u8>,
}

impl View for EvaluatedHand {
    type V = (HandRank, Seq<u8>);

    open spec fn view(&self) -> (HandRank, Seq<u8>) {
        (self.category, self.tiebreak@)
    }
}

/// The card of suit `s` and rank `r`.
pub open spec fn card_of(s: Suit, r: int) -> Card {
    Card { card_type: card_type_of_rank(r), suit: s }
}

/// How many cards of the hand have rank `r`: the copies of that rank in each
/// of the four suits.
pub open spec fn rank_count(hand: Seq<Card>, r: int) -> nat {
    let m = hand.to_multiset();
    m.count(card_of(Suit::Hearts, r)) + m.count(card_of(Suit::Diamonds, r)) + m.count(
        card_of(Suit::Spades, r),
    ) + m.count(card_of(Suit::Clubs, r))
}

/// `n` copies of the rank `r`.
pub open spec fn repeat_rank(r: int, n: nat) -> Seq<u8> {
    Seq::new(n, |_i: int| r as u8)
}

/// The ranks of the hand above `r`, highest first, each as often as it occurs.
pub open spec fn ranks_above(hand: Seq<Card>, r: int) -> Seq<u8>
    decreases HIGHEST_RANK - r,
{
    if r >= HIGHEST_RANK {
        seq![]
    } else {
        ranks_above(hand, r + 1) + repeat_rank(r + 1, rank_count(hand, r + 1))
    }
}

/// All ranks of the hand in descending order.
pub open spec fn sorted_ranks(hand: Seq<Card>) -> Seq<u8> {
    ranks_above(hand, LOWEST_RANK - 1)
}

/// The distinct ranks above `r` that occur exactly `n` times in the hand,
/// highest first.
pub open spec fn ranks_with_count_above(hand: Seq<Card>, n: nat, r: int) -> Seq<u8>
    decreases HIGHEST_RANK - r,
{
    if r >= HIGHEST_RANK {
        seq![]
    } else {
        ranks_with_count_above(hand, n, r + 1) + if rank_count(hand, r + 1) == n {
            seq![(r + 1) as u8]
        } else {
            seq![]
        }
    }
}

/// The distinct ranks that occur exactly `n` times in the hand, highest first.
pub open spec fn ranks_with_count(hand: Seq<Card>, n: nat) -> Seq<u8> {
    ranks_with_count_above(hand, n, LOWEST_RANK - 1)
}

/// How many ranks occur exactly `n` times in the hand.
pub open spec fn groups_of(hand: Seq<Card>, n: nat) -> nat {
    ranks_with_count(hand, n).len()
}

/// The distinct ranks of the hand ordered by how often they occur, then by
/// rank, both descending: [quad, kicker], [triple, pair], [high pair, low
/// pair, kicker], [pair, kickers...].
pub open spec fn group_key(hand: Seq<Card>) -> Seq<u8> {
    ranks_with_count(hand, 4) + ranks_with_count(hand, 3) + ranks_with_count(hand, 2)
        + ranks_with_count(hand, 1)
}

/// Five ranks in descending order, each the successor of the next.
pub open spec fn is_run(s: Seq<u8>) -> bool {
    &&& s.len() == 5
    &&& forall|i: int| 0 <= i < 4 ==> spec_rank_successor(#[trigger] s[i + 1]) == Some(s[i])
}

/// The category and tiebreak key of a five-card hand, first match wins.
pub open spec fn evaluate_spec(hand: Seq<Card>) -> (HandRank, Seq<u8>) {
    let s = sorted_ranks(hand);
    let flush = same_suit(hand);
    let straight = is_run(s);
    let key = group_key(hand);
    if straight && flush {
        (if s[0] == HIGHEST_RANK { HandRank::RoyalFlush } else { HandRank::StraightFlush }, seq![s[0]])
    } else if groups_of(hand, 4) == 1 {
        (HandRank::FourOfAKind, key)
    } else if groups_of(hand, 3) == 1 && groups_of(hand, 2) == 1 {
        (HandRank::FullHouse, key)
    } else if flush {
        (HandRank::Flush, s)
    } else if straight {
        (HandRank::Straight, seq![s[0]])
    } else if groups_of(hand, 3) == 1 {
        (HandRank::ThreeOfAKind, key)
    } else if groups_of(hand, 2) == 2 {
        (HandRank::TwoPair, key)
    } else if groups_of(hand, 2) == 1 {
        (HandRank::Pair, key)
    } else {
        (HandRank::HighCard, s)
    }
}

/// Adding a valid card to a hand adds one to the count of its rank only.
pub proof fn lemma_rank_count_push(hand: Seq<Card>, c: Card)
    requires
        c.is_valid(),
    ensures
        forall|r: int|
            is_rank(r) ==> #[trigger] rank_count(hand.push(c), r) == rank_count(hand, r) + if r
                == c.spec_rank() {
                1nat
            } else {
                0nat
            },
{
    lemma_card_type_of_own_rank(c.card_type);
    assert forall|r: int| is_rank(r) implies #[trigger] rank_count(hand.push(c), r) == rank_count(
        hand,
        r,
    ) + if r == c.spec_rank() {
        1nat
    } else {
        0nat
    } by {
        assert(card_type_of_rank(r).spec_rank() == r);
        assert(r == c.spec_rank() <==> card_type_of_rank(r) == c.card_type);
    }
}

/// Counts the cards of each rank: entry `r` of the result is the number of
/// cards of rank `r`.
fn count_ranks(hand: &[Card]) -> (counts: Vec<u8>)
    requires
        hand@.len() <= 5,
        all_valid(hand@),
    ensures
        counts@.len() == HIGHEST_RANK + 1,
        forall|r: int| is_rank(r) ==> #[trigger] counts@[r] == rank_count(hand@, r),
{
    let mut counts: Vec<u8> = Vec::new();
    let mut k: usize = 0;
    while k <= HIGHEST_RANK as usize
        invariant
            k <= HIGHEST_RANK + 1,
            counts@.len() == k,
            forall|r: int| 0 <= r < k ==> #[trigger] counts@[r] == 0,
        decreases HIGHEST_RANK + 1 - k,
    {
        counts.push(0);
        k = k + 1;
    }
    let mut i: usize = 0;
    while i < hand.len()
        invariant
            i <= hand@.len() <= 5,
            all_valid(hand@),
            counts@.len() == HIGHEST_RANK + 1,
            forall|r: int|
                is_rank(r) ==> #[trigger] counts@[r] == rank_count(hand@.subrange(0, i as int), r),
            forall|r: int| is_rank(r) ==> #[trigger] counts@[r] <= i,
        decreases hand@.len() - i,
    {
        let c = hand[i];
        let r = c.rank();
        proof {
            assert(hand@[i as int].is_valid());
            lemma_card_type_of_own_rank(c.card_type);
            lemma_rank_count_push(hand@.subrange(0, i as int), c);
            assert(hand@.subrange(0, i as int).push(c) == hand@.subrange(0, i + 1));
        }
        counts.set(r as usize, counts[r as usize] + 1);
        i = i + 1;
    }
    assert(hand@.subrange(0, hand@.len() as int) == hand@);
    counts
}

/// The ranks of the hand in descending order, each as often as it occurs.
fn sorted_ranks_from_counts(counts: &Vec<u8>, Ghost(hand): Ghost<Seq<Card>>) -> (s: Vec<u8>)
    requires
        counts@.len() == HIGHEST_RANK + 1,
        forall|r: int| is_rank(r) ==> #[trigger] counts@[r] == rank_count(hand, r),
    ensures
        s@ == sorted_ranks(hand),
        forall|k: int| 0 <= k < s@.len() ==> is_rank(#[trigger] s@[k] as int),
{
    let mut s: Vec<u8> = Vec::new();
    let mut r: u8 = HIGHEST_RANK;
    while r >= LOWEST_RANK
        invariant
            LOWEST_RANK - 1 <= r <= HIGHEST_RANK,
            counts@.len() == HIGHEST_RANK + 1,
            forall|q: int| is_rank(q) ==> #[trigger] counts@[q] == rank_count(hand, q),
            s@ == ranks_above(hand, r as int),
            forall|k: int| 0 <= k < s@.len() ==> is_rank(#[trigger] s@[k] as int),
        decreases r,
    {
        let n = counts[r as usize];
        let ghost before = s@;
        let mut j: u8 = 0;
        while j < n
            invariant
                j <= n,
                is_rank(r as int),
                s@ == before + repeat_rank(r as int, j as nat),
                forall|k: int| 0 <= k < before.len() ==> is_rank(#[trigger] before[k] as int),
            decreases n - j,
        {
            s.push(r);
            j = j + 1;
            assert(s@ == before + repeat_rank(r as int, j as nat));
        }
        assert forall|k: int| 0 <= k < s@.len() implies is_rank(#[trigger] s@[k] as int) by {
            if k >= before.len() {
                assert(s@[k] == r);
            }
        }
        r = r - 1;
    }
    s
}

/// The distinct ranks that occur exactly `n` times, in descending order.
fn ranks_of_count(counts: &Vec<u8>, n: u8, Ghost(hand): Ghost<Seq<Card>>) -> (s: Vec<u8>)
    requires
        counts@.len() == HIGHEST_RANK + 1,
        forall|r: int| is_rank(r) ==> #[trigger] counts@[r] == rank_count(hand, r),
    ensures
        s@ == ranks_with_count(hand, n as nat),
{
    let mut s: Vec<u8> = Vec::new();
    let mut r: u8 = HIGHEST_RANK;
    while r >= LOWEST_RANK
        invariant
            LOWEST_RANK - 1 <= r <= HIGHEST_RANK,
            counts@.len() == HIGHEST_RANK + 1,
            forall|q: int| is_rank(q) ==> #[trigger] counts@[q] == rank_count(hand, q),
            s@ == ranks_with_count_above(hand, n as nat, r as int),
        decreases r,
    {
        if counts[r as usize] == n {
            s.push(r);
        }
        r = r - 1;
    }
    s
}

/// True iff the five descending ranks form a run: each is the successor of
/// the next, with no wrap past the Ace.
fn is_straight(ranks: &Vec<u8>) -> (b: bool)
    requires
        forall|k: int| 0 <= k < ranks@.len() ==> is_rank(#[trigger] ranks@[k] as int),
    ensures
        b == is_run(ranks@),
{
    if ranks.len() != 5 {
        return false;
    }
    let mut i: usize = 0;
    while i < 4
        invariant
            i <= 4,
            ranks@.len() == 5,
            forall|k: int| 0 <= k < ranks@.len() ==> is_rank(#[trigger] ranks@[k] as int),
            forall|k: int| 0 <= k < i ==> spec_rank_successor(#[trigger] ranks@[k + 1]) == Some(
                ranks@[k],
            ),
        decreases 4 - i,
    {
        if rank_successor(ranks[i + 1]) != Some(ranks[i]) {
            return false;
        }
        i = i + 1;
    }
    true
}

/// Classifies exactly five valid cards, in any order.
pub fn evaluate(hand: &[Card]) -> (e: EvaluatedHand)
    requires
        hand@.len() == 5,
        all_valid(hand@),
    ensures
        e@ == evaluate_spec(hand@),
{
    let ghost h = hand@;
    let counts = count_ranks(hand);
    let flush = is_same_suit(hand);
    let sorted = sorted_ranks_from_counts(&counts, Ghost(h));
    let straight = is_straight(&sorted);
    if straight && flush {
        let high = sorted[0];
        let category = if high == HIGHEST_RANK {
            HandRank::RoyalFlush
        } else {
            HandRank::StraightFlush
        };
        let e = EvaluatedHand { category, tiebreak: vec![high] };
        assert(e.tiebreak@ == seq![high]);
        return e;
    }
    let fours = ranks_of_count(&counts, 4, Ghost(h));
    let threes = ranks_of_count(&counts, 3, Ghost(h));
    let pairs = ranks_of_count(&counts, 2, Ghost(h));
    let singles = ranks_of_count(&counts, 1, Ghost(h));
    let n_fours = fours.len();
    let n_threes = threes.len();
    let n_pairs = pairs.len();
    let mut key = fours;
    let mut rest = threes;
    key.append(&mut rest);
    let mut rest = pairs;
    key.append(&mut rest);
    let mut rest = singles;
    key.append(&mut rest);
    assert(key@ == group_key(h));
    if n_fours == 1 {
        EvaluatedHand { category: HandRank::FourOfAKind, tiebreak: key }
    } else if n_threes == 1 && n_pairs == 1 {
        EvaluatedHand { category: HandRank::FullHouse, tiebreak: key }
    } else if flush {
        EvaluatedHand { category: HandRank::Flush, tiebreak: sorted }
    } else if straight {
        let high = sorted[0];
        let e = EvaluatedHand { category: HandRank::Straight, tiebreak: vec![high] };
        assert(e.tiebreak@ == seq![high]);
        e
    } else if n_threes == 1 {
        EvaluatedHand { category: HandRank::ThreeOfAKind, tiebreak: key }
    } else if n_pairs == 2 {
        EvaluatedHand { category: HandRank::TwoPair, tiebreak: key }
    } else if n_pairs == 1 {
        EvaluatedHand { category: HandRank::Pair, tiebreak: key }
    } else {
        EvaluatedHand { category: HandRank::HighCard, tiebreak: sorted }
    }
}

/// Classifies an exact five-card hand.
pub fn classify(hand: [Card; 5]) -> (e: EvaluatedHand)
    requires
        all_valid(hand@),
    ensures
        e@ == evaluate_spec(hand@),
{
    evaluate(&hand)
}

/// The view of a sequence of card references as a sequence of cards.
pub open spec fn cards_of_refs(hand: Seq<&Card>) -> Seq<Card> {
    hand.map_values(|c: &Card| *c)
}

/// Returns the category of a five-card hand, given in any order.
/// # Example
/// 2 Spades, 2 Hearts, Queen Clubs, Queen Hearts, Queen Spades -> FullHouse
pub fn rank_hand(hand: &Vec<&Card>) -> (r: HandRank)
    requires
        hand@.len() == 5,
        all_valid(cards_of_refs(hand@)),
    ensures
        r == evaluate_spec(cards_of_refs(hand@)).0,
{
    let mut cards: Vec<Card> = Vec::new();
    let mut i: usize = 0;
    while i < hand.len()
        invariant
            i <= hand@.len(),
            cards@ == cards_of_refs(hand@).subrange(0, i as int),
        decreases hand@.len() - i,
    {
        cards.push(*hand[i]);
        i = i + 1;
        assert(cards@ == cards_of_refs(hand@).subrange(0, i as int));
    }
    assert(cards@ == cards_of_refs(hand@));
    evaluate(cards.as_slice()).category
}

/// Lexicographic order of two rank sequences: the first differing position
/// decides, and a proper prefix comes first.
pub open spec fn lex_cmp(a: Seq<u8>, b: Seq<u8>) -> std::cmp::Ordering
    decreases a.len(),
{
    if a.len() == 0 {
        if b.len() == 0 {
            std::cmp::Ordering::Equal
        } else {
            std::cmp::Ordering::Less
        }
    } else if b.len() == 0 {
        std::cmp::Ordering::Greater
    } else if a[0] < b[0] {
        std::cmp::Ordering::Less
    } else if a[0] > b[0] {
        std::cmp::Ordering::Greater
    } else {
        lex_cmp(a.drop_first(), b.drop_first())
    }
}

/// The order of two evaluated hands: category strength first, then the
/// tiebreak keys compared lexicographically.
pub open spec fn hand_cmp(a: (HandRank, Seq<u8>), b: (HandRank, Seq<u8>)) -> std::cmp::Ordering {
    if a.0.spec_strength() < b.0.spec_strength() {
        std::cmp::Ordering::Less
    } else if a.0.spec_strength() > b.0.spec_strength() {
        std::cmp::Ordering::Greater
    } else {
        lex_cmp(a.1, b.1)
    }
}

/// `a` is at most as strong as `b`.
pub open spec fn hand_le(a: (HandRank, Seq<u8>), b: (HandRank, Seq<u8>)) -> bool {
    hand_cmp(a, b) != std::cmp::Ordering::Greater
}

/// Compares two rank sequences lexicographically.
pub fn compare_tiebreaks(a: &Vec<u8>, b: &Vec<u8>) -> (o: std::cmp::Ordering)
    ensures
        o == lex_cmp(a@, b@),
{
    let mut i: usize = 0;
    assert(a@.skip(0) == a@);
    assert(b@.skip(0) == b@);
    while i < a.len() && i < b.len()
        invariant
            i <= a@.len(),
            i <= b@.len(),
            lex_cmp(a@, b@) == lex_cmp(a@.skip(i as int), b@.skip(i as int)),
        decreases a@.len() - i,
    {
        let x = a[i];
        let y = b[i];
        if x < y {
            return std::cmp::Ordering::Less;
        }
        if x > y {
            return std::cmp::Ordering::Greater;
        }
        assert(a@.skip(i as int).drop_first() == a@.skip(i + 1));
        assert(b@.skip(i as int).drop_first() == b@.skip(i + 1));
        i = i + 1;
    }
    if i < b.len() {
        std::cmp::Ordering::Less
    } else if i < a.len() {
        std::cmp::Ordering::Greater
    } else {
        std::cmp::Ordering::Equal
    }
}

/// Compares two evaluated hands: by category strength, then by tiebreak key.
/// Equal means a split between the two hands.
pub fn compare_hands(a: &EvaluatedHand, b: &EvaluatedHand) -> (o: std::cmp::Ordering)
    ensures
        o == hand_cmp(a@, b@),
{
    let sa = a.category.strength();
    let sb = b.category.strength();
    if sa < sb {
        std::cmp::Ordering::Less
    } else if sa > sb {
        std::cmp::Ordering::Greater
    } else {
        compare_tiebreaks(&a.tiebreak, &b.tiebreak)
    }
}

/// Hands that agree on the count of every rank list the same ranks.
proof fn lemma_same_counts_same_lists(h1: Seq<Card>, h2: Seq<Card>, n: nat, r: int)
    requires
        forall|q: int| #[trigger] rank_count(h1, q) == rank_count(h2, q),
    ensures
        ranks_above(h1, r) == ranks_above(h2, r),
        ranks_with_count_above(h1, n, r) == ranks_with_count_above(h2, n, r),
    decreases HIGHEST_RANK - r,
{
    if r < HIGHEST_RANK {
        lemma_same_counts_same_lists(h1, h2, n, r + 1);
        assert(rank_count(h1, r + 1) == rank_count(h2, r + 1));
    }
}

/// Classification is a function of the hand alone: classifying the same cards
/// twice gives the same category and tiebreak key.
pub proof fn lemma_evaluate_deterministic(h1: Seq<Card>, h2: Seq<Card>)
    requires
        h1 == h2,
    ensures
        evaluate_spec(h1) == evaluate_spec(h2),
{
}

/// Classification does not depend on the order of the cards: two hands that
/// hold the same cards, in whatever order, get the same category and tiebreak
/// key.
pub proof fn lemma_evaluate_permutation(h1: Seq<Card>, h2: Seq<Card>)
    requires
        h1.to_multiset() == h2.to_multiset(),
    ensures
        evaluate_spec(h1) == evaluate_spec(h2),
{
    assert forall|q: int| #[trigger] rank_count(h1, q) == rank_count(h2, q) by {}
    lemma_same_counts_same_lists(h1, h2, 1, LOWEST_RANK - 1);
    lemma_same_counts_same_lists(h1, h2, 2, LOWEST_RANK - 1);
    lemma_same_counts_same_lists(h1, h2, 3, LOWEST_RANK - 1);
    lemma_same_counts_same_lists(h1, h2, 4, LOWEST_RANK - 1);
    assert forall|c: Card| h1.contains(c) <==> h2.contains(c) by {
        vstd::seq_lib::to_multiset_contains(h1, c);
        vstd::seq_lib::to_multiset_contains(h2, c);
    }
    assert(same_suit(h1) == same_suit(h2));
}

/// Swapping the arguments reverses the lexicographic order, and only equal
/// sequences compare Equal.
pub proof fn lemma_lex_cmp_reverse(a: Seq<u8>, b: Seq<u8>)
    ensures
        lex_cmp(a, b) == std::cmp::Ordering::Less <==> lex_cmp(b, a) == std::cmp::Ordering::Greater,
        lex_cmp(a, b) == std::cmp::Ordering::Equal <==> lex_cmp(b, a) == std::cmp::Ordering::Equal,
        lex_cmp(a, b) == std::cmp::Ordering::Equal ==> a == b,
    decreases a.len(),
{
    if a.len() > 0 && b.len() > 0 && a[0] == b[0] {
        lemma_lex_cmp_reverse(a.drop_first(), b.drop_first());
        if lex_cmp(a, b) == std::cmp::Ordering::Equal {
            assert(a =~= b) by {
                assert forall|i: int| 0 <= i < a.len() implies a[i] == b[i] by {
                    if i > 0 {
                        assert(a[i] == a.drop_first()[i - 1]);
                        assert(b[i] == b.drop_first()[i - 1]);
                    }
                }
            }
        }
    } else if a.len() == 0 && b.len() == 0 {
        assert(a =~= b);
    }
}

/// Every sequence compares Equal to itself.
pub proof fn lemma_lex_cmp_reflexive(a: Seq<u8>)
    ensures
        lex_cmp(a, a) == std::cmp::Ordering::Equal,
    decreases a.len(),
{
    if a.len() > 0 {
        lemma_lex_cmp_reflexive(a.drop_first());
    }
}

/// The lexicographic order is transitive.
pub proof fn lemma_lex_cmp_transitive(a: Seq<u8>, b: Seq<u8>, c: Seq<u8>)
    requires
        lex_cmp(a, b) != std::cmp::Ordering::Greater,
        lex_cmp(b, c) != std::cmp::Ordering::Greater,
    ensures
        lex_cmp(a, c) != std::cmp::Ordering::Greater,
    decreases a.len(),
{
    if a.len() > 0 && b.len() > 0 && c.len() > 0 && a[0] == b[0] && b[0] == c[0] {
        lemma_lex_cmp_transitive(a.drop_first(), b.drop_first(), c.drop_first());
    }
}

/// Swapping the arguments reverses the order of hands; Equal hands have the
/// same strength and the same tiebreak key.
pub proof fn lemma_hand_cmp_reverse(a: (HandRank, Seq<u8>), b: (HandRank, Seq<u8>))
    ensures
        hand_cmp(a, b) == std::cmp::Ordering::Less <==> hand_cmp(b, a)
            == std::cmp::Ordering::Greater,
        hand_cmp(a, b) == std::cmp::Ordering::Equal <==> hand_cmp(b, a)
            == std::cmp::Ordering::Equal,
        hand_cmp(a, b) == std::cmp::Ordering::Equal ==> a.0.spec_strength() == b.0.spec_strength()
            && a.1 == b.1,
{
    lemma_lex_cmp_reverse(a.1, b.1);
}

/// Every hand is at most as strong as itself.
pub proof fn lemma_hand_le_reflexive(a: (HandRank, Seq<u8>))
    ensures
        hand_le(a, a),
{
    lemma_lex_cmp_reflexive(a.1);
}

/// The order of hands is transitive.
pub proof fn lemma_hand_le_transitive(
    a: (HandRank, Seq<u8>),
    b: (HandRank, Seq<u8>),
    c: (HandRank, Seq<u8>),
)
    requires
        hand_le(a, b),
        hand_le(b, c),
    ensures
        hand_le(a, c),
{
    if a.0.spec_strength() == b.0.spec_strength() && b.0.spec_strength() == c.0.spec_strength() {
        lemma_lex_cmp_transitive(a.1, b.1, c.1);
    }
}

/// Two hands that evaluate equally strong have the same category and key: a
/// royal flush and a straight flush, though of one strength, never compare
/// Equal, as their high cards differ.
pub proof fn lemma_equal_strength_same_evaluation(h1: Seq<Card>, h2: Seq<Card>)
    requires
        hand_le(evaluate_spec(h1), evaluate_spec(h2)),
        hand_le(evaluate_spec(h2), evaluate_spec(h1)),
    ensures
        evaluate_spec(h1) == evaluate_spec(h2),
{
    let e1 = evaluate_spec(h1);
    let e2 = evaluate_spec(h2);
    lemma_hand_cmp_reverse(e1, e2);
    assert(hand_cmp(e1, e2) == std::cmp::Ordering::Equal);
    assert(e1.1 == e2.1);
    if e1.0 != e2.0 {
        assert(e1.1[0] == e2.1[0]);
    }
}

} // verus!
