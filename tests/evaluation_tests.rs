use std::cmp::Ordering;

use rust_poker::{
    best_hand, classify, compare, compare_hands, evaluate, get_next_card_type,
    get_next_face_character, is_same_suit, rank_successor, winners, Card, CardType,
    EvaluatedHand, FaceCharacter, HandRank, InvalidPoolSize, Suit,
};

fn card(suit: Suit, rank: u8) -> Card {
    Card::new(suit, rank).unwrap()
}

fn hand_of(cards: [(Suit, u8); 5]) -> [Card; 5] {
    [
        card(cards[0].0, cards[0].1),
        card(cards[1].0, cards[1].1),
        card(cards[2].0, cards[2].1),
        card(cards[3].0, cards[3].1),
        card(cards[4].0, cards[4].1),
    ]
}

fn evaluated(category: HandRank, tiebreak: Vec<u8>) -> EvaluatedHand {
    EvaluatedHand { category, tiebreak }
}

#[test]
fn royal_flush_in_clubs() {
    let hand = hand_of([
        (Suit::Clubs, 10),
        (Suit::Clubs, 11),
        (Suit::Clubs, 12),
        (Suit::Clubs, 13),
        (Suit::Clubs, 14),
    ]);
    assert_eq!(classify(hand), evaluated(HandRank::RoyalFlush, vec![14]));
}

#[test]
fn straight_flush_to_eight() {
    let hand = hand_of([
        (Suit::Spades, 4),
        (Suit::Spades, 5),
        (Suit::Spades, 6),
        (Suit::Spades, 7),
        (Suit::Spades, 8),
    ]);
    assert_eq!(classify(hand), evaluated(HandRank::StraightFlush, vec![8]));
}

#[test]
fn four_tens_with_ace_kicker() {
    let hand = hand_of([
        (Suit::Clubs, 10),
        (Suit::Diamonds, 10),
        (Suit::Spades, 10),
        (Suit::Hearts, 10),
        (Suit::Clubs, 14),
    ]);
    assert_eq!(classify(hand), evaluated(HandRank::FourOfAKind, vec![10, 14]));
}

#[test]
fn tens_full_of_aces() {
    let hand = hand_of([
        (Suit::Clubs, 10),
        (Suit::Diamonds, 10),
        (Suit::Spades, 10),
        (Suit::Hearts, 14),
        (Suit::Clubs, 14),
    ]);
    assert_eq!(classify(hand), evaluated(HandRank::FullHouse, vec![10, 14]));
}

#[test]
fn best_hand_finds_spade_flush_in_seven() {
    let pool = vec![
        card(Suit::Spades, 2),
        card(Suit::Spades, 3),
        card(Suit::Spades, 5),
        card(Suit::Spades, 6),
        card(Suit::Spades, 8),
        card(Suit::Diamonds, 13),
        card(Suit::Diamonds, 2),
    ];
    let best = best_hand(&pool).unwrap();
    assert_eq!(best, evaluated(HandRank::Flush, vec![8, 6, 5, 3, 2]));
}

#[test]
fn equal_pairs_split_the_pot() {
    let shared = vec![
        card(Suit::Hearts, 9),
        card(Suit::Clubs, 9),
        card(Suit::Spades, 2),
        card(Suit::Diamonds, 4),
        card(Suit::Hearts, 13),
    ];
    let mut first = vec![card(Suit::Clubs, 3), card(Suit::Diamonds, 7)];
    first.extend(shared.iter().copied());
    let mut second = vec![card(Suit::Spades, 3), card(Suit::Hearts, 7)];
    second.extend(shared.iter().copied());
    let a = best_hand(&first).unwrap();
    let b = best_hand(&second).unwrap();
    assert_eq!(a, evaluated(HandRank::Pair, vec![9, 13, 7, 4]));
    assert_eq!(a, b);
    assert_eq!(compare_hands(&a, &b), Ordering::Equal);
    assert_eq!(winners(&[a, b]), vec![0, 1]);
}

#[test]
fn stronger_hand_wins_outright() {
    let pair = evaluated(HandRank::Pair, vec![9, 13, 7, 4]);
    let two_pair = evaluated(HandRank::TwoPair, vec![9, 4, 13]);
    let lower_pair = evaluated(HandRank::Pair, vec![9, 13, 7, 3]);
    assert_eq!(winners(&[pair.clone(), two_pair.clone(), lower_pair.clone()]), vec![1]);
    assert_eq!(winners(&[pair, lower_pair]), vec![0]);
    assert_eq!(winners(&[]), Vec::<usize>::new());
}

#[test]
fn royal_flush_ties_straight_flush_in_strength_only() {
    let royal = evaluated(HandRank::RoyalFlush, vec![14]);
    let king_high = evaluated(HandRank::StraightFlush, vec![13]);
    assert_eq!(HandRank::RoyalFlush.strength(), HandRank::StraightFlush.strength());
    assert_eq!(compare_hands(&royal, &king_high), Ordering::Greater);
    assert_eq!(compare_hands(&king_high, &royal), Ordering::Less);
}

#[test]
fn every_five_of_seven_classifies() {
    let pool = [
        card(Suit::Hearts, 2),
        card(Suit::Clubs, 9),
        card(Suit::Spades, 9),
        card(Suit::Hearts, 11),
        card(Suit::Diamonds, 12),
        card(Suit::Hearts, 13),
        card(Suit::Hearts, 14),
    ];
    let mut count = 0;
    for a in 0..7 {
        for b in a + 1..7 {
            for c in b + 1..7 {
                for d in c + 1..7 {
                    for e in d + 1..7 {
                        let hand = [pool[a], pool[b], pool[c], pool[d], pool[e]];
                        let result = classify(hand);
                        assert!(!result.tiebreak.is_empty());
                        count += 1;
                    }
                }
            }
        }
    }
    assert_eq!(count, 21);
    assert_eq!(best_hand(&pool).unwrap(), evaluated(HandRank::Pair, vec![9, 14, 13, 12]));
}

#[test]
fn classification_is_repeatable() {
    let hand = hand_of([
        (Suit::Clubs, 3),
        (Suit::Diamonds, 3),
        (Suit::Spades, 8),
        (Suit::Hearts, 8),
        (Suit::Clubs, 12),
    ]);
    assert_eq!(classify(hand), classify(hand));
    assert_eq!(classify(hand), evaluated(HandRank::TwoPair, vec![8, 3, 12]));
    let pool = vec![hand[0], hand[1], hand[2], hand[3], hand[4], card(Suit::Hearts, 2)];
    assert_eq!(best_hand(&pool), best_hand(&pool));
}

#[test]
fn higher_kicker_is_not_weaker() {
    let low = hand_of([
        (Suit::Clubs, 5),
        (Suit::Diamonds, 5),
        (Suit::Spades, 2),
        (Suit::Hearts, 9),
        (Suit::Clubs, 13),
    ]);
    let mut high = low;
    high[2] = card(Suit::Spades, 10);
    let a = classify(low);
    let b = classify(high);
    assert_eq!(b, evaluated(HandRank::Pair, vec![5, 13, 10, 9]));
    assert_eq!(compare_hands(&a, &b), Ordering::Less);
    let mut paired = low;
    paired[2] = card(Suit::Spades, 9);
    assert_eq!(classify(paired), evaluated(HandRank::TwoPair, vec![9, 5, 13]));
}

#[test]
fn order_of_cards_does_not_matter() {
    let hand = hand_of([
        (Suit::Clubs, 7),
        (Suit::Diamonds, 14),
        (Suit::Spades, 7),
        (Suit::Hearts, 7),
        (Suit::Clubs, 4),
    ]);
    let shuffled = [hand[4], hand[1], hand[3], hand[0], hand[2]];
    assert_eq!(classify(hand), classify(shuffled));
    assert_eq!(classify(hand), evaluated(HandRank::ThreeOfAKind, vec![7, 14, 4]));
    let pool = vec![hand[0], hand[1], hand[2], hand[3], hand[4], card(Suit::Hearts, 4)];
    let reordered = vec![pool[5], pool[2], pool[0], pool[4], pool[1], pool[3]];
    assert_eq!(best_hand(&pool), best_hand(&reordered));
    assert_eq!(best_hand(&pool).unwrap(), evaluated(HandRank::FullHouse, vec![7, 4]));
}

#[test]
fn wheel_is_not_a_straight() {
    let hand = hand_of([
        (Suit::Clubs, 14),
        (Suit::Diamonds, 2),
        (Suit::Spades, 3),
        (Suit::Hearts, 4),
        (Suit::Clubs, 5),
    ]);
    assert_eq!(classify(hand), evaluated(HandRank::HighCard, vec![14, 5, 4, 3, 2]));
}

#[test]
fn straight_reports_its_high_card() {
    let hand = hand_of([
        (Suit::Clubs, 9),
        (Suit::Diamonds, 10),
        (Suit::Spades, 11),
        (Suit::Hearts, 12),
        (Suit::Clubs, 13),
    ]);
    assert_eq!(classify(hand), evaluated(HandRank::Straight, vec![13]));
}

#[test]
fn slice_evaluation_matches_array_classification() {
    let hand = hand_of([
        (Suit::Hearts, 2),
        (Suit::Hearts, 7),
        (Suit::Hearts, 4),
        (Suit::Hearts, 13),
        (Suit::Hearts, 11),
    ]);
    assert_eq!(evaluate(&hand[..]), classify(hand));
    assert_eq!(classify(hand), evaluated(HandRank::Flush, vec![13, 11, 7, 4, 2]));
}

#[test]
fn pool_size_outside_five_to_seven_is_rejected() {
    let cards: Vec<Card> = (2..10).map(|r| card(Suit::Hearts, r)).collect();
    assert_eq!(best_hand(&cards[..4]), Err(InvalidPoolSize { size: 4 }));
    assert_eq!(best_hand(&cards[..8]), Err(InvalidPoolSize { size: 8 }));
    assert_eq!(best_hand(&[]), Err(InvalidPoolSize { size: 0 }));
    assert!(best_hand(&cards[..5]).is_ok());
    assert!(best_hand(&cards[..7]).is_ok());
}

#[test]
fn five_card_pool_is_its_own_best_hand() {
    let hand = hand_of([
        (Suit::Clubs, 6),
        (Suit::Diamonds, 6),
        (Suit::Spades, 12),
        (Suit::Hearts, 3),
        (Suit::Clubs, 2),
    ]);
    assert_eq!(best_hand(&hand).unwrap(), classify(hand));
    assert_eq!(classify(hand), evaluated(HandRank::Pair, vec![6, 12, 3, 2]));
}

#[test]
fn cards_compare_by_rank_only() {
    let a = card(Suit::Hearts, 9);
    let b = card(Suit::Spades, 9);
    let c = card(Suit::Hearts, 12);
    assert_eq!(compare(&a, &b), Ordering::Equal);
    assert_eq!(compare(&a, &c), Ordering::Less);
    assert_eq!(compare(&c, &b), Ordering::Greater);
}

#[test]
fn same_suit_check() {
    let flush = [card(Suit::Hearts, 2), card(Suit::Hearts, 9), card(Suit::Hearts, 14)];
    let mixed = [card(Suit::Hearts, 2), card(Suit::Hearts, 9), card(Suit::Clubs, 14)];
    assert!(is_same_suit(&flush));
    assert!(!is_same_suit(&mixed));
    assert!(is_same_suit(&flush[..1]));
}

#[test]
fn rank_successors() {
    assert_eq!(rank_successor(2), Some(3));
    assert_eq!(rank_successor(10), Some(11));
    assert_eq!(rank_successor(14), None);
    assert_eq!(
        get_next_card_type(&CardType::Number { number: 10 }),
        Some(CardType::Face { face_character: FaceCharacter::Jack })
    );
    assert_eq!(
        get_next_card_type(&CardType::Number { number: 4 }),
        Some(CardType::Number { number: 5 })
    );
    assert_eq!(get_next_card_type(&CardType::Face { face_character: FaceCharacter::Ace }), None);
    assert_eq!(get_next_face_character(&FaceCharacter::Queen), Some(FaceCharacter::King));
    assert_eq!(get_next_face_character(&FaceCharacter::Ace), None);
}

#[test]
fn card_ranks_and_construction() {
    assert_eq!(card(Suit::Clubs, 11).card_type, CardType::Face { face_character: FaceCharacter::Jack });
    assert_eq!(card(Suit::Clubs, 7).card_type, CardType::Number { number: 7 });
    assert_eq!(card(Suit::Clubs, 14).rank(), 14);
    assert_eq!(Card::new(Suit::Clubs, 1), None);
    assert_eq!(Card::new(Suit::Clubs, 15), None);
    assert_eq!(CardType::from_rank(13), Some(CardType::Face { face_character: FaceCharacter::King }));
}
