use vstd::prelude::*;

verus! {

/// The four suits of a standard deck. Suits carry no ranking weight.
#[derive(Debug, Clone, Copy, PartialEq, Eq, Structural, PartialOrd, Ord, Hash)]
pub enum Suit {
    Hearts,
    Diamonds,
    Spades,
    Clubs,
}

/// The court cards and the ace, in increasing rank.
#[derive(Debug, Clone, Copy, PartialEq, Eq, Structural, PartialOrd, Ord, Hash)]
pub enum FaceCharacter {
    Jack,
    Queen,
    King,
    Ace,
}

/// A card's face value. `Number` covers the pip cards 2 to 10, `Face` the rest;
/// both map onto the single rank scale 2..=14 given by `rank`.
///
/// The derived order places every `Number` below every `Face`, numbers by
/// value and faces Jack < Queen < King < Ace, which is the order of `rank`
/// on valid values.
#[derive(Debug, Clone, Copy, PartialEq, Eq, Structural, PartialOrd, Ord, Hash)]
pub enum CardType {
    Number { number: u8 },
    Face { face_character: FaceCharacter },
}

/// A playing card. The derived order compares `card_type` first, so cards
/// are ordered by rank; the suit only separates cards of equal rank, which
/// keeps the order consistent with `==`. `compare` is the rank-only order.
#[derive(Debug, Clone, Copy, PartialEq, Eq, Structural, PartialOrd, Ord, Hash)]
pub struct Card {
    pub card_type: CardType,
    pub suit: Suit,
}

pub const LOWEST_RANK: u8 = 2;

pub const HIGHEST_RANK: u8 = 14;

impl FaceCharacter {
    pub open spec fn spec_rank(&self) -> u8 {
        match self {
            FaceCharacter::Jack => 11,
            FaceCharacter::Queen => 12,
            FaceCharacter::King => 13,
            FaceCharacter::Ace => 14,
        }
    }

    /// The rank of a face card on the scale 11 (Jack) to 14 (Ace).
    #[verifier::when_used_as_spec(spec_rank)]
    pub fn rank(&self) -> (r: u8)
        ensures
            r == self.spec_rank(),
    {
        match self {
            FaceCharacter::Jack => 11,
            FaceCharacter::Queen => 12,
            FaceCharacter::King => 13,
            FaceCharacter::Ace => 14,
        }
    }
}

/// Will return the next face character, or None if the parameter is an Ace.
pub fn get_next_face_character(face: &FaceCharacter) -> (r: Option<FaceCharacter>)
    ensures
        *face == FaceCharacter::Ace <==> r is None,
        r matches Some(next) ==> next.spec_rank() == face.spec_rank() + 1,
{
    match face {
        FaceCharacter::Ace => None,
        FaceCharacter::King => Some(FaceCharacter::Ace),
        FaceCharacter::Queen => Some(FaceCharacter::King),
        FaceCharacter::Jack => Some(FaceCharacter::Queen),
    }
}

/// The card type of rank `r`, for `r` in 2..=14.
pub open spec fn card_type_of_rank(r: int) -> CardType {
    if r <= 10 {
        CardType::Number { number: r as u8 }
    } else if r == 11 {
        CardType::Face { face_character: FaceCharacter::Jack }
    } else if r == 12 {
        CardType::Face { face_character: FaceCharacter::Queen }
    } else if r == 13 {
        CardType::Face { face_character: FaceCharacter::King }
    } else {
        CardType::Face { face_character: FaceCharacter::Ace }
    }
}

/// A rank on the scale of the deck: 2 to 14, where 11 to 14 are Jack to Ace.
pub open spec fn is_rank(r: int) -> bool {
    LOWEST_RANK <= r <= HIGHEST_RANK
}

impl CardType {
    pub open spec fn spec_rank(&self) -> u8 {
        match self {
            CardType::Number { number } => *number,
            CardType::Face { face_character } => face_character.spec_rank(),
        }
    }

    /// A pip card holds a number from 2 to 10; every face is valid.
    pub open spec fn is_valid(self) -> bool {
        match self {
            CardType::Number { number } => 2 <= number <= 10,
            CardType::Face { .. } => true,
        }
    }

    /// The position of this card type on the linear rank scale.
    #[verifier::when_used_as_spec(spec_rank)]
    pub fn rank(&self) -> (r: u8)
        ensures
            r == self.spec_rank(),
    {
        match self {
            CardType::Number { number } => *number,
            CardType::Face { face_character } => face_character.rank(),
        }
    }

    /// The card type of a rank, or None when `r` is outside 2..=14.
    pub fn from_rank(r: u8) -> (t: Option<CardType>)
        ensures
            is_rank(r as int) <==> t is Some,
            t matches Some(ct) ==> ct == card_type_of_rank(r as int) && ct.is_valid()
                && ct.spec_rank() == r,
    {
        if r < LOWEST_RANK || r > HIGHEST_RANK {
            None
        } else if r <= 10 {
            Some(CardType::Number { number: r })
        } else if r == 11 {
            Some(CardType::Face { face_character: FaceCharacter::Jack })
        } else if r == 12 {
            Some(CardType::Face { face_character: FaceCharacter::Queen })
        } else if r == 13 {
            Some(CardType::Face { face_character: FaceCharacter::King })
        } else {
            Some(CardType::Face { face_character: FaceCharacter::Ace })
        }
    }
}

/// A valid card type is the one that its rank names.
pub proof fn lemma_card_type_of_own_rank(t: CardType)
    requires
        t.is_valid(),
    ensures
        is_rank(t.spec_rank() as int),
        card_type_of_rank(t.spec_rank() as int) == t,
{
}

/// The successor of a rank on the scale, or None for the Ace.
pub open spec fn spec_rank_successor(r: u8) -> Option<u8> {
    if r < HIGHEST_RANK {
        Some((r + 1) as u8)
    } else {
        None
    }
}

/// Returns the next higher rank, or None if `r` is the Ace (14).
#[verifier::when_used_as_spec(spec_rank_successor)]
pub fn rank_successor(r: u8) -> (s: Option<u8>)
    requires
        is_rank(r as int),
    ensures
        s == spec_rank_successor(r),
{
    if r < HIGHEST_RANK {
        Some(r + 1)
    } else {
        None
    }
}

/// The card type one rank above `card_type`, or None for the Ace.
pub fn get_next_card_type(card_type: &CardType) -> (r: Option<CardType>)
    requires
        card_type.is_valid(),
    ensures
        r is None <==> card_type.spec_rank() == HIGHEST_RANK,
        r matches Some(next) ==> next.is_valid() && next.spec_rank() == card_type.spec_rank() + 1
            && next == card_type_of_rank(card_type.spec_rank() + 1),
{
    match rank_successor(card_type.rank()) {
        None => None,
        Some(next) => CardType::from_rank(next),
    }
}

impl Card {
    pub open spec fn spec_rank(&self) -> u8 {
        self.card_type.spec_rank()
    }

    pub open spec fn is_valid(self) -> bool {
        self.card_type.is_valid()
    }

    /// This card's rank, 2 to 14.
    #[verifier::when_used_as_spec(spec_rank)]
    pub fn rank(&self) -> (r: u8)
        ensures
            r == self.spec_rank(),
    {
        self.card_type.rank()
    }

    /// The card of the given suit and rank, or None when `rank` is outside 2..=14.
    pub fn new(suit: Suit, rank: u8) -> (c: Option<Card>)
        ensures
            is_rank(rank as int) <==> c is Some,
            c matches Some(card) ==> card.is_valid() && card.suit == suit && card.spec_rank()
                == rank,
    {
        match CardType::from_rank(rank) {
            Some(card_type) => Some(Card { card_type, suit }),
            None => None,
        }
    }
}

/// Every card of the sequence is valid.
pub open spec fn all_valid(cards: Seq<Card>) -> bool {
    forall|i: int| 0 <= i < cards.len() ==> #[trigger] cards[i].is_valid()
}

/// The order of two cards by rank alone: cards of equal rank compare Equal
/// whatever their suits.
pub open spec fn spec_compare(a: Card, b: Card) -> std::cmp::Ordering {
    if a.spec_rank() < b.spec_rank() {
        std::cmp::Ordering::Less
    } else if a.spec_rank() > b.spec_rank() {
        std::cmp::Ordering::Greater
    } else {
        std::cmp::Ordering::Equal
    }
}

/// Compares two cards by rank only.
pub fn compare(a: &Card, b: &Card) -> (o: std::cmp::Ordering)
    ensures
        o == spec_compare(*a, *b),
{
    let ra = a.rank();
    let rb = b.rank();
    if ra < rb {
        std::cmp::Ordering::Less
    } else if ra > rb {
        std::cmp::Ordering::Greater
    } else {
        std::cmp::Ordering::Equal
    }
}

/// All cards of the sequence share one suit.
pub open spec fn same_suit(cards: Seq<Card>) -> bool {
    forall|a: Card, b: Card| cards.contains(a) && cards.contains(b) ==> a.suit == b.suit
}

/// True iff all cards share one suit.
pub fn is_same_suit(cards: &[Card]) -> (r: bool)
    requires
        cards@.len() > 0,
    ensures
        r == same_suit(cards@),
{
    let first = cards[0].suit;
    let mut i: usize = 1;
    while i < cards.len()
        invariant
            1 <= i <= cards@.len(),
            first == cards@[0].suit,
            forall|j: int| 0 <= j < i ==> #[trigger] cards@[j].suit == first,
        decreases cards@.len() - i,
    {
        if cards[i].suit != first {
            assert(cards@.contains(cards@[0]));
            assert(cards@.contains(cards@[i as int]));
            return false;
        }
        i = i + 1;
    }
    assert forall|a: Card, b: Card| cards@.contains(a) && cards@.contains(b) implies a.suit
        == b.suit by {
        let ia = choose|k: int| 0 <= k < cards@.len() && cards@[k] == a;
        let ib = choose|k: int| 0 <= k < cards@.len() && cards@[k] == b;
        assert(cards@[ia].suit == first);
        assert(cards@[ib].suit == first);
    }
    true
}

} // verus!
