use vstd::prelude::*;

use rand::seq::SliceRandom;
use std::collections::HashSet;
use vstd::string::StrSliceExecFns;

use crate::best::{best_hand, is_best_hand, is_winner, winners, InvalidPoolSize, HAND_SIZE, MAX_POOL_SIZE};
use crate::card::{all_valid, lemma_card_type_of_own_rank, Card, Suit, HIGHEST_RANK, LOWEST_RANK};
use crate::hand::{hand_le, EvaluatedHand, HandRank};

verus! {

broadcast use {vstd::seq_lib::group_to_multiset_ensures, vstd::std_specs::hash::group_hash_axioms};

/// The settings a game starts from.
#[derive(Debug)]
pub struct Config {
    pub number_of_players: u8,
}

/// The value of a decimal digit character.
pub open spec fn digit_value(c: char) -> int {
    c as int - '0' as int
}

/// The value of a sequence of decimal digits.
pub open spec fn digits_value(d: Seq<char>) -> int
    decreases d.len(),
{
    if d.len() == 0 {
        0
    } else {
        digits_value(d.drop_last()) * 10 + digit_value(d.last())
    }
}

/// The number that `u8`'s `FromStr` reads from `s`: an optional `+`, then one
/// or more ASCII digits whose value is at most 255; anything else is refused.
pub open spec fn spec_parse_u8(s: Seq<char>) -> Option<u8> {
    let d = if s.len() > 0 && s[0] == '+' {
        s.drop_first()
    } else {
        s
    };
    if d.len() > 0 && (forall|i: int| 0 <= i < d.len() ==> '0' <= #[trigger] d[i] <= '9')
        && digits_value(d) <= u8::MAX {
        Some(digits_value(d) as u8)
    } else {
        None
    }
}

/// Relies on `str::parse::<u8>` (`u8`'s `FromStr`, radix 10): it accepts an
/// optional `+` followed by decimal digits whose value fits in a `u8`, and
/// nothing else (no whitespace, no `-`).
#[verifier::external_body]
fn parse_u8(s: &str) -> (r: Option<u8>)
    ensures
        r == spec_parse_u8(s@),
{
    s.parse::<u8>().ok()
}

impl Config {
    /// Reads the number of players from the second command-line argument.
    pub fn new(args: &[String]) -> (r: Result<Config, &'static str>)
        ensures
            args@.len() < 2 ==> r is Err,
            args@.len() >= 2 ==> (r is Ok <==> spec_parse_u8(args@[1]@) is Some),
            r matches Ok(c) ==> Some(c.number_of_players) == spec_parse_u8(args@[1]@),
    {
        if args.len() < 2 {
            return Err("not enough command line args");
        }
        match parse_u8(args[1].as_str()) {
            Some(number_of_players) => Ok(Config { number_of_players }),
            None => Err("couldn't parse number of players"),
        }
    }
}

/// Names what `str::trim` returns for the text `s`.
pub uninterp spec fn trimmed(s: Seq<char>) -> Seq<char>;

/// Relies on `str::trim`: the text without its leading and trailing
/// whitespace, a function of the text alone.
#[verifier::external_body]
fn trim(s: &str) -> (r: &str)
    ensures
        r@ == trimmed(s@),
{
    s.trim()
}

/// True iff the text is exactly the fold command `f`.
pub fn is_fold_text(t: &str) -> (r: bool)
    ensures
        r == (t@ == seq!['f']),
{
    let b = t.unicode_len() == 1 && t.get_char(0) == 'f';
    assert(b ==> t@ =~= seq!['f']);
    b
}

/// True iff a player's input line asks to fold: `f`, with any whitespace
/// around it.
pub fn is_fold_command(line: &str) -> (r: bool)
    ensures
        r == (trimmed(line@) == seq!['f']),
{
    is_fold_text(trim(line))
}

/// A chip of a player's stack or of the pot.
#[derive(Debug, Clone, Copy, PartialEq, Eq, Structural)]
pub enum Chip {
    One,
    Five,
    TwentyFive,
    Fifty,
}

/// The betting rounds, in the order they are played.
#[derive(Debug, Clone, Copy, PartialEq, Eq, Structural)]
pub enum Round {
    PreFlop,
    Flop,
    Turn,
    River,
}

impl Round {
    pub open spec fn spec_next(&self) -> Option<Round> {
        match self {
            Round::PreFlop => Some(Round::Flop),
            Round::Flop => Some(Round::Turn),
            Round::Turn => Some(Round::River),
            Round::River => None,
        }
    }

    /// The round that follows this one, or None after the river.
    #[verifier::when_used_as_spec(spec_next)]
    pub fn next(&self) -> (r: Option<Round>)
        ensures
            r == self.spec_next(),
    {
        match self {
            Round::PreFlop => Some(Round::Flop),
            Round::Flop => Some(Round::Turn),
            Round::Turn => Some(Round::River),
            Round::River => None,
        }
    }

    pub open spec fn spec_cards_revealed(&self) -> usize {
        match self {
            Round::PreFlop => 0,
            Round::Flop => 3,
            Round::Turn => 1,
            Round::River => 1,
        }
    }

    /// How many community cards are turned up when this round begins.
    #[verifier::when_used_as_spec(spec_cards_revealed)]
    pub fn cards_revealed(&self) -> (n: usize)
        ensures
            n == self.spec_cards_revealed(),
    {
        match self {
            Round::PreFlop => 0,
            Round::Flop => 3,
            Round::Turn => 1,
            Round::River => 1,
        }
    }
}

/// Relies on rand's `SliceRandom::shuffle` with `thread_rng`: it only swaps
/// elements, so the deck afterwards holds the same cards in some order.
#[verifier::external_body]
fn shuffle_deck(cards: &mut Vec<Card>)
    ensures
        final(cards)@.to_multiset() == old(cards)@.to_multiset(),
{
    cards.shuffle(&mut rand::thread_rng());
}

fn copy_cards(cards: &Vec<Card>) -> (r: Vec<Card>)
    ensures
        r@ == cards@,
{
    let mut r: Vec<Card> = Vec::new();
    let mut i: usize = 0;
    while i < cards.len()
        invariant
            i <= cards@.len(),
            r@ == cards@.subrange(0, i as int),
        decreases cards@.len() - i,
    {
        r.push(cards[i]);
        i = i + 1;
    }
    r
}

fn copy_chips(chips: &Vec<Chip>) -> (r: Vec<Chip>)
    ensures
        r@ == chips@,
{
    let mut r: Vec<Chip> = Vec::new();
    let mut i: usize = 0;
    while i < chips.len()
        invariant
            i <= chips@.len(),
            r@ == chips@.subrange(0, i as int),
        decreases chips@.len() - i,
    {
        r.push(chips[i]);
        i = i + 1;
    }
    r
}

/// A seat at the table: the player's private cards and chips.
#[derive(Debug)]
pub struct Player {
    pub cards: Vec<Card>,
    pub chips: Vec<Chip>,
}

/// The order of the suits when a deck is built.
pub open spec fn suit_index(s: Suit) -> int {
    match s {
        Suit::Hearts => 0,
        Suit::Diamonds => 1,
        Suit::Spades => 2,
        Suit::Clubs => 3,
    }
}

fn suit_at(i: usize) -> (s: Suit)
    requires
        i < 4,
    ensures
        suit_index(s) == i,
{
    if i == 0 {
        Suit::Hearts
    } else if i == 1 {
        Suit::Diamonds
    } else if i == 2 {
        Suit::Spades
    } else {
        Suit::Clubs
    }
}

pub const DECK_SIZE: usize = 52;

/// Players are told apart by a `u16` id, their seat number.
pub const MAX_PLAYERS: usize = 65536;

/// The 52 cards of a standard deck, each once.
pub open spec fn is_full_deck(cards: Seq<Card>) -> bool {
    &&& cards.len() == DECK_SIZE
    &&& all_valid(cards)
    &&& cards.no_duplicates()
    &&& forall|c: Card| c.is_valid() ==> cards.contains(c)
}

/// Builds a standard deck: for each suit, the ranks 2 to Ace.
pub fn new_deck() -> (cards: Vec<Card>)
    ensures
        is_full_deck(cards@),
{
    let mut cards: Vec<Card> = Vec::new();
    let mut s: usize = 0;
    while s < 4
        invariant
            s <= 4,
            cards@.len() == 13 * s,
            all_valid(cards@),
            cards@.no_duplicates(),
            forall|k: int| 0 <= k < cards@.len() ==> suit_index(#[trigger] cards@[k].suit) < s,
            forall|c: Card| c.is_valid() && suit_index(c.suit) < s ==> cards@.contains(c),
        decreases 4 - s,
    {
        let suit = suit_at(s);
        let mut r: u8 = LOWEST_RANK;
        while r <= HIGHEST_RANK
            invariant
                s < 4,
                suit_index(suit) == s,
                LOWEST_RANK <= r <= HIGHEST_RANK + 1,
                cards@.len() == 13 * s + r - LOWEST_RANK,
                all_valid(cards@),
                cards@.no_duplicates(),
                forall|k: int|
                    0 <= k < cards@.len() ==> suit_index(#[trigger] cards@[k].suit) < s || (
                    suit_index(cards@[k].suit) == s && cards@[k].spec_rank() < r),
                forall|c: Card|
                    c.is_valid() && (suit_index(c.suit) < s || (suit_index(c.suit) == s
                        && c.spec_rank() < r)) ==> cards@.contains(c),
            decreases HIGHEST_RANK + 1 - r,
        {
            if let Some(card) = Card::new(suit, r) {
                let ghost before = cards@;
                cards.push(card);
                proof {
                    lemma_card_type_of_own_rank(card.card_type);
                    assert forall|c: Card|
                        c.is_valid() && (suit_index(c.suit) < s || (suit_index(c.suit) == s
                            && c.spec_rank() < r + 1)) implies cards@.contains(c) by {
                        if suit_index(c.suit) == s && c.spec_rank() == r {
                            lemma_card_type_of_own_rank(c.card_type);
                            assert(c == card);
                            assert(cards@[before.len() as int] == card);
                        } else {
                            assert(before.contains(c));
                            let k = choose|k: int| 0 <= k < before.len() && before[k] == c;
                            assert(cards@[k] == c);
                        }
                    }
                    assert forall|i: int| 0 <= i < cards@.len() implies #[trigger] cards@[i].is_valid() by {
                        if i < before.len() {
                            assert(before[i].is_valid());
                        }
                    }
                }
            }
            r = r + 1;
        }
        s = s + 1;
    }
    proof {
        assert forall|c: Card| c.is_valid() implies cards@.contains(c) by {
            assert(suit_index(c.suit) < 4);
        }
    }
    cards
}

/// The state of a table: the deck still to deal, the players, the round, the
/// community cards, the pot and who has folded.
#[derive(Debug)]
pub struct Game {
    pub cards: Vec<Card>,
    pub players: Vec<Player>,
    pub round: Round,
    pub shared_cards: Vec<Card>,
    pub current_dealer: u16,
    pub current_pot: Vec<Chip>,
    pub small_blind: u16,
    pub big_blind: u16,
    pub folded_player_ids: HashSet<u16>,
}

/// The chips each player starts with.
pub open spec fn starting_chips() -> Seq<Chip> {
    seq![Chip::One, Chip::Five, Chip::TwentyFive, Chip::Fifty]
}

/// How many of the players hold cards.
pub open spec fn players_holding_cards(players: Seq<Player>) -> nat
    decreases players.len(),
{
    if players.len() == 0 {
        0
    } else {
        players_holding_cards(players.drop_last()) + if players.last().cards@.len() > 0 {
            1nat
        } else {
            0nat
        }
    }
}

impl Game {
    /// Every card in the game is a valid card.
    pub open spec fn wf(&self) -> bool {
        &&& self.players@.len() <= MAX_PLAYERS
        &&& all_valid(self.cards@)
        &&& all_valid(self.shared_cards@)
        &&& forall|i: int|
            0 <= i < self.players@.len() ==> all_valid(#[trigger] self.players@[i].cards@)
    }

    /// The dealer, the pot and the blinds are those of `other`.
    pub open spec fn same_stakes(&self, other: &Game) -> bool {
        &&& self.current_dealer == other.current_dealer
        &&& self.current_pot == other.current_pot
        &&& self.small_blind == other.small_blind
        &&& self.big_blind == other.big_blind
    }

    /// The cards player `i` may build a hand from: their own and the shared ones.
    pub open spec fn pool_of(&self, i: int) -> Seq<Card> {
        self.players@[i].cards@ + self.shared_cards@
    }

    /// A new table with a full deck and `num_players` players holding no
    /// cards and the starting chips; at least two players are needed.
    pub fn new(num_players: &u8) -> (r: Result<Game, &'static str>)
        ensures
            r is Err <==> *num_players < 2,
            r matches Ok(g) ==> {
                &&& g.wf()
                &&& is_full_deck(g.cards@)
                &&& g.players@.len() == *num_players
                &&& forall|i: int|
                    0 <= i < g.players@.len() ==> (#[trigger] g.players@[i]).cards@.len() == 0
                        && g.players@[i].chips@ == starting_chips()
                &&& g.round == Round::PreFlop
                &&& g.shared_cards@.len() == 0
                &&& g.current_dealer == 0
                &&& g.current_pot@.len() == 0
                &&& g.small_blind == 1
                &&& g.big_blind == 2
                &&& g.folded_player_ids@ == Set::<u16>::empty()
            },
    {
        let cards = new_deck();
        if *num_players < 2 {
            return Err("not enough players");
        }
        let mut players: Vec<Player> = Vec::new();
        let mut i: u8 = 0;
        while i < *num_players
            invariant
                i <= *num_players,
                players@.len() == i,
                forall|k: int|
                    0 <= k < players@.len() ==> (#[trigger] players@[k]).cards@.len() == 0
                        && players@[k].chips@ == starting_chips(),
            decreases *num_players - i,
        {
            let chips = vec![Chip::One, Chip::Five, Chip::TwentyFive, Chip::Fifty];
            assert(chips@ == starting_chips());
            players.push(Player { cards: Vec::new(), chips });
            i = i + 1;
        }
        Ok(
            Game {
                cards,
                players,
                round: Round::PreFlop,
                shared_cards: Vec::new(),
                current_dealer: 0,
                current_pot: Vec::new(),
                small_blind: 1,
                big_blind: 2,
                folded_player_ids: HashSet::new(),
            },
        )
    }

    /// Shuffles the deck into a random order; it holds the same cards.
    pub fn shuffle_cards(&mut self)
        requires
            old(self).wf(),
        ensures
            final(self).wf(),
            final(self).cards@.to_multiset() == old(self).cards@.to_multiset(),
            final(self).players == old(self).players,
            final(self).shared_cards == old(self).shared_cards,
            final(self).round == old(self).round,
            final(self).same_stakes(old(self)),
            final(self).folded_player_ids == old(self).folded_player_ids,
    {
        let ghost before = self.cards@;
        shuffle_deck(&mut self.cards);
        proof {
            assert forall|i: int| 0 <= i < self.cards@.len() implies #[trigger] self.cards@[i].is_valid() by {
                let c = self.cards@[i];
                vstd::seq_lib::to_multiset_contains(self.cards@, c);
                vstd::seq_lib::to_multiset_contains(before, c);
                let k = choose|k: int| 0 <= k < before.len() && before[k] == c;
                assert(before[k].is_valid());
            }
        }
    }

    /// Deals two cards from the top of the deck to each player in turn, or
    /// returns an error, changing nothing, when the deck holds too few cards.
    pub fn deal_cards(&mut self) -> (r: Result<(), &'static str>)
        requires
            old(self).wf(),
        ensures
            final(self).wf(),
            r is Err <==> old(self).cards@.len() < 2 * old(self).players@.len(),
            r is Err ==> *final(self) == *old(self),
            r is Ok ==> {
                let n = old(self).players@.len();
                let top = old(self).cards@.len() - 1;
                &&& final(self).cards@ == old(self).cards@.subrange(0, old(self).cards@.len() - 2 * n)
                &&& final(self).players@.len() == n
                &&& forall|i: int|
                    0 <= i < n ==> (#[trigger] final(self).players@[i]).cards@ == old(
                        self,
                    ).players@[i].cards@ + seq![old(self).cards@[top - 2 * i], old(self).cards@[top - 2 * i - 1]]
                        && final(self).players@[i].chips@ == old(self).players@[i].chips@
                &&& final(self).shared_cards == old(self).shared_cards
                &&& final(self).round == old(self).round
                &&& final(self).folded_player_ids == old(self).folded_player_ids
                &&& final(self).same_stakes(old(self))
            },
    {
        if (self.cards.len() as u128) < 2 * (self.players.len() as u128) {
            return Err("somehow ran out of cards");
        }
        let ghost deck = self.cards@;
        let ghost seats = self.players@;
        let ghost start = *self;
        let n = self.players.len();
        let mut dealt: Vec<Player> = Vec::new();
        let mut i: usize = 0;
        while i < n
            invariant
                n == seats.len() == self.players@.len(),
                self.players@ == seats,
                self.shared_cards == start.shared_cards,
                self.round == start.round,
                self.folded_player_ids == start.folded_player_ids,
                self.same_stakes(&start),
                all_valid(start.shared_cards@),
                2 * n <= deck.len(),
                i <= n,
                self.cards@ == deck.subrange(0, deck.len() - 2 * i),
                all_valid(deck),
                forall|k: int| 0 <= k < n ==> all_valid(#[trigger] seats[k].cards@),
                dealt@.len() == i,
                forall|k: int|
                    0 <= k < i ==> (#[trigger] dealt@[k]).cards@ == seats[k].cards@ + seq![
                        deck[deck.len() - 1 - 2 * k],
                        deck[deck.len() - 2 - 2 * k],
                    ] && dealt@[k].chips@ == seats[k].chips@,
            decreases n - i,
        {
            let first = self.cards.pop().unwrap();
            let second = self.cards.pop().unwrap();
            let mut cards = copy_cards(&self.players[i].cards);
            cards.push(first);
            cards.push(second);
            let chips = copy_chips(&self.players[i].chips);
            dealt.push(Player { cards, chips });
            proof {
                assert(self.cards@ == deck.subrange(0, deck.len() - 2 * (i + 1)));
            }
            i = i + 1;
        }
        self.players = dealt;
        proof {
            assert forall|k: int| 0 <= k < n implies all_valid(#[trigger] self.players@[k].cards@) by {
                let c = self.players@[k].cards@;
                assert forall|j: int| 0 <= j < c.len() implies #[trigger] c[j].is_valid() by {
                    if j < seats[k].cards@.len() {
                        assert(seats[k].cards@[j].is_valid());
                    } else if j == seats[k].cards@.len() {
                        assert(deck[deck.len() - 1 - 2 * k].is_valid());
                    } else {
                        assert(deck[deck.len() - 2 - 2 * k].is_valid());
                    }
                }
            }
            assert forall|j: int| 0 <= j < self.cards@.len() implies #[trigger] self.cards@[j].is_valid() by {
                assert(deck[j].is_valid());
            }
        }
        Ok(())
    }

    /// True iff more than one player holds cards.
    pub fn is_valid(&self) -> (r: bool)
        ensures
            r == (players_holding_cards(self.players@) > 1),
    {
        let mut holding: usize = 0;
        let mut i: usize = 0;
        while i < self.players.len()
            invariant
                i <= self.players@.len(),
                holding == players_holding_cards(self.players@.subrange(0, i as int)),
                holding <= i,
            decreases self.players@.len() - i,
        {
            proof {
                assert(self.players@.subrange(0, i + 1).drop_last() == self.players@.subrange(0, i as int));
            }
            if self.players[i].cards.len() > 0 {
                holding = holding + 1;
            }
            i = i + 1;
        }
        assert(self.players@.subrange(0, self.players@.len() as int) == self.players@);
        holding > 1
    }

    /// Turns up the community cards of the current round from the top of the
    /// deck, or returns an error, changing nothing, when the deck holds too few.
    pub fn reveal_shared_cards(&mut self) -> (r: Result<(), &'static str>)
        requires
            old(self).wf(),
        ensures
            final(self).wf(),
            r is Err <==> old(self).cards@.len() < old(self).round.spec_cards_revealed(),
            r is Err ==> *final(self) == *old(self),
            r is Ok ==> {
                let k = old(self).round.spec_cards_revealed() as int;
                let top = old(self).cards@.len() - 1;
                &&& final(self).cards@ == old(self).cards@.subrange(0, old(self).cards@.len() - k)
                &&& final(self).shared_cards@ == old(self).shared_cards@ + Seq::new(
                    k as nat,
                    |j: int| old(self).cards@[top - j],
                )
                &&& final(self).players == old(self).players
                &&& final(self).round == old(self).round
                &&& final(self).folded_player_ids == old(self).folded_player_ids
                &&& final(self).same_stakes(old(self))
            },
    {
        let k = self.round.cards_revealed();
        if self.cards.len() < k {
            return Err("somehow ran out of cards");
        }
        let ghost deck = self.cards@;
        let ghost shared = self.shared_cards@;
        let ghost start = *self;
        let mut j: usize = 0;
        while j < k
            invariant
                k <= deck.len(),
                j <= k,
                self.players == start.players,
                self.round == start.round,
                self.folded_player_ids == start.folded_player_ids,
                self.same_stakes(&start),
                self.cards@ == deck.subrange(0, deck.len() - j),
                self.shared_cards@ == shared + Seq::new(j as nat, |t: int| deck[deck.len() - 1 - t]),
            decreases k - j,
        {
            let c = self.cards.pop().unwrap();
            self.shared_cards.push(c);
            j = j + 1;
            assert(self.shared_cards@ == shared + Seq::new(j as nat, |t: int| deck[deck.len() - 1 - t]));
        }
        proof {
            assert forall|t: int| 0 <= t < self.shared_cards@.len() implies #[trigger] self.shared_cards@[t].is_valid() by {
                if t < shared.len() {
                    assert(shared[t].is_valid());
                } else {
                    assert(deck[deck.len() - 1 - (t - shared.len())].is_valid());
                }
            }
            assert forall|t: int| 0 <= t < self.cards@.len() implies #[trigger] self.cards@[t].is_valid() by {
                assert(deck[t].is_valid());
            }
        }
        Ok(())
    }

    /// Moves on to the next round; returns false, changing nothing, after the
    /// river.
    pub fn advance_round(&mut self) -> (more: bool)
        ensures
            more == old(self).round.spec_next() is Some,
            more ==> Some(final(self).round) == old(self).round.spec_next(),
            !more ==> final(self).round == old(self).round,
            final(self).cards == old(self).cards,
            final(self).players == old(self).players,
            final(self).shared_cards == old(self).shared_cards,
            final(self).folded_player_ids == old(self).folded_player_ids,
            final(self).same_stakes(old(self)),
    {
        match self.round.next() {
            Some(next) => {
                self.round = next;
                true
            },
            None => false,
        }
    }

    /// Records that `player` has folded.
    pub fn fold_player(&mut self, player: u16)
        ensures
            final(self).folded_player_ids@ == old(self).folded_player_ids@.insert(player),
            final(self).cards == old(self).cards,
            final(self).players == old(self).players,
            final(self).shared_cards == old(self).shared_cards,
            final(self).round == old(self).round,
            final(self).same_stakes(old(self)),
    {
        self.folded_player_ids.insert(player);
    }

    /// True iff `player` has folded.
    pub fn has_folded(&self, player: u16) -> (r: bool)
        ensures
            r == self.folded_player_ids@.contains(player),
    {
        self.folded_player_ids.contains(&player)
    }

    /// The cards player `i` may build a hand from: their own and the shared ones.
    pub fn player_pool(&self, i: usize) -> (pool: Vec<Card>)
        requires
            self.wf(),
            i < self.players@.len(),
        ensures
            pool@ == self.pool_of(i as int),
            all_valid(pool@),
    {
        let mut pool = copy_cards(&self.players[i].cards);
        let mut shared = copy_cards(&self.shared_cards);
        pool.append(&mut shared);
        proof {
            assert(all_valid(self.players@[i as int].cards@));
            assert forall|t: int| 0 <= t < pool@.len() implies #[trigger] pool@[t].is_valid() by {
                if t < self.players@[i as int].cards@.len() {
                    assert(self.players@[i as int].cards@[t].is_valid());
                } else {
                    assert(self.shared_cards@[t - self.players@[i as int].cards@.len()].is_valid());
                }
            }
        }
        pool
    }

    /// Player `i` is at the table and has not folded.
    pub open spec fn in_showdown(&self, i: int) -> bool {
        &&& 0 <= i < self.players@.len()
        &&& !self.folded_player_ids@.contains(i as u16)
    }

    /// `w` lists, in increasing order, the players still in the hand whose
    /// best hands, given by `best`, are the strongest, and `best` holds the
    /// best hand of each player still in the hand.
    pub open spec fn showdown_with(&self, w: Seq<usize>, best: Seq<(HandRank, Seq<u8>)>) -> bool {
        &&& best.len() == self.players@.len()
        &&& forall|i: int| #[trigger] self.in_showdown(i) ==> is_best_hand(self.pool_of(i), best[i])
        &&& forall|a: int, b: int| 0 <= a < b < w.len() ==> #[trigger] w[a] < #[trigger] w[b]
        &&& forall|k: int| 0 <= k < w.len() ==> self.in_showdown(#[trigger] w[k] as int)
        &&& forall|i: int|
            #![trigger w.contains(i as usize)]
            self.in_showdown(i) ==> (w.contains(i as usize) <==> forall|j: int|
                #[trigger] self.in_showdown(j) ==> hand_le(best[j], best[i]))
    }

    /// `w` lists, in increasing order, the players still in the hand whose
    /// best hands are the strongest.
    pub open spec fn is_showdown_result(&self, w: Seq<usize>) -> bool {
        exists|best: Seq<(HandRank, Seq<u8>)>| #[trigger] self.showdown_with(w, best)
    }

    /// Decides who wins: the best hand of each player who has not folded, and
    /// the players whose hands are the strongest, several for a split. Fails
    /// when a player's pool is not five to seven cards.
    pub fn showdown(&self) -> (r: Result<Vec<usize>, InvalidPoolSize>)
        requires
            self.wf(),
        ensures
            r is Err <==> exists|i: int|
                #[trigger] self.in_showdown(i) && (self.pool_of(i).len() < HAND_SIZE
                    || self.pool_of(i).len() > MAX_POOL_SIZE),
            r matches Ok(w) ==> self.is_showdown_result(w@),
    {
        let n = self.players.len();
        let mut seats: Vec<usize> = Vec::new();
        let mut hands: Vec<EvaluatedHand> = Vec::new();
        let ghost mut best: Seq<(HandRank, Seq<u8>)> = Seq::empty();
        let mut i: usize = 0;
        while i < n
            invariant
                n == self.players@.len(),
                self.wf(),
                i <= n,
                best.len() == i,
                seats@.len() == hands@.len(),
                forall|j: int|
                    0 <= j < i && #[trigger] self.in_showdown(j) ==> is_best_hand(self.pool_of(j), best[j])
                        && (self.pool_of(j).len() >= HAND_SIZE && self.pool_of(j).len() <= MAX_POOL_SIZE),
                forall|k: int| 0 <= k < seats@.len() ==> #[trigger] seats@[k] < i,
                forall|a: int, b: int| 0 <= a < b < seats@.len() ==> #[trigger] seats@[a] < #[trigger] seats@[b],
                forall|k: int|
                    0 <= k < seats@.len() ==> self.in_showdown(#[trigger] seats@[k] as int) && hands@[k]@
                        == best[seats@[k] as int],
                forall|j: int| 0 <= j < i && #[trigger] self.in_showdown(j) ==> seats@.contains(j as usize),
            decreases n - i,
        {
            if !self.has_folded(i as u16) {
                let pool = self.player_pool(i);
                match best_hand(pool.as_slice()) {
                    Ok(h) => {
                        proof {
                            best = best.push(h@);
                        }
                        let ghost before = seats@;
                        seats.push(i);
                        hands.push(h);
                        proof {
                            assert forall|j: int| 0 <= j <= i && #[trigger] self.in_showdown(j) implies seats@.contains(j as usize) by {
                                if j < i {
                                    let k = choose|k: int| 0 <= k < before.len() && before[k] == j as usize;
                                    assert(seats@[k] == j as usize);
                                } else {
                                    assert(seats@[before.len() as int] == i);
                                }
                            }
                        }
                    },
                    Err(e) => {
                        assert(self.in_showdown(i as int));
                        return Err(e);
                    },
                }
            } else {
                proof {
                    best = best.push((HandRank::HighCard, Seq::empty()));
                }
            }
            i = i + 1;
        }
        let wins = winners(hands.as_slice());
        let mut w: Vec<usize> = Vec::new();
        let mut t: usize = 0;
        while t < wins.len()
            invariant
                seats@.len() == hands@.len(),
                forall|k: int| 0 <= k < wins@.len() ==> #[trigger] wins@[k] < hands@.len(),
                t <= wins@.len(),
                w@.len() == t,
                forall|k: int| 0 <= k < t ==> #[trigger] w@[k] == seats@[wins@[k] as int],
            decreases wins@.len() - t,
        {
            w.push(seats[wins[t]]);
            t = t + 1;
        }
        proof {
            assert forall|a: int, b: int| 0 <= a < b < w@.len() implies #[trigger] w@[a] < #[trigger] w@[b] by {
                assert(wins@[a] < wins@[b]);
            }
            assert forall|k: int| 0 <= k < w@.len() implies self.in_showdown(#[trigger] w@[k] as int) by {
                assert(self.in_showdown(seats@[wins@[k] as int] as int));
            }
            assert forall|i: int| #[trigger] self.in_showdown(i) implies is_best_hand(self.pool_of(i), best[i]) by {}
            assert forall|p: int|
                #![trigger w@.contains(p as usize)]
                self.in_showdown(p) implies (w@.contains(p as usize) <==> forall|j: int|
                    #[trigger] self.in_showdown(j) ==> hand_le(best[j], best[p])) by {
                let kp = choose|k: int| 0 <= k < seats@.len() && seats@[k] == p as usize;
                assert(hands@[kp]@ == best[p]);
                if w@.contains(p as usize) {
                    let t = choose|t: int| 0 <= t < w@.len() && w@[t] == p as usize;
                    let k = wins@[t] as int;
                    assert(wins@.contains(wins@[t]));
                    if k != kp {
                        if k < kp {
                            assert(seats@[k] < seats@[kp]);
                        } else {
                            assert(seats@[kp] < seats@[k]);
                        }
                    }
                    assert(k == kp);
                    assert(is_winner(hands@, k));
                    assert forall|j: int| #[trigger] self.in_showdown(j) implies hand_le(best[j], best[p]) by {
                        let kj = choose|k: int| 0 <= k < seats@.len() && seats@[k] == j as usize;
                        assert(hand_le(hands@[kj]@, hands@[kp]@));
                    }
                }
                if forall|j: int| #[trigger] self.in_showdown(j) ==> hand_le(best[j], best[p]) {
                    assert forall|k: int| 0 <= k < hands@.len() implies hand_le(#[trigger] hands@[k]@, hands@[kp]@) by {
                        assert(self.in_showdown(seats@[k] as int));
                    }
                    assert(is_winner(hands@, kp));
                    assert(wins@.contains(kp as usize));
                    let t = choose|t: int| 0 <= t < wins@.len() && wins@[t] == kp as usize;
                    assert(w@[t] == p as usize);
                }
            }
            assert(self.showdown_with(w@, best));
        }
        Ok(w)
    }
}

} // verus!
