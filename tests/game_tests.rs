use rust_poker::{
    is_fold_command, is_fold_text, new_deck, Card, Chip, Config, Game, InvalidPoolSize, Round, Suit,
};

fn args(items: &[&str]) -> Vec<String> {
    items.iter().map(|s| s.to_string()).collect()
}

#[test]
fn config_reads_number_of_players() {
    assert_eq!(Config::new(&args(&["poker", "4"])).unwrap().number_of_players, 4);
    assert_eq!(Config::new(&args(&["poker", "+7"])).unwrap().number_of_players, 7);
    assert_eq!(Config::new(&args(&["poker", "255"])).unwrap().number_of_players, 255);
}

#[test]
fn config_rejects_missing_or_bad_argument() {
    assert!(Config::new(&args(&["poker"])).is_err());
    assert!(Config::new(&args(&["poker", "four"])).is_err());
    assert!(Config::new(&args(&["poker", "256"])).is_err());
    assert!(Config::new(&args(&["poker", " 4"])).is_err());
    assert!(Config::new(&args(&["poker", ""])).is_err());
}

#[test]
fn fold_command_ignores_surrounding_whitespace() {
    assert!(is_fold_command("f\n"));
    assert!(is_fold_command("  f  "));
    assert!(!is_fold_command("c\n"));
    assert!(!is_fold_command("fold"));
    assert!(is_fold_text("f"));
    assert!(!is_fold_text(" f"));
}

fn sorted(mut cards: Vec<Card>) -> Vec<Card> {
    cards.sort();
    cards
}

#[test]
fn deck_holds_each_card_once() {
    let deck = new_deck();
    assert_eq!(deck.len(), 52);
    let mut unique = sorted(deck.clone());
    unique.dedup();
    assert_eq!(unique.len(), 52);
    assert!(deck.iter().all(|c| (2..=14).contains(&c.rank())));
}

#[test]
fn game_needs_two_players() {
    assert!(Game::new(&1).is_err());
    assert!(Game::new(&0).is_err());
    let game = Game::new(&3).unwrap();
    assert_eq!(game.players.len(), 3);
    assert_eq!(game.cards.len(), 52);
    assert_eq!(game.round, Round::PreFlop);
    assert_eq!(game.players[0].chips, vec![Chip::One, Chip::Five, Chip::TwentyFive, Chip::Fifty]);
    assert!(!game.is_valid());
}

#[test]
fn shuffle_keeps_the_cards() {
    let mut game = Game::new(&2).unwrap();
    let unshuffled = game.cards.clone();
    game.shuffle_cards();
    assert_eq!(sorted(game.cards.clone()), sorted(unshuffled.clone()));
    // The chance that 52 cards come back in their first order is 1 in 52!.
    assert_ne!(game.cards, unshuffled);
}

#[test]
fn dealing_gives_two_cards_from_the_top() {
    let mut game = Game::new(&3).unwrap();
    let deck = game.cards.clone();
    game.deal_cards().unwrap();
    assert_eq!(game.cards.len(), 46);
    assert_eq!(game.players[0].cards, vec![deck[51], deck[50]]);
    assert_eq!(game.players[2].cards, vec![deck[47], deck[46]]);
    assert!(game.is_valid());
}

#[test]
fn dealing_from_a_short_deck_fails_without_change() {
    let mut game = Game::new(&30).unwrap();
    assert!(game.deal_cards().is_err());
    assert_eq!(game.cards.len(), 52);
    assert!(game.players.iter().all(|p| p.cards.is_empty()));
}

#[test]
fn rounds_reveal_three_then_one_then_one() {
    let mut game = Game::new(&2).unwrap();
    game.deal_cards().unwrap();
    let deck = game.cards.clone();
    game.reveal_shared_cards().unwrap();
    assert!(game.shared_cards.is_empty());
    assert!(game.advance_round());
    assert_eq!(game.round, Round::Flop);
    game.reveal_shared_cards().unwrap();
    assert_eq!(game.shared_cards, vec![deck[47], deck[46], deck[45]]);
    assert!(game.advance_round());
    game.reveal_shared_cards().unwrap();
    assert!(game.advance_round());
    assert_eq!(game.round, Round::River);
    game.reveal_shared_cards().unwrap();
    assert_eq!(game.shared_cards.len(), 5);
    assert!(!game.advance_round());
    assert_eq!(game.round, Round::River);
    let pool = game.player_pool(1);
    assert_eq!(pool.len(), 7);
    assert_eq!(pool[0], game.players[1].cards[0]);
    assert_eq!(pool[6], game.shared_cards[4]);
}

#[test]
fn folds_are_recorded() {
    let mut game = Game::new(&2).unwrap();
    assert!(!game.has_folded(1));
    game.fold_player(1);
    assert!(game.has_folded(1));
    assert!(!game.has_folded(0));
}

fn card(suit: Suit, rank: u8) -> Card {
    Card::new(suit, rank).unwrap()
}

fn table(hands: Vec<Vec<Card>>, shared: Vec<Card>) -> Game {
    let mut game = Game::new(&(hands.len() as u8)).unwrap();
    for (i, cards) in hands.into_iter().enumerate() {
        game.players[i].cards = cards;
    }
    game.shared_cards = shared;
    game
}

#[test]
fn showdown_names_the_strongest_player() {
    let shared = vec![
        card(Suit::Hearts, 9),
        card(Suit::Clubs, 9),
        card(Suit::Spades, 2),
        card(Suit::Diamonds, 4),
        card(Suit::Hearts, 13),
    ];
    let game = table(
        vec![
            vec![card(Suit::Clubs, 3), card(Suit::Diamonds, 7)],
            vec![card(Suit::Spades, 13), card(Suit::Hearts, 5)],
            vec![card(Suit::Spades, 3), card(Suit::Hearts, 7)],
        ],
        shared,
    );
    assert_eq!(game.showdown(), Ok(vec![1]));
}

#[test]
fn showdown_splits_equal_hands_and_skips_folds() {
    let shared = vec![
        card(Suit::Hearts, 9),
        card(Suit::Clubs, 9),
        card(Suit::Spades, 2),
        card(Suit::Diamonds, 4),
        card(Suit::Hearts, 13),
    ];
    let mut game = table(
        vec![
            vec![card(Suit::Clubs, 3), card(Suit::Diamonds, 7)],
            vec![card(Suit::Spades, 13), card(Suit::Hearts, 5)],
            vec![card(Suit::Spades, 3), card(Suit::Hearts, 7)],
        ],
        shared,
    );
    game.fold_player(1);
    assert_eq!(game.showdown(), Ok(vec![0, 2]));
}

#[test]
fn showdown_before_the_flop_has_no_hands() {
    let mut game = Game::new(&2).unwrap();
    game.deal_cards().unwrap();
    assert_eq!(game.showdown(), Err(InvalidPoolSize { size: 2 }));
}
