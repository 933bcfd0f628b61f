use blackjack::card::Card;
use blackjack::card::CardType;
use blackjack::card::CardValue;
use blackjack::card::score_of_hand;
use blackjack::game::Game;
use blackjack::game::GameError;
use blackjack::game::GameState;
use blackjack::game::generate_deck;
use blackjack::player::Dealer;
use blackjack::player::Handed;
use blackjack::player::Player;
use blackjack::player::PlayerAction;
use blackjack::player::PlayerState;

fn card(t: CardType, v: CardValue) -> Card {
    Card::new(t, v)
}

fn all_suits() -> Vec<CardType> {
    vec![CardType::Spades, CardType::Hearts, CardType::Diamonds, CardType::Clubs]
}

fn all_values() -> Vec<CardValue> {
    vec![
        CardValue::Ace,
        CardValue::Two,
        CardValue::Three,
        CardValue::Four,
        CardValue::Five,
        CardValue::Six,
        CardValue::Seven,
        CardValue::Eight,
        CardValue::Nine,
        CardValue::Ten,
        CardValue::Jack,
        CardValue::Queen,
        CardValue::King,
    ]
}

#[test]
fn generated_deck_has_every_card_once() {
    let deck = generate_deck();
    assert_eq!(deck.len(), 52);
    for t in all_suits() {
        for v in all_values() {
            let n = deck.iter().filter(|c| c.card_type == t && c.card_value == v).count();
            assert_eq!(n, 1);
        }
    }
}

#[test]
fn score_ignores_order() {
    let a = vec![
        card(CardType::Spades, CardValue::King),
        card(CardType::Hearts, CardValue::Ace),
        card(CardType::Clubs, CardValue::Four),
    ];
    let b = vec![
        card(CardType::Clubs, CardValue::Four),
        card(CardType::Spades, CardValue::King),
        card(CardType::Hearts, CardValue::Ace),
    ];
    assert_eq!(score_of_hand(&a), score_of_hand(&b));
    assert_eq!(score_of_hand(&a), 25);
}

#[test]
fn score_fixed_values() {
    let ace = vec![card(CardType::Clubs, CardValue::Ace)];
    assert_eq!(score_of_hand(&ace), 11);
    let king_queen = vec![
        card(CardType::Spades, CardValue::King),
        card(CardType::Hearts, CardValue::Queen),
    ];
    assert_eq!(score_of_hand(&king_queen), 20);
    let ace_king = vec![
        card(CardType::Clubs, CardValue::Ace),
        card(CardType::Diamonds, CardValue::King),
    ];
    assert_eq!(score_of_hand(&ace_king), 21);
}

#[test]
fn value_of_card_mapping() {
    let g = Game::new(Vec::new());
    assert_eq!(g.value_of_card(CardValue::Ace, CardType::Spades), 11);
    assert_eq!(g.value_of_card(CardValue::Two, CardType::Hearts), 2);
    assert_eq!(g.value_of_card(CardValue::Nine, CardType::Clubs), 9);
    assert_eq!(g.value_of_card(CardValue::Ten, CardType::Diamonds), 10);
    assert_eq!(g.value_of_card(CardValue::Jack, CardType::Spades), 10);
    assert_eq!(g.value_of_card(CardValue::Queen, CardType::Spades), 10);
    assert_eq!(g.value_of_card(CardValue::King, CardType::Spades), 10);
}

#[test]
fn init_deals_in_one_pass() {
    // Deck as a vector, bottom first; a draw takes the last element.
    let deck = vec![
        card(CardType::Spades, CardValue::Two),
        card(CardType::Spades, CardValue::Three),
        card(CardType::Spades, CardValue::Four),
        card(CardType::Spades, CardValue::Five),
        card(CardType::Spades, CardValue::Six),
    ];
    let mut g = Game::new(deck);
    g.add_player(Player::new("one"));
    g.add_player(Player::new("two"));
    assert!(g.init().is_ok());
    // Two players and the dealer take the top three cards; the dealer
    // receives the first card drawn, the players theirs in reverse draw
    // order.
    assert_eq!(g.player_at(0).hand, vec![card(CardType::Spades, CardValue::Four)]);
    assert_eq!(g.player_at(1).hand, vec![card(CardType::Spades, CardValue::Five)]);
    assert_eq!(g.dealer().hand, vec![card(CardType::Spades, CardValue::Six)]);
}

#[test]
fn init_on_short_deck_fails() {
    let deck = vec![card(CardType::Spades, CardValue::Two)];
    let mut g = Game::new(deck);
    g.add_player(Player::new("one"));
    assert_eq!(g.init(), Err(GameError::DeckExhausted));
    // Nothing was dealt.
    assert_eq!(g.player_at(0).hand.len(), 0);
    assert_eq!(g.dealer().hand.len(), 0);
}

#[test]
fn pick_card_on_empty_deck_fails() {
    let mut g = Game::new(Vec::new());
    assert_eq!(g.pick_card(), Err(GameError::DeckExhausted));
}

#[test]
fn pick_card_takes_the_top() {
    let mut g = Game::new(vec![
        card(CardType::Hearts, CardValue::Two),
        card(CardType::Hearts, CardValue::Three),
    ]);
    assert_eq!(g.pick_card(), Ok(card(CardType::Hearts, CardValue::Three)));
    assert_eq!(g.pick_card(), Ok(card(CardType::Hearts, CardValue::Two)));
    assert_eq!(g.pick_card(), Err(GameError::DeckExhausted));
}

#[test]
fn fixed_round_stand_resolves_against_dealer() {
    let deck = vec![
        card(CardType::Spades, CardValue::Seven),
        card(CardType::Diamonds, CardValue::Ten),
        card(CardType::Clubs, CardValue::Ace),
        card(CardType::Hearts, CardValue::Nine),
    ];
    let mut g = Game::new(deck);
    g.add_player(Player::new("one"));
    assert!(g.init().is_ok());
    // The player received the Ace of Clubs (score 11), the dealer the
    // Nine of Hearts (score 9).
    assert_eq!(g.player_at(0).hand, vec![card(CardType::Clubs, CardValue::Ace)]);
    assert_eq!(score_of_hand(&g.player_at(0).hand), 11);
    assert_eq!(g.dealer().hand, vec![card(CardType::Hearts, CardValue::Nine)]);
    // The player stands on 11; the dealer, at 9, draws the Ten of
    // Diamonds and reaches 19; the standing player loses the comparison.
    assert!(g.play(&vec![PlayerAction::Stand]).is_ok());
    assert_eq!(g.player_at(0).state, PlayerState::Bust);
    assert_eq!(
        g.dealer().hand,
        vec![card(CardType::Hearts, CardValue::Nine), card(CardType::Diamonds, CardValue::Ten)]
    );
    assert_eq!(score_of_hand(&g.dealer().hand), 19);
    assert_eq!(g.get_game_state(), GameState::End);
    assert_eq!(g.rounds_played(), 1);
}

#[test]
fn hit_to_21_wins_immediately() {
    // After the deal the player holds an Ace and hits into the King,
    // reaching exactly 21.
    let deck = vec![
        card(CardType::Clubs, CardValue::Five),
        card(CardType::Spades, CardValue::King),
        card(CardType::Clubs, CardValue::Ace),
        card(CardType::Hearts, CardValue::Nine),
    ];
    let mut g = Game::new(deck);
    g.add_player(Player::new("one"));
    assert!(g.init().is_ok());
    assert_eq!(g.player_at(0).hand, vec![card(CardType::Clubs, CardValue::Ace)]);
    assert!(g.play(&vec![PlayerAction::Hit]).is_ok());
    assert_eq!(g.player_at(0).state, PlayerState::Win);
    assert_eq!(score_of_hand(&g.player_at(0).hand), 21);
    // A player at 21 is settled, so the round resolved at once.
    assert_eq!(g.get_game_state(), GameState::End);
}

#[test]
fn bust_is_terminal() {
    // The first player hits into a Queen (20), then into a King and busts
    // at 30; the second player keeps the round open, and a later step —
    // even one that asks the bust player to hit — leaves the bust player
    // alone.
    let deck = vec![
        card(CardType::Diamonds, CardValue::King),
        card(CardType::Clubs, CardValue::Ten),
        card(CardType::Spades, CardValue::Queen),
        card(CardType::Spades, CardValue::Ten),
        card(CardType::Diamonds, CardValue::Nine),
        card(CardType::Hearts, CardValue::King),
    ];
    let mut g = Game::new(deck);
    g.add_player(Player::new("one"));
    g.add_player(Player::new("two"));
    assert!(g.init().is_ok());
    assert_eq!(g.player_at(0).hand, vec![card(CardType::Spades, CardValue::Ten)]);
    assert_eq!(g.player_at(1).hand, vec![card(CardType::Diamonds, CardValue::Nine)]);
    assert_eq!(g.dealer().hand, vec![card(CardType::Hearts, CardValue::King)]);
    // Step 1: one draws the Queen (20); the dealer (10) draws the Ten.
    assert!(g.play(&vec![PlayerAction::Hit, PlayerAction::NoAction]).is_ok());
    assert_eq!(g.player_at(0).state, PlayerState::Playing);
    // Step 2: one draws the King and busts at 30; two is still playing,
    // so the round stays open.
    assert!(g.play(&vec![PlayerAction::Hit, PlayerAction::NoAction]).is_ok());
    assert_eq!(g.player_at(0).state, PlayerState::Bust);
    assert_eq!(g.get_game_state(), GameState::Playing);
    let hand_after_bust = g.player_at(0).hand.clone();
    // Step 3: the bust player is asked to hit, and must stay untouched;
    // two stands and resolves against the dealer's 20.
    assert!(g.play(&vec![PlayerAction::Hit, PlayerAction::Stand]).is_ok());
    assert_eq!(g.player_at(0).state, PlayerState::Bust);
    assert_eq!(g.player_at(0).hand, hand_after_bust);
    assert_eq!(g.player_at(1).state, PlayerState::Bust);
    assert_eq!(g.get_game_state(), GameState::End);
}

#[test]
fn dealer_draws_only_below_17() {
    // The dealer starts at 10, draws exactly one card per step while
    // below 17, and stops drawing once it reaches 17.
    let deck = vec![
        card(CardType::Clubs, CardValue::Two),
        card(CardType::Clubs, CardValue::Seven),
        card(CardType::Hearts, CardValue::Nine),
        card(CardType::Spades, CardValue::Ten),
    ];
    let mut g = Game::new(deck);
    g.add_player(Player::new("one"));
    assert!(g.init().is_ok());
    assert_eq!(g.dealer().hand, vec![card(CardType::Spades, CardValue::Ten)]);
    // Step 1: the player holds back; the dealer (10) draws the Seven and
    // reaches 17.
    assert!(g.play(&vec![PlayerAction::NoAction]).is_ok());
    assert_eq!(g.dealer().hand.len(), 2);
    assert_eq!(score_of_hand(&g.dealer().hand), 17);
    assert_eq!(g.get_game_state(), GameState::Playing);
    // Step 2: at 17 the dealer draws nothing.
    assert!(g.play(&vec![PlayerAction::NoAction]).is_ok());
    assert_eq!(g.dealer().hand.len(), 2);
    assert_eq!(g.get_game_state(), GameState::Playing);
    // Step 3: the player stands at 9 and loses to 17; still no draw.
    assert!(g.play(&vec![PlayerAction::Stand]).is_ok());
    assert_eq!(g.dealer().hand.len(), 2);
    assert_eq!(g.player_at(0).state, PlayerState::Bust);
    assert_eq!(g.get_game_state(), GameState::End);
}

#[test]
fn standing_player_below_dealer_busts() {
    // One player busts by hitting; the other stands low and loses the
    // final comparison against the dealer's 18.
    let deck = vec![
        card(CardType::Clubs, CardValue::Two),
        card(CardType::Hearts, CardValue::King),
        card(CardType::Spades, CardValue::King),
        card(CardType::Diamonds, CardValue::Queen),
        card(CardType::Clubs, CardValue::Ten),
        card(CardType::Hearts, CardValue::Nine),
        card(CardType::Spades, CardValue::Eight),
    ];
    let mut g = Game::new(deck);
    g.add_player(Player::new("one"));
    g.add_player(Player::new("two"));
    assert!(g.init().is_ok());
    // one: Ten of Clubs; two: Nine of Hearts; dealer: Eight of Spades.
    // Step 1: one hits into the Queen (20); two stands; dealer (8) draws
    // the King (18).
    assert!(g.play(&vec![PlayerAction::Hit, PlayerAction::Stand]).is_ok());
    assert_eq!(g.get_game_state(), GameState::Playing);
    // Step 2: one hits into the King and busts at 30; two is standing;
    // the dealer is at 18 and draws nothing. All settled: two (9) loses
    // to 18.
    assert!(g.play(&vec![PlayerAction::Hit, PlayerAction::NoAction]).is_ok());
    assert_eq!(g.player_at(0).state, PlayerState::Bust);
    assert_eq!(g.player_at(1).state, PlayerState::Bust);
    assert_eq!(g.get_game_state(), GameState::End);
}

#[test]
fn dealer_bust_forces_wins_same_step() {
    // The dealer reaches 16, must draw again, and busts with a King; the
    // player — not bust — is forced to Win in that same step, and the
    // round ends there.
    let deck = vec![
        card(CardType::Clubs, CardValue::King),
        card(CardType::Hearts, CardValue::Six),
        card(CardType::Diamonds, CardValue::Nine),
        card(CardType::Spades, CardValue::Ten),
    ];
    let mut g = Game::new(deck);
    g.add_player(Player::new("one"));
    assert!(g.init().is_ok());
    // player: Nine of Diamonds; dealer: Ten of Spades.
    // Step 1: the player holds back; the dealer (10) draws the Six (16):
    // the round continues.
    assert!(g.play(&vec![PlayerAction::NoAction]).is_ok());
    assert_eq!(g.get_game_state(), GameState::Playing);
    assert_eq!(score_of_hand(&g.dealer().hand), 16);
    let rounds_before = g.rounds_played();
    // Step 2: the dealer (16) draws the King and busts at 26: the player,
    // still at 9, is forced to Win and the round ends in this step.
    assert!(g.play(&vec![PlayerAction::NoAction]).is_ok());
    assert_eq!(g.player_at(0).state, PlayerState::Win);
    assert_eq!(score_of_hand(&g.dealer().hand), 26);
    assert_eq!(g.get_game_state(), GameState::End);
    // The dealer-bust step returns at once, before the step counter.
    assert_eq!(g.rounds_played(), rounds_before);
}

#[test]
fn push_keeps_the_stand() {
    // Player and dealer both finish at 17: a tie leaves the player in
    // Stand.
    let deck = vec![
        card(CardType::Clubs, CardValue::Seven),
        card(CardType::Hearts, CardValue::Seven),
        card(CardType::Diamonds, CardValue::Ten),
        card(CardType::Spades, CardValue::Ten),
    ];
    let mut g = Game::new(deck);
    g.add_player(Player::new("one"));
    assert!(g.init().is_ok());
    // player: Ten of Diamonds; dealer: Ten of Spades.
    // Step 1: player hits into the Seven of Hearts (17); dealer (10)
    // draws the Seven of Clubs (17).
    assert!(g.play(&vec![PlayerAction::Hit]).is_ok());
    assert_eq!(g.get_game_state(), GameState::Playing);
    // Step 2: player stands at 17; dealer at 17 draws nothing; the tie
    // stands.
    assert!(g.play(&vec![PlayerAction::Stand]).is_ok());
    assert_eq!(g.player_at(0).state, PlayerState::Stand);
    assert_eq!(g.get_game_state(), GameState::End);
}

#[test]
fn play_after_end_changes_nothing() {
    let deck = vec![
        card(CardType::Clubs, CardValue::King),
        card(CardType::Hearts, CardValue::Seven),
        card(CardType::Diamonds, CardValue::Nine),
        card(CardType::Spades, CardValue::Ten),
    ];
    let mut g = Game::new(deck);
    g.add_player(Player::new("one"));
    assert!(g.init().is_ok());
    assert!(g.play(&vec![PlayerAction::Stand]).is_ok());
    assert_eq!(g.get_game_state(), GameState::End);
    let hand = g.player_at(0).hand.clone();
    let state = g.player_at(0).state;
    let dealer_hand = g.dealer().hand.clone();
    let rounds = g.rounds_played();
    assert_eq!(g.play(&vec![PlayerAction::Hit]), Err(GameError::RoundOver));
    assert_eq!(g.player_at(0).hand, hand);
    assert_eq!(g.player_at(0).state, state);
    assert_eq!(g.dealer().hand, dealer_hand);
    assert_eq!(g.rounds_played(), rounds);
    assert_eq!(g.get_game_state(), GameState::End);
}

#[test]
fn play_with_short_deck_fails_before_mutating() {
    let deck = vec![card(CardType::Spades, CardValue::Ten), card(CardType::Hearts, CardValue::Nine)];
    let mut g = Game::new(deck);
    g.add_player(Player::new("one"));
    assert!(g.init().is_ok());
    // The deck is now empty; the player asks to hit and the dealer (9)
    // would draw too: the step reports exhaustion and changes nothing.
    let hand = g.player_at(0).hand.clone();
    let dealer_hand = g.dealer().hand.clone();
    assert_eq!(g.play(&vec![PlayerAction::Hit]), Err(GameError::DeckExhausted));
    assert_eq!(g.player_at(0).hand, hand);
    assert_eq!(g.player_at(0).state, PlayerState::Playing);
    assert_eq!(g.dealer().hand, dealer_hand);
    assert_eq!(g.get_game_state(), GameState::Playing);
    assert_eq!(g.rounds_played(), 0);
}

#[test]
fn no_action_leaves_player_unchanged() {
    let deck = vec![
        card(CardType::Clubs, CardValue::Two),
        card(CardType::Diamonds, CardValue::Nine),
        card(CardType::Spades, CardValue::Ten),
    ];
    let mut g = Game::new(deck);
    g.add_player(Player::new("one"));
    assert!(g.init().is_ok());
    assert!(g.play(&vec![PlayerAction::NoAction]).is_ok());
    assert_eq!(g.player_at(0).state, PlayerState::Playing);
    assert_eq!(g.player_at(0).hand, vec![card(CardType::Diamonds, CardValue::Nine)]);
    assert_eq!(g.get_game_state(), GameState::Playing);
}

#[test]
fn new_game_and_registration() {
    let mut g = Game::new(Vec::new());
    assert_eq!(g.num_players(), 0);
    assert_eq!(g.get_game_state(), GameState::Playing);
    assert_eq!(g.rounds_played(), 0);
    let p = Player::new("one");
    assert_eq!(p.name, "one");
    assert_eq!(p.hand.len(), 0);
    assert_eq!(p.state, PlayerState::Playing);
    g.add_player(p);
    assert_eq!(g.num_players(), 1);
    assert_eq!(g.player_at(0).name, "one");
}

#[test]
fn handed_participants_count_and_grow() {
    let g = Game::new(Vec::new());
    let mut p = Player::new("one");
    p.add_card(card(CardType::Spades, CardValue::Seven));
    p.add_card(card(CardType::Hearts, CardValue::Ace));
    assert_eq!(p.count(&g), 18);
    assert_eq!(
        p.get_hand(),
        &vec![card(CardType::Spades, CardValue::Seven), card(CardType::Hearts, CardValue::Ace)]
    );
    let mut d = Dealer { hand: Vec::new() };
    assert_eq!(d.count(&g), 0);
    d.add_card(card(CardType::Clubs, CardValue::Queen));
    assert_eq!(d.count(&g), 10);
    assert_eq!(d.get_hand(), &vec![card(CardType::Clubs, CardValue::Queen)]);
}

#[test]
fn is_winner_and_is_bust() {
    let g = Game::new(Vec::new());
    let mut p = Player::new("one");
    p.hand.push(card(CardType::Clubs, CardValue::Ace));
    p.hand.push(card(CardType::Spades, CardValue::King));
    assert!(g.is_winner(&p));
    assert!(!g.is_bust(&p));
    p.hand.push(card(CardType::Hearts, CardValue::Two));
    assert!(!g.is_winner(&p));
    assert!(g.is_bust(&p));
}
