use vstd::prelude::*;

use crate::card::Card;
use crate::card::CardType;
use crate::card::CardValue;
use crate::card::spec_card_value;
use crate::card::spec_score;
use crate::card::score_of_hand;
use crate::card::value_of;
use crate::player::Dealer;
use crate::player::Player;
use crate::player::PlayerAction;
use crate::player::PlayerState;
use crate::player::PlayerV;

verus! {

/// The state of a round: `End` is terminal and is never left.
#[derive(Debug, PartialEq, Eq, Structural, Clone, Copy)]
pub enum GameState {
    Playing,
    End,
}

/// An engine-internal violation surfaced to the driver.
#[derive(Debug, PartialEq, Eq, Structural, Clone, Copy)]
pub enum GameError {
    /// A draw was attempted with too few cards left in the deck.
    DeckExhausted,
    /// A step was attempted on a round that has already ended.
    RoundOver,
}

/// The round engine: it owns the deck, the dealer's hand and the players,
/// and advances the round one step at a time.
pub struct Game {
    players: Vec<Player>,
    dealer: Dealer,
    deck: Vec<Card>,
    game_state: GameState,
    rounds_played: u8,
}

/// The mathematical view of the engine. The top of the deck is its last
/// element: a draw removes `deck.last()`.
#[verifier::ext_equal]
pub struct GameV {
    pub players: Seq<PlayerV>,
    pub dealer_hand: Seq<Card>,
    pub deck: Seq<Card>,
    pub game_state: GameState,
    pub rounds_played: int,
}

impl View for Game {
    type V = GameV;

    closed spec fn view(&self) -> GameV {
        GameV {
            players: self.players@.map_values(|p: Player| p@),
            dealer_hand: self.dealer.hand@,
            deck: self.deck@,
            game_state: self.game_state,
            rounds_played: self.rounds_played as int,
        }
    }
}

impl Game {
    /// Build an engine around a pre-shuffled deck: no players yet, an empty
    /// dealer hand, round state `Playing`, round counter zero.
    pub fn new(deck: Vec<Card>) -> (g: Game)
        ensures
            g@.players == Seq::<PlayerV>::empty(),
            g@.dealer_hand == Seq::<Card>::empty(),
            g@.deck == deck@,
            g@.game_state == GameState::Playing,
            g@.rounds_played == 0,
    {
        let g = Game {
            players: Vec::new(),
            dealer: Dealer { hand: Vec::new() },
            deck,
            game_state: GameState::Playing,
            rounds_played: 0,
        };
        proof {
            assert(g@.players =~= Seq::<PlayerV>::empty());
        }
        g
    }

    /// The fixed value of a rank; the suit never affects the value.
    pub fn value_of_card(&self, card_value: CardValue, card_type: CardType) -> (v: u8)
        ensures
            v == spec_card_value(card_value),
    {
        value_of(card_value)
    }

    /// Remove and return the top card of the deck; report `DeckExhausted`
    /// on an empty deck instead of failing silently.
    pub fn pick_card(&mut self) -> (r: Result<Card, GameError>)
        ensures
            match r {
                Ok(c) => old(self)@.deck.len() > 0 && c == old(self)@.deck.last()
                    && final(self)@ == (GameV { deck: old(self)@.deck.drop_last(), ..old(self)@ }),
                Err(e) => e == GameError::DeckExhausted && old(self)@.deck.len() == 0
                    && final(self)@ == old(self)@,
            },
    {
        match self.deck.pop() {
            Some(c) => {
                proof {
                    assert(self@ =~= (GameV { deck: old(self)@.deck.drop_last(), ..old(self)@ }));
                }
                Ok(c)
            },
            None => Err(GameError::DeckExhausted),
        }
    }

    /// Does this player's hand score exactly 21?
    pub fn is_winner(&self, player: &Player) -> (r: bool)
        requires
            spec_score(player@.hand) <= u8::MAX,
        ensures
            r == (spec_score(player@.hand) == 21),
    {
        score_of_hand(&player.hand) == 21
    }

    /// Does this player's hand score more than 21?
    pub fn is_bust(&self, player: &Player) -> (r: bool)
        requires
            spec_score(player@.hand) <= u8::MAX,
        ensures
            r == (spec_score(player@.hand) > 21),
    {
        score_of_hand(&player.hand) > 21
    }

    /// Register a player. Registration order is turn order.
    pub fn add_player(&mut self, player: Player)
        ensures
            final(self)@ == (GameV {
                players: old(self)@.players.push(player@),
                ..old(self)@
            }),
    {
        self.players.push(player);
        proof {
            assert(self@.players =~= old(self)@.players.push(player@));
            assert(self@ =~= (GameV { players: old(self)@.players.push(player@), ..old(self)@ }));
        }
    }

    /// The round state, for the driver to decide whether to step again.
    pub fn get_game_state(&self) -> (s: GameState)
        ensures
            s == self@.game_state,
    {
        self.game_state
    }

    /// How many players are registered.
    pub fn num_players(&self) -> (n: usize)
        ensures
            n == self@.players.len(),
    {
        self.players.len()
    }

    /// The player at a turn-order position.
    pub fn player_at(&self, i: usize) -> (p: &Player)
        requires
            i < self@.players.len(),
        ensures
            p@ == self@.players[i as int],
    {
        &self.players[i]
    }

    /// The dealer.
    pub fn dealer(&self) -> (d: &Dealer)
        ensures
            d.hand@ == self@.dealer_hand,
    {
        &self.dealer
    }

    /// How many steps have completed.
    pub fn rounds_played(&self) -> (n: u8)
        ensures
            n as int == self@.rounds_played,
    {
        self.rounds_played
    }

    /// Deal the opening hands: one card per player in registration order,
    /// then one for the dealer, in a single pass over the deck. If the deck
    /// holds fewer cards than players plus dealer, nothing changes and
    /// `DeckExhausted` is reported.
    #[verifier::loop_isolation(false)]
    #[verifier::rlimit(60)]
    pub fn deal_cards(&mut self) -> (r: Result<(), GameError>)
        ensures
            match r {
                Ok(()) => old(self)@.deck.len() > old(self)@.players.len() && final(self)@
                    == spec_deal(old(self)@),
                Err(e) => e == GameError::DeckExhausted && old(self)@.deck.len() <= old(
                    self,
                )@.players.len() && final(self)@ == old(self)@,
            },
    {
        let ghost g0 = old(self)@;
        let n = self.players.len();
        if self.deck.len() <= n {
            return Err(GameError::DeckExhausted);
        }
        let ghost len0 = g0.deck.len() as int;
        let mut cards: Vec<Card> = Vec::new();
        let mut i: usize = 0;
        while i < n + 1
            invariant
                i <= n + 1,
                cards@.len() == i as int,
                forall|j: int| 0 <= j < i as int ==> #[trigger] cards@[j] == g0.deck[len0 - 1 - j],
                self.deck@ == g0.deck.take(len0 - i as int),
                self.players@ == old(self).players@,
                self.dealer.hand@ == g0.dealer_hand,
                self.game_state == g0.game_state,
                self.rounds_played as int == g0.rounds_played,
            decreases n + 1 - i,
        {
            let ghost dcur = self.deck@;
            let c = self.deck.pop().unwrap();
            proof {
                assert(dcur.last() == g0.deck[len0 - 1 - i as int]);
                assert(self.deck@ =~= g0.deck.take(len0 - (i as int + 1)));
            }
            cards.push(c);
            i = i + 1;
        }
        let mut i: usize = 0;
        while i < n
            invariant
                i <= n,
                cards@.len() == n as int + 1 - i as int,
                forall|j: int| 0 <= j < cards@.len() ==> #[trigger] cards@[j] == g0.deck[len0 - 1
                    - j],
                self.players@.len() == n,
                forall|j: int|
                    0 <= j < i as int ==> #[trigger] self@.players[j] == (PlayerV {
                        hand: g0.players[j].hand.push(g0.deck[len0 - n as int - 1 + j]),
                        ..g0.players[j]
                    }),
                forall|j: int| i as int <= j < n as int ==> #[trigger] self@.players[j]
                    == g0.players[j],
                self.deck@ == g0.deck.take(len0 - n as int - 1),
                self.dealer.hand@ == g0.dealer_hand,
                self.game_state == g0.game_state,
                self.rounds_played as int == g0.rounds_played,
            decreases n - i,
        {
            let ghost ccur = cards@;
            let ghost pv = self@.players;
            let c = cards.pop().unwrap();
            proof {
                assert(ccur.last() == g0.deck[len0 - 1 - (n as int - i as int)]);
                assert(cards@ =~= ccur.drop_last());
                assert(self.players@[i as int]@ == self@.players[i as int]);
            }
            self.players[i].hand.push(c);
            proof {
                assert forall|j: int| 0 <= j < n as int && j != i as int implies self@.players[j]
                    == pv[j] by {}
                assert(self@.players[i as int] =~= (PlayerV {
                    hand: g0.players[i as int].hand.push(c),
                    ..g0.players[i as int]
                }));
                assert(self@.players[i as int] == (PlayerV {
                    hand: g0.players[i as int].hand.push(g0.deck[len0 - n as int - 1 + i as int]),
                    ..g0.players[i as int]
                }));
                assert forall|j: int| 0 <= j < i as int + 1 implies #[trigger] self@.players[j]
                    == (PlayerV {
                    hand: g0.players[j].hand.push(g0.deck[len0 - n as int - 1 + j]),
                    ..g0.players[j]
                }) by {
                    if j < i as int {
                        assert(self@.players[j] == pv[j]);
                        assert(pv[j] == (PlayerV {
                            hand: g0.players[j].hand.push(g0.deck[len0 - n as int - 1 + j]),
                            ..g0.players[j]
                        }));
                    }
                }
                assert forall|j: int| i as int + 1 <= j < n as int implies #[trigger] self@.players[j]
                    == g0.players[j] by {
                    assert(self@.players[j] == pv[j]);
                    assert(pv[j] == g0.players[j]);
                }
            }
            i = i + 1;
        }
        let ghost pfin = self@.players;
        let c = cards.pop().unwrap();
        proof {
            assert(c == g0.deck[len0 - 1]);
        }
        self.dealer.hand.push(c);
        proof {
            assert(self@.players == pfin);
            assert forall|j: int| 0 <= j < n as int implies #[trigger] self@.players[j]
                == spec_deal(g0).players[j] by {
                assert(pfin[j] == (PlayerV {
                    hand: g0.players[j].hand.push(g0.deck[len0 - n as int - 1 + j]),
                    ..g0.players[j]
                }));
            }
            assert(self@.players.len() == spec_deal(g0).players.len());
            assert(self@.players =~= spec_deal(g0).players);
            assert(self@ =~= spec_deal(g0));
        }
        Ok(())
    }

    /// Deal the opening hands; to be called once, before the first step.
    pub fn init(&mut self) -> (r: Result<(), GameError>)
        ensures
            match r {
                Ok(()) => old(self)@.deck.len() > old(self)@.players.len() && final(self)@
                    == spec_deal(old(self)@),
                Err(e) => e == GameError::DeckExhausted && old(self)@.deck.len() <= old(
                    self,
                )@.players.len() && final(self)@ == old(self)@,
            },
    {
        self.deal_cards()
    }

    /// Advance the round by one step, taking one action per registered
    /// player (consulted only for a still-playing player below 21). On a
    /// round that has ended, nothing changes and `RoundOver` is reported.
    /// If the deck cannot cover every draw this step needs, nothing changes
    /// and `DeckExhausted` is reported. Otherwise the step is exactly
    /// `spec_play` on the previous state.
    #[verifier::loop_isolation(false)]
    pub fn play(&mut self, actions: &Vec<PlayerAction>) -> (r: Result<(), GameError>)
        requires
            actions@.len() == old(self)@.players.len(),
            forall|j: int| 0 <= j < old(self)@.players.len() ==> spec_score(
                #[trigger] old(self)@.players[j].hand,
            ) <= u8::MAX,
            spec_score(old(self)@.dealer_hand) <= u8::MAX,
            old(self)@.game_state == GameState::Playing ==> old(self)@.rounds_played < u8::MAX,
        ensures
            match r {
                Ok(()) => {
                    &&& old(self)@.game_state == GameState::Playing
                    &&& old(self)@.deck.len() >= spec_draws_needed(old(self)@, actions@)
                    &&& final(self)@ == spec_play(old(self)@, actions@)
                },
                Err(GameError::RoundOver) => {
                    &&& old(self)@.game_state == GameState::End
                    &&& final(self)@ == old(self)@
                },
                Err(GameError::DeckExhausted) => {
                    &&& old(self)@.game_state == GameState::Playing
                    &&& old(self)@.deck.len() < spec_draws_needed(old(self)@, actions@)
                    &&& final(self)@ == old(self)@
                },
            },
    {
        let ghost g0 = old(self)@;
        if self.game_state == GameState::End {
            return Err(GameError::RoundOver);
        }
        let n = self.players.len();
        proof {
            assert(n == g0.players.len());
        }
        // Count the draws this step will need, so that a short deck is
        // reported before anything is mutated.
        let mut needed: usize = 0;
        let mut i: usize = 0;
        while i < n
            invariant
                i <= n,
                needed == spec_hits_count(g0.players, actions@, i as int),
                needed <= i,
            decreases n - i,
        {
            proof {
                assert(spec_score(old(self)@.players[i as int].hand) <= u8::MAX);
                assert(g0.players[i as int] == self.players@[i as int]@);
            }
            let st = self.players[i].state;
            let s = score_of_hand(&self.players[i].hand);
            if st == PlayerState::Playing && s < 21 && actions[i] == PlayerAction::Hit {
                needed = needed + 1;
            }
            i = i + 1;
        }
        let ds = score_of_hand(&self.dealer.hand);
        let enough = if ds < 17 {
            self.deck.len() > needed
        } else {
            self.deck.len() >= needed
        };
        if !enough {
            return Err(GameError::DeckExhausted);
        }
        proof {
            assert(g0.deck.len() >= spec_draws_needed(g0, actions@));
        }
        // The players' turns, in registration order.
        let mut i: usize = 0;
        while i < n
            invariant
                i <= n,
                self.players@.len() == n,
                self@.players == spec_players_phase(g0.players, actions@, g0.deck, i as int).0,
                self.deck@ == spec_players_phase(g0.players, actions@, g0.deck, i as int).1,
                self.dealer.hand@ == g0.dealer_hand,
                self.game_state == g0.game_state,
                self.rounds_played as int == g0.rounds_played,
            decreases n - i,
        {
            proof {
                lemma_hits_count_bounds(g0.players, actions@, i as int, n as int);
                lemma_hits_count_bounds(g0.players, actions@, i + 1, n as int);
                lemma_players_phase_props(g0.players, actions@, g0.deck, i as int);
                assert(self@.players[i as int] == g0.players[i as int]);
                assert(self.players@[i as int]@ == self@.players[i as int]);
                assert(spec_score(old(self)@.players[i as int].hand) <= u8::MAX);
            }
            let ghost phase_i = spec_players_phase(g0.players, actions@, g0.deck, i as int);
            let ghost stepped = spec_player_step(g0.players[i as int], actions@[i as int], phase_i.1);
            let st = self.players[i].state;
            if st == PlayerState::Bust || st == PlayerState::Win {
                proof {
                    assert(phase_i.0.update(i as int, phase_i.0[i as int]) =~= phase_i.0);
                }
            } else {
                let s = score_of_hand(&self.players[i].hand);
                if s == 21 {
                    self.players[i].state = PlayerState::Win;
                    proof {
                        assert(self@.players =~= phase_i.0.update(i as int, stepped.0));
                    }
                } else if s > 21 {
                    self.players[i].state = PlayerState::Bust;
                    proof {
                        assert(self@.players =~= phase_i.0.update(i as int, stepped.0));
                    }
                } else if st == PlayerState::Playing {
                    let a = actions[i];
                    if a == PlayerAction::Hit {
                        proof {
                            assert(will_hit(g0.players[i as int], actions@[i as int]));
                            assert(spec_hits_count(g0.players, actions@, i + 1)
                                == spec_hits_count(g0.players, actions@, i as int) + 1);
                            assert(self.deck@.len() >= 1);
                        }
                        let c = self.deck.pop().unwrap();
                        proof {
                            assert(c == phase_i.1.last());
                            assert(self.deck@ =~= phase_i.1.drop_last());
                            crate::card::lemma_score_push(g0.players[i as int].hand, c);
                            crate::card::lemma_card_value_range(c.card_value);
                        }
                        self.players[i].hand.push(c);
                        let s2 = score_of_hand(&self.players[i].hand);
                        if s2 == 21 {
                            self.players[i].state = PlayerState::Win;
                        } else if s2 > 21 {
                            self.players[i].state = PlayerState::Bust;
                        } else {
                            self.players[i].state = PlayerState::Playing;
                        }
                        proof {
                            assert(self@.players =~= phase_i.0.update(i as int, stepped.0));
                        }
                    } else if a == PlayerAction::Stand {
                        self.players[i].state = PlayerState::Stand;
                        proof {
                            assert(self@.players =~= phase_i.0.update(i as int, stepped.0));
                        }
                    } else {
                        proof {
                            assert(phase_i.0.update(i as int, phase_i.0[i as int]) =~= phase_i.0);
                        }
                    }
                } else {
                    proof {
                        assert(phase_i.0.update(i as int, phase_i.0[i as int]) =~= phase_i.0);
                    }
                }
            }
            i = i + 1;
        }
        let ghost mid = spec_players_phase(g0.players, actions@, g0.deck, n as int);
        proof {
            lemma_players_phase_props(g0.players, actions@, g0.deck, n as int);
            lemma_phase_scores_bounded(g0.players, actions@, g0.deck, n as int);
        }
        // The dealer's turn: below 17, draw exactly one card.
        let ds = score_of_hand(&self.dealer.hand);
        if ds < 17 {
            proof {
                assert(self.deck@.len() >= 1);
            }
            let c = self.deck.pop().unwrap();
            proof {
                assert(c == mid.1.last());
                assert(self.deck@ =~= mid.1.drop_last());
                crate::card::lemma_score_push(g0.dealer_hand, c);
                crate::card::lemma_card_value_range(c.card_value);
            }
            self.dealer.hand.push(c);
        }
        let ghost dealt = spec_dealer_phase(g0.dealer_hand, mid.1);
        proof {
            assert(self.dealer.hand@ == dealt.0);
            assert(self.deck@ == dealt.1);
        }
        // Dealer bust: everyone not already Bust wins and the round ends at
        // once; this step is not counted.
        let ds2 = score_of_hand(&self.dealer.hand);
        if ds2 > 21 {
            let mut i: usize = 0;
            while i < n
                invariant
                    i <= n,
                    self.players@.len() == n,
                    forall|j: int| 0 <= j < i as int ==> self@.players[j] == spec_force_win(
                        #[trigger] mid.0[j],
                    ),
                    forall|j: int| i as int <= j < n ==> self@.players[j] == mid.0[j],
                    self.deck@ == dealt.1,
                    self.dealer.hand@ == dealt.0,
                    self.game_state == g0.game_state,
                    self.rounds_played as int == g0.rounds_played,
                decreases n - i,
            {
                proof {
                    assert(self.players@[i as int]@ == self@.players[i as int]);
                }
                if self.players[i].state != PlayerState::Bust {
                    self.players[i].state = PlayerState::Win;
                }
                i = i + 1;
            }
            self.game_state = GameState::End;
            proof {
                assert(self@.players =~= mid.0.map_values(|p: PlayerV| spec_force_win(p)));
                assert(self@ =~= spec_play(g0, actions@));
            }
            return Ok(());
        }
        // Termination: when no player is still playing, resolve every
        // standing player against the dealer's score and end the round.
        let mut done = true;
        let mut i: usize = 0;
        while i < n
            invariant
                i <= n,
                done <==> (forall|j: int|
                    0 <= j < i as int ==> (#[trigger] mid.0[j]).state != PlayerState::Playing),
            decreases n - i,
        {
            proof {
                assert(self.players@[i as int]@ == self@.players[i as int]);
            }
            if self.players[i].state == PlayerState::Playing {
                done = false;
            }
            i = i + 1;
        }
        proof {
            assert(done <==> spec_all_settled(mid.0));
        }
        if done {
            let mut i: usize = 0;
            while i < n
                invariant
                    i <= n,
                    self.players@.len() == n,
                    forall|j: int| 0 <= j < i as int ==> self@.players[j] == spec_resolve(
                        #[trigger] mid.0[j],
                        spec_score(dealt.0),
                    ),
                    forall|j: int| i as int <= j < n ==> self@.players[j] == mid.0[j],
                    self.deck@ == dealt.1,
                    self.dealer.hand@ == dealt.0,
                    self.game_state == g0.game_state,
                    self.rounds_played as int == g0.rounds_played,
                decreases n - i,
            {
                proof {
                    assert(self.players@[i as int]@ == self@.players[i as int]);
                }
                let st = self.players[i].state;
                if st == PlayerState::Bust || st == PlayerState::Win {
                } else {
                    proof {
                        assert(spec_score(mid.0[i as int].hand) <= u8::MAX);
                    }
                    let pc = score_of_hand(&self.players[i].hand);
                    if pc > ds2 {
                        self.players[i].state = PlayerState::Win;
                    } else if pc < ds2 {
                        self.players[i].state = PlayerState::Bust;
                    } else {
                        self.players[i].state = PlayerState::Stand;
                    }
                }
                i = i + 1;
            }
            self.game_state = GameState::End;
            proof {
                assert(self@.players =~= mid.0.map_values(
                    |p: PlayerV| spec_resolve(p, spec_score(dealt.0)),
                ));
            }
        }
        self.rounds_played = self.rounds_played + 1;
        proof {
            assert(self@ =~= spec_play(g0, actions@));
        }
        Ok(())
    }
}

/// The suit enumerated at a position, in deck-construction order.
pub open spec fn suit_at(i: int) -> CardType {
    if i == 0 {
        CardType::Spades
    } else if i == 1 {
        CardType::Hearts
    } else if i == 2 {
        CardType::Diamonds
    } else {
        CardType::Clubs
    }
}

/// The rank enumerated at a position, in deck-construction order.
pub open spec fn rank_at(i: int) -> CardValue {
    if i == 0 {
        CardValue::Ace
    } else if i == 1 {
        CardValue::Two
    } else if i == 2 {
        CardValue::Three
    } else if i == 3 {
        CardValue::Four
    } else if i == 4 {
        CardValue::Five
    } else if i == 5 {
        CardValue::Six
    } else if i == 6 {
        CardValue::Seven
    } else if i == 7 {
        CardValue::Eight
    } else if i == 8 {
        CardValue::Nine
    } else if i == 9 {
        CardValue::Ten
    } else if i == 10 {
        CardValue::Jack
    } else if i == 11 {
        CardValue::Queen
    } else {
        CardValue::King
    }
}

/// A suit's position in the enumeration.
pub open spec fn suit_index(t: CardType) -> int {
    match t {
        CardType::Spades => 0,
        CardType::Hearts => 1,
        CardType::Diamonds => 2,
        CardType::Clubs => 3,
    }
}

/// A rank's position in the enumeration.
pub open spec fn rank_index(v: CardValue) -> int {
    match v {
        CardValue::Ace => 0,
        CardValue::Two => 1,
        CardValue::Three => 2,
        CardValue::Four => 3,
        CardValue::Five => 4,
        CardValue::Six => 5,
        CardValue::Seven => 6,
        CardValue::Eight => 7,
        CardValue::Nine => 8,
        CardValue::Ten => 9,
        CardValue::Jack => 10,
        CardValue::Queen => 11,
        CardValue::King => 12,
    }
}

/// The card at a position of the unshuffled enumeration: thirteen ranks
/// for each suit in turn.
pub open spec fn card_at(i: int) -> Card {
    Card { card_type: suit_at(i / 13), card_value: rank_at(i % 13) }
}

/// The unshuffled deck: every suit-rank combination once, in order.
pub open spec fn full_deck() -> Seq<Card> {
    Seq::new(52, |i: int| card_at(i))
}

/// A card's position in the unshuffled enumeration.
pub open spec fn card_index(c: Card) -> int {
    13 * suit_index(c.card_type) + rank_index(c.card_value)
}

proof fn lemma_card_at_index(c: Card)
    ensures
        0 <= card_index(c) < 52,
        card_at(card_index(c)) == c,
{
    let si = suit_index(c.card_type);
    let ri = rank_index(c.card_value);
    assert((13 * si + ri) / 13 == si && (13 * si + ri) % 13 == ri) by (nonlinear_arith)
        requires
            0 <= ri < 13,
            0 <= si < 4,
    ;
}

proof fn lemma_card_at_injective(i: int, j: int)
    requires
        0 <= i < 52,
        0 <= j < 52,
        card_at(i) == card_at(j),
    ensures
        i == j,
{
    assert(0 <= i / 13 < 4 && 0 <= i % 13 < 13) by (nonlinear_arith)
        requires
            0 <= i < 52,
    ;
    assert(0 <= j / 13 < 4 && 0 <= j % 13 < 13) by (nonlinear_arith)
        requires
            0 <= j < 52,
    ;
    assert(i / 13 == j / 13);
    assert(i % 13 == j % 13);
    vstd::arithmetic::div_mod::lemma_fundamental_div_mod(i, 13);
    vstd::arithmetic::div_mod::lemma_fundamental_div_mod(j, 13);
}

/// A deck that holds the same cards as the unshuffled enumeration — as any
/// generated deck does — has exactly 52 cards, with every suit-rank pair
/// present exactly once.
pub proof fn lemma_deck_complete(s: Seq<Card>)
    requires
        s.to_multiset() == full_deck().to_multiset(),
    ensures
        s.len() == 52,
        forall|c: Card| #[trigger] s.to_multiset().count(c) == 1,
{
    broadcast use vstd::seq_lib::group_to_multiset_ensures;
    broadcast use vstd::multiset::group_multiset_axioms;

    assert(full_deck().no_duplicates()) by {
        assert forall|i: int, j: int|
            0 <= i < 52 && 0 <= j < 52 && i != j implies full_deck()[i] != full_deck()[j] by {
            if full_deck()[i] == full_deck()[j] {
                lemma_card_at_injective(i, j);
            }
        }
    }
    full_deck().lemma_multiset_has_no_duplicates();
    assert forall|c: Card| #[trigger] full_deck().to_multiset().count(c) == 1 by {
        lemma_card_at_index(c);
        assert(full_deck()[card_index(c)] == c);
        assert(full_deck().contains(c));
        assert(full_deck().to_multiset().count(c) > 0);
        assert(full_deck().to_multiset().contains(c));
    }
    assert(full_deck().len() == 52);
    assert(full_deck().to_multiset().len() == full_deck().len());
    assert(s.to_multiset().len() == s.len());
    assert(s.len() == 52);
}

/// Relies on rand's `SliceRandom::shuffle`, driven by `rand::thread_rng`:
/// it permutes the slice in place, so the vector afterwards holds exactly
/// the same cards, possibly reordered.
#[verifier::external_body]
fn shuffle_cards(deck: &mut Vec<Card>)
    ensures
        final(deck)@.len() == old(deck)@.len(),
        final(deck)@.to_multiset() == old(deck)@.to_multiset(),
{
    let mut rng = rand::thread_rng();
    rand::seq::SliceRandom::shuffle(deck.as_mut_slice(), &mut rng);
}

fn suit_of(i: usize) -> (t: CardType)
    requires
        i < 4,
    ensures
        t == suit_at(i as int),
{
    if i == 0 {
        CardType::Spades
    } else if i == 1 {
        CardType::Hearts
    } else if i == 2 {
        CardType::Diamonds
    } else {
        CardType::Clubs
    }
}

fn rank_of(i: usize) -> (v: CardValue)
    requires
        i < 13,
    ensures
        v == rank_at(i as int),
{
    if i == 0 {
        CardValue::Ace
    } else if i == 1 {
        CardValue::Two
    } else if i == 2 {
        CardValue::Three
    } else if i == 3 {
        CardValue::Four
    } else if i == 4 {
        CardValue::Five
    } else if i == 5 {
        CardValue::Six
    } else if i == 6 {
        CardValue::Seven
    } else if i == 7 {
        CardValue::Eight
    } else if i == 8 {
        CardValue::Nine
    } else if i == 9 {
        CardValue::Ten
    } else if i == 10 {
        CardValue::Jack
    } else if i == 11 {
        CardValue::Queen
    } else {
        CardValue::King
    }
}

/// Produce a full deck — every suit-rank pair exactly once — and shuffle
/// it. Only the order of the result is left open.
#[verifier::loop_isolation(false)]
pub fn generate_deck() -> (deck: Vec<Card>)
    ensures
        deck@.len() == 52,
        deck@.to_multiset() == full_deck().to_multiset(),
{
    let mut deck: Vec<Card> = Vec::new();
    let mut s: usize = 0;
    while s < 4
        invariant
            s <= 4,
            deck@.len() == 13 * s as int,
            forall|k: int| 0 <= k < deck@.len() ==> #[trigger] deck@[k] == card_at(k),
        decreases 4 - s,
    {
        let mut r: usize = 0;
        while r < 13
            invariant
                r <= 13,
                s < 4,
                deck@.len() == 13 * s as int + r as int,
                forall|k: int| 0 <= k < deck@.len() ==> #[trigger] deck@[k] == card_at(k),
            decreases 13 - r,
        {
            let c = Card::new(suit_of(s), rank_of(r));
            proof {
                assert((13 * s as int + r as int) / 13 == s as int && (13 * s as int + r as int)
                    % 13 == r as int) by (nonlinear_arith)
                    requires
                        0 <= r < 13,
                        0 <= s,
                ;
                assert(card_at(13 * s as int + r as int) == c);
            }
            deck.push(c);
            r = r + 1;
        }
        s = s + 1;
    }
    proof {
        assert(deck@ =~= full_deck());
    }
    shuffle_cards(&mut deck);
    deck
}

/// The opening deal: one card per player in registration order, then one
/// for the dealer, drawn in one pass over the top of the deck. The cards
/// are buffered during the pass, so the dealer receives the first card
/// drawn and the players receive theirs in reverse draw order.
pub open spec fn spec_deal(g: GameV) -> GameV {
    let n = g.players.len() as int;
    let len = g.deck.len() as int;
    GameV {
        players: Seq::new(
            g.players.len(),
            |i: int| PlayerV { hand: g.players[i].hand.push(g.deck[len - n - 1 + i]), ..g.players[i] },
        ),
        dealer_hand: g.dealer_hand.push(g.deck[len - 1]),
        deck: g.deck.take(len - n - 1),
        game_state: g.game_state,
        rounds_played: g.rounds_played,
    }
}

/// Does this player draw a card this step? Only a still-playing player
/// below 21 that asks for a hit does.
pub open spec fn will_hit(p: PlayerV, a: PlayerAction) -> bool {
    p.state == PlayerState::Playing && spec_score(p.hand) < 21 && a == PlayerAction::Hit
}

/// One player's turn within a step: the player afterwards, and the deck
/// afterwards. A `Bust` or `Win` player is left untouched; a score of
/// exactly 21 wins, over 21 busts; otherwise a `Playing` player's action
/// is applied, and a hit draws the top card and re-evaluates the score.
pub open spec fn spec_player_step(p: PlayerV, a: PlayerAction, deck: Seq<Card>) -> (PlayerV, Seq<
    Card,
>) {
    if p.state == PlayerState::Bust || p.state == PlayerState::Win {
        (p, deck)
    } else if spec_score(p.hand) == 21 {
        ((PlayerV { state: PlayerState::Win, ..p }), deck)
    } else if spec_score(p.hand) > 21 {
        ((PlayerV { state: PlayerState::Bust, ..p }), deck)
    } else if p.state == PlayerState::Playing && a == PlayerAction::Hit {
        let hand2 = p.hand.push(deck.last());
        let st = if spec_score(hand2) == 21 {
            PlayerState::Win
        } else if spec_score(hand2) > 21 {
            PlayerState::Bust
        } else {
            PlayerState::Playing
        };
        ((PlayerV { hand: hand2, state: st, ..p }), deck.drop_last())
    } else if p.state == PlayerState::Playing && a == PlayerAction::Stand {
        ((PlayerV { state: PlayerState::Stand, ..p }), deck)
    } else {
        (p, deck)
    }
}

/// The players' turns of a step, taken in registration order up to
/// position `n`: the players afterwards, and the deck afterwards.
pub open spec fn spec_players_phase(
    players: Seq<PlayerV>,
    actions: Seq<PlayerAction>,
    deck: Seq<Card>,
    n: int,
) -> (Seq<PlayerV>, Seq<Card>)
    decreases n,
{
    if n <= 0 {
        (players, deck)
    } else {
        let prev = spec_players_phase(players, actions, deck, n - 1);
        let step = spec_player_step(prev.0[n - 1], actions[n - 1], prev.1);
        (prev.0.update(n - 1, step.0), step.1)
    }
}

/// How many of the first `n` players draw a card this step.
pub open spec fn spec_hits_count(
    players: Seq<PlayerV>,
    actions: Seq<PlayerAction>,
    n: int,
) -> int
    decreases n,
{
    if n <= 0 {
        0
    } else {
        spec_hits_count(players, actions, n - 1) + if will_hit(players[n - 1], actions[n - 1]) {
            1int
        } else {
            0int
        }
    }
}

pub proof fn lemma_hits_count_bounds(
    players: Seq<PlayerV>,
    actions: Seq<PlayerAction>,
    m: int,
    n: int,
)
    requires
        0 <= m <= n,
    ensures
        0 <= spec_hits_count(players, actions, m) <= spec_hits_count(players, actions, n) <= n,
    decreases n,
{
    if n > 0 {
        if m == n {
            lemma_hits_count_bounds(players, actions, 0, n - 1);
        } else {
            lemma_hits_count_bounds(players, actions, m, n - 1);
        }
    }
}

/// What the players' turns do, position by position: the player list keeps
/// its length, positions at or past `n` are untouched, the deck shrinks from
/// its top by exactly the number of hits, and each processed position holds
/// the result of that single player's turn taken on the deck as it stood.
pub proof fn lemma_players_phase_props(
    players: Seq<PlayerV>,
    actions: Seq<PlayerAction>,
    deck: Seq<Card>,
    n: int,
)
    requires
        0 <= n <= players.len(),
        players.len() == actions.len(),
        deck.len() >= spec_hits_count(players, actions, n),
    ensures
        spec_players_phase(players, actions, deck, n).0.len() == players.len(),
        forall|i: int|
            n <= i < players.len() ==> spec_players_phase(players, actions, deck, n).0[i]
                == players[i],
        spec_players_phase(players, actions, deck, n).1 == deck.take(
            deck.len() - spec_hits_count(players, actions, n),
        ),
        forall|i: int|
            0 <= i < n ==> spec_players_phase(players, actions, deck, n).0[i]
                == spec_player_step(
                players[i],
                actions[i],
                spec_players_phase(players, actions, deck, i).1,
            ).0,
    decreases n,
{
    lemma_hits_count_bounds(players, actions, if n > 0 { n - 1 } else { 0 }, n);
    if n == 0 {
        assert(deck.take(deck.len() as int) =~= deck);
    } else {
        lemma_players_phase_props(players, actions, deck, n - 1);
        let prev = spec_players_phase(players, actions, deck, n - 1);
        let hits_prev = spec_hits_count(players, actions, n - 1);
        assert(prev.0[n - 1] == players[n - 1]);
        if will_hit(players[n - 1], actions[n - 1]) {
            assert(prev.1.len() == deck.len() - hits_prev);
            assert(spec_hits_count(players, actions, n) == hits_prev + 1);
            assert(prev.1.len() >= 1);
            assert(prev.1.drop_last() =~= deck.take(deck.len() - hits_prev - 1)) by {
                assert(prev.1 == deck.take(deck.len() - hits_prev));
            }
        } else {
            assert(spec_player_step(players[n - 1], actions[n - 1], prev.1).1 == prev.1);
        }
    }
}

/// The shape of the players' turns alone: the list keeps its length,
/// positions at or past `n` are untouched, and each processed position
/// holds the result of that single player's turn on the deck as it stood.
pub proof fn lemma_players_phase_shape(
    players: Seq<PlayerV>,
    actions: Seq<PlayerAction>,
    deck: Seq<Card>,
    n: int,
)
    requires
        0 <= n <= players.len(),
        players.len() == actions.len(),
    ensures
        spec_players_phase(players, actions, deck, n).0.len() == players.len(),
        forall|i: int|
            n <= i < players.len() ==> spec_players_phase(players, actions, deck, n).0[i]
                == players[i],
        forall|i: int|
            0 <= i < n ==> spec_players_phase(players, actions, deck, n).0[i]
                == spec_player_step(
                players[i],
                actions[i],
                spec_players_phase(players, actions, deck, i).1,
            ).0,
    decreases n,
{
    if n > 0 {
        lemma_players_phase_shape(players, actions, deck, n - 1);
    }
}

/// After the players' turns, every score still fits the score type: an
/// untouched hand keeps its score, and a hit was taken below 21, so the
/// new score stays at most 31.
pub proof fn lemma_phase_scores_bounded(
    players: Seq<PlayerV>,
    actions: Seq<PlayerAction>,
    deck: Seq<Card>,
    n: int,
)
    requires
        0 <= n <= players.len(),
        players.len() == actions.len(),
        deck.len() >= spec_hits_count(players, actions, n),
        forall|j: int| 0 <= j < players.len() ==> spec_score(#[trigger] players[j].hand)
            <= u8::MAX,
    ensures
        forall|j: int|
            0 <= j < players.len() ==> spec_score(
                #[trigger] spec_players_phase(players, actions, deck, n).0[j].hand,
            ) <= u8::MAX,
{
    lemma_players_phase_props(players, actions, deck, n);
    assert forall|j: int| 0 <= j < players.len() implies spec_score(
        #[trigger] spec_players_phase(players, actions, deck, n).0[j].hand,
    ) <= u8::MAX by {
        if j < n {
            let dj = spec_players_phase(players, actions, deck, j).1;
            if will_hit(players[j], actions[j]) {
                crate::card::lemma_score_push(players[j].hand, dj.last());
                crate::card::lemma_card_value_range(dj.last().card_value);
            }
        }
    }
}

/// The dealer's turn of a step: below 17 it draws exactly one card,
/// otherwise it leaves both its hand and the deck alone.
pub open spec fn spec_dealer_phase(dealer_hand: Seq<Card>, deck: Seq<Card>) -> (Seq<Card>, Seq<
    Card,
>) {
    if spec_score(dealer_hand) < 17 {
        (dealer_hand.push(deck.last()), deck.drop_last())
    } else {
        (dealer_hand, deck)
    }
}

/// Is every player out of the `Playing` state?
pub open spec fn spec_all_settled(players: Seq<PlayerV>) -> bool {
    forall|i: int| 0 <= i < players.len() ==> players[i].state != PlayerState::Playing
}

/// When the dealer busts, every player not already `Bust` wins.
pub open spec fn spec_force_win(p: PlayerV) -> PlayerV {
    if p.state == PlayerState::Bust {
        p
    } else {
        PlayerV { state: PlayerState::Win, ..p }
    }
}

/// Resolution of a settled player against the dealer's score: strictly
/// greater wins, strictly smaller busts, a tie stands. `Bust` and `Win`
/// players are left as they are.
pub open spec fn spec_resolve(p: PlayerV, dealer_score: int) -> PlayerV {
    if p.state == PlayerState::Bust || p.state == PlayerState::Win {
        p
    } else if spec_score(p.hand) > dealer_score {
        PlayerV { state: PlayerState::Win, ..p }
    } else if spec_score(p.hand) < dealer_score {
        PlayerV { state: PlayerState::Bust, ..p }
    } else {
        PlayerV { state: PlayerState::Stand, ..p }
    }
}

/// How many cards one step of the round draws from the deck.
pub open spec fn spec_draws_needed(g: GameV, actions: Seq<PlayerAction>) -> int {
    spec_hits_count(g.players, actions, g.players.len() as int) + if spec_score(g.dealer_hand)
        < 17 {
        1int
    } else {
        0int
    }
}

/// One full step of the round on a `Playing` game: the players' turns in
/// registration order, then the dealer's turn, then the dealer bust check
/// (which ends the round at once, without counting the step), then the
/// termination check with resolution against the dealer's score (which ends
/// the round), and finally the step counter.
pub open spec fn spec_play(g: GameV, actions: Seq<PlayerAction>) -> GameV {
    let phase = spec_players_phase(g.players, actions, g.deck, g.players.len() as int);
    let dealer = spec_dealer_phase(g.dealer_hand, phase.1);
    if spec_score(dealer.0) > 21 {
        GameV {
            players: phase.0.map_values(|p: PlayerV| spec_force_win(p)),
            dealer_hand: dealer.0,
            deck: dealer.1,
            game_state: GameState::End,
            rounds_played: g.rounds_played,
        }
    } else if spec_all_settled(phase.0) {
        GameV {
            players: phase.0.map_values(|p: PlayerV| spec_resolve(p, spec_score(dealer.0))),
            dealer_hand: dealer.0,
            deck: dealer.1,
            game_state: GameState::End,
            rounds_played: g.rounds_played + 1,
        }
    } else {
        GameV {
            players: phase.0,
            dealer_hand: dealer.0,
            deck: dealer.1,
            game_state: GameState::Playing,
            rounds_played: g.rounds_played + 1,
        }
    }
}

/// `Bust` and `Win` are terminal for the rest of the round: one step
/// leaves such a player — hand, name and state — exactly as it was.
pub proof fn lemma_terminal_player_stable(g: GameV, actions: Seq<PlayerAction>, i: int)
    requires
        g.players.len() == actions.len(),
        0 <= i < g.players.len(),
        g.players[i].state == PlayerState::Bust || g.players[i].state == PlayerState::Win,
    ensures
        spec_play(g, actions).players.len() == g.players.len(),
        spec_play(g, actions).players[i] == g.players[i],
{
    let n = g.players.len() as int;
    lemma_players_phase_shape(g.players, actions, g.deck, n);
    let mid = spec_players_phase(g.players, actions, g.deck, n);
    assert(mid.0[i] == g.players[i]);
    let p = g.players[i];
    if p.state == PlayerState::Win {
        assert(spec_force_win(p) =~= p);
    }
    assert(spec_force_win(p) == p);
    assert(spec_resolve(p, spec_score(spec_dealer_phase(g.dealer_hand, mid.1).0)) == p);
}

/// A hit that lifts a player's score past 21 leaves that player `Bust`
/// after the step.
pub proof fn lemma_hit_past_21_busts(g: GameV, actions: Seq<PlayerAction>, i: int)
    requires
        g.players.len() == actions.len(),
        0 <= i < g.players.len(),
        will_hit(g.players[i], actions[i]),
        spec_score(
            g.players[i].hand.push(spec_players_phase(g.players, actions, g.deck, i).1.last()),
        ) > 21,
    ensures
        spec_play(g, actions).players[i].state == PlayerState::Bust,
{
    let n = g.players.len() as int;
    lemma_players_phase_shape(g.players, actions, g.deck, n);
    let mid = spec_players_phase(g.players, actions, g.deck, n);
    assert(mid.0[i].state == PlayerState::Bust);
    assert(spec_force_win(mid.0[i]).state == PlayerState::Bust);
    assert(spec_resolve(mid.0[i], spec_score(spec_dealer_phase(g.dealer_hand, mid.1).0)).state
        == PlayerState::Bust);
}

/// In one step the dealer draws at most one card, and only when its score
/// is below 17; at 17 or more its hand is untouched.
pub proof fn lemma_dealer_draw_policy(g: GameV, actions: Seq<PlayerAction>)
    ensures
        spec_score(g.dealer_hand) >= 17 ==> spec_play(g, actions).dealer_hand == g.dealer_hand,
        spec_score(g.dealer_hand) < 17 ==> spec_play(g, actions).dealer_hand.len()
            == g.dealer_hand.len() + 1 && spec_play(g, actions).dealer_hand.drop_last()
            == g.dealer_hand,
{
    if spec_score(g.dealer_hand) < 17 {
        let mid = spec_players_phase(g.players, actions, g.deck, g.players.len() as int);
        assert(g.dealer_hand.push(mid.1.last()).drop_last() =~= g.dealer_hand);
    }
}

/// The deck only shrinks, from its top: after a step it is a prefix of
/// what it was, shorter by exactly the number of draws the step needed —
/// so no card is ever drawn twice.
pub proof fn lemma_deck_shrinks(g: GameV, actions: Seq<PlayerAction>)
    requires
        g.players.len() == actions.len(),
        g.deck.len() >= spec_draws_needed(g, actions),
    ensures
        spec_play(g, actions).deck == g.deck.take(
            g.deck.len() - spec_draws_needed(g, actions),
        ),
{
    let n = g.players.len() as int;
    lemma_hits_count_bounds(g.players, actions, n, n);
    lemma_players_phase_props(g.players, actions, g.deck, n);
    let mid = spec_players_phase(g.players, actions, g.deck, n);
    if spec_score(g.dealer_hand) < 17 {
        assert(mid.1.drop_last() =~= g.deck.take(g.deck.len() - spec_draws_needed(g, actions)));
    }
}

/// If the dealer's score exceeds 21 after its draw, the round ends in that
/// same step, every player not already `Bust` after the players' turns is
/// `Win`, and `Bust` players stay `Bust`.
pub proof fn lemma_dealer_bust_ends_round(g: GameV, actions: Seq<PlayerAction>)
    requires
        g.players.len() == actions.len(),
        spec_score(
            spec_dealer_phase(
                g.dealer_hand,
                spec_players_phase(g.players, actions, g.deck, g.players.len() as int).1,
            ).0,
        ) > 21,
    ensures
        spec_play(g, actions).game_state == GameState::End,
        spec_play(g, actions).players.len() == g.players.len(),
        forall|i: int|
            0 <= i < g.players.len() ==> spec_play(g, actions).players[i] == spec_force_win(
                #[trigger] spec_players_phase(g.players, actions, g.deck, g.players.len() as int).0[i],
            ),
{
    lemma_players_phase_shape(g.players, actions, g.deck, g.players.len() as int);
}

} // verus!
