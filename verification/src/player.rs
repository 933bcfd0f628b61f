use vstd::prelude::*;

use crate::card::Card;
use crate::card::spec_score;
use crate::card::score_of_hand;
use crate::game::Game;

verus! {

/// The state of a player within a round. `Bust` and `Win` are terminal:
/// once reached, the engine never changes that player again this round.
#[derive(Debug, PartialEq, Eq, Structural, Clone, Copy)]
pub enum PlayerState {
    Playing,
    Stand,
    Bust,
    Win,
}

/// An action a decision capability may return for a player's turn.
/// `NoAction` leaves the player's state exactly as it was.
#[derive(Debug, PartialEq, Eq, Structural, Clone, Copy)]
pub enum PlayerAction {
    Hit,
    Stand,
    NoAction,
}

/// A player: a name, the hand accumulated so far, and the turn state.
pub struct Player {
    pub name: String,
    pub hand: Vec<Card>,
    pub state: PlayerState,
}

/// The mathematical view of a player.
#[verifier::ext_equal]
pub struct PlayerV {
    pub name: Seq<char>,
    pub hand: Seq<Card>,
    pub state: PlayerState,
}

impl View for Player {
    type V = PlayerV;

    open spec fn view(&self) -> PlayerV {
        PlayerV { name: self.name@, hand: self.hand@, state: self.state }
    }
}

impl Player {
    pub fn new(name: &str) -> (p: Player)
        ensures
            p@.name == name@,
            p@.hand == Seq::<Card>::empty(),
            p@.state == PlayerState::Playing,
    {
        Player { name: name.to_string(), hand: Vec::new(), state: PlayerState::Playing }
    }
}

/// The dealer: rule-driven, so it carries only a hand.
pub struct Dealer {
    pub hand: Vec<Card>,
}

/// A participant that holds a hand of cards.
pub trait Handed {
    spec fn hand_view(&self) -> Seq<Card>;

    /// The participant's score: the sum of its cards' values.
    fn count(&self, game: &Game) -> (v: u8)
        requires
            spec_score(self.hand_view()) <= u8::MAX,
        ensures
            v == spec_score(self.hand_view()),
    ;

    /// Append one card to the participant's hand.
    fn add_card(&mut self, card: Card)
        ensures
            final(self).hand_view() == old(self).hand_view().push(card),
    ;

    /// The participant's hand.
    fn get_hand(&self) -> (h: &Vec<Card>)
        ensures
            h@ == self.hand_view(),
    ;
}

impl Handed for Player {
    open spec fn hand_view(&self) -> Seq<Card> {
        self.hand@
    }

    fn count(&self, game: &Game) -> (v: u8) {
        score_of_hand(&self.hand)
    }

    fn add_card(&mut self, card: Card) {
        self.hand.push(card);
    }

    fn get_hand(&self) -> (h: &Vec<Card>) {
        &self.hand
    }
}

impl Handed for Dealer {
    open spec fn hand_view(&self) -> Seq<Card> {
        self.hand@
    }

    fn count(&self, game: &Game) -> (v: u8) {
        score_of_hand(&self.hand)
    }

    fn add_card(&mut self, card: Card) {
        self.hand.push(card);
    }

    fn get_hand(&self) -> (h: &Vec<Card>) {
        &self.hand
    }
}

} // verus!
