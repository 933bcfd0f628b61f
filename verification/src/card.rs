use vstd::prelude::*;

verus! {

/// The suit of a playing card.
#[derive(Debug, PartialEq, Eq, Structural, Clone, Copy)]
pub enum CardType {
    Spades,
    Hearts,
    Diamonds,
    Clubs,
}

/// The rank of a playing card, Ace through King.
#[derive(Debug, PartialEq, Eq, Structural, Clone, Copy)]
pub enum CardValue {
    Ace,
    Two,
    Three,
    Four,
    Five,
    Six,
    Seven,
    Eight,
    Nine,
    Ten,
    Jack,
    Queen,
    King,
}

/// A single playing card: a rank together with a suit.
#[derive(Debug, PartialEq, Eq, Structural, Clone, Copy)]
pub struct Card {
    pub card_type: CardType,
    pub card_value: CardValue,
}

impl Card {
    pub fn new(card_type: CardType, card_value: CardValue) -> (c: Card)
        ensures
            c == (Card { card_type, card_value }),
    {
        Card { card_type, card_value }
    }
}

/// The fixed scoring value of a rank: numeric ranks at face value,
/// Jack, Queen and King at 10, and Ace always at 11.
pub open spec fn spec_card_value(v: CardValue) -> int {
    match v {
        CardValue::Ace => 11,
        CardValue::Two => 2,
        CardValue::Three => 3,
        CardValue::Four => 4,
        CardValue::Five => 5,
        CardValue::Six => 6,
        CardValue::Seven => 7,
        CardValue::Eight => 8,
        CardValue::Nine => 9,
        CardValue::Ten => 10,
        CardValue::Jack => 10,
        CardValue::Queen => 10,
        CardValue::King => 10,
    }
}

/// Every rank is worth between 2 and 11 points.
pub proof fn lemma_card_value_range(v: CardValue)
    ensures
        2 <= spec_card_value(v) <= 11,
{
}

/// The score of a hand: the sum of the values of its cards' ranks.
/// There is no upper clamp; a score may exceed 21.
pub open spec fn spec_score(hand: Seq<Card>) -> int
    decreases hand.len(),
{
    if hand.len() == 0 {
        0
    } else {
        spec_score(hand.drop_last()) + spec_card_value(hand.last().card_value)
    }
}

pub proof fn lemma_score_nonneg(hand: Seq<Card>)
    ensures
        spec_score(hand) >= 0,
    decreases hand.len(),
{
    if hand.len() > 0 {
        lemma_score_nonneg(hand.drop_last());
        lemma_card_value_range(hand.last().card_value);
    }
}

pub proof fn lemma_score_push(hand: Seq<Card>, c: Card)
    ensures
        spec_score(hand.push(c)) == spec_score(hand) + spec_card_value(c.card_value),
{
    assert(hand.push(c).drop_last() =~= hand);
}

pub proof fn lemma_score_concat(a: Seq<Card>, b: Seq<Card>)
    ensures
        spec_score(a + b) == spec_score(a) + spec_score(b),
    decreases b.len(),
{
    if b.len() == 0 {
        assert(a + b =~= a);
    } else {
        lemma_score_concat(a, b.drop_last());
        assert((a + b).drop_last() =~= a + b.drop_last());
    }
}

pub proof fn lemma_score_remove(hand: Seq<Card>, i: int)
    requires
        0 <= i < hand.len(),
    ensures
        spec_score(hand.remove(i)) == spec_score(hand) - spec_card_value(hand[i].card_value),
{
    let a = hand.take(i);
    let b = hand.skip(i + 1);
    let mid = seq![hand[i]];
    assert(hand =~= (a + mid) + b);
    assert(hand.remove(i) =~= a + b);
    lemma_score_concat(a + mid, b);
    lemma_score_concat(a, mid);
    lemma_score_concat(a, b);
    assert(spec_score(mid) == spec_card_value(hand[i].card_value)) by {
        assert(mid.drop_last() =~= Seq::<Card>::empty());
        assert(mid.last() == hand[i]);
        assert(spec_score(Seq::<Card>::empty()) == 0);
    }
}

/// The score of a hand depends only on which cards it holds, not on
/// their order: two hands with the same cards score the same.
pub proof fn lemma_score_order_independent(a: Seq<Card>, b: Seq<Card>)
    requires
        a.to_multiset() == b.to_multiset(),
    ensures
        spec_score(a) == spec_score(b),
    decreases a.len(),
{
    broadcast use vstd::seq_lib::group_to_multiset_ensures;
    broadcast use vstd::multiset::group_multiset_axioms;

    if a.len() == 0 {
        assert(a.to_multiset().len() == 0);
        assert(b.to_multiset().len() == 0);
        assert(b.len() == 0);
    } else {
        let c = a.last();
        assert(a[a.len() - 1] == c);
        assert(a.contains(c));
        assert(b.to_multiset().count(c) > 0);
        assert(b.contains(c));
        let j = choose|j: int| 0 <= j < b.len() && b[j] == c;
        assert(a.drop_last().push(c) =~= a);
        assert(a.drop_last().to_multiset() =~= b.remove(j).to_multiset()) by {
            assert(a.drop_last().push(c).to_multiset() =~= a.drop_last().to_multiset().insert(c));
            assert(b.remove(j).to_multiset() =~= b.to_multiset().remove(c));
        }
        lemma_score_order_independent(a.drop_last(), b.remove(j));
        lemma_score_remove(b, j);
    }
}

/// Compute the score of a hand.
pub fn score_of_hand(hand: &Vec<Card>) -> (s: u8)
    requires
        spec_score(hand@) <= u8::MAX,
    ensures
        s == spec_score(hand@),
{
    let mut s: u8 = 0;
    let mut i: usize = 0;
    while i < hand.len()
        invariant
            0 <= i <= hand@.len(),
            s == spec_score(hand@.take(i as int)),
            spec_score(hand@) <= u8::MAX,
        decreases hand@.len() - i,
    {
        let v = value_of(hand[i].card_value);
        proof {
            assert(hand@.take(i as int).push(hand@[i as int]) =~= hand@.take(i + 1));
            lemma_score_push(hand@.take(i as int), hand@[i as int]);
            assert(hand@ =~= hand@.take(i + 1) + hand@.skip(i + 1));
            lemma_score_concat(hand@.take(i + 1), hand@.skip(i + 1));
            lemma_score_nonneg(hand@.skip(i + 1));
        }
        s = s + v;
        i = i + 1;
    }
    proof {
        assert(hand@.take(hand@.len() as int) =~= hand@);
    }
    s
}

/// Compute the fixed value of a rank.
pub fn value_of(card_value: CardValue) -> (v: u8)
    ensures
        v == spec_card_value(card_value),
{
    match card_value {
        CardValue::Ace => 11,
        CardValue::Two => 2,
        CardValue::Three => 3,
        CardValue::Four => 4,
        CardValue::Five => 5,
        CardValue::Six => 6,
        CardValue::Seven => 7,
        CardValue::Eight => 8,
        CardValue::Nine => 9,
        CardValue::Ten => 10,
        CardValue::Jack => 10,
        CardValue::Queen => 10,
        CardValue::King => 10,
    }
}

} // verus!
