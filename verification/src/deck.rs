//! The card domain: suits, colors, cards, and the shuffled stock.
//!
//! The deck used by this ruleset has 52 cards: the 13 ranks
//! {1, 2, 3, 4, 5, 7, 8, 9, 10, 11, 12, 13, 14} in each of the four suits.

use rand::seq::SliceRandom;
use vstd::multiset::Multiset;
use vstd::prelude::*;

verus! {

#[derive(Debug, Clone, Copy, PartialEq, Eq, Structural)]
pub enum Color {
    Red,
    Black,
}

#[derive(Debug, Copy, Clone, PartialEq, Eq, Structural)]
pub enum Suit {
    Spade,
    Heart,
    Diamond,
    Club,
}

impl Suit {
    /// The four suits, in the order the deck is built.
    pub open spec fn all_spec() -> Seq<Suit> {
        seq![Suit::Spade, Suit::Heart, Suit::Diamond, Suit::Club]
    }

    pub fn all() -> (r: Vec<Suit>)
        ensures
            r@ == Suit::all_spec(),
    {
        let mut v: Vec<Suit> = Vec::new();
        v.push(Suit::Spade);
        v.push(Suit::Heart);
        v.push(Suit::Diamond);
        v.push(Suit::Club);
        proof {
            assert(v@ =~= Suit::all_spec());
        }
        v
    }
}

#[derive(Debug, Copy, PartialEq, Eq, Structural)]
pub struct Card {
    pub suit: Suit,
    pub rank: u8,
}

impl Clone for Card {
    fn clone(&self) -> (r: Card)
        ensures
            r == *self,
    {
        Card { suit: self.suit, rank: self.rank }
    }
}

impl Card {
    pub fn new(suit: Suit, rank: u8) -> (c: Card)
        ensures
            c.suit == suit,
            c.rank == rank,
    {
        Card { suit, rank }
    }

    /// Hearts and diamonds are red; spades and clubs are black.
    pub open spec fn spec_color(self) -> Color {
        match self.suit {
            Suit::Diamond => Color::Red,
            Suit::Heart => Color::Red,
            Suit::Spade => Color::Black,
            Suit::Club => Color::Black,
        }
    }

    pub fn color(&self) -> (r: Color)
        ensures
            r == self.spec_color(),
    {
        match self.suit {
            Suit::Diamond => Color::Red,
            Suit::Heart => Color::Red,
            Suit::Spade => Color::Black,
            Suit::Club => Color::Black,
        }
    }
}

/// The 13 ranks of this ruleset, in the order the deck is built.
/// Rank 6 is absent and rank 14 present: a fixed property of this deck.
pub open spec fn ranks_spec() -> Seq<u8> {
    seq![1u8, 2u8, 3u8, 4u8, 5u8, 7u8, 8u8, 9u8, 10u8, 11u8, 12u8, 13u8, 14u8]
}

/// The 13 cards of one suit, in rank order.
pub open spec fn suit_run(s: Suit) -> Seq<Card> {
    Seq::new(13, |i: int| Card { suit: s, rank: ranks_spec()[i] })
}

/// The full deck, suit by suit, before shuffling: `n` suits' worth of cards.
pub open spec fn deck_prefix(n: int) -> Seq<Card>
    decreases n,
{
    if n <= 0 {
        Seq::empty()
    } else {
        deck_prefix(n - 1) + suit_run(Suit::all_spec()[n - 1])
    }
}

/// The full 52-card deck in its construction order.
pub open spec fn deck_seq() -> Seq<Card> {
    deck_prefix(4)
}

/// The full deck as a multiset: one of each of the 52 domain cards.
pub open spec fn full_deck() -> Multiset<Card> {
    deck_seq().to_multiset()
}

/// The shuffled stock: an ordered pile of cards drawn from the top (the
/// end of the vector).
#[derive(Debug)]
pub struct Deck {
    pub cards: Vec<Card>,
}

impl View for Deck {
    type V = Seq<Card>;

    open spec fn view(&self) -> Seq<Card> {
        self.cards@
    }
}

impl Clone for Deck {
    fn clone(&self) -> (r: Deck)
        ensures
            r@ == self@,
    {
        let cards = self.cards.clone();
        proof {
            assert(cards@ =~= self.cards@);
        }
        Deck { cards }
    }
}

impl Deck {
    /// Builds the 52-card deck and returns it in a random order.
    pub fn new() -> (d: Deck)
        ensures
            d@.len() == 52,
            d@.to_multiset() == full_deck(),
    {
        let mut cards: Vec<Card> = Vec::new();
        let suits = Suit::all();
        let ranks = ranks_vec();
        let mut s: usize = 0;
        while s < 4
            invariant
                suits@ == Suit::all_spec(),
                ranks@ == ranks_spec(),
                s <= 4,
                cards@ =~= deck_prefix(s as int),
            decreases 4 - s,
        {
            let mut r: usize = 0;
            while r < 13
                invariant
                    suits@ == Suit::all_spec(),
                    ranks@ == ranks_spec(),
                    s < 4,
                    r <= 13,
                    cards@ =~= deck_prefix(s as int) + suit_run(suits@[s as int]).take(r as int),
                decreases 13 - r,
            {
                cards.push(Card::new(suits[s], ranks[r]));
                proof {
                    assert(suit_run(suits@[s as int]).take(r + 1 as int) =~= suit_run(
                        suits@[s as int],
                    ).take(r as int).push(Card { suit: suits@[s as int], rank: ranks_spec()[r as int] }));
                }
                r = r + 1;
            }
            proof {
                assert(suit_run(suits@[s as int]).take(13) =~= suit_run(suits@[s as int]));
                assert(cards@ =~= deck_prefix(s + 1 as int));
            }
            s = s + 1;
        }
        proof {
            lemma_deck_seq_len();
        }
        let mut d = Deck { cards };
        d.shuffle();
        d
    }

    /// Reorders the cards uniformly at random; the multiset of cards is
    /// unchanged.
    ///
    /// Relies on `rand::seq::SliceRandom::shuffle` (driven by the operating
    /// system's random number generator, `rand::rngs::OsRng`), which permutes
    /// the slice in place.
    #[verifier::external_body]
    pub fn shuffle(&mut self)
        ensures
            final(self)@.len() == old(self)@.len(),
            final(self)@.to_multiset() == old(self)@.to_multiset(),
    {
        self.cards.as_mut_slice().shuffle(&mut rand::rngs::OsRng);
    }

    /// Removes and returns the top card; `None` when the stock is empty.
    pub fn draw(&mut self) -> (r: Option<Card>)
        ensures
            old(self)@.len() == 0 ==> r is None && final(self)@ == old(self)@,
            old(self)@.len() > 0 ==> r == Some(old(self)@.last()) && final(self)@ == old(
                self,
            )@.drop_last(),
    {
        self.cards.pop()
    }
}

/// Replaces the stock's contents wholesale with the given cards (used to
/// rebuild the stock from the recycled waste).
impl From<Vec<Card>> for Deck {
    fn from(cards: Vec<Card>) -> (d: Deck) {
        Deck { cards }
    }
}

impl vstd::std_specs::convert::FromSpecImpl<Vec<Card>> for Deck {
    open spec fn obeys_from_spec() -> bool {
        true
    }

    open spec fn from_spec(cards: Vec<Card>) -> Deck {
        Deck { cards }
    }
}

/// Which position a suit takes in the deck's construction order.
pub open spec fn suit_index(s: Suit) -> int {
    match s {
        Suit::Spade => 0,
        Suit::Heart => 1,
        Suit::Diamond => 2,
        Suit::Club => 3,
    }
}

/// One suit's 13 cards are pairwise distinct and all of that suit.
proof fn lemma_suit_run_distinct(s: Suit)
    ensures
        suit_run(s).no_duplicates(),
        forall|i: int| 0 <= i < 13 ==> (#[trigger] suit_run(s)[i]).suit == s,
{
    assert(ranks_spec().no_duplicates());
    assert forall|i: int, j: int|
        0 <= i < suit_run(s).len() && 0 <= j < suit_run(s).len() && i != j implies suit_run(s)[i]
        != suit_run(s)[j] by {
        assert(ranks_spec()[i] != ranks_spec()[j]);
    }
}

/// The first `n` suits' worth of the deck holds pairwise distinct cards,
/// all from those first `n` suits.
proof fn lemma_deck_prefix_distinct(n: int)
    requires
        0 <= n <= 4,
    ensures
        deck_prefix(n).no_duplicates(),
        forall|i: int|
            0 <= i < deck_prefix(n).len() ==> suit_index((#[trigger] deck_prefix(n)[i]).suit) < n,
    decreases n,
{
    if n > 0 {
        lemma_deck_prefix_distinct(n - 1);
        let p = deck_prefix(n - 1);
        let r = suit_run(Suit::all_spec()[n - 1]);
        let c = deck_prefix(n);
        lemma_suit_run_distinct(Suit::all_spec()[n - 1]);
        assert(suit_index(Suit::all_spec()[n - 1]) == n - 1);
        assert forall|i: int|
            0 <= i < c.len() implies suit_index((#[trigger] c[i]).suit) < n by {
            if i < p.len() {
                assert(c[i] == p[i]);
            } else {
                assert(c[i] == r[i - p.len()]);
            }
        }
        assert forall|i: int, j: int|
            0 <= i < c.len() && 0 <= j < c.len() && i != j implies c[i] != c[j] by {
            if i < p.len() && j < p.len() {
                assert(c[i] == p[i] && c[j] == p[j]);
            } else if i >= p.len() && j >= p.len() {
                assert(c[i] == r[i - p.len()] && c[j] == r[j - p.len()]);
            } else if i < p.len() {
                assert(suit_index(c[i].suit) < n - 1);
                assert(c[j] == r[j - p.len()]);
            } else {
                assert(suit_index(c[j].suit) < n - 1);
                assert(c[i] == r[i - p.len()]);
            }
        }
    }
}

/// No card appears twice in the full deck.
pub proof fn lemma_full_deck_one_each()
    ensures
        forall|c: Card| full_deck().count(c) <= 1,
{
    broadcast use vstd::multiset::group_multiset_axioms;

    lemma_deck_prefix_distinct(4);
    deck_seq().lemma_multiset_has_no_duplicates();
    assert forall|c: Card| full_deck().count(c) <= 1 by {
        if full_deck().count(c) > 0 {
            assert(full_deck().contains(c));
        }
    }
}

/// The 13 ranks as a vector, in deck-construction order.
fn ranks_vec() -> (r: Vec<u8>)
    ensures
        r@ == ranks_spec(),
{
    let v: Vec<u8> = vec![1, 2, 3, 4, 5, 7, 8, 9, 10, 11, 12, 13, 14];
    proof {
        assert(v@ =~= ranks_spec());
    }
    v
}

/// The unshuffled deck holds 52 cards.
pub proof fn lemma_deck_seq_len()
    ensures
        deck_seq().len() == 52,
{
    assert(deck_prefix(0).len() == 0);
    assert(deck_prefix(1).len() == 13);
    assert(deck_prefix(2).len() == 26);
    assert(deck_prefix(3).len() == 39);
    assert(deck_prefix(4).len() == 52);
}

} // verus!
