use solitaire::deck::{Card, Deck, Suit};

#[test]
fn num_cards() {
    let d = Deck::new();
    assert_eq!(d.cards.len(), 52);
}

// Shuffling only reorders: a fresh deck holds each of the 52 domain cards
// exactly once — 13 ranks (6 missing, 14 present) in each of 4 suits.
#[test]
fn deck_complete() {
    let d = Deck::new();
    let ranks: [u8; 13] = [1, 2, 3, 4, 5, 7, 8, 9, 10, 11, 12, 13, 14];
    for suit in [Suit::Spade, Suit::Heart, Suit::Diamond, Suit::Club] {
        for rank in ranks {
            let n = d
                .cards
                .iter()
                .filter(|c| c.suit == suit && c.rank == rank)
                .count();
            assert_eq!(n, 1, "expected exactly one card of each kind");
        }
    }
}

// The stock pops exactly its 52 cards, then reports empty.
#[test]
fn deck_draws_out() {
    let mut d = Deck::new();
    for _ in 0..52 {
        assert!(d.draw().is_some());
    }
    assert!(d.draw().is_none());
}

// Rebuilding the stock from a given pile keeps that pile's order.
#[test]
fn deck_from_cards() {
    let cards = vec![
        Card::new(Suit::Heart, 3),
        Card::new(Suit::Spade, 13),
    ];
    let mut d = Deck::from(cards.clone());
    assert_eq!(d.cards, cards);
    assert_eq!(d.draw(), Some(Card::new(Suit::Spade, 13)));
    assert_eq!(d.draw(), Some(Card::new(Suit::Heart, 3)));
    assert_eq!(d.draw(), None);
}

#[test]
fn suit_all() {
    assert_eq!(
        Suit::all(),
        vec![Suit::Spade, Suit::Heart, Suit::Diamond, Suit::Club]
    );
}
