use solitaire::board::{Board, Col, Play, Scored};
use solitaire::deck::{Card, Color, Suit};

#[test]
fn play_col_good() {
    let c = Col {
        cards: vec![Card { suit: Suit::Diamond, rank: 8 }],
        hidden: vec![],
    };
    let a = vec![Card { suit: Suit::Club, rank: 7 }];
    c.play(&a).unwrap();
}

#[test]
#[should_panic]
fn play_col_fail() {
    let c = Col {
        cards: vec![Card { suit: Suit::Diamond, rank: 8 }],
        hidden: vec![],
    };
    let a = vec![Card { suit: Suit::Club, rank: 8 }];
    c.play(&a).unwrap();
}

#[test]
#[should_panic]
fn play_col_fail2() {
    let c = Col {
        cards: vec![Card { suit: Suit::Diamond, rank: 8 }],
        hidden: vec![],
    };
    let a = vec![Card { suit: Suit::Heart, rank: 7 }];
    c.play(&a).unwrap();
}

// A column with a visible red 8 takes an opposite-color 7, in either black
// suit, and nothing else of nearby rank or same color.
#[test]
fn tableau_acceptance() {
    let c = Col {
        cards: vec![Card { suit: Suit::Diamond, rank: 8 }],
        hidden: vec![],
    };
    assert!(c.can_play(&vec![Card { suit: Suit::Club, rank: 7 }]));
    assert!(c.can_play(&vec![Card { suit: Suit::Spade, rank: 7 }]));
    assert!(!c.can_play(&vec![Card { suit: Suit::Club, rank: 8 }]));
    assert!(!c.can_play(&vec![Card { suit: Suit::Heart, rank: 7 }]));
    assert!(!c.can_play(&vec![Card { suit: Suit::Diamond, rank: 7 }]));
    assert!(!c.can_play(&vec![Card { suit: Suit::Club, rank: 6 }]));
}

// An empty column takes only a run led by rank 13.
#[test]
fn tableau_empty_column() {
    let c = Col::new();
    assert!(c.can_play(&vec![Card { suit: Suit::Club, rank: 13 }]));
    assert!(c.can_play(&vec![
        Card { suit: Suit::Club, rank: 13 },
        Card { suit: Suit::Heart, rank: 12 },
    ]));
    assert!(!c.can_play(&vec![Card { suit: Suit::Club, rank: 12 }]));
    assert!(!c.can_play(&vec![Card { suit: Suit::Heart, rank: 14 }]));
}

// A multi-card run is appended as a unit, preserving order.
#[test]
fn tableau_run_append() {
    let c = Col {
        cards: vec![Card { suit: Suit::Diamond, rank: 8 }],
        hidden: vec![Card { suit: Suit::Spade, rank: 2 }],
    };
    let run = vec![
        Card { suit: Suit::Club, rank: 7 },
        Card { suit: Suit::Heart, rank: 6 },
    ];
    let n = c.play(&run).unwrap();
    assert_eq!(n.cards.len(), 3);
    assert_eq!(n.cards[0], Card { suit: Suit::Diamond, rank: 8 });
    assert_eq!(n.cards[1], Card { suit: Suit::Club, rank: 7 });
    assert_eq!(n.cards[2], Card { suit: Suit::Heart, rank: 6 });
    assert_eq!(n.hidden.len(), 1);
}

// An empty foundation takes a rank-1 card of any suit and nothing else;
// after the ace of hearts it takes exactly the 2 of hearts.
#[test]
fn foundation_acceptance() {
    let f = Scored::new();
    assert!(f.can_play(&Card { suit: Suit::Heart, rank: 1 }));
    assert!(f.can_play(&Card { suit: Suit::Spade, rank: 1 }));
    assert!(f.can_play(&Card { suit: Suit::Diamond, rank: 1 }));
    assert!(f.can_play(&Card { suit: Suit::Club, rank: 1 }));
    assert!(!f.can_play(&Card { suit: Suit::Heart, rank: 2 }));
    assert!(!f.can_play(&Card { suit: Suit::Club, rank: 13 }));

    let f = f.play(&Card { suit: Suit::Heart, rank: 1 }).unwrap();
    assert!(f.can_play(&Card { suit: Suit::Heart, rank: 2 }));
    assert!(!f.can_play(&Card { suit: Suit::Spade, rank: 2 }));
    assert!(!f.can_play(&Card { suit: Suit::Diamond, rank: 2 }));
    assert!(!f.can_play(&Card { suit: Suit::Club, rank: 2 }));
    assert!(!f.can_play(&Card { suit: Suit::Heart, rank: 3 }));
    assert!(f.play(&Card { suit: Suit::Spade, rank: 2 }).is_err());
    assert_eq!(f.len(), 1);
}

// Turning reveals the top hidden card once the visible pile empties.
#[test]
fn column_pop_turns() {
    let mut c = Col {
        cards: vec![Card { suit: Suit::Diamond, rank: 8 }],
        hidden: vec![
            Card { suit: Suit::Spade, rank: 2 },
            Card { suit: Suit::Heart, rank: 9 },
        ],
    };
    let popped = c.pop();
    assert_eq!(popped, Some(Card { suit: Suit::Diamond, rank: 8 }));
    assert_eq!(c.cards, vec![Card { suit: Suit::Heart, rank: 9 }]);
    assert_eq!(c.hidden, vec![Card { suit: Suit::Spade, rank: 2 }]);
}

// A fresh deal: column k holds k + 1 cards, one visible; the waste is
// empty; 28 cards sit in the tableau; nothing is scored, nothing is won.
#[test]
fn fresh_board() {
    let b = Board::new();
    let mut total = 0;
    for k in 0..7 {
        assert_eq!(b.cols[k].cards.len(), 1);
        assert_eq!(b.cols[k].hidden.len(), k);
        total += b.cols[k].cards.len() + b.cols[k].hidden.len();
    }
    assert_eq!(total, 28);
    assert_eq!(b.cols[7].cards.len(), 0);
    assert_eq!(b.cols[7].hidden.len(), 0);
    assert_eq!(b.scored(), 0);
    assert!(!b.win());
}

// Drawing alone walks the stock exactly maxRedeals + 1 times: 24 stock
// cards in batches of 3 give 8 draws per pass and 32 in all, and the next
// draw reports exhaustion. The score never moves along the way.
#[test]
fn draw_exhaustion() {
    let mut b = Board::new();
    for _ in 0..32 {
        b = b.draw().unwrap();
        assert_eq!(b.scored(), 0);
        assert_eq!(b.cols[7].cards.len(), 1);
    }
    assert!(b.draw().is_err());
}

// The deal identifier spells out the 24 cards left in the stock after the
// deal: each card contributes its rank (one or two digits) and one suit
// letter, so between 2 and 3 characters.
#[test]
fn deal_id_shape() {
    let b = Board::new();
    let id = b.get_id();
    assert!(id.len() >= 48);
    assert!(id.len() <= 72);
    assert!(id.chars().all(|ch| ch.is_ascii_digit()
        || ch == 'S'
        || ch == 'H'
        || ch == 'D'
        || ch == 'C'));
}

#[test]
fn card_colors() {
    assert_eq!(Card { suit: Suit::Heart, rank: 5 }.color(), Color::Red);
    assert_eq!(Card { suit: Suit::Diamond, rank: 5 }.color(), Color::Red);
    assert_eq!(Card { suit: Suit::Spade, rank: 5 }.color(), Color::Black);
    assert_eq!(Card { suit: Suit::Club, rank: 5 }.color(), Color::Black);
}

// When a draw exposes a scoreable card (an ace) on the waste, scoring it
// raises the score by exactly one and leaves the game unwon.
#[test]
fn score_from_waste_when_possible() {
    let mut b = Board::new();
    loop {
        if b.cols[7].cards.len() > 0 {
            let c = b.cols[7].cards[b.cols[7].cards.len() - 1];
            if b.can_score(&c) {
                let before = b.scored();
                let b2 = b.score(7);
                assert_eq!(b2.scored(), before + 1);
                assert!(!b2.win());
                return;
            }
        }
        match b.draw() {
            Ok(next) => b = next,
            Err(()) => return,
        }
    }
}

// Any legal run move conserves every column's cards as a whole and does not
// change the score.
#[test]
fn mov_conserves_cards() {
    let b = Board::new();
    let count = |x: &Board| -> usize {
        (0..8)
            .map(|k| x.cols[k].cards.len() + x.cols[k].hidden.len())
            .sum()
    };
    for s in 0..8 {
        if b.cols[s].cards.is_empty() {
            continue;
        }
        for d in 0..7 {
            if s != d && b.can_mov(s, d) {
                let b2 = b.mov(s, d);
                assert_eq!(count(&b2), count(&b));
                assert_eq!(b2.scored(), b.scored());
                assert_eq!(
                    b2.cols[d].cards.len(),
                    b.cols[d].cards.len() + b.cols[s].cards.len()
                );
                return;
            }
        }
    }
}
