//! An exhaustive depth-first search for a winning sequence of moves.
//!
//! The search recurses on every legal score, move, and draw, short-circuiting
//! on the first success. It terminates because every explored transformation
//! shrinks a lexicographic measure: the cards left to score, then the redeal
//! budget, then the stock, then the waste, then the face-down cards, then the
//! occupied tableau columns.

use crate::board::{
    hidden06, lemma_mov_measure, lemma_reaches_prepend, lemma_reaches_refl, lemma_scored_bound,
    lemma_step_scored, reaches, scored_accepts, step, vis06, waste_total, Board, BoardV, MAX_TURNS,
};
use vstd::prelude::*;

verus! {

/// Searches for a winning sequence of moves from `b`, depth-first, and
/// reports whether one exists on the explored paths: a success means some
/// sequence of legal transformations reaches a board with all 52 cards
/// scored, an already-won board always succeeds, and the tracker reaches 52
/// only through an actual win. `drew` marks a board reached by a draw
/// alone, which lets the search skip move generation when the fresh waste
/// card offers nothing; when an unhinted search fails, no single legal
/// transformation of `b` wins. The hint describes how
/// `b` was reached: a hint that does not match the board's history can
/// prune paths that an unhinted search would explore. `best` accumulates
/// the highest score seen anywhere in the search; a win records the full
/// 52.
#[verifier::loop_isolation(false)]
pub fn solve(b: &Board, drew: bool, best: &mut u8) -> (r: bool)
    requires
        b@.wf(),
        *old(best) <= 52,
    ensures
        *old(best) <= *final(best) <= 52,
        b@.scored_total() <= *final(best) as int,
        r ==> *final(best) == 52,
        r ==> exists|w: BoardV| reaches(b@, w) && (#[trigger] w.scored_total()) == 52,
        b@.scored_total() == 52 ==> r,
        !r && *old(best) < 52 ==> *final(best) < 52,
        !r && !drew ==> forall|w: BoardV| #[trigger] step(b@, w) ==> w.scored_total() < 52,
    decreases
        52 - b@.scored_total(),
        MAX_TURNS as int - b@.turns,
        b@.deck.len(),
        waste_total(b@),
        hidden06(b@),
        vis06(b@),
{
    proof {
        lemma_scored_bound(b@);
    }
    if b.win() {
        *best = 52;
        proof {
            lemma_reaches_refl(b@);
            assert(reaches(b@, b@) && b@.scored_total() == 52);
        }
        return true;
    }
    let sc = b.scored();
    if (sc as u8) > *best {
        *best = sc as u8;
    }

    // A board reached by a draw alone needs no new move generation unless
    // the newly exposed waste card can be scored or moved.
    let mut skip = drew;
    if skip && b.col_len(7) > 0 {
        let x = b.col_card(7, 0);
        if b.can_score(&x) {
            skip = false;
        }
        if skip {
            let mut dd: usize = 0;
            while dd < 7
                invariant
                    dd <= 7,
                decreases 7 - dd,
            {
                if b.can_mov(7, dd) {
                    skip = false;
                }
                dd = dd + 1;
            }
        }
    }

    if !skip {
        // Score whatever can be scored, leftmost column first.
        let mut i: usize = 0;
        while i < 8
            invariant
                i <= 8,
                *old(best) <= *best <= 52,
                b@.scored_total() <= *best as int,
                *old(best) < 52 ==> *best < 52,
                forall|k: int|
                    0 <= k < i && b@.cols[k].cards.len() > 0 && scored_accepts(
                        b@.fnd(b@.cols[k].cards.last().suit),
                        b@.cols[k].cards.last(),
                    ) ==> (#[trigger] b@.score_v(k)).scored_total() < 52,
            decreases 8 - i,
        {
            if b.col_len(i) > 0 {
                let c = b.col_card(i, b.col_len(i) - 1);
                if b.can_score(&c) {
                    let b2 = b.score(i);
                    proof {
                        lemma_scored_bound(b2@);
                    }
                    if solve(&b2, false, best) {
                        proof {
                            assert(b2@ == b@.score_v(i as int));
                            assert(step(b@, b2@));
                            let w = choose|w: BoardV|
                                reaches(b2@, w) && (#[trigger] w.scored_total()) == 52;
                            lemma_reaches_prepend(b@, b2@, w);
                        }
                        return true;
                    }
                }
            }
            i = i + 1;
        }
        // Try every run move, except shuttling a fully exposed king run
        // between empty-seeking slots.
        let mut s: usize = 0;
        while s < 8
            invariant
                s <= 8,
                *old(best) <= *best <= 52,
                b@.scored_total() <= *best as int,
                *old(best) < 52 ==> *best < 52,
            decreases 8 - s,
        {
            if b.col_len(s) > 0 {
                let first = b.col_card(s, 0);
                if !(first.rank == 13 && b.col_hidden_len(s) == 0 && s != 7) {
                    let mut d: usize = 0;
                    while d < 7
                        invariant
                            d <= 7,
                            *old(best) <= *best <= 52,
                            b@.scored_total() <= *best as int,
                            *old(best) < 52 ==> *best < 52,
                        decreases 7 - d,
                    {
                        if b.can_mov(s, d) {
                            let b2 = b.mov(s, d);
                            proof {
                                lemma_mov_measure(b@, s as int, d as int);
                                lemma_scored_bound(b2@);
                            }
                            if solve(&b2, false, best) {
                                proof {
                                    assert(b2@ == b@.mov_v(s as int, d as int));
                                    assert(step(b@, b2@));
                                    let w = choose|w: BoardV|
                                        reaches(b2@, w) && (#[trigger] w.scored_total()) == 52;
                                    lemma_reaches_prepend(b@, b2@, w);
                                }
                                return true;
                            }
                        }
                        d = d + 1;
                    }
                }
            }
            s = s + 1;
        }
    }

    // Draw new cards.
    if b.can_draw() {
        match b.draw() {
            Ok(b2) => {
                proof {
                    lemma_scored_bound(b2@);
                }
                if solve(&b2, true, best) {
                    proof {
                        assert(b2@ == b@.draw_v());
                        assert(step(b@, b2@));
                        let w = choose|w: BoardV|
                            reaches(b2@, w) && (#[trigger] w.scored_total()) == 52;
                        lemma_reaches_prepend(b@, b2@, w);
                    }
                    return true;
                }
            },
            Err(_) => {},
        }
    }

    proof {
        if !drew {
            assert forall|w: BoardV| #[trigger] step(b@, w) implies w.scored_total() < 52 by {
                lemma_step_scored(b@, w);
                if w.scored_total() == b@.scored_total() + 1 {
                    let i = choose|i: int|
                        0 <= i < 8 && b@.cols[i].cards.len() > 0 && scored_accepts(
                            b@.fnd(b@.cols[i].cards.last().suit),
                            b@.cols[i].cards.last(),
                        ) && w == #[trigger] b@.score_v(i);
                    assert(b@.score_v(i).scored_total() < 52);
                }
            }
        }
    }
    false
}

} // verus!
