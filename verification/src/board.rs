//! The game state: foundation piles, tableau columns, and the full board
//! with its three legal transformations (score, move, draw).

use crate::deck::{full_deck, Card, Deck, Suit};
use vstd::multiset::Multiset;
use vstd::prelude::*;
use vstd::string::StringExecFns;

verus! {

broadcast use {vstd::multiset::group_multiset_axioms, vstd::seq_lib::group_to_multiset_ensures};

/// Most redeals allowed: the stock may be rebuilt from the waste this many
/// times.
pub const MAX_TURNS: u8 = 3;

/// Cards drawn from the stock in one batch.
pub const NUM_DRAW: usize = 3;

/// A foundation accepts `c` exactly when the pile is empty and `c` has rank 1,
/// or `c` continues the pile's suit with the next rank up.
pub open spec fn scored_accepts(pile: Seq<Card>, c: Card) -> bool {
    if pile.len() == 0 {
        c.rank == 1
    } else {
        c.rank == pile.last().rank + 1 && c.suit == pile.last().suit
    }
}

/// A column's visible pile accepts a (non-empty) run exactly when the pile is
/// empty and the run starts at rank 13, or the run's first card is one rank
/// below the pile's top card and of the opposite color.
pub open spec fn col_accepts(cards: Seq<Card>, run: Seq<Card>) -> bool {
    &&& run.len() > 0
    &&& if cards.len() == 0 {
        run[0].rank == 13
    } else {
        run[0].rank + 1 == cards.last().rank && run[0].spec_color() != cards.last().spec_color()
    }
}

/// The abstract value of a column: its visible (face-up) cards, bottom first,
/// and its hidden (face-down) cards, bottom first.
#[verifier::ext_equal]
pub ghost struct ColV {
    pub cards: Seq<Card>,
    pub hidden: Seq<Card>,
}

/// Turning a column: when the visible pile is empty and hidden cards remain,
/// the top hidden card becomes visible.
pub open spec fn turn_v(c: ColV) -> ColV {
    if c.cards.len() == 0 && c.hidden.len() > 0 {
        ColV { cards: seq![c.hidden.last()], hidden: c.hidden.drop_last() }
    } else {
        c
    }
}

/// The visible pile is a legal run: ranks descend by exactly one and colors
/// alternate from bottom to top.
pub open spec fn run_wf(s: Seq<Card>) -> bool {
    forall|j: int|
        #![trigger s[j], s[j - 1]]
        1 <= j < s.len() ==> s[j].rank + 1 == s[j - 1].rank && s[j].spec_color() != s[
            j - 1
        ].spec_color()
}

/// All cards held by a column, visible and hidden.
pub open spec fn col_cards_ms(c: ColV) -> Multiset<Card> {
    c.cards.to_multiset().add(c.hidden.to_multiset())
}

/// All cards held by a sequence of columns.
pub open spec fn cols_ms(cols: Seq<ColV>) -> Multiset<Card>
    decreases cols.len(),
{
    if cols.len() == 0 {
        Multiset::empty()
    } else {
        cols_ms(cols.drop_last()).add(col_cards_ms(cols.last()))
    }
}

/// Replacing one column changes the total card pool only by that column's
/// difference.
pub proof fn lemma_cols_ms_update(cols: Seq<ColV>, k: int, c2: ColV)
    requires
        0 <= k < cols.len(),
    ensures
        cols_ms(cols.update(k, c2)).add(col_cards_ms(cols[k])) == cols_ms(cols).add(
            col_cards_ms(c2),
        ),
    decreases cols.len(),
{
    let cols2 = cols.update(k, c2);
    assert(cols_ms(cols2) == cols_ms(cols2.drop_last()).add(col_cards_ms(cols2.last())));
    assert(cols_ms(cols) == cols_ms(cols.drop_last()).add(col_cards_ms(cols.last())));
    let ck = col_cards_ms(cols[k]);
    let cc = col_cards_ms(c2);
    if k == cols.len() - 1 {
        let x = cols_ms(cols.drop_last());
        assert(cols2.drop_last() =~= cols.drop_last());
        assert(cols2.last() == c2);
        assert(cols.last() == cols[k]);
        assert(cols_ms(cols2) == x.add(cc));
        assert(cols_ms(cols) == x.add(ck));
        assert(x.add(cc).add(ck) =~= x.add(ck).add(cc));
    } else {
        lemma_cols_ms_update(cols.drop_last(), k, c2);
        let x1 = cols_ms(cols.drop_last().update(k, c2));
        let x0 = cols_ms(cols.drop_last());
        let cl = col_cards_ms(cols.last());
        assert(x1.add(ck) == x0.add(cc));
        assert(cols2.drop_last() =~= cols.drop_last().update(k, c2));
        assert(cols2.last() == cols.last());
        assert(cols.drop_last()[k] == cols[k]);
        assert(cols_ms(cols2) == x1.add(cl));
        assert(cols_ms(cols) == x0.add(cl));
        assert(x1.add(cl).add(ck) =~= x1.add(ck).add(cl));
        assert(x1.add(ck).add(cl) == x0.add(cc).add(cl));
        assert(x0.add(cc).add(cl) =~= x0.add(cl).add(cc));
    }
}

/// Turning a column does not change which cards it holds.
pub proof fn lemma_turn_v_ms(c: ColV)
    ensures
        col_cards_ms(turn_v(c)) == col_cards_ms(c),
{
    if c.cards.len() == 0 && c.hidden.len() > 0 {
        assert(c.hidden.drop_last().push(c.hidden.last()) =~= c.hidden);
        assert(Seq::<Card>::empty().push(c.hidden.last()) =~= seq![c.hidden.last()]);
        assert(col_cards_ms(turn_v(c)) =~= col_cards_ms(c));
    }
}

/// Turning preserves a legal visible run (it can only produce a single card).
pub proof fn lemma_turn_v_run_wf(c: ColV)
    requires
        run_wf(c.cards),
    ensures
        run_wf(turn_v(c).cards),
        turn_v(c).cards.len() <= if c.cards.len() == 0 { 1int } else { c.cards.len() as int },
{
}

/// In a legal run the ranks descend from the first card: the top (last) card's
/// rank is the first card's rank minus the run's length plus one.
#[verifier::rlimit(50)]
pub proof fn lemma_run_wf_ranks(s: Seq<Card>)
    requires
        run_wf(s),
        s.len() > 0,
    ensures
        s[0].rank == s.last().rank + s.len() - 1,
    decreases s.len(),
{
    if s.len() > 1 {
        assert(run_wf(s.drop_last()));
        lemma_run_wf_ranks(s.drop_last());
        assert(s.drop_last()[0] == s[0]);
        assert(s.drop_last().last() == s[s.len() - 2]);
    }
}

/// Appending an accepted run to a legal pile yields a legal pile.
#[verifier::rlimit(50)]
pub proof fn lemma_run_wf_append(a: Seq<Card>, b: Seq<Card>)
    requires
        run_wf(a),
        run_wf(b),
        col_accepts(a, b),
    ensures
        run_wf(a + b),
{
    let c = a + b;
    assert forall|j: int| 1 <= j < c.len() implies (#[trigger] c[j]).rank + 1 == c[j - 1].rank
        && c[j].spec_color() != c[j - 1].spec_color() by {
        if j < a.len() {
            assert(c[j] == a[j] && c[j - 1] == a[j - 1]);
        } else if j == a.len() {
            assert(c[j] == b[0] && c[j - 1] == a.last());
        } else {
            assert(c[j] == b[j - a.len()] && c[j - 1] == b[j - a.len() - 1]);
        }
    }
}

/// A pile can never accept its own (non-empty, legal) visible run.
pub proof fn lemma_no_self_accept(s: Seq<Card>)
    requires
        run_wf(s),
        s.len() > 0,
    ensures
        !col_accepts(s, s),
{
    lemma_run_wf_ranks(s);
}

/// Removing the top card of a legal run leaves a legal run.
pub proof fn lemma_run_wf_drop_last(s: Seq<Card>)
    requires
        run_wf(s),
        s.len() > 0,
    ensures
        run_wf(s.drop_last()),
{
    let t = s.drop_last();
    assert forall|j: int| #![trigger t[j], t[j - 1]] 1 <= j < t.len() implies t[j].rank + 1 == t[
        j - 1
    ].rank && t[j].spec_color() != t[j - 1].spec_color() by {
        assert(s[j].rank + 1 == s[j - 1].rank && s[j].spec_color() != s[j - 1].spec_color());
    }
}

/// A pile that accepts cards under its own placement rule: foundations take
/// one card, columns take a run.
pub trait Play<T: View, U>: Sized {
    /// When `play` may be called at all.
    spec fn play_req(&self, c: &U) -> bool;

    /// Whether the pile accepts `c`.
    spec fn accepts(&self, c: &U) -> bool;

    /// The pile after a successful play.
    spec fn played(&self, c: &U) -> T::V;

    fn play(&self, c: &U) -> (r: Result<T, ()>)
        requires
            self.play_req(c),
        ensures
            r is Ok <==> self.accepts(c),
            r matches Ok(n) ==> n@ == self.played(c),
    ;

    fn can_play(&self, c: &U) -> (r: bool)
        requires
            self.play_req(c),
        ensures
            r == self.accepts(c),
    ;
}

/// A foundation pile: an ascending same-suit run seeded by rank 1.
#[derive(Debug)]
pub struct Scored {
    cards: Vec<Card>,
}

impl View for Scored {
    type V = Seq<Card>;

    closed spec fn view(&self) -> Seq<Card> {
        self.cards@
    }
}

impl Clone for Scored {
    fn clone(&self) -> (r: Scored)
        ensures
            r@ == self@,
    {
        Scored { cards: copy_cards(&self.cards) }
    }
}

impl Scored {
    pub fn new() -> (r: Scored)
        ensures
            r@ == Seq::<Card>::empty(),
    {
        Scored { cards: Vec::new() }
    }

    /// How many cards this pile has scored.
    pub fn len(&self) -> (n: usize)
        ensures
            n == self@.len(),
    {
        self.cards.len()
    }
}

impl Play<Scored, Card> for Scored {
    open spec fn play_req(&self, c: &Card) -> bool {
        true
    }

    open spec fn accepts(&self, c: &Card) -> bool {
        scored_accepts(self@, *c)
    }

    open spec fn played(&self, c: &Card) -> Seq<Card> {
        self@.push(*c)
    }

    /// Plays `c` on the pile: succeeds exactly when the pile accepts it, and
    /// then appends it.
    fn play(&self, c: &Card) -> (r: Result<Scored, ()>) {
        if self.cards.len() == 0 {
            if c.rank == 1 {
                let mut n = copy_cards(&self.cards);
                n.push(*c);
                Ok(Scored { cards: n })
            } else {
                Err(())
            }
        } else {
            let m: &Card = &self.cards[self.cards.len() - 1];
            if (c.rank as u16) == (m.rank as u16) + 1 && c.suit == m.suit {
                let mut n = copy_cards(&self.cards);
                n.push(*c);
                Ok(Scored { cards: n })
            } else {
                Err(())
            }
        }
    }

    /// A foundation accepts `c` iff it is empty and `c` has rank 1, or `c`
    /// continues the suit with the next rank up.
    fn can_play(&self, c: &Card) -> (r: bool) {
        self.play(c).is_ok()
    }
}

/// A tableau column: a visible pile that receives runs, over a hidden tail.
#[derive(Debug)]
pub struct Col {
    pub cards: Vec<Card>,
    pub hidden: Vec<Card>,
}

impl View for Col {
    type V = ColV;

    open spec fn view(&self) -> ColV {
        ColV { cards: self.cards@, hidden: self.hidden@ }
    }
}

impl Clone for Col {
    fn clone(&self) -> (r: Col)
        ensures
            r@ == self@,
    {
        Col { cards: copy_cards(&self.cards), hidden: copy_cards(&self.hidden) }
    }
}

impl Col {
    pub fn new() -> (r: Col)
        ensures
            r@ == (ColV { cards: Seq::empty(), hidden: Seq::empty() }),
    {
        Col { cards: Vec::new(), hidden: Vec::new() }
    }

    /// Removes and returns the top visible card (if any), then turns the
    /// column.
    pub fn pop(&mut self) -> (c: Option<Card>)
        ensures
            old(self)@.cards.len() > 0 ==> c == Some(old(self)@.cards.last()) && final(self)@
                == turn_v(ColV { cards: old(self)@.cards.drop_last(), hidden: old(self)@.hidden }),
            old(self)@.cards.len() == 0 ==> c is None && final(self)@ == turn_v(old(self)@),
    {
        let c = self.cards.pop();
        self.turn();
        c
    }

    /// If the visible pile is empty and hidden cards remain, reveal the top
    /// hidden card.
    pub fn turn(&mut self)
        ensures
            final(self)@ == turn_v(old(self)@),
    {
        if self.cards.len() == 0 && self.hidden.len() > 0 {
            let c = self.hidden.pop().unwrap();
            self.cards.push(c);
            proof {
                assert(self@.cards =~= seq![old(self)@.hidden.last()]);
                assert(self@ =~= turn_v(old(self)@));
            }
        }
    }
}

impl Play<Col, Vec<Card>> for Col {
    open spec fn play_req(&self, cards: &Vec<Card>) -> bool {
        cards@.len() > 0
    }

    open spec fn accepts(&self, cards: &Vec<Card>) -> bool {
        col_accepts(self@.cards, cards@)
    }

    open spec fn played(&self, cards: &Vec<Card>) -> ColV {
        ColV { cards: self@.cards + cards@, hidden: self@.hidden }
    }

    /// Plays a (non-empty) run of cards on the column's visible pile:
    /// succeeds exactly when the pile accepts the run, and then appends the
    /// whole run in order; the hidden tail is untouched.
    fn play(&self, cards: &Vec<Card>) -> (r: Result<Col, ()>) {
        let c = &cards[0];
        if self.cards.len() == 0 {
            if c.rank == 13 {
                let mut n = copy_cards(&self.cards);
                let mut extra = copy_cards(cards);
                n.append(&mut extra);
                proof {
                    assert(n@ =~= self@.cards + cards@);
                }
                Ok(Col { cards: n, hidden: copy_cards(&self.hidden) })
            } else {
                Err(())
            }
        } else {
            let m = &self.cards[self.cards.len() - 1];
            if (c.rank as u16) + 1 == (m.rank as u16) && c.color() != m.color() {
                let mut n = copy_cards(&self.cards);
                let mut extra = copy_cards(cards);
                n.append(&mut extra);
                proof {
                    assert(n@ =~= self@.cards + cards@);
                }
                Ok(Col { cards: n, hidden: copy_cards(&self.hidden) })
            } else {
                Err(())
            }
        }
    }

    /// A column accepts a (non-empty) run iff its visible pile is empty and
    /// the run starts at rank 13, or the run's first card is one rank below
    /// the top visible card and of the opposite color.
    fn can_play(&self, cards: &Vec<Card>) -> (r: bool) {
        self.play(cards).is_ok()
    }
}

/// The abstract value of a board: the eight columns (indices 0 to 6 the
/// tableau, index 7 the waste), the four foundation piles, the stock, and
/// the redeal counter.
#[verifier::ext_equal]
pub ghost struct BoardV {
    pub cols: Seq<ColV>,
    pub hearts: Seq<Card>,
    pub diamonds: Seq<Card>,
    pub spades: Seq<Card>,
    pub clubs: Seq<Card>,
    pub deck: Seq<Card>,
    pub turns: int,
}

impl BoardV {
    /// The foundation pile for a suit.
    pub open spec fn fnd(self, s: Suit) -> Seq<Card> {
        match s {
            Suit::Heart => self.hearts,
            Suit::Diamond => self.diamonds,
            Suit::Spade => self.spades,
            Suit::Club => self.clubs,
        }
    }

    /// The board with the foundation pile for suit `s` replaced.
    pub open spec fn with_fnd(self, s: Suit, pile: Seq<Card>) -> BoardV {
        match s {
            Suit::Heart => BoardV { hearts: pile, ..self },
            Suit::Diamond => BoardV { diamonds: pile, ..self },
            Suit::Spade => BoardV { spades: pile, ..self },
            Suit::Club => BoardV { clubs: pile, ..self },
        }
    }

    /// The total number of scored cards.
    pub open spec fn scored_total(self) -> int {
        self.hearts.len() + self.diamonds.len() + self.spades.len() + self.clubs.len() as int
    }

    /// Every card the board holds, across columns, foundations, and stock.
    pub open spec fn all_cards(self) -> Multiset<Card> {
        cols_ms(self.cols).add(self.hearts.to_multiset()).add(self.diamonds.to_multiset()).add(
            self.spades.to_multiset(),
        ).add(self.clubs.to_multiset()).add(self.deck.to_multiset())
    }

    /// A board is well-formed when it has its eight columns, the redeal
    /// counter is within bounds, every visible pile is a legal run, the
    /// waste shows at most one card, and the cards across the whole board
    /// are exactly the 52-card deck.
    pub open spec fn wf(self) -> bool {
        &&& self.cols.len() == 8
        &&& 0 <= self.turns <= MAX_TURNS
        &&& forall|k: int| 0 <= k < 8 ==> run_wf((#[trigger] self.cols[k]).cards)
        &&& self.cols[7].cards.len() <= 1
        &&& self.all_cards() == full_deck()
    }

    /// Scoring the top card of column `i`: the card moves to its suit's
    /// foundation and the column is turned.
    pub open spec fn score_v(self, i: int) -> BoardV {
        let c = self.cols[i].cards.last();
        let col2 = turn_v(ColV { cards: self.cols[i].cards.drop_last(), hidden: self.cols[i].hidden });
        let b1 = self.with_fnd(c.suit, self.fnd(c.suit).push(c));
        BoardV { cols: self.cols.update(i, col2), ..b1 }
    }

    /// Moving the whole visible run of column `s` onto column `d`: the run
    /// is appended to `d`, and `s` is cleared and turned.
    pub open spec fn mov_v(self, s: int, d: int) -> BoardV {
        let run = self.cols[s].cards;
        let dst2 = ColV { cards: self.cols[d].cards + run, hidden: self.cols[d].hidden };
        let src2 = turn_v(ColV { cards: Seq::empty(), hidden: self.cols[s].hidden });
        BoardV { cols: self.cols.update(d, dst2).update(s, src2), ..self }
    }

    /// Rebuilding the stock from the waste: the waste's visible card joins
    /// its hidden history, the whole history becomes the new stock, and the
    /// redeal counter increases.
    pub open spec fn recycle_v(self) -> BoardV {
        let w = self.cols[7];
        BoardV {
            cols: self.cols.update(7, ColV { cards: w.cards.drop_last(), hidden: Seq::empty() }),
            deck: w.hidden.push(w.cards.last()),
            turns: self.turns + 1,
            ..self
        }
    }

    /// No further draw is possible: the stock is empty and the redeal budget
    /// is spent.
    pub open spec fn draw_exhausted(self) -> bool {
        self.deck.len() == 0 && self.turns == MAX_TURNS as int
    }

    /// A draw may be attempted: there is something to draw or recycle, or
    /// the attempt fails cleanly because the redeal budget is spent.
    pub open spec fn draw_ready(self) -> bool {
        self.deck.len() > 0 || self.cols[7].cards.len() > 0 || self.turns == MAX_TURNS as int
    }

    /// The batch of cards one draw takes off the stock's top: the top three,
    /// in draw order, or the whole stock in stored order when fewer than
    /// three remain.
    pub open spec fn batch(self) -> Seq<Card> {
        let n = self.deck.len() as int;
        if n < NUM_DRAW as int {
            self.deck
        } else {
            seq![self.deck[n - 1], self.deck[n - 2], self.deck[n - 3]]
        }
    }

    /// Drawing from a non-empty stock: the batch leaves the stock, the
    /// waste's previous visible card joins its hidden history, the batch's
    /// last card becomes the waste's visible card, and the rest of the
    /// batch joins the hidden history.
    pub open spec fn draw_from(self) -> BoardV {
        let n = self.deck.len() as int;
        let batch = self.batch();
        let deck2 = if n < NUM_DRAW as int {
            Seq::<Card>::empty()
        } else {
            self.deck.take(n - 3)
        };
        let w = self.cols[7];
        let w1 = if w.cards.len() > 0 {
            ColV { cards: w.cards.drop_last(), hidden: w.hidden.push(w.cards.last()) }
        } else {
            w
        };
        let w2 = ColV { cards: w1.cards.push(batch.last()), hidden: w1.hidden + batch.drop_last() };
        BoardV { cols: self.cols.update(7, w2), deck: deck2, ..self }
    }

    /// Drawing: a recycle first if the stock is empty, then the draw itself.
    pub open spec fn draw_v(self) -> BoardV {
        if self.deck.len() == 0 {
            self.recycle_v().draw_from()
        } else {
            self.draw_from()
        }
    }
}

/// A well-formed board holds 52 cards in all, so at most 52 are scored and
/// at most 52 are in the stock.
pub proof fn lemma_scored_bound(bv: BoardV)
    requires
        bv.wf(),
    ensures
        0 <= bv.scored_total() <= 52,
        bv.deck.len() <= 52,
{
    crate::deck::lemma_deck_seq_len();
    assert(full_deck().len() == 52);
    assert(bv.all_cards().len() == cols_ms(bv.cols).len() + bv.hearts.to_multiset().len()
        + bv.diamonds.to_multiset().len() + bv.spades.to_multiset().len()
        + bv.clubs.to_multiset().len() + bv.deck.to_multiset().len());
}

/// Deck integrity, stated card by card: a well-formed board holds every one
/// of the 52 domain cards exactly once — no duplication, no loss.
pub proof fn lemma_no_duplicates(bv: BoardV)
    requires
        bv.wf(),
    ensures
        forall|c: Card| bv.all_cards().count(c) <= 1,
        bv.all_cards().len() == 52,
{
    crate::deck::lemma_full_deck_one_each();
    crate::deck::lemma_deck_seq_len();
}

/// Scoring preserves well-formedness and raises the score by exactly one.
pub proof fn lemma_score_v_wf(bv: BoardV, i: int)
    requires
        bv.wf(),
        0 <= i < 8,
        bv.cols[i].cards.len() > 0,
    ensures
        bv.score_v(i).wf(),
        bv.score_v(i).scored_total() == bv.scored_total() + 1,
        bv.score_v(i).deck == bv.deck,
        bv.score_v(i).turns == bv.turns,
{
    let c = bv.cols[i].cards.last();
    let colmid = ColV { cards: bv.cols[i].cards.drop_last(), hidden: bv.cols[i].hidden };
    let col2 = turn_v(colmid);
    let b2 = bv.score_v(i);

    lemma_run_wf_drop_last(bv.cols[i].cards);
    lemma_turn_v_run_wf(colmid);
    assert forall|k: int| 0 <= k < 8 implies run_wf((#[trigger] b2.cols[k]).cards) by {
        if k != i {
            assert(b2.cols[k] == bv.cols[k]);
        }
    }
    lemma_cols_ms_update(bv.cols, i, col2);
    lemma_turn_v_ms(colmid);
    assert(bv.cols[i].cards.drop_last().push(c) =~= bv.cols[i].cards);
    assert(bv.cols[i].cards.drop_last().push(c).to_multiset() == bv.cols[
        i
    ].cards.drop_last().to_multiset().insert(c));
    assert(bv.fnd(c.suit).push(c).to_multiset() == bv.fnd(c.suit).to_multiset().insert(c));
    let n1 = cols_ms(b2.cols);
    let n0 = cols_ms(bv.cols);
    let mi = col_cards_ms(bv.cols[i]);
    let m2 = col_cards_ms(col2);
    assert(n1.add(mi) == n0.add(m2));
    assert forall|v: Card| b2.all_cards().count(v) == bv.all_cards().count(v) by {
        assert(n1.add(mi).count(v) == n0.add(m2).count(v));
        assert(n1.count(v) + mi.count(v) == n0.count(v) + m2.count(v));
        assert(mi.count(v) == m2.count(v) + (if v == c {
            1int
        } else {
            0int
        }));
        assert(b2.fnd(c.suit) == bv.fnd(c.suit).push(c));
        assert(b2.fnd(c.suit).to_multiset().count(v) == bv.fnd(c.suit).to_multiset().count(v) + (
        if v == c {
            1int
        } else {
            0int
        }));
        match c.suit {
            Suit::Heart => {
                assert(b2.hearts == bv.hearts.push(c));
            },
            Suit::Diamond => {
                assert(b2.diamonds == bv.diamonds.push(c));
            },
            Suit::Spade => {
                assert(b2.spades == bv.spades.push(c));
            },
            Suit::Club => {
                assert(b2.clubs == bv.clubs.push(c));
            },
        }
    }
    assert(b2.all_cards() =~= bv.all_cards());
}

/// Moving a visible run preserves well-formedness, the score, the stock,
/// and the redeal counter; and no column's run can move onto itself.
pub proof fn lemma_mov_v_wf(bv: BoardV, s: int, d: int)
    requires
        bv.wf(),
        0 <= s < 8,
        0 <= d < 7,
        bv.cols[s].cards.len() > 0,
        col_accepts(bv.cols[d].cards, bv.cols[s].cards),
    ensures
        s != d,
        bv.mov_v(s, d).wf(),
        bv.mov_v(s, d).scored_total() == bv.scored_total(),
        bv.mov_v(s, d).deck == bv.deck,
        bv.mov_v(s, d).turns == bv.turns,
{
    if s == d {
        lemma_no_self_accept(bv.cols[s].cards);
    }
    let run = bv.cols[s].cards;
    let dst2 = ColV { cards: bv.cols[d].cards + run, hidden: bv.cols[d].hidden };
    let srcmid = ColV { cards: Seq::empty(), hidden: bv.cols[s].hidden };
    let src2 = turn_v(srcmid);
    let b2 = bv.mov_v(s, d);

    lemma_run_wf_append(bv.cols[d].cards, run);
    lemma_turn_v_run_wf(srcmid);
    assert forall|k: int| 0 <= k < 8 implies run_wf((#[trigger] b2.cols[k]).cards) by {
        if k != s && k != d {
            assert(b2.cols[k] == bv.cols[k]);
        } else if k == d {
            assert(b2.cols[k] == dst2);
        }
    }
    assert(b2.cols[7].cards.len() <= 1) by {
        if s == 7 {
            assert(b2.cols[7] == src2);
        } else {
            assert(b2.cols[7] == bv.cols[7]);
        }
    }
    let cols1 = bv.cols.update(d, dst2);
    lemma_cols_ms_update(bv.cols, d, dst2);
    lemma_cols_ms_update(cols1, s, src2);
    lemma_turn_v_ms(srcmid);
    vstd::seq_lib::lemma_multiset_commutative(bv.cols[d].cards, run);
    assert(Seq::<Card>::empty().to_multiset() =~= Multiset::<Card>::empty()) by {
        Seq::<Card>::empty().to_multiset_ensures();
    }
    assert(cols1[s] == bv.cols[s]);
    let n2 = cols_ms(b2.cols);
    let n1 = cols_ms(cols1);
    let n0 = cols_ms(bv.cols);
    assert forall|v: Card| b2.all_cards().count(v) == bv.all_cards().count(v) by {
        assert(n1.add(col_cards_ms(bv.cols[d])).count(v) == n0.add(col_cards_ms(dst2)).count(v));
        assert(n2.add(col_cards_ms(cols1[s])).count(v) == n1.add(col_cards_ms(src2)).count(v));
        assert(col_cards_ms(dst2).count(v) == bv.cols[d].cards.to_multiset().count(v)
            + run.to_multiset().count(v) + bv.cols[d].hidden.to_multiset().count(v));
        assert(col_cards_ms(src2).count(v) == bv.cols[s].hidden.to_multiset().count(v));
        assert(col_cards_ms(bv.cols[s]).count(v) == run.to_multiset().count(v) + bv.cols[
            s
        ].hidden.to_multiset().count(v));
    }
    assert(b2.all_cards() =~= bv.all_cards());
}

/// Three cards hold the same multiset whichever way round they are listed.
proof fn lemma_ms3(a: Card, b: Card, c: Card)
    ensures
        seq![a, b, c].to_multiset() == seq![c, b, a].to_multiset(),
{
    assert(seq![a, b, c] =~= Seq::<Card>::empty().push(a).push(b).push(c));
    assert(seq![c, b, a] =~= Seq::<Card>::empty().push(c).push(b).push(a));
    Seq::<Card>::empty().to_multiset_ensures();
    assert(Seq::<Card>::empty().to_multiset() =~= Multiset::<Card>::empty());
    assert(seq![a, b, c].to_multiset() =~= Multiset::<Card>::empty().insert(a).insert(b).insert(c));
    assert(seq![c, b, a].to_multiset() =~= Multiset::<Card>::empty().insert(c).insert(b).insert(a));
    assert(Multiset::<Card>::empty().insert(a).insert(b).insert(c) =~= Multiset::<
        Card,
    >::empty().insert(c).insert(b).insert(a));
}

/// Recycling the waste into the stock preserves well-formedness apart from
/// spending one redeal: the cards are unchanged, the waste empties, and the
/// stock becomes the waste's history with its visible card on top.
pub proof fn lemma_recycle_v_wf(bv: BoardV)
    requires
        bv.wf(),
        bv.deck.len() == 0,
        bv.turns < MAX_TURNS as int,
        bv.cols[7].cards.len() > 0,
    ensures
        bv.recycle_v().wf(),
        bv.recycle_v().scored_total() == bv.scored_total(),
        bv.recycle_v().turns == bv.turns + 1,
        bv.recycle_v().deck.len() > 0,
{
    let w = bv.cols[7];
    let c = w.cards.last();
    let w2 = ColV { cards: w.cards.drop_last(), hidden: Seq::empty() };
    let b2 = bv.recycle_v();
    lemma_run_wf_drop_last(w.cards);
    assert forall|k: int| 0 <= k < 8 implies run_wf((#[trigger] b2.cols[k]).cards) by {
        if k != 7 {
            assert(b2.cols[k] == bv.cols[k]);
        }
    }
    lemma_cols_ms_update(bv.cols, 7, w2);
    assert(w.cards.drop_last().push(c) =~= w.cards);
    assert(w.cards.drop_last().push(c).to_multiset() == w.cards.drop_last().to_multiset().insert(
        c,
    ));
    assert(w.hidden.push(c).to_multiset() == w.hidden.to_multiset().insert(c));
    Seq::<Card>::empty().to_multiset_ensures();
    assert(Seq::<Card>::empty().to_multiset() =~= Multiset::<Card>::empty());
    let n2 = cols_ms(b2.cols);
    let n0 = cols_ms(bv.cols);
    assert forall|v: Card| b2.all_cards().count(v) == bv.all_cards().count(v) by {
        assert(n2.add(col_cards_ms(w)).count(v) == n0.add(col_cards_ms(w2)).count(v));
    }
    assert(b2.all_cards() =~= bv.all_cards());
}

/// Drawing from a non-empty stock preserves well-formedness, the score, and
/// the redeal counter, and strictly shrinks the stock.
pub proof fn lemma_draw_from_wf(bv: BoardV)
    requires
        bv.wf(),
        bv.deck.len() > 0,
    ensures
        bv.draw_from().wf(),
        bv.draw_from().scored_total() == bv.scored_total(),
        bv.draw_from().turns == bv.turns,
        bv.draw_from().deck.len() < bv.deck.len(),
{
    let n = bv.deck.len() as int;
    let batch = bv.batch();
    let w = bv.cols[7];
    let w1 = if w.cards.len() > 0 {
        ColV { cards: w.cards.drop_last(), hidden: w.hidden.push(w.cards.last()) }
    } else {
        w
    };
    let w2 = ColV { cards: w1.cards.push(batch.last()), hidden: w1.hidden + batch.drop_last() };
    let b2 = bv.draw_from();
    assert(batch.len() > 0);
    assert(w2.cards.len() <= 1);
    assert forall|k: int| 0 <= k < 8 implies run_wf((#[trigger] b2.cols[k]).cards) by {
        if k != 7 {
            assert(b2.cols[k] == bv.cols[k]);
        } else {
            assert(b2.cols[7] == w2);
            assert(run_wf(w2.cards));
        }
    }
    // The stock splits into what stays and the batch.
    if n < NUM_DRAW as int {
        Seq::<Card>::empty().to_multiset_ensures();
        assert(Seq::<Card>::empty().to_multiset() =~= Multiset::<Card>::empty());
        assert(b2.deck.to_multiset().add(batch.to_multiset()) =~= bv.deck.to_multiset());
    } else {
        let stay = bv.deck.take(n - 3);
        let top3 = seq![bv.deck[n - 3], bv.deck[n - 2], bv.deck[n - 1]];
        assert(bv.deck =~= stay + top3);
        vstd::seq_lib::lemma_multiset_commutative(stay, top3);
        lemma_ms3(bv.deck[n - 3], bv.deck[n - 2], bv.deck[n - 1]);
        assert(batch == seq![bv.deck[n - 1], bv.deck[n - 2], bv.deck[n - 3]]);
        assert(b2.deck.to_multiset().add(batch.to_multiset()) =~= bv.deck.to_multiset());
    }
    // The waste gains exactly the batch.
    assert(batch.drop_last().push(batch.last()) =~= batch);
    assert(batch.drop_last().push(batch.last()).to_multiset() == batch.drop_last().to_multiset().insert(
        batch.last(),
    ));
    vstd::seq_lib::lemma_multiset_commutative(w1.hidden, batch.drop_last());
    assert(w1.cards.push(batch.last()).to_multiset() == w1.cards.to_multiset().insert(
        batch.last(),
    ));
    if w.cards.len() > 0 {
        assert(w.cards.drop_last().push(w.cards.last()) =~= w.cards);
        assert(w.cards.drop_last().push(w.cards.last()).to_multiset() == w.cards.drop_last().to_multiset().insert(
            w.cards.last(),
        ));
        assert(w.hidden.push(w.cards.last()).to_multiset() == w.hidden.to_multiset().insert(
            w.cards.last(),
        ));
    }
    assert forall|v: Card| col_cards_ms(w2).count(v) == col_cards_ms(w).count(v)
        + batch.to_multiset().count(v) by {}
    lemma_cols_ms_update(bv.cols, 7, w2);
    let n2 = cols_ms(b2.cols);
    let n0 = cols_ms(bv.cols);
    assert forall|v: Card| b2.all_cards().count(v) == bv.all_cards().count(v) by {
        assert(n2.add(col_cards_ms(w)).count(v) == n0.add(col_cards_ms(w2)).count(v));
        assert(b2.deck.to_multiset().count(v) + batch.to_multiset().count(v)
            == bv.deck.to_multiset().count(v));
    }
    assert(b2.all_cards() =~= bv.all_cards());
}

/// Drawing preserves well-formedness and the score; it spends a redeal
/// exactly when the stock was empty, and otherwise shrinks the stock.
pub proof fn lemma_draw_v_wf(bv: BoardV)
    requires
        bv.wf(),
        bv.draw_ready(),
        !bv.draw_exhausted(),
    ensures
        bv.draw_v().wf(),
        bv.draw_v().scored_total() == bv.scored_total(),
        bv.deck.len() == 0 ==> bv.draw_v().turns == bv.turns + 1,
        bv.deck.len() > 0 ==> bv.draw_v().turns == bv.turns && bv.draw_v().deck.len()
            < bv.deck.len(),
{
    if bv.deck.len() == 0 {
        lemma_recycle_v_wf(bv);
        lemma_draw_from_wf(bv.recycle_v());
    } else {
        lemma_draw_from_wf(bv);
    }
}

/// Cards in the waste column, visible and hidden.
pub open spec fn waste_total(bv: BoardV) -> nat {
    bv.cols[7].cards.len() + bv.cols[7].hidden.len()
}

/// Hidden cards across the first `n` columns.
pub open spec fn hidden_in(cols: Seq<ColV>, n: int) -> nat
    decreases n,
{
    if n <= 0 {
        0
    } else {
        hidden_in(cols, n - 1) + cols[n - 1].hidden.len()
    }
}

/// Hidden cards across the seven tableau columns.
pub open spec fn hidden06(bv: BoardV) -> nat {
    hidden_in(bv.cols, 7)
}

/// How many of the first `n` columns have a visible card.
pub open spec fn vis_in(cols: Seq<ColV>, n: int) -> nat
    decreases n,
{
    if n <= 0 {
        0
    } else {
        vis_in(cols, n - 1) + (if cols[n - 1].cards.len() > 0 {
            1nat
        } else {
            0nat
        })
    }
}

/// How many tableau columns have a visible card.
pub open spec fn vis06(bv: BoardV) -> nat {
    vis_in(bv.cols, 7)
}

/// Replacing one column shifts the hidden-card total by that column's
/// difference, and only when the column lies in the counted range.
proof fn lemma_hidden_in_update(cols: Seq<ColV>, n: int, k: int, c2: ColV)
    requires
        0 <= k < cols.len(),
        n <= cols.len(),
    ensures
        0 <= k < n ==> hidden_in(cols.update(k, c2), n) + cols[k].hidden.len() == hidden_in(
            cols,
            n,
        ) + c2.hidden.len(),
        k >= n ==> hidden_in(cols.update(k, c2), n) == hidden_in(cols, n),
    decreases n,
{
    if n > 0 {
        lemma_hidden_in_update(cols, n - 1, k, c2);
    }
}

/// The same for the count of occupied columns.
proof fn lemma_vis_in_update(cols: Seq<ColV>, n: int, k: int, c2: ColV)
    requires
        0 <= k < cols.len(),
        n <= cols.len(),
    ensures
        0 <= k < n ==> vis_in(cols.update(k, c2), n) + (if cols[k].cards.len() > 0 {
            1nat
        } else {
            0nat
        }) == vis_in(cols, n) + (if c2.cards.len() > 0 {
            1nat
        } else {
            0nat
        }),
        k >= n ==> vis_in(cols.update(k, c2), n) == vis_in(cols, n),
    decreases n,
{
    if n > 0 {
        lemma_vis_in_update(cols, n - 1, k, c2);
    }
}

/// Every move explored by the search shrinks the measure: a move out of the
/// waste shrinks the waste; a move that turns a hidden card shrinks the
/// hidden total; any other explored move empties its source column.
pub proof fn lemma_mov_measure(bv: BoardV, s: int, d: int)
    requires
        bv.wf(),
        0 <= s < 8,
        0 <= d < 7,
        bv.cols[s].cards.len() > 0,
        col_accepts(bv.cols[d].cards, bv.cols[s].cards),
        !(s != 7 && bv.cols[s].cards[0].rank == 13 && bv.cols[s].hidden.len() == 0),
    ensures
        s == 7 ==> waste_total(bv.mov_v(s, d)) < waste_total(bv),
        s != 7 ==> waste_total(bv.mov_v(s, d)) == waste_total(bv),
        s != 7 && bv.cols[s].hidden.len() > 0 ==> hidden06(bv.mov_v(s, d)) < hidden06(bv),
        s != 7 && bv.cols[s].hidden.len() == 0 ==> hidden06(bv.mov_v(s, d)) == hidden06(bv)
            && vis06(bv.mov_v(s, d)) < vis06(bv),
{
    if s == d {
        lemma_no_self_accept(bv.cols[s].cards);
    }
    let run = bv.cols[s].cards;
    let dst2 = ColV { cards: bv.cols[d].cards + run, hidden: bv.cols[d].hidden };
    let src2 = turn_v(ColV { cards: Seq::empty(), hidden: bv.cols[s].hidden });
    let cols1 = bv.cols.update(d, dst2);
    let cols2 = cols1.update(s, src2);
    let m = bv.mov_v(s, d);
    assert(m.cols == cols2);
    assert(cols1[s] == bv.cols[s]);
    if s == 7 {
        assert(m.cols[7] == src2);
    } else {
        assert(m.cols[7] == bv.cols[7]);
        lemma_hidden_in_update(bv.cols, 7, d, dst2);
        lemma_hidden_in_update(cols1, 7, s, src2);
        if bv.cols[s].hidden.len() == 0 {
            lemma_vis_in_update(bv.cols, 7, d, dst2);
            lemma_vis_in_update(cols1, 7, s, src2);
            if bv.cols[d].cards.len() == 0 {
                assert(run[0].rank == 13);
            }
            assert(bv.cols[d].cards.len() > 0);
            assert(dst2.cards.len() > 0);
            assert(src2.cards.len() == 0);
        }
    }
}

/// The full game state.
#[derive(Debug)]
pub struct Board {
    // The eighth column is the waste/draw pile.
    pub cols: Vec<Col>,
    hearts: Scored,
    diamonds: Scored,
    spades: Scored,
    clubs: Scored,
    deck: Deck,
    turns: u8,
}

/// The abstract values of a sequence of columns.
pub open spec fn cols_view(s: Seq<Col>) -> Seq<ColV> {
    Seq::new(s.len(), |i: int| s[i]@)
}

impl View for Board {
    type V = BoardV;

    closed spec fn view(&self) -> BoardV {
        BoardV {
            cols: cols_view(self.cols@),
            hearts: self.hearts@,
            diamonds: self.diamonds@,
            spades: self.spades@,
            clubs: self.clubs@,
            deck: self.deck@,
            turns: self.turns as int,
        }
    }
}

impl Clone for Board {
    fn clone(&self) -> (r: Board)
        ensures
            r@ == self@,
    {
        let mut cols: Vec<Col> = Vec::new();
        let mut i: usize = 0;
        while i < self.cols.len()
            invariant
                i <= self.cols@.len(),
                cols@.len() == i,
                forall|j: int| 0 <= j < i ==> cols@[j]@ == self.cols@[j]@,
            decreases self.cols@.len() - i,
        {
            cols.push(self.cols[i].clone());
            i = i + 1;
        }
        let r = Board {
            cols,
            hearts: self.hearts.clone(),
            diamonds: self.diamonds.clone(),
            spades: self.spades.clone(),
            clubs: self.clubs.clone(),
            deck: self.deck.clone(),
            turns: self.turns,
        };
        proof {
            assert(cols_view(r.cols@) =~= cols_view(self.cols@));
            assert(r@ =~= self@);
        }
        r
    }
}

/// Columns that hold no cards at all hold the empty pool.
proof fn lemma_cols_ms_all_empty(cols: Seq<ColV>)
    requires
        forall|k: int|
            0 <= k < cols.len() ==> (#[trigger] cols[k]).cards.len() == 0 && cols[k].hidden.len()
                == 0,
    ensures
        cols_ms(cols) == Multiset::<Card>::empty(),
    decreases cols.len(),
{
    if cols.len() > 0 {
        lemma_cols_ms_all_empty(cols.drop_last());
        assert(cols.last() == cols[cols.len() - 1]);
        assert(cols.last().cards.to_multiset().len() == 0);
        assert(cols.last().hidden.to_multiset().len() == 0);
        assert(cols.last().cards.to_multiset() =~= Multiset::<Card>::empty());
        assert(cols.last().hidden.to_multiset() =~= Multiset::<Card>::empty());
        assert(cols_ms(cols) =~= Multiset::<Card>::empty());
    }
}

impl Board {
    /// Deals a fresh shuffled deck into a new board: column `k` of the
    /// tableau receives `k + 1` cards, all but the last face down; the
    /// remaining 24 cards stay in the stock; nothing is scored.
    pub fn new() -> (b: Board)
        ensures
            b@.wf(),
            b@.turns == 0,
            b@.scored_total() == 0,
            b@.hearts.len() == 0,
            b@.diamonds.len() == 0,
            b@.spades.len() == 0,
            b@.clubs.len() == 0,
            b@.deck.len() == 24,
            forall|k: int|
                0 <= k < 7 ==> (#[trigger] b@.cols[k]).cards.len() == 1 && b@.cols[k].hidden.len()
                    == k,
            b@.cols[7].cards.len() == 0 && b@.cols[7].hidden.len() == 0,
    {
        let mut deck = Deck::new();
        let mut cols: Vec<Col> = Vec::new();
        let mut j: usize = 0;
        while j < 8
            invariant
                j <= 8,
                cols@.len() == j,
                forall|k: int|
                    0 <= k < j ==> (#[trigger] cols@[k])@.cards.len() == 0 && cols@[k]@.hidden.len()
                        == 0,
            decreases 8 - j,
        {
            cols.push(Col::new());
            j = j + 1;
        }
        proof {
            lemma_cols_ms_all_empty(cols_view(cols@));
            assert(cols_ms(cols_view(cols@)).add(deck@.to_multiset()) =~= full_deck());
        }
        let mut i: usize = 1;
        while i < 7
            invariant
                1 <= i <= 7,
                cols@.len() == 8,
                deck@.len() == 52 - dealt_before(i as int),
                cols_ms(cols_view(cols@)).add(deck@.to_multiset()) == full_deck(),
                forall|k: int|
                    0 <= k < 8 ==> (#[trigger] cols@[k])@.cards.len() == (if k < i - 1 {
                        1int
                    } else {
                        0int
                    }),
                forall|k: int|
                    0 <= k < 7 ==> (#[trigger] cols@[k])@.hidden.len() == (if k < i {
                        k
                    } else {
                        i - 1
                    }),
                cols@[7]@.hidden.len() == 0,
            decreases 7 - i,
        {
            proof {
                lemma_dealt_before_values();
            }
            let ghost cv0 = cols_view(cols@);
            let ghost dk0 = deck@;
            deal_one(&mut cols, &mut deck, i - 1, false);
            proof {
                assert(cols_view(cols@) =~= cv0.update(i - 1, cols_view(cols@)[i - 1]));
                lemma_deal_step(cv0, cols_view(cols@), dk0, deck@, i - 1, dk0.last());
            }
            let mut x: usize = i;
            while x < 7
                invariant
                    1 <= i < 7,
                    i <= x <= 7,
                    cols@.len() == 8,
                    deck@.len() == 52 - dealt_before(i as int) - 1 - (x - i),
                    cols_ms(cols_view(cols@)).add(deck@.to_multiset()) == full_deck(),
                    forall|k: int|
                        0 <= k < 8 ==> (#[trigger] cols@[k])@.cards.len() == (if k < i {
                            1int
                        } else {
                            0int
                        }),
                    forall|k: int|
                        0 <= k < 7 ==> (#[trigger] cols@[k])@.hidden.len() == (if k < i {
                            k
                        } else if k < x {
                            i as int
                        } else {
                            i - 1
                        }),
                    cols@[7]@.hidden.len() == 0,
                decreases 7 - x,
            {
                proof {
                    lemma_dealt_before_values();
                }
                let ghost cv1 = cols_view(cols@);
                let ghost dk1 = deck@;
                deal_one(&mut cols, &mut deck, x, true);
                proof {
                    assert(cols_view(cols@) =~= cv1.update(x as int, cols_view(cols@)[x as int]));
                    lemma_deal_step(cv1, cols_view(cols@), dk1, deck@, x as int, dk1.last());
                }
                x = x + 1;
            }
            i = i + 1;
        }
        proof {
            lemma_dealt_before_values();
        }
        let ghost cv2 = cols_view(cols@);
        let ghost dk2 = deck@;
        deal_one(&mut cols, &mut deck, 6, false);
        proof {
            assert(cols_view(cols@) =~= cv2.update(6, cols_view(cols@)[6]));
            lemma_deal_step(cv2, cols_view(cols@), dk2, deck@, 6, dk2.last());
        }
        let b = Board {
            cols,
            hearts: Scored::new(),
            diamonds: Scored::new(),
            spades: Scored::new(),
            clubs: Scored::new(),
            deck,
            turns: 0,
        };
        proof {
            Seq::<Card>::empty().to_multiset_ensures();
            assert(Seq::<Card>::empty().to_multiset() =~= Multiset::<Card>::empty());
            let cv = cols_view(b.cols@);
            assert forall|v: Card| b@.all_cards().count(v) == full_deck().count(v) by {
                assert(cols_ms(cv).add(b.deck@.to_multiset()).count(v) == full_deck().count(v));
            }
            assert(b@.all_cards() =~= full_deck());
            assert forall|k: int| 0 <= k < 8 implies run_wf((#[trigger] b@.cols[k]).cards) by {
                assert(b@.cols[k].cards.len() <= 1);
            }
        }
        b
    }

    /// The number of visible cards on column `i`.
    pub fn col_len(&self, i: usize) -> (n: usize)
        requires
            self@.wf(),
            i < 8,
        ensures
            n == self@.cols[i as int].cards.len(),
    {
        self.cols[i].cards.len()
    }

    /// The visible card of column `i` at position `j` (0 is the bottom).
    pub fn col_card(&self, i: usize, j: usize) -> (c: Card)
        requires
            self@.wf(),
            i < 8,
            j < self@.cols[i as int].cards.len(),
        ensures
            c == self@.cols[i as int].cards[j as int],
    {
        self.cols[i].cards[j]
    }

    /// The number of hidden cards under column `i`.
    pub fn col_hidden_len(&self, i: usize) -> (n: usize)
        requires
            self@.wf(),
            i < 8,
        ensures
            n == self@.cols[i as int].hidden.len(),
    {
        self.cols[i].hidden.len()
    }

    /// `c` can be scored: the foundation pile of `c`'s suit accepts it.
    pub fn can_score(&self, c: &Card) -> (r: bool)
        ensures
            r == scored_accepts(self@.fnd(c.suit), *c),
    {
        match c.suit {
            Suit::Heart => self.hearts.can_play(c),
            Suit::Diamond => self.diamonds.can_play(c),
            Suit::Club => self.clubs.can_play(c),
            Suit::Spade => self.spades.can_play(c),
        }
    }

    /// Scores the top visible card of column `i` onto its suit's foundation,
    /// turning the column. The caller must have checked `can_score` first.
    pub fn score(&self, i: usize) -> (r: Board)
        requires
            self@.wf(),
            i < 8,
            self@.cols[i as int].cards.len() > 0,
            scored_accepts(
                self@.fnd(self@.cols[i as int].cards.last().suit),
                self@.cols[i as int].cards.last(),
            ),
        ensures
            r@ == self@.score_v(i as int),
            r@.wf(),
            r@.scored_total() == self@.scored_total() + 1,
            r@.turns == self@.turns,
            r@.deck == self@.deck,
    {
        proof {
            lemma_score_v_wf(self@, i as int);
        }
        let mut b = self.clone();
        let c = b.cols[i].pop().unwrap();
        match c.suit {
            Suit::Heart => {
                b.hearts = b.hearts.play(&c).unwrap();
            },
            Suit::Diamond => {
                b.diamonds = b.diamonds.play(&c).unwrap();
            },
            Suit::Club => {
                b.clubs = b.clubs.play(&c).unwrap();
            },
            Suit::Spade => {
                b.spades = b.spades.play(&c).unwrap();
            },
        }
        proof {
            assert(b@.cols =~= self@.score_v(i as int).cols);
            assert(b@ =~= self@.score_v(i as int));
        }
        b
    }

    /// The destination column (a tableau column, 0 to 6) can accept the
    /// whole visible run of the source column as a unit.
    pub fn can_mov(&self, src: usize, dst: usize) -> (r: bool)
        requires
            self@.wf(),
            src < 8,
            dst < 7,
            self@.cols[src as int].cards.len() > 0,
        ensures
            r == col_accepts(self@.cols[dst as int].cards, self@.cols[src as int].cards),
    {
        let r = self.cols[dst].can_play(&self.cols[src].cards);
        r
    }

    /// Moves the whole visible run of `src` onto `dst`, then clears and
    /// turns `src`. The caller must have checked `can_mov` first.
    pub fn mov(&self, src: usize, dst: usize) -> (r: Board)
        requires
            self@.wf(),
            src < 8,
            dst < 7,
            self@.cols[src as int].cards.len() > 0,
            col_accepts(self@.cols[dst as int].cards, self@.cols[src as int].cards),
        ensures
            r@ == self@.mov_v(src as int, dst as int),
            r@.wf(),
            r@.scored_total() == self@.scored_total(),
            r@.turns == self@.turns,
            r@.deck == self@.deck,
    {
        proof {
            lemma_mov_v_wf(self@, src as int, dst as int);
        }
        let mut b = self.clone();
        let run = copy_cards(&b.cols[src].cards);
        let newdst = b.cols[dst].play(&run).unwrap();
        b.cols[dst] = newdst;
        b.cols[src].cards.clear();
        b.cols[src].turn();
        proof {
            assert(b@.cols =~= self@.mov_v(src as int, dst as int).cols);
            assert(b@ =~= self@.mov_v(src as int, dst as int));
        }
        b
    }

    /// A draw may be attempted: there is a card to draw or recycle, or the
    /// attempt will fail cleanly because the redeal budget is spent.
    pub fn can_draw(&self) -> (r: bool)
        requires
            self@.wf(),
        ensures
            r == self@.draw_ready(),
    {
        self.deck.cards.len() > 0 || self.cols[7].cards.len() > 0 || self.turns == MAX_TURNS
    }

    /// Draws up to `NUM_DRAW` cards onto the waste, recycling the waste
    /// into the stock first when the stock is empty. Fails with `Err` exactly
    /// when the stock is empty and the redeal budget is spent.
    pub fn draw(&self) -> (r: Result<Board, ()>)
        requires
            self@.wf(),
            self@.draw_ready(),
        ensures
            r is Err <==> self@.draw_exhausted(),
            r matches Ok(nb) ==> nb@ == self@.draw_v() && nb@.wf() && nb@.scored_total()
                == self@.scored_total() && (self@.deck.len() == 0 ==> nb@.turns == self@.turns + 1)
                && (self@.deck.len() > 0 ==> nb@.turns == self@.turns && nb@.deck.len()
                < self@.deck.len()),
    {
        let mut b = self.clone();
        if b.deck.cards.len() == 0 {
            // Refuse once the redeal budget is spent.
            if b.turns == MAX_TURNS {
                return Err(());
            }
            // Rebuild the stock from the waste's history.
            let hid = b.cols[7].cards.pop().unwrap();
            b.cols[7].hidden.push(hid);
            let hist = copy_cards(&b.cols[7].hidden);
            b.deck = Deck::from(hist);
            b.cols[7].hidden.clear();
            b.turns = b.turns + 1;
            proof {
                lemma_recycle_v_wf(self@);
                assert(b@.cols =~= self@.recycle_v().cols);
                assert(b@ =~= self@.recycle_v());
            }
        }
        let ghost b1 = b@;
        proof {
            lemma_draw_from_wf(b1);
        }
        // Take three cards, or all that remain, from the stock's top.
        let mut d: Vec<Card> = Vec::new();
        if b.deck.cards.len() < NUM_DRAW {
            d = copy_cards(&b.deck.cards);
            b.deck.cards.clear();
        } else {
            let ghost deck0 = b.deck@;
            let ghost n = b.deck@.len() as int;
            let mut t: usize = 0;
            while t < NUM_DRAW
                invariant
                    t <= NUM_DRAW,
                    NUM_DRAW as int <= n == deck0.len(),
                    b@.cols == b1.cols,
                    b@.hearts == b1.hearts,
                    b@.diamonds == b1.diamonds,
                    b@.spades == b1.spades,
                    b@.clubs == b1.clubs,
                    b@.turns == b1.turns,
                    b.deck@ =~= deck0.take(n - t),
                    d@.len() == t,
                    forall|j: int| 0 <= j < t ==> d@[j] == deck0[n - 1 - j],
                decreases NUM_DRAW - t,
            {
                let c = b.deck.cards.pop().unwrap();
                d.push(c);
                t = t + 1;
                proof {
                    assert(b.deck@ =~= deck0.take(n - t));
                }
            }
            proof {
                assert(d@ =~= seq![deck0[n - 1], deck0[n - 2], deck0[n - 3]]);
                assert(b.deck@ =~= deck0.take(n - 3));
            }
        }
        proof {
            assert(d@ == b1.batch());
        }
        // Hide the waste's previous visible card.
        if b.cols[7].cards.len() > 0 {
            let p = b.cols[7].cards.pop().unwrap();
            b.cols[7].hidden.push(p);
        }
        // The last drawn card becomes visible; the rest join the history.
        let top = d.pop().unwrap();
        b.cols[7].cards.push(top);
        b.cols[7].hidden.append(&mut d);
        proof {
            assert(b@.cols =~= b1.draw_from().cols);
            assert(b@ =~= b1.draw_from());
            assert(b@ == self@.draw_v());
        }
        Ok(b)
    }

    /// The number of cards scored across the four foundations.
    pub fn scored(&self) -> (n: usize)
        requires
            self@.wf(),
        ensures
            n == self@.scored_total(),
    {
        proof {
            lemma_scored_bound(self@);
        }
        self.hearts.len() + self.diamonds.len() + self.clubs.len() + self.spades.len()
    }

    /// The game is won exactly when all 52 cards are scored.
    pub fn win(&self) -> (r: bool)
        requires
            self@.wf(),
        ensures
            r == (self@.scored_total() == 52),
    {
        self.scored() == 52
    }

    /// A deterministic identifier for the deal, derived from the stock's
    /// current ordering: each card's rank in decimal followed by its suit's
    /// initial.
    pub fn get_id(&self) -> (r: String)
        ensures
            r@ == id_chars(self@.deck),
    {
        let mut out = String::new();
        let mut i: usize = 0;
        while i < self.deck.cards.len()
            invariant
                i <= self.deck@.len(),
                out@ == id_chars(self.deck@.take(i as int)),
            decreases self.deck@.len() - i,
        {
            let c = self.deck.cards[i];
            out.append(rank_str(c.rank));
            out.append(suit_str(c.suit));
            proof {
                let pre = self.deck@.take(i as int);
                let cur = self.deck@.take(i + 1);
                assert(cur.drop_last() =~= pre);
                assert(cur.last() == c);
                assert(rank_chars(c.rank) + seq![suit_char(c.suit)] =~= card_chars(c));
                assert(out@ =~= id_chars(cur));
            }
            i = i + 1;
        }
        proof {
            assert(self.deck@.take(self.deck@.len() as int) =~= self.deck@);
        }
        out
    }
}

/// The suit's initial.
pub open spec fn suit_char(s: Suit) -> char {
    match s {
        Suit::Spade => 'S',
        Suit::Heart => 'H',
        Suit::Diamond => 'D',
        Suit::Club => 'C',
    }
}

/// The rank in decimal; ranks outside the deck's domain print as `?`.
pub open spec fn rank_chars(r: u8) -> Seq<char> {
    if r == 1 {
        seq!['1']
    } else if r == 2 {
        seq!['2']
    } else if r == 3 {
        seq!['3']
    } else if r == 4 {
        seq!['4']
    } else if r == 5 {
        seq!['5']
    } else if r == 6 {
        seq!['6']
    } else if r == 7 {
        seq!['7']
    } else if r == 8 {
        seq!['8']
    } else if r == 9 {
        seq!['9']
    } else if r == 10 {
        seq!['1', '0']
    } else if r == 11 {
        seq!['1', '1']
    } else if r == 12 {
        seq!['1', '2']
    } else if r == 13 {
        seq!['1', '3']
    } else if r == 14 {
        seq!['1', '4']
    } else {
        seq!['?']
    }
}

/// One card's contribution to the identifier.
pub open spec fn card_chars(c: Card) -> Seq<char> {
    rank_chars(c.rank).push(suit_char(c.suit))
}

/// The identifier of an ordered pile of cards.
pub open spec fn id_chars(s: Seq<Card>) -> Seq<char>
    decreases s.len(),
{
    if s.len() == 0 {
        Seq::empty()
    } else {
        id_chars(s.drop_last()) + card_chars(s.last())
    }
}

fn rank_str(r: u8) -> (s: &'static str)
    ensures
        s@ == rank_chars(r),
{
    proof {
        reveal_strlit("1");
        reveal_strlit("2");
        reveal_strlit("3");
        reveal_strlit("4");
        reveal_strlit("5");
        reveal_strlit("6");
        reveal_strlit("7");
        reveal_strlit("8");
        reveal_strlit("9");
        reveal_strlit("10");
        reveal_strlit("11");
        reveal_strlit("12");
        reveal_strlit("13");
        reveal_strlit("14");
        reveal_strlit("?");
    }
    if r == 1 {
        "1"
    } else if r == 2 {
        "2"
    } else if r == 3 {
        "3"
    } else if r == 4 {
        "4"
    } else if r == 5 {
        "5"
    } else if r == 6 {
        "6"
    } else if r == 7 {
        "7"
    } else if r == 8 {
        "8"
    } else if r == 9 {
        "9"
    } else if r == 10 {
        "10"
    } else if r == 11 {
        "11"
    } else if r == 12 {
        "12"
    } else if r == 13 {
        "13"
    } else if r == 14 {
        "14"
    } else {
        "?"
    }
}

fn suit_str(s: Suit) -> (r: &'static str)
    ensures
        r@ == seq![suit_char(s)],
{
    proof {
        reveal_strlit("S");
        reveal_strlit("H");
        reveal_strlit("D");
        reveal_strlit("C");
    }
    match s {
        Suit::Spade => "S",
        Suit::Heart => "H",
        Suit::Diamond => "D",
        Suit::Club => "C",
    }
}

/// Cards dealt before outer round `i` of the deal: round `j` deals `8 - j`
/// cards (one visible, the rest hidden).
pub open spec fn dealt_before(i: int) -> int
    decreases i,
{
    if i <= 1 {
        0
    } else {
        dealt_before(i - 1) + (8 - (i - 1))
    }
}

proof fn lemma_dealt_before_values()
    ensures
        dealt_before(1) == 0,
        dealt_before(2) == 7,
        dealt_before(3) == 13,
        dealt_before(4) == 18,
        dealt_before(5) == 22,
        dealt_before(6) == 25,
        dealt_before(7) == 27,
{
    assert(dealt_before(1) == 0);
    assert(dealt_before(2) == 7);
    assert(dealt_before(3) == 13);
    assert(dealt_before(4) == 18);
    assert(dealt_before(5) == 22);
    assert(dealt_before(6) == 25);
    assert(dealt_before(7) == 27);
}

/// Moving the stock's top card onto one column keeps the pool of cards
/// across the columns and the stock unchanged.
proof fn lemma_deal_step(
    oldcols: Seq<ColV>,
    newcols: Seq<ColV>,
    olddeck: Seq<Card>,
    newdeck: Seq<Card>,
    k: int,
    c: Card,
)
    requires
        0 <= k < oldcols.len(),
        olddeck.len() > 0,
        c == olddeck.last(),
        newdeck == olddeck.drop_last(),
        newcols.len() == oldcols.len(),
        (newcols[k].cards == oldcols[k].cards.push(c) && newcols[k].hidden == oldcols[k].hidden) || (
        newcols[k].cards == oldcols[k].cards && newcols[k].hidden == oldcols[k].hidden.push(c)),
        forall|j: int| 0 <= j < newcols.len() && j != k ==> newcols[j] == oldcols[j],
    ensures
        cols_ms(newcols).add(newdeck.to_multiset()) == cols_ms(oldcols).add(olddeck.to_multiset()),
{
    assert(newcols =~= oldcols.update(k, newcols[k]));
    lemma_cols_ms_update(oldcols, k, newcols[k]);
    assert(olddeck.drop_last().push(c) =~= olddeck);
    assert(olddeck.drop_last().push(c).to_multiset() == olddeck.drop_last().to_multiset().insert(
        c,
    ));
    if newcols[k].cards == oldcols[k].cards.push(c) && newcols[k].hidden == oldcols[k].hidden {
        assert(oldcols[k].cards.push(c).to_multiset() == oldcols[k].cards.to_multiset().insert(c));
    } else {
        assert(oldcols[k].hidden.push(c).to_multiset() == oldcols[k].hidden.to_multiset().insert(
            c,
        ));
    }
    let n1 = cols_ms(newcols);
    let n0 = cols_ms(oldcols);
    assert forall|v: Card|
        n1.add(newdeck.to_multiset()).count(v) == n0.add(olddeck.to_multiset()).count(v) by {
        assert(n1.add(col_cards_ms(oldcols[k])).count(v) == n0.add(col_cards_ms(newcols[k])).count(
            v,
        ));
    }
    assert(n1.add(newdeck.to_multiset()) =~= n0.add(olddeck.to_multiset()));
}

/// Deals the stock's top card onto column `k`, face up or face down.
fn deal_one(cols: &mut Vec<Col>, deck: &mut Deck, k: usize, to_hidden: bool)
    requires
        k < old(cols)@.len(),
        old(deck)@.len() > 0,
    ensures
        final(deck)@ == old(deck)@.drop_last(),
        final(cols)@.len() == old(cols)@.len(),
        ({
            let c = old(deck)@.last();
            let oldk = old(cols)@[k as int]@;
            let newk = if to_hidden {
                ColV { cards: oldk.cards, hidden: oldk.hidden.push(c) }
            } else {
                ColV { cards: oldk.cards.push(c), hidden: oldk.hidden }
            };
            forall|j: int|
                0 <= j < final(cols)@.len() ==> (#[trigger] final(cols)@[j])@ == (if j == k as int {
                    newk
                } else {
                    old(cols)@[j]@
                })
        }),
{
    let c = deck.draw().unwrap();
    if to_hidden {
        cols[k].hidden.push(c);
    } else {
        cols[k].cards.push(c);
    }
}

/// One legal transformation of a board: scoring a column's top card, moving
/// a visible run, or drawing.
pub open spec fn step(pre: BoardV, post: BoardV) -> bool {
    ||| exists|i: int|
        0 <= i < 8 && pre.cols[i].cards.len() > 0 && scored_accepts(
            pre.fnd(pre.cols[i].cards.last().suit),
            pre.cols[i].cards.last(),
        ) && post == #[trigger] pre.score_v(i)
    ||| exists|s: int, d: int|
        0 <= s < 8 && 0 <= d < 7 && pre.cols[s].cards.len() > 0 && col_accepts(
            pre.cols[d].cards,
            pre.cols[s].cards,
        ) && post == #[trigger] pre.mov_v(s, d)
    ||| (pre.draw_ready() && !pre.draw_exhausted() && post == pre.draw_v())
}

/// Deck integrity and foundation monotonicity over one transformation: a
/// legal score, move, or draw of a well-formed board yields a well-formed
/// board — in particular its cards are still exactly the 52-card deck,
/// disjointly partitioned — and never lowers the score.
pub proof fn lemma_step_preserves(pre: BoardV, post: BoardV)
    requires
        pre.wf(),
        step(pre, post),
    ensures
        post.wf(),
        post.all_cards() == full_deck(),
        pre.scored_total() <= post.scored_total(),
{
    if exists|i: int|
        0 <= i < 8 && pre.cols[i].cards.len() > 0 && scored_accepts(
            pre.fnd(pre.cols[i].cards.last().suit),
            pre.cols[i].cards.last(),
        ) && post == #[trigger] pre.score_v(i) {
        let i = choose|i: int|
            0 <= i < 8 && pre.cols[i].cards.len() > 0 && scored_accepts(
                pre.fnd(pre.cols[i].cards.last().suit),
                pre.cols[i].cards.last(),
            ) && post == #[trigger] pre.score_v(i);
        lemma_score_v_wf(pre, i);
    } else if exists|s: int, d: int|
        0 <= s < 8 && 0 <= d < 7 && pre.cols[s].cards.len() > 0 && col_accepts(
            pre.cols[d].cards,
            pre.cols[s].cards,
        ) && post == #[trigger] pre.mov_v(s, d) {
        let (s, d) = choose|s: int, d: int|
            0 <= s < 8 && 0 <= d < 7 && pre.cols[s].cards.len() > 0 && col_accepts(
                pre.cols[d].cards,
                pre.cols[s].cards,
            ) && post == #[trigger] pre.mov_v(s, d);
        lemma_mov_v_wf(pre, s, d);
    } else {
        lemma_draw_v_wf(pre);
    }
}

/// Along any sequence of legal transformations from a well-formed board,
/// every board reached is well-formed (deck integrity holds throughout) and
/// the score never decreases.
/// `post` can be reached from `pre` by a (possibly empty) sequence of legal
/// transformations.
pub open spec fn reaches(pre: BoardV, post: BoardV) -> bool {
    exists|tr: Seq<BoardV>|
        tr.len() > 0 && tr[0] == pre && tr.last() == post && (forall|j: int|
            0 <= j < tr.len() - 1 ==> step(#[trigger] tr[j], tr[j + 1]))
}

/// Every board reaches itself.
pub proof fn lemma_reaches_refl(b: BoardV)
    ensures
        reaches(b, b),
{
    let tr = seq![b];
    assert(tr.len() > 0 && tr[0] == b && tr.last() == b);
    assert(forall|j: int| 0 <= j < tr.len() - 1 ==> step(#[trigger] tr[j], tr[j + 1]));
}

/// A legal transformation followed by a legal trace is a legal trace.
pub proof fn lemma_reaches_prepend(pre: BoardV, mid: BoardV, post: BoardV)
    requires
        step(pre, mid),
        reaches(mid, post),
    ensures
        reaches(pre, post),
{
    let tr = choose|tr: Seq<BoardV>|
        tr.len() > 0 && tr[0] == mid && tr.last() == post && (forall|j: int|
            0 <= j < tr.len() - 1 ==> step(#[trigger] tr[j], tr[j + 1]));
    let tr2 = seq![pre] + tr;
    assert(tr2[0] == pre);
    assert(tr2.last() == post);
    assert forall|j: int| 0 <= j < tr2.len() - 1 implies step(#[trigger] tr2[j], tr2[j + 1]) by {
        if j == 0 {
            assert(tr2[0] == pre && tr2[1] == tr[0]);
        } else {
            assert(tr2[j] == tr[j - 1] && tr2[j + 1] == tr[j]);
            assert(step(tr[j - 1], tr[j]));
        }
    }
    assert(reaches(pre, post));
}

/// One transformation raises the score by at most one, and raises it at
/// all only by scoring: a move or a draw leaves the score unchanged.
pub proof fn lemma_step_scored(pre: BoardV, post: BoardV)
    requires
        pre.wf(),
        step(pre, post),
    ensures
        pre.scored_total() <= post.scored_total() <= pre.scored_total() + 1,
        post.scored_total() == pre.scored_total() + 1 ==> exists|i: int|
            0 <= i < 8 && pre.cols[i].cards.len() > 0 && scored_accepts(
                pre.fnd(pre.cols[i].cards.last().suit),
                pre.cols[i].cards.last(),
            ) && post == #[trigger] pre.score_v(i),
{
    if exists|i: int|
        0 <= i < 8 && pre.cols[i].cards.len() > 0 && scored_accepts(
            pre.fnd(pre.cols[i].cards.last().suit),
            pre.cols[i].cards.last(),
        ) && post == #[trigger] pre.score_v(i) {
        let i = choose|i: int|
            0 <= i < 8 && pre.cols[i].cards.len() > 0 && scored_accepts(
                pre.fnd(pre.cols[i].cards.last().suit),
                pre.cols[i].cards.last(),
            ) && post == #[trigger] pre.score_v(i);
        lemma_score_v_wf(pre, i);
    } else if exists|s: int, d: int|
        0 <= s < 8 && 0 <= d < 7 && pre.cols[s].cards.len() > 0 && col_accepts(
            pre.cols[d].cards,
            pre.cols[s].cards,
        ) && post == #[trigger] pre.mov_v(s, d) {
        let (s, d) = choose|s: int, d: int|
            0 <= s < 8 && 0 <= d < 7 && pre.cols[s].cards.len() > 0 && col_accepts(
                pre.cols[d].cards,
                pre.cols[s].cards,
            ) && post == #[trigger] pre.mov_v(s, d);
        lemma_mov_v_wf(pre, s, d);
    } else {
        lemma_draw_v_wf(pre);
    }
}

/// A board along a legal trace is well-formed.
proof fn lemma_trace_wf_at(tr: Seq<BoardV>, j: int)
    requires
        tr.len() > 0,
        tr[0].wf(),
        forall|m: int| 0 <= m < tr.len() - 1 ==> step(#[trigger] tr[m], tr[m + 1]),
        0 <= j < tr.len(),
    ensures
        tr[j].wf(),
    decreases j,
{
    if j > 0 {
        lemma_trace_wf_at(tr, j - 1);
        lemma_step_preserves(tr[j - 1], tr[j]);
    }
}

/// The score at a later point of a legal trace is at least the score at an
/// earlier one.
proof fn lemma_trace_scored_le(tr: Seq<BoardV>, j: int, k: int)
    requires
        tr.len() > 0,
        tr[0].wf(),
        forall|m: int| 0 <= m < tr.len() - 1 ==> step(#[trigger] tr[m], tr[m + 1]),
        0 <= j <= k < tr.len(),
    ensures
        tr[j].scored_total() <= tr[k].scored_total(),
    decreases k - j,
{
    if j < k {
        lemma_trace_scored_le(tr, j, k - 1);
        lemma_trace_wf_at(tr, k - 1);
        lemma_step_preserves(tr[k - 1], tr[k]);
    }
}

/// Along any sequence of legal transformations from a well-formed board,
/// every board reached is well-formed — deck integrity holds throughout —
/// and the score never decreases.
pub proof fn lemma_trace_monotonic(tr: Seq<BoardV>)
    requires
        tr.len() > 0,
        tr[0].wf(),
        forall|j: int| 0 <= j < tr.len() - 1 ==> step(#[trigger] tr[j], tr[j + 1]),
    ensures
        forall|j: int| 0 <= j < tr.len() ==> (#[trigger] tr[j]).wf(),
        forall|j: int, k: int|
            0 <= j <= k < tr.len() ==> tr[j].scored_total() <= tr[k].scored_total(),
{
    assert forall|j: int| 0 <= j < tr.len() implies (#[trigger] tr[j]).wf() by {
        lemma_trace_wf_at(tr, j);
    }
    assert forall|j: int, k: int|
        0 <= j <= k < tr.len() implies tr[j].scored_total() <= tr[k].scored_total() by {
        lemma_trace_scored_le(tr, j, k);
    }
}

/// An element-for-element copy of a pile of cards.
fn copy_cards(v: &Vec<Card>) -> (r: Vec<Card>)
    ensures
        r@ == v@,
{
    let mut r: Vec<Card> = Vec::new();
    let mut i: usize = 0;
    while i < v.len()
        invariant
            i <= v@.len(),
            r@ =~= v@.take(i as int),
        decreases v@.len() - i,
    {
        r.push(v[i]);
        proof {
            assert(v@.take(i + 1 as int) =~= v@.take(i as int).push(v@[i as int]));
        }
        i = i + 1;
    }
    proof {
        assert(v@.take(v@.len() as int) =~= v@);
    }
    r
}

} // verus!
