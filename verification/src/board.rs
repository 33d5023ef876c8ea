//! The executable board: goal, cell and tableau piles as vectors of cards,
//! together with the deal that starts a game.

use rand::seq::SliceRandom;
use rand::SeedableRng;
use vstd::arithmetic::div_mod::lemma_fundamental_div_mod_converse;
use vstd::multiset::Multiset;
use vstd::prelude::*;

use crate::card::Card;
use crate::model::{
    free_cells_rec, full_deck, lemma_piles_cards_empties, lemma_piles_cards_push, piles_cards,
    BoardModel, PileKind, Position,
};

verus! {

broadcast use {
    vstd::multiset::group_multiset_axioms,
    vstd::seq_lib::group_to_multiset_ensures,
};

/// The live board: 4 goal piles, 4 free cells, 10 tableau piles.
/// The top of each pile is the end of its vector.
pub struct Board {
    pub goals: Vec<Vec<Card>>,
    pub cells: Vec<Vec<Card>>,
    pub stacks: Vec<Vec<Card>>,
}

/// The sequences held by a group of piles.
pub open spec fn piles_seq(v: Seq<Vec<Card>>) -> Seq<Seq<Card>> {
    v.map_values(|p: Vec<Card>| p@)
}

impl Board {
    /// The abstract state of this board.
    pub open spec fn model(self) -> BoardModel {
        BoardModel {
            goals: piles_seq(self.goals@),
            cells: piles_seq(self.cells@),
            stacks: piles_seq(self.stacks@),
        }
    }

    /// A read-only view of the pile a position refers to.
    pub fn resolve_position(&self, p: Position) -> (r: &Vec<Card>)
        requires
            self.model().shape(),
            p.valid(),
        ensures
            r@ == self.model().pile(p),
    {
        match p.kind {
            PileKind::Goal => &self.goals[p.index],
            PileKind::Cell => &self.cells[p.index],
            PileKind::Tableau => &self.stacks[p.index],
        }
    }

    /// Remove and return the top card of the pile at `p`.
    pub fn pop_card(&mut self, p: Position) -> (c: Card)
        requires
            old(self).model().shape(),
            p.valid(),
            old(self).model().pile(p).len() > 0,
        ensures
            final(self).model() == old(self).model().with_pile(
                p,
                old(self).model().pile(p).drop_last(),
            ),
            c == old(self).model().pile(p).last(),
    {
        let c = match p.kind {
            PileKind::Goal => pop_pile(&mut self.goals, p.index),
            PileKind::Cell => pop_pile(&mut self.cells, p.index),
            PileKind::Tableau => pop_pile(&mut self.stacks, p.index),
        };
        proof {
            assert(final(self).model() =~~= old(self).model().with_pile(
                p,
                old(self).model().pile(p).drop_last(),
            ));
        }
        c
    }

    /// Push a card onto the pile at `p`.
    pub fn push_card(&mut self, c: Card, p: Position)
        requires
            old(self).model().shape(),
            p.valid(),
        ensures
            final(self).model() == old(self).model().with_pile(
                p,
                old(self).model().pile(p).push(c),
            ),
    {
        match p.kind {
            PileKind::Goal => push_pile(&mut self.goals, p.index, c),
            PileKind::Cell => push_pile(&mut self.cells, p.index, c),
            PileKind::Tableau => push_pile(&mut self.stacks, p.index, c),
        }
        proof {
            assert(final(self).model() =~~= old(self).model().with_pile(
                p,
                old(self).model().pile(p).push(c),
            ));
        }
    }

    /// The positions of the currently empty free cells, in index order.
    pub fn find_free_cells(&self) -> (r: Vec<Position>)
        requires
            self.model().shape(),
        ensures
            r@ == self.model().free_cell_seq(),
    {
        let mut r: Vec<Position> = Vec::new();
        let mut i: usize = 0;
        while i < 4
            invariant
                self.model().shape(),
                i <= 4,
                r@ == free_cells_rec(self.model().cells, i as int),
            decreases 4 - i,
        {
            if self.cells[i].len() == 0 {
                r.push(Position { kind: PileKind::Cell, index: i });
            }
            proof {
                assert(r@ =~= free_cells_rec(self.model().cells, i + 1));
            }
            i = i + 1;
        }
        r
    }

    /// How many free cells are currently empty.
    pub fn count_free_cells(&self) -> (r: usize)
        requires
            self.model().shape(),
        ensures
            r as int == self.model().free_cells(),
    {
        let free = self.find_free_cells();
        free.len()
    }

    /// Total number of cards on the goal piles.
    pub fn count_goal(&self) -> (r: usize)
        requires
            self.model().wf(),
        ensures
            r as int == self.model().goal_count(),
    {
        proof {
            crate::model::lemma_pile_len_bound(
                self.model(),
                Position { kind: PileKind::Goal, index: 0 },
            );
            crate::model::lemma_pile_len_bound(
                self.model(),
                Position { kind: PileKind::Goal, index: 1 },
            );
            crate::model::lemma_pile_len_bound(
                self.model(),
                Position { kind: PileKind::Goal, index: 2 },
            );
            crate::model::lemma_pile_len_bound(
                self.model(),
                Position { kind: PileKind::Goal, index: 3 },
            );
        }
        self.goals[0].len() + self.goals[1].len() + self.goals[2].len() + self.goals[3].len()
    }

    /// The game is won when every card has reached a goal pile.
    pub fn is_success(&self) -> (r: bool)
        requires
            self.model().wf(),
        ensures
            r == (self.model().goal_count() == 52),
    {
        self.count_goal() == 52
    }
}

/// What shuffling a deck with a generator seeded from `seed` produces: a
/// function of the seed and the deck alone.
pub uninterp spec fn shuffled(seed: u64, deck: Seq<Card>) -> Seq<Card>;

/// Relies on rand's `StdRng::seed_from_u64` and `SliceRandom::shuffle`: a
/// Fisher-Yates shuffle driven by a generator built from the seed alone, so
/// which permutation comes out is a function of the seed and the deck, and
/// it holds exactly the same cards.
#[verifier::external_body]
fn shuffle_deck(deck: &mut Vec<Card>, seed: u64)
    ensures
        final(deck)@ == shuffled(seed, old(deck)@),
        shuffled(seed, old(deck)@).to_multiset() == old(deck)@.to_multiset(),
        shuffled(seed, old(deck)@).len() == old(deck)@.len(),
{
    let mut rng = rand::rngs::StdRng::seed_from_u64(seed);
    deck.shuffle(&mut rng);
}

/// The board dealt from a shuffled 52-card deck: dealing pops cards off the
/// deck's end, 5 to each tableau pile in turn, then one into each of the
/// first two cells; goals start empty.
pub open spec fn deal_model(d: Seq<Card>) -> BoardModel {
    BoardModel {
        goals: Seq::new(4, |i: int| Seq::<Card>::empty()),
        cells: seq![seq![d[1]], seq![d[0]], Seq::<Card>::empty(), Seq::<Card>::empty()],
        stacks: Seq::new(10, |j: int| Seq::new(5, |k: int| d[51 - 5 * j - k])),
    }
}

/// Deal a fresh board from the given seed: shuffle a full 52-card deck,
/// deal 5 cards to each of the 10 tableau piles, and put the remaining
/// 2 cards into the first two free cells. Equal seeds deal equal boards:
/// the result is exactly the deal of the seed's shuffle.
pub fn deal_board(seed: u64) -> (b: Board)
    ensures
        b.model().wf(),
        b.model() == deal_model(shuffled(seed, full_deck())),
        forall|i: int| 0 <= i < 4 ==> (#[trigger] b.model().goals[i]).len() == 0,
        b.model().cells[0].len() == 1,
        b.model().cells[1].len() == 1,
        b.model().cells[2].len() == 0,
        b.model().cells[3].len() == 0,
        forall|i: int| 0 <= i < 10 ==> (#[trigger] b.model().stacks[i]).len() == 5,
{
    let mut deck: Vec<Card> = Vec::new();
    let mut suit: u8 = 0;
    while suit < 4
        invariant
            suit <= 4,
            deck@.len() == suit * 13,
            forall|k: int| 0 <= k < deck@.len() ==> deck@[k] == full_deck()[k],
        decreases 4 - suit,
    {
        let mut value: u8 = 1;
        while value < 14
            invariant
                suit < 4,
                1 <= value <= 14,
                deck@.len() == suit * 13 + value - 1,
                forall|k: int| 0 <= k < deck@.len() ==> deck@[k] == full_deck()[k],
            decreases 14 - value,
        {
            deck.push(Card { suit, value });
            proof {
                let k = deck@.len() - 1;
                lemma_fundamental_div_mod_converse(k, 13, suit as int, value - 1);
                assert(deck@[k] == full_deck()[k]);
            }
            value = value + 1;
        }
        suit = suit + 1;
    }
    assert(deck@ =~= full_deck());
    shuffle_deck(&mut deck, seed);
    let ghost sd = deck@;
    proof {
        assert(sd == shuffled(seed, full_deck()));
        assert(sd.len() == 52);
    }

    let mut goals: Vec<Vec<Card>> = Vec::new();
    let mut gi: usize = 0;
    while gi < 4
        invariant
            gi <= 4,
            goals@.len() == gi,
            forall|j: int| 0 <= j < gi ==> (#[trigger] goals@[j])@.len() == 0,
        decreases 4 - gi,
    {
        goals.push(Vec::new());
        gi = gi + 1;
    }

    let mut stacks: Vec<Vec<Card>> = Vec::new();
    let mut si: usize = 0;
    while si < 10
        invariant
            si <= 10,
            stacks@.len() == si,
            deck@.len() == 52 - 5 * si,
            sd.len() == 52,
            deck@ == sd.take(52 - 5 * si),
            piles_cards(piles_seq(stacks@)).add(deck@.to_multiset()) == full_deck().to_multiset(),
            forall|j: int| 0 <= j < si ==> (#[trigger] stacks@[j])@.len() == 5,
            forall|j: int|
                0 <= j < si ==> (#[trigger] stacks@[j])@ == Seq::new(
                    5,
                    |k: int| sd[51 - 5 * j - k],
                ),
        decreases 10 - si,
    {
        let ghost entry_cards = piles_cards(piles_seq(stacks@));
        let mut pile: Vec<Card> = Vec::new();
        let mut j: usize = 0;
        while j < 5
            invariant
                j <= 5,
                si < 10,
                pile@.len() == j,
                stacks@.len() == si,
                deck@.len() == 52 - 5 * si - j,
                sd.len() == 52,
                deck@ == sd.take(52 - 5 * si - j),
                forall|k: int| 0 <= k < j ==> pile@[k] == sd[51 - 5 * si - k],
                entry_cards == piles_cards(piles_seq(stacks@)),
                entry_cards.add(pile@.to_multiset()).add(deck@.to_multiset())
                    == full_deck().to_multiset(),
            decreases 5 - j,
        {
            let ghost old_deck = deck@;
            let ghost old_pile = pile@;
            let c = deck.pop().unwrap();
            pile.push(c);
            proof {
                assert(old_deck =~= deck@.push(c));
                assert(deck@.push(c).to_multiset() == deck@.to_multiset().insert(c));
                assert(pile@.to_multiset() == old_pile.to_multiset().insert(c));
                assert forall|x: Card|
                    entry_cards.add(pile@.to_multiset()).add(deck@.to_multiset()).count(x)
                        == full_deck().to_multiset().count(x) by {
                    assert(entry_cards.add(old_pile.to_multiset()).add(old_deck.to_multiset()).count(
                        x,
                    ) == full_deck().to_multiset().count(x));
                }
                assert(entry_cards.add(pile@.to_multiset()).add(deck@.to_multiset())
                    =~= full_deck().to_multiset());
                assert(old_deck == sd.take(52 - 5 * si - j));
                assert(c == sd[51 - 5 * si - j]);
                assert(deck@ =~= sd.take(52 - 5 * si - j - 1));
                assert(pile@[j as int] == c);
            }
            j = j + 1;
        }
        let ghost old_stacks = stacks@;
        proof {
            assert(pile@ =~= Seq::new(5, |k: int| sd[51 - 5 * si - k]));
        }
        stacks.push(pile);
        proof {
            assert(piles_seq(stacks@) =~= piles_seq(old_stacks).push(pile@));
            assert(stacks@[si as int]@ == pile@);
            lemma_piles_cards_push(piles_seq(old_stacks), pile@);
            assert forall|x: Card|
                piles_cards(piles_seq(stacks@)).add(deck@.to_multiset()).count(x)
                    == full_deck().to_multiset().count(x) by {
                assert(entry_cards.add(pile@.to_multiset()).add(deck@.to_multiset()).count(x)
                    == full_deck().to_multiset().count(x));
            }
            assert(piles_cards(piles_seq(stacks@)).add(deck@.to_multiset())
                =~= full_deck().to_multiset());
        }
        si = si + 1;
    }

    let ghost stack_cards = piles_cards(piles_seq(stacks@));
    let mut cells: Vec<Vec<Card>> = Vec::new();
    let ghost deck2 = deck@;
    let c0 = deck.pop().unwrap();
    let ghost deck1 = deck@;
    let c1 = deck.pop().unwrap();
    let mut p0: Vec<Card> = Vec::new();
    p0.push(c0);
    let mut p1: Vec<Card> = Vec::new();
    p1.push(c1);
    cells.push(p0);
    cells.push(p1);
    cells.push(Vec::new());
    cells.push(Vec::new());

    let b = Board { goals, cells, stacks };
    proof {
        let full = full_deck().to_multiset();
        // The two cards that went to the cells are what was left of the deck.
        assert(deck2 =~= deck1.push(c0));
        assert(deck1 =~= deck@.push(c1));
        assert(deck@.to_multiset().len() == 0);
        assert(deck@.to_multiset() =~= Multiset::<Card>::empty());
        assert(deck1.to_multiset() == deck@.to_multiset().insert(c1));
        assert(deck2.to_multiset() == deck1.to_multiset().insert(c0));
        // The goal piles hold nothing.
        assert(forall|i: int|
            0 <= i < 4 ==> (#[trigger] piles_seq(b.goals@)[i]).len() == 0);
        lemma_piles_cards_empties(piles_seq(b.goals@));
        // The cells hold exactly the two remaining cards.
        let cs = piles_seq(b.cells@);
        let s0 = Seq::<Seq<Card>>::empty();
        let s1 = s0.push(seq![c0]);
        let s2 = s1.push(seq![c1]);
        let s3 = s2.push(Seq::empty());
        let s4 = s3.push(Seq::empty());
        assert(cs =~~= s4);
        lemma_piles_cards_push(s0, seq![c0]);
        lemma_piles_cards_push(s1, seq![c1]);
        lemma_piles_cards_push(s2, Seq::empty());
        lemma_piles_cards_push(s3, Seq::empty());
        assert(seq![c0] =~= Seq::<Card>::empty().push(c0));
        assert(seq![c1] =~= Seq::<Card>::empty().push(c1));
        assert(Seq::<Card>::empty().push(c0).to_multiset() == Seq::<Card>::empty().to_multiset()
            .insert(c0));
        assert(Seq::<Card>::empty().push(c1).to_multiset() == Seq::<Card>::empty().to_multiset()
            .insert(c1));
        assert(Seq::<Card>::empty().to_multiset().len() == 0);
        assert(Seq::<Card>::empty().to_multiset() =~= Multiset::<Card>::empty());
        assert forall|x: Card| b.model().cards().count(x) == full.count(x) by {
            assert(stack_cards.add(deck2.to_multiset()).count(x) == full.count(x));
            assert(piles_cards(cs).count(x) == piles_cards(s4).count(x));
        }
        assert(b.model().cards() =~= full);
        // The dealt board is exactly the deal of the shuffled deck.
        let dm = deal_model(sd);
        assert(deck2 == sd.take(2));
        assert(c0 == sd[1]);
        assert(deck1 =~= sd.take(1));
        assert(c1 == sd[0]);
        assert forall|i: int| 0 <= i < 4 implies piles_seq(b.goals@)[i] =~= dm.goals[i] by {}
        assert(piles_seq(b.goals@) =~~= dm.goals);
        assert(cs[0] =~= seq![sd[1]]);
        assert(cs[1] =~= seq![sd[0]]);
        assert(cs[2] =~= Seq::<Card>::empty());
        assert(cs[3] =~= Seq::<Card>::empty());
        assert(cs =~~= dm.cells);
        assert forall|j: int| 0 <= j < 10 implies piles_seq(b.stacks@)[j] =~= dm.stacks[j] by {
            assert(b.stacks@[j]@ == Seq::new(5, |k: int| sd[51 - 5 * j - k]));
        }
        assert(piles_seq(b.stacks@) =~~= dm.stacks);
        assert(b.model() =~~= dm);
    }
    b
}

/// Remove and return the top card of pile `i` in a group.
fn pop_pile(piles: &mut Vec<Vec<Card>>, i: usize) -> (c: Card)
    requires
        i < old(piles)@.len(),
        old(piles)@[i as int]@.len() > 0,
    ensures
        final(piles)@.len() == old(piles)@.len(),
        final(piles)@[i as int]@ == old(piles)@[i as int]@.drop_last(),
        c == old(piles)@[i as int]@.last(),
        forall|j: int|
            0 <= j < old(piles)@.len() && j != i ==> final(piles)@[j] == old(piles)@[j],
{
    let pile: &mut Vec<Card> = &mut piles[i];
    pile.pop().unwrap()
}

/// Push a card onto pile `i` in a group.
fn push_pile(piles: &mut Vec<Vec<Card>>, i: usize, c: Card)
    requires
        i < old(piles)@.len(),
    ensures
        final(piles)@.len() == old(piles)@.len(),
        final(piles)@[i as int]@ == old(piles)@[i as int]@.push(c),
        forall|j: int|
            0 <= j < old(piles)@.len() && j != i ==> final(piles)@[j] == old(piles)@[j],
{
    let pile: &mut Vec<Card> = &mut piles[i];
    pile.push(c);
}

} // verus!
