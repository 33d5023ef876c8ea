//! Mathematical model of the board: piles as sequences of cards, a move as
//! popping a card from one pile and pushing it onto another, and the exact
//! bookkeeping needed to undo recorded moves in reverse order.

use vstd::arithmetic::div_mod::lemma_fundamental_div_mod;
use vstd::multiset::Multiset;
use vstd::prelude::*;

use crate::card::Card;

verus! {

broadcast use {
    vstd::multiset::group_multiset_axioms,
    vstd::multiset::group_multiset_properties,
    vstd::seq_lib::group_to_multiset_ensures,
};

/// The three kinds of pile on the board.
#[derive(Copy, Clone, PartialEq, Eq, Structural, Debug)]
pub enum PileKind {
    Goal,
    Cell,
    Tableau,
}

/// A reference to a pile: a kind and an index into that kind's piles.
#[derive(Copy, Clone, PartialEq, Eq, Structural, Debug)]
pub struct Position {
    pub kind: PileKind,
    pub index: usize,
}

impl Position {
    /// The index is in range for the kind: 4 goals, 4 cells, 10 tableau piles.
    pub open spec fn valid(self) -> bool {
        match self.kind {
            PileKind::Goal => self.index < 4,
            PileKind::Cell => self.index < 4,
            PileKind::Tableau => self.index < 10,
        }
    }
}

/// One primitive relocation of a single card, as recorded in the history.
/// `extent` is the size of the logical block this relocation was part of.
#[derive(Copy, Clone, PartialEq, Eq, Structural, Debug)]
pub struct RecordedMove {
    pub source: Position,
    pub target: Position,
    pub extent: u16,
}

/// The abstract state of a board: every pile as a sequence of cards,
/// with the top of a pile at the end of its sequence.
#[verifier::ext_equal]
pub ghost struct BoardModel {
    pub goals: Seq<Seq<Card>>,
    pub cells: Seq<Seq<Card>>,
    pub stacks: Seq<Seq<Card>>,
}

/// The full 52-card deck, in suit-major order.
pub open spec fn full_deck() -> Seq<Card> {
    Seq::new(52, |i: int| Card { suit: (i / 13) as u8, value: ((i % 13) + 1) as u8 })
}

/// The multiset of cards held by a group of piles.
pub open spec fn piles_cards(s: Seq<Seq<Card>>) -> Multiset<Card>
    decreases s.len(),
{
    if s.len() == 0 {
        Multiset::empty()
    } else {
        piles_cards(s.drop_last()).add(s.last().to_multiset())
    }
}

/// The total number of cards held by a group of piles.
pub open spec fn piles_len(s: Seq<Seq<Card>>) -> int
    decreases s.len(),
{
    if s.len() == 0 {
        0
    } else {
        piles_len(s.drop_last()) + s.last().len()
    }
}

/// The positions of the empty cells among the first `n` cells, in index order.
pub open spec fn free_cells_rec(cells: Seq<Seq<Card>>, n: int) -> Seq<Position>
    decreases n,
{
    if n <= 0 {
        Seq::empty()
    } else {
        free_cells_rec(cells, n - 1) + (if cells[n - 1].len() == 0 {
            seq![Position { kind: PileKind::Cell, index: (n - 1) as usize }]
        } else {
            Seq::empty()
        })
    }
}

impl BoardModel {
    /// The fixed layout: 4 goals, 4 cells of capacity one, 10 tableau piles.
    pub open spec fn shape(self) -> bool {
        &&& self.goals.len() == 4
        &&& self.cells.len() == 4
        &&& self.stacks.len() == 10
        &&& forall|i: int| 0 <= i < 4 ==> (#[trigger] self.cells[i]).len() <= 1
    }

    /// The pile that a position refers to.
    pub open spec fn pile(self, p: Position) -> Seq<Card> {
        match p.kind {
            PileKind::Goal => self.goals[p.index as int],
            PileKind::Cell => self.cells[p.index as int],
            PileKind::Tableau => self.stacks[p.index as int],
        }
    }

    /// The same board with the pile at `p` replaced by `v`.
    pub open spec fn with_pile(self, p: Position, v: Seq<Card>) -> BoardModel {
        match p.kind {
            PileKind::Goal => BoardModel {
                goals: self.goals.update(p.index as int, v),
                cells: self.cells,
                stacks: self.stacks,
            },
            PileKind::Cell => BoardModel {
                goals: self.goals,
                cells: self.cells.update(p.index as int, v),
                stacks: self.stacks,
            },
            PileKind::Tableau => BoardModel {
                goals: self.goals,
                cells: self.cells,
                stacks: self.stacks.update(p.index as int, v),
            },
        }
    }

    /// The multiset of all cards on the board.
    pub open spec fn cards(self) -> Multiset<Card> {
        piles_cards(self.goals).add(piles_cards(self.cells)).add(piles_cards(self.stacks))
    }

    /// A well-formed board: the fixed layout, holding exactly the 52 cards.
    pub open spec fn wf(self) -> bool {
        self.shape() && self.cards() == full_deck().to_multiset()
    }

    /// Number of cards on the goal piles.
    pub open spec fn goal_count(self) -> int {
        self.goals[0].len() + self.goals[1].len() + self.goals[2].len() + self.goals[3].len() as int
    }

    /// The empty cells, in index order.
    pub open spec fn free_cell_seq(self) -> Seq<Position> {
        free_cells_rec(self.cells, 4)
    }

    /// How many cells are empty.
    pub open spec fn free_cells(self) -> int {
        self.free_cell_seq().len() as int
    }

    /// The board after moving the top card of the pile at `s` onto the pile
    /// at `t`. Moving a pile onto itself leaves the board unchanged.
    pub open spec fn move_applied(self, s: Position, t: Position) -> BoardModel {
        let c = self.pile(s).last();
        let m1 = self.with_pile(s, self.pile(s).drop_last());
        m1.with_pile(t, m1.pile(t).push(c))
    }
}

/// A goal pile is, from the bottom up, the values 1, 2, 3, ... of a single
/// suit: built ascending from the ace, never broken.
pub open spec fn goal_pile_ascending(p: Seq<Card>) -> bool {
    forall|j: int| 0 <= j < p.len() ==> (#[trigger] p[j]).value == j + 1 && p[j].suit == p[0].suit
}

/// All four goal piles are ascending single-suit piles.
pub open spec fn goal_wf(m: BoardModel) -> bool {
    forall|i: int| 0 <= i < 4 ==> goal_pile_ascending(#[trigger] m.goals[i])
}

/// Two boards of the fixed layout that agree on the pile at every position
/// are the same board.
pub proof fn lemma_model_eq(a: BoardModel, b: BoardModel)
    requires
        a.shape(),
        b.shape(),
        forall|q: Position| #[trigger] q.valid() ==> a.pile(q) == b.pile(q),
    ensures
        a == b,
{
    assert forall|i: int| 0 <= i < 4 implies a.goals[i] == b.goals[i] by {
        let q = Position { kind: PileKind::Goal, index: i as usize };
        assert(q.valid());
        assert(a.pile(q) == b.pile(q));
    }
    assert forall|i: int| 0 <= i < 4 implies a.cells[i] == b.cells[i] by {
        let q = Position { kind: PileKind::Cell, index: i as usize };
        assert(q.valid());
        assert(a.pile(q) == b.pile(q));
    }
    assert forall|i: int| 0 <= i < 10 implies a.stacks[i] == b.stacks[i] by {
        let q = Position { kind: PileKind::Tableau, index: i as usize };
        assert(q.valid());
        assert(a.pile(q) == b.pile(q));
    }
    assert(a.goals =~= b.goals);
    assert(a.cells =~= b.cells);
    assert(a.stacks =~= b.stacks);
    assert(a =~~= b);
}

/// A single-card relocation is possible: both positions exist, the source has
/// a card to give, and a cell target has room for one card.
pub open spec fn move_ok(m: BoardModel, s: Position, t: Position) -> bool {
    &&& s.valid()
    &&& t.valid()
    &&& m.pile(s).len() > 0
    &&& (t.kind == PileKind::Cell && s != t ==> m.pile(t).len() == 0)
}

// ------------------------------------------------------------------
// Basic lemmas about piles and moves
// ------------------------------------------------------------------

/// Replacing one pile exchanges its cards for the new pile's cards.
proof fn lemma_piles_cards_update(s: Seq<Seq<Card>>, i: int, v: Seq<Card>)
    requires
        0 <= i < s.len(),
    ensures
        piles_cards(s.update(i, v)).add(s[i].to_multiset()) == piles_cards(s).add(
            v.to_multiset(),
        ),
    decreases s.len(),
{
    let su = s.update(i, v);
    if i == s.len() - 1 {
        assert(su.drop_last() =~= s.drop_last());
        assert(su.last() == v);
        assert(piles_cards(su).add(s[i].to_multiset()) =~= piles_cards(s).add(v.to_multiset()));
    } else {
        assert(su.drop_last() =~= s.drop_last().update(i, v));
        assert(su.last() == s.last());
        lemma_piles_cards_update(s.drop_last(), i, v);
        assert(s.drop_last()[i] == s[i]);
        assert(piles_cards(su) == piles_cards(s.drop_last().update(i, v)).add(
            s.last().to_multiset(),
        ));
        assert(piles_cards(s) == piles_cards(s.drop_last()).add(s.last().to_multiset()));
        assert forall|x: Card|
            piles_cards(su).add(s[i].to_multiset()).count(x) == piles_cards(s).add(
                v.to_multiset(),
            ).count(x) by {
            assert(piles_cards(s.drop_last().update(i, v)).add(s[i].to_multiset()).count(x)
                == piles_cards(s.drop_last()).add(v.to_multiset()).count(x));
        }
        assert(piles_cards(su).add(s[i].to_multiset()) =~= piles_cards(s).add(v.to_multiset()));
    }
}

/// Appending a pile to a group adds exactly its cards.
pub proof fn lemma_piles_cards_push(s: Seq<Seq<Card>>, p: Seq<Card>)
    ensures
        piles_cards(s.push(p)) == piles_cards(s).add(p.to_multiset()),
{
    assert(s.push(p).drop_last() =~= s);
    assert(s.push(p).last() == p);
}

/// A group of piles that are all empty holds no cards.
pub proof fn lemma_piles_cards_empties(s: Seq<Seq<Card>>)
    requires
        forall|i: int| 0 <= i < s.len() ==> (#[trigger] s[i]).len() == 0,
    ensures
        piles_cards(s) == Multiset::<Card>::empty(),
    decreases s.len(),
{
    if s.len() > 0 {
        lemma_piles_cards_empties(s.drop_last());
        assert(s.last().to_multiset().len() == 0);
        assert(piles_cards(s) =~= Multiset::<Card>::empty());
    }
}

/// The length of the multiset of a group of piles is the total pile length.
proof fn lemma_piles_cards_len(s: Seq<Seq<Card>>)
    ensures
        piles_cards(s).len() == piles_len(s),
    decreases s.len(),
{
    broadcast use vstd::seq_lib::group_to_multiset_ensures;

    if s.len() > 0 {
        lemma_piles_cards_len(s.drop_last());
    }
}

/// The total length of a group of piles is non-negative.
proof fn lemma_piles_len_nonneg(s: Seq<Seq<Card>>)
    ensures
        0 <= piles_len(s),
    decreases s.len(),
{
    if s.len() > 0 {
        lemma_piles_len_nonneg(s.drop_last());
    }
}

/// Every pile's length is bounded by the total length of its group.
proof fn lemma_piles_len_bound(s: Seq<Seq<Card>>, i: int)
    requires
        0 <= i < s.len(),
    ensures
        s[i].len() <= piles_len(s),
        0 <= piles_len(s),
    decreases s.len(),
{
    lemma_piles_len_nonneg(s);
    if i < s.len() - 1 {
        assert(s.drop_last()[i] == s[i]);
        lemma_piles_len_bound(s.drop_last(), i);
    } else {
        lemma_piles_len_nonneg(s.drop_last());
    }
}

/// Replacing a pile leaves the board's cards unchanged up to that pile's
/// exchange, stated over the whole board.
proof fn lemma_with_pile_cards(m: BoardModel, p: Position, v: Seq<Card>)
    requires
        m.shape(),
        p.valid(),
    ensures
        m.with_pile(p, v).cards().add(m.pile(p).to_multiset()) == m.cards().add(v.to_multiset()),
{
    let i = p.index as int;
    match p.kind {
        PileKind::Goal => {
            lemma_piles_cards_update(m.goals, i, v);
            assert forall|x: Card|
                m.with_pile(p, v).cards().add(m.pile(p).to_multiset()).count(x) == m.cards().add(
                    v.to_multiset(),
                ).count(x) by {
                assert(piles_cards(m.goals.update(i, v)).add(m.goals[i].to_multiset()).count(x)
                    == piles_cards(m.goals).add(v.to_multiset()).count(x));
            }
        },
        PileKind::Cell => {
            lemma_piles_cards_update(m.cells, i, v);
            assert forall|x: Card|
                m.with_pile(p, v).cards().add(m.pile(p).to_multiset()).count(x) == m.cards().add(
                    v.to_multiset(),
                ).count(x) by {
                assert(piles_cards(m.cells.update(i, v)).add(m.cells[i].to_multiset()).count(x)
                    == piles_cards(m.cells).add(v.to_multiset()).count(x));
            }
        },
        PileKind::Tableau => {
            lemma_piles_cards_update(m.stacks, i, v);
            assert forall|x: Card|
                m.with_pile(p, v).cards().add(m.pile(p).to_multiset()).count(x) == m.cards().add(
                    v.to_multiset(),
                ).count(x) by {
                assert(piles_cards(m.stacks.update(i, v)).add(m.stacks[i].to_multiset()).count(x)
                    == piles_cards(m.stacks).add(v.to_multiset()).count(x));
            }
        },
    }
    assert(m.with_pile(p, v).cards().add(m.pile(p).to_multiset()) =~= m.cards().add(
        v.to_multiset(),
    ));
}

/// A move preserves the board's layout and its multiset of cards.
pub proof fn lemma_move_preserves(m: BoardModel, s: Position, t: Position)
    requires
        m.shape(),
        move_ok(m, s, t),
    ensures
        m.move_applied(s, t).shape(),
        m.move_applied(s, t).cards() == m.cards(),
{
    broadcast use vstd::seq_lib::group_to_multiset_ensures;

    let ps = m.pile(s);
    let c = ps.last();
    let m1 = m.with_pile(s, ps.drop_last());
    let m2 = m1.with_pile(t, m1.pile(t).push(c));
    assert(ps.drop_last().push(c) =~= ps);
    assert(ps.to_multiset() == ps.drop_last().to_multiset().insert(c));
    lemma_with_pile_cards(m, s, ps.drop_last());
    lemma_with_pile_cards(m1, t, m1.pile(t).push(c));
    assert(m1.pile(t).push(c).to_multiset() == m1.pile(t).to_multiset().insert(c));
    assert forall|x: Card| m2.cards().count(x) == m.cards().count(x) by {
        assert(m1.cards().add(ps.to_multiset()).count(x) == m.cards().add(
            ps.drop_last().to_multiset(),
        ).count(x));
        assert(m2.cards().add(m1.pile(t).to_multiset()).count(x) == m1.cards().add(
            m1.pile(t).push(c).to_multiset(),
        ).count(x));
    }
    assert(m2.cards() =~= m.cards());
}

/// Undoing a move (moving the card back from the target to the source)
/// restores the board exactly.
pub proof fn lemma_move_undo(m: BoardModel, s: Position, t: Position)
    requires
        m.shape(),
        move_ok(m, s, t),
    ensures
        move_ok(m.move_applied(s, t), t, s),
        m.move_applied(s, t).move_applied(t, s) == m,
{
    let m2 = m.move_applied(s, t);
    if s == t {
        assert(m2 =~~= m);
        assert(m2.move_applied(t, s) =~~= m);
    } else {
        assert(m2.pile(t) == m.pile(t).push(m.pile(s).last()));
        assert(m2.pile(t).len() > 0);
        if s.kind == PileKind::Cell {
            assert(m.pile(s).len() <= 1);
        }
        let m3 = m2.move_applied(t, s);
        assert(m2.pile(t).drop_last() =~= m.pile(t));
        assert(m.pile(s).drop_last().push(m.pile(s).last()) =~= m.pile(s));
        assert(m3 =~~= m);
    }
}

// ------------------------------------------------------------------
// Unwinding a history of recorded moves
// ------------------------------------------------------------------

/// The last `n` entries of the history `h` can be undone in reverse order
/// from board `m`: each undo finds a card on its recorded target pile and
/// room on its recorded source pile.
pub open spec fn unwind_ok(m: BoardModel, h: Seq<RecordedMove>, n: nat) -> bool
    decreases n,
{
    n == 0 || {
        &&& h.len() > 0
        &&& move_ok(m, h.last().target, h.last().source)
        &&& unwind_ok(
            m.move_applied(h.last().target, h.last().source),
            h.drop_last(),
            (n - 1) as nat,
        )
    }
}

/// The board reached by undoing the last `n` recorded moves.
pub open spec fn unwind_board(m: BoardModel, h: Seq<RecordedMove>, n: nat) -> BoardModel
    decreases n,
{
    if n == 0 {
        m
    } else {
        unwind_board(m.move_applied(h.last().target, h.last().source), h.drop_last(), (n - 1) as nat)
    }
}

/// Making one move extends any undo plan by one step: after the move, undoing
/// `n + 1` entries lands on the same board that undoing `n` entries reached
/// before the move.
pub proof fn lemma_unwind_push(
    m: BoardModel,
    h: Seq<RecordedMove>,
    n: nat,
    s: Position,
    t: Position,
    e: u16,
)
    requires
        m.shape(),
        move_ok(m, s, t),
        unwind_ok(m, h, n),
    ensures
        unwind_ok(
            m.move_applied(s, t),
            h.push(RecordedMove { source: s, target: t, extent: e }),
            n + 1,
        ),
        unwind_board(
            m.move_applied(s, t),
            h.push(RecordedMove { source: s, target: t, extent: e }),
            n + 1,
        ) == unwind_board(m, h, n),
{
    let mv = RecordedMove { source: s, target: t, extent: e };
    let h2 = h.push(mv);
    lemma_move_undo(m, s, t);
    assert(h2.last() == mv);
    assert(h2.drop_last() =~= h);
}

/// Undoing preserves the layout and the multiset of cards.
pub proof fn lemma_unwind_preserves(m: BoardModel, h: Seq<RecordedMove>, n: nat)
    requires
        m.shape(),
        unwind_ok(m, h, n),
    ensures
        unwind_board(m, h, n).shape(),
        unwind_board(m, h, n).cards() == m.cards(),
    decreases n,
{
    if n > 0 {
        lemma_move_preserves(m, h.last().target, h.last().source);
        lemma_unwind_preserves(
            m.move_applied(h.last().target, h.last().source),
            h.drop_last(),
            (n - 1) as nat,
        );
    }
}

// ------------------------------------------------------------------
// Applying a planned sequence of moves
// ------------------------------------------------------------------

/// Each move in `mvs`, applied in order from `m`, finds its source pile
/// non-empty and its cell targets empty.
pub open spec fn all_applicable(m: BoardModel, mvs: Seq<RecordedMove>) -> bool
    decreases mvs.len(),
{
    mvs.len() == 0 || {
        &&& move_ok(m, mvs.first().source, mvs.first().target)
        &&& all_applicable(m.move_applied(mvs.first().source, mvs.first().target), mvs.drop_first())
    }
}

/// The board after applying every move of `mvs` in order.
pub open spec fn apply_all(m: BoardModel, mvs: Seq<RecordedMove>) -> BoardModel
    decreases mvs.len(),
{
    if mvs.len() == 0 {
        m
    } else {
        apply_all(m.move_applied(mvs.first().source, mvs.first().target), mvs.drop_first())
    }
}

/// Appending one more possible move to an applicable plan keeps it
/// applicable and applies the move to the plan's result.
pub proof fn lemma_apply_all_snoc(m: BoardModel, mvs: Seq<RecordedMove>, mv: RecordedMove)
    requires
        all_applicable(m, mvs),
        move_ok(apply_all(m, mvs), mv.source, mv.target),
    ensures
        all_applicable(m, mvs.push(mv)),
        apply_all(m, mvs.push(mv)) == apply_all(m, mvs).move_applied(mv.source, mv.target),
    decreases mvs.len(),
{
    let m1 = m.move_applied(mv.source, mv.target);
    if mvs.len() == 0 {
        assert(apply_all(m, mvs) == m);
        assert(mvs.push(mv).first() == mv);
        assert(mvs.push(mv).drop_first() =~= Seq::<RecordedMove>::empty());
        assert(all_applicable(m1, Seq::<RecordedMove>::empty()));
        assert(apply_all(m1, Seq::<RecordedMove>::empty()) == m1);
        assert(all_applicable(m, mvs.push(mv)));
        assert(apply_all(m, mvs.push(mv)) == m1);
    } else {
        let mnext = m.move_applied(mvs.first().source, mvs.first().target);
        assert(mvs.push(mv).first() == mvs.first());
        assert(mvs.push(mv).drop_first() =~= mvs.drop_first().push(mv));
        lemma_apply_all_snoc(mnext, mvs.drop_first(), mv);
        assert(all_applicable(mnext, mvs.push(mv).drop_first()));
        assert(all_applicable(m, mvs.push(mv)));
        assert(apply_all(m, mvs.push(mv)) == apply_all(mnext, mvs.push(mv).drop_first()));
    }
}

/// Two applicable plans run back to back form one applicable plan whose
/// result is the second plan applied to the first plan's result.
pub proof fn lemma_apply_all_concat(m: BoardModel, a: Seq<RecordedMove>, b: Seq<RecordedMove>)
    requires
        all_applicable(m, a),
        all_applicable(apply_all(m, a), b),
    ensures
        all_applicable(m, a + b),
        apply_all(m, a + b) == apply_all(apply_all(m, a), b),
    decreases a.len(),
{
    if a.len() == 0 {
        assert(a + b =~= b);
        assert(apply_all(m, a) == m);
    } else {
        assert((a + b).first() == a.first());
        assert((a + b).drop_first() =~= a.drop_first() + b);
        lemma_apply_all_concat(
            m.move_applied(a.first().source, a.first().target),
            a.drop_first(),
            b,
        );
    }
}

/// Any sequence of applicable moves, applied in order and then undone in
/// exact reverse order, restores the original board. The history may carry
/// any earlier prefix `h`; only the new entries are unwound.
pub proof fn lemma_moves_roundtrip(m: BoardModel, mvs: Seq<RecordedMove>, h: Seq<RecordedMove>)
    requires
        m.shape(),
        all_applicable(m, mvs),
    ensures
        unwind_ok(apply_all(m, mvs), h + mvs, mvs.len()),
        unwind_board(apply_all(m, mvs), h + mvs, mvs.len()) == m,
    decreases mvs.len(),
{
    if mvs.len() > 0 {
        let f = mvs.first();
        let m1 = m.move_applied(f.source, f.target);
        lemma_move_preserves(m, f.source, f.target);
        lemma_moves_roundtrip(m1, mvs.drop_first(), h.push(f));
        assert(h.push(f) + mvs.drop_first() =~= h + mvs);
        assert((h + mvs).take((h + mvs).len() - (mvs.len() - 1)) =~= h.push(f));
        lemma_unwind_snoc(apply_all(m, mvs), h + mvs, (mvs.len() - 1) as nat, m, f, h);
    }
}

/// Extending an unwind plan by one final step: if undoing `n` entries reaches
/// a board `mb` whose remaining history ends with a move that can itself be
/// undone, then `n + 1` entries can be undone.
proof fn lemma_unwind_snoc(
    m: BoardModel,
    h: Seq<RecordedMove>,
    n: nat,
    m0: BoardModel,
    f: RecordedMove,
    h0: Seq<RecordedMove>,
)
    requires
        unwind_ok(m, h, n),
        m0.shape(),
        move_ok(m0, f.source, f.target),
        unwind_board(m, h, n) == m0.move_applied(f.source, f.target),
        h.len() == n + h0.len() + 1,
        h.take(h.len() - n) == h0.push(f),
    ensures
        unwind_ok(m, h, n + 1),
        unwind_board(m, h, n + 1) == m0,
    decreases n,
{
    lemma_move_undo(m0, f.source, f.target);
    if n == 0 {
        assert(h.take(h.len() as int) =~= h);
        assert(h.last() == f);
        assert(move_ok(m, h.last().target, h.last().source));
        assert(m.move_applied(h.last().target, h.last().source) == m0);
        assert(unwind_ok(m.move_applied(h.last().target, h.last().source), h.drop_last(), 0nat));
        assert(unwind_ok(m, h, 1));
        assert(unwind_board(m, h, 1) == unwind_board(
            m.move_applied(h.last().target, h.last().source),
            h.drop_last(),
            0nat,
        ));
        assert(unwind_board(m, h, 1) == m0);
    } else {
        let m1 = m.move_applied(h.last().target, h.last().source);
        assert(h.drop_last().take(h.drop_last().len() - (n - 1)) =~= h.take(h.len() - n));
        lemma_unwind_snoc(m1, h.drop_last(), (n - 1) as nat, m0, f, h0);
    }
}

// ------------------------------------------------------------------
// Card conservation
// ------------------------------------------------------------------

/// The full deck has no repeated card.
proof fn lemma_full_deck_distinct()
    ensures
        full_deck().no_duplicates(),
        full_deck().to_multiset().len() == 52,
        forall|c: Card| full_deck().to_multiset().count(c) <= 1,
{
    broadcast use vstd::seq_lib::group_to_multiset_ensures;

    let d = full_deck();
    assert forall|i: int, j: int| 0 <= i < 52 && 0 <= j < 52 && i != j implies d[i] != d[j] by {
        if d[i] == d[j] {
            lemma_fundamental_div_mod(i, 13);
            lemma_fundamental_div_mod(j, 13);
            assert(i / 13 == j / 13);
            assert(i % 13 == j % 13);
        }
    }
    d.lemma_multiset_has_no_duplicates();
    assert forall|c: Card| d.to_multiset().count(c) <= 1 by {
        if d.to_multiset().count(c) > 0 {
            assert(d.to_multiset().contains(c));
        }
    }
}

/// Card conservation: a well-formed board holds exactly 52 cards in total
/// across all piles, and no card appears more than once.
pub proof fn lemma_card_conservation(m: BoardModel)
    requires
        m.wf(),
    ensures
        piles_len(m.goals) + piles_len(m.cells) + piles_len(m.stacks) == 52,
        forall|c: Card| m.cards().count(c) <= 1,
{
    lemma_full_deck_distinct();
    lemma_piles_cards_len(m.goals);
    lemma_piles_cards_len(m.cells);
    lemma_piles_cards_len(m.stacks);
    assert(m.cards().len() == piles_cards(m.goals).len() + piles_cards(m.cells).len()
        + piles_cards(m.stacks).len());
}

/// On a well-formed board every single pile holds at most 52 cards.
pub proof fn lemma_pile_len_bound(m: BoardModel, p: Position)
    requires
        m.wf(),
        p.valid(),
    ensures
        m.pile(p).len() <= 52,
{
    lemma_card_conservation(m);
    match p.kind {
        PileKind::Goal => {
            lemma_piles_len_bound(m.goals, p.index as int);
            lemma_piles_len_bound(m.cells, 0);
            lemma_piles_len_bound(m.stacks, 0);
        },
        PileKind::Cell => {
            lemma_piles_len_bound(m.cells, p.index as int);
            lemma_piles_len_bound(m.goals, 0);
            lemma_piles_len_bound(m.stacks, 0);
        },
        PileKind::Tableau => {
            lemma_piles_len_bound(m.stacks, p.index as int);
            lemma_piles_len_bound(m.goals, 0);
            lemma_piles_len_bound(m.cells, 0);
        },
    }
}

/// Bounds on the free-cell positions: each entry is a distinct empty cell,
/// and every empty cell among the first `n` is listed, in index order.
pub proof fn lemma_free_cells_rec(cells: Seq<Seq<Card>>, n: int)
    requires
        0 <= n <= cells.len(),
        n <= usize::MAX,
    ensures
        free_cells_rec(cells, n).len() <= n,
        forall|k: int|
            0 <= k < free_cells_rec(cells, n).len() ==> {
                let p = #[trigger] free_cells_rec(cells, n)[k];
                p.kind == PileKind::Cell && p.index < n && cells[p.index as int].len() == 0
            },
        forall|k1: int, k2: int|
            0 <= k1 < k2 < free_cells_rec(cells, n).len() ==> free_cells_rec(cells, n)[k1].index
                < free_cells_rec(cells, n)[k2].index,
    decreases n,
{
    if n > 0 {
        lemma_free_cells_rec(cells, n - 1);
        let prev = free_cells_rec(cells, n - 1);
        let cur = free_cells_rec(cells, n);
        let last = Position { kind: PileKind::Cell, index: (n - 1) as usize };
        assert(last.index == n - 1);
        if cells[n - 1].len() == 0 {
            assert(cur =~= prev.push(last));
        } else {
            assert(cur =~= prev);
        }
        assert forall|k: int| 0 <= k < cur.len() implies {
            let p = #[trigger] cur[k];
            p.kind == PileKind::Cell && p.index < n && cells[p.index as int].len() == 0
        } by {
            if k < prev.len() {
                assert(cur[k] == prev[k]);
            } else {
                assert(cur[k] == last);
            }
        }
        assert forall|k1: int, k2: int| 0 <= k1 < k2 < cur.len() implies cur[k1].index
            < cur[k2].index by {
            assert(cur[k1] == prev[k1]);
            if k2 < prev.len() {
                assert(cur[k2] == prev[k2]);
            } else {
                assert(cur[k2] == last);
            }
        }
    }
}

} // verus!
