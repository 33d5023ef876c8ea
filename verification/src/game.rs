//! One search session: the live board, the recorded move history that makes
//! exact undo possible, the visited-state set, and the depth-first
//! backtracking engine.

use vstd::prelude::*;

use crate::board::{deal_board, Board};
use crate::model::{
    all_applicable, apply_all, goal_wf, lemma_apply_all_concat, lemma_apply_all_snoc,
    lemma_move_preserves, lemma_move_undo, lemma_unwind_preserves, lemma_unwind_push, move_ok,
    unwind_board, unwind_ok, BoardModel, PileKind, Position, RecordedMove,
};
use crate::card::Card;
use crate::rules::{
    extent_spec, fully_ordered_spec, legal_spec, lemma_ordered_count, lemma_run_values,
    ordered_count,
};
use crate::sig::sig_key;
use crate::visited::{Verdict, VisitedSet, ABANDON_THRESHOLD};

verus! {

broadcast use {
    vstd::multiset::group_multiset_axioms,
    vstd::multiset::group_multiset_properties,
    vstd::seq_lib::group_to_multiset_ensures,
    vstd::set::group_set_axioms,
};

/// A candidate move the engine has decided to try: relocate a block of
/// `extent` cards (1 for a plain move) from `source` to `target`.
#[derive(Copy, Clone, PartialEq, Eq, Structural, Debug)]
pub struct LegalMove {
    pub source: Position,
    pub target: Position,
    pub extent: u16,
}

/// One game attempt: board, history, visited states and counters.
pub struct Game {
    pub board: Board,
    pub visited: VisitedSet,
    pub stack_size: u32,
    pub total_moves: u64,
    pub repeats_avoided: u64,
    pub moves: Vec<RecordedMove>,
}

/// A counter bumped by one, saturating at the type's maximum.
pub open spec fn bumped(x: u64) -> u64 {
    if x < u64::MAX {
        (x + 1) as u64
    } else {
        x
    }
}

impl Game {
    /// The abstract state of the session's board.
    pub open spec fn m(self) -> BoardModel {
        self.board.model()
    }

    /// A well-formed session: well-formed board, ascending goal piles,
    /// well-formed visited set.
    pub open spec fn wf(self) -> bool {
        self.m().wf() && goal_wf(self.m()) && self.visited.wf()
    }

    /// Start a clean session on a randomly dealt board; equal seeds deal
    /// equal boards.
    pub fn new(seed: u64) -> (g: Game)
        ensures
            g.wf(),
            g.m() == crate::board::deal_model(
                crate::board::shuffled(seed, crate::model::full_deck()),
            ),
            g.moves@.len() == 0,
            g.visited.keys() == Set::<u64>::empty(),
            !g.visited.is_abandoned(),
            g.stack_size == 0,
            g.total_moves == 0,
            g.repeats_avoided == 0,
            forall|i: int| 0 <= i < 4 ==> (#[trigger] g.m().goals[i]).len() == 0,
            g.m().cells[0].len() == 1,
            g.m().cells[1].len() == 1,
            g.m().cells[2].len() == 0,
            g.m().cells[3].len() == 0,
            forall|i: int| 0 <= i < 10 ==> (#[trigger] g.m().stacks[i]).len() == 5,
    {
        Game {
            board: deal_board(seed),
            visited: VisitedSet::new(),
            stack_size: 0,
            total_moves: 0,
            repeats_avoided: 0,
            moves: Vec::new(),
        }
    }

    /// Start a clean session on a given board whose goal piles respect the
    /// ascending-per-suit invariant.
    pub fn from_board(board: Board) -> (g: Game)
        requires
            board.model().wf(),
            goal_wf(board.model()),
        ensures
            g.wf(),
            g.m() == board.model(),
            g.moves@.len() == 0,
            g.visited.keys() == Set::<u64>::empty(),
            !g.visited.is_abandoned(),
            g.stack_size == 0,
            g.total_moves == 0,
            g.repeats_avoided == 0,
    {
        Game {
            board,
            visited: VisitedSet::new(),
            stack_size: 0,
            total_moves: 0,
            repeats_avoided: 0,
            moves: Vec::new(),
        }
    }

    /// Whether this session has hit the abandonment threshold.
    pub fn abandoned(&self) -> (r: bool)
        ensures
            r == self.visited.is_abandoned(),
    {
        self.visited.abandoned()
    }

    /// How many primitive card relocations have been made.
    pub fn total_moves(&self) -> (r: u64)
        ensures
            r == self.total_moves,
    {
        self.total_moves
    }

    /// How many times a repeated configuration was avoided.
    pub fn repeats_avoided(&self) -> (r: u64)
        ensures
            r == self.repeats_avoided,
    {
        self.repeats_avoided
    }

    /// How many distinct board states have been registered.
    pub fn visited_count(&self) -> (r: usize)
        ensures
            r == self.visited.keys().len(),
    {
        self.visited.len()
    }

    /// The recorded history of primitive moves.
    pub fn move_history(&self) -> (r: &Vec<RecordedMove>)
        ensures
            r@ == self.moves@,
    {
        &self.moves
    }

    /// Relocate the top card of `source` onto `target`, recording the move.
    pub fn move_card(&mut self, source: Position, target: Position, extent: u16)
        requires
            old(self).m().shape(),
            move_ok(old(self).m(), source, target),
        ensures
            final(self).m() == old(self).m().move_applied(source, target),
            final(self).m().shape(),
            final(self).m().cards() == old(self).m().cards(),
            final(self).moves@ == old(self).moves@.push(
                RecordedMove { source, target, extent },
            ),
            final(self).visited == old(self).visited,
            final(self).stack_size == old(self).stack_size,
            final(self).total_moves == bumped(old(self).total_moves),
            final(self).repeats_avoided == old(self).repeats_avoided,
    {
        proof {
            lemma_move_preserves(old(self).m(), source, target);
        }
        self.moves.push(RecordedMove { source, target, extent });
        let card = self.board.pop_card(source);
        self.board.push_card(card, target);
        self.total_moves = if self.total_moves < u64::MAX {
            self.total_moves + 1
        } else {
            self.total_moves
        };
        proof {
            assert(final(self).m() =~~= old(self).m().move_applied(source, target));
        }
    }

    /// Undo the most recently recorded move: move its card from the
    /// recorded target back to the recorded source. The caller must know
    /// that the history is non-empty and that the recorded move can be
    /// reversed on the current board.
    pub fn undo_last_move(&mut self)
        requires
            old(self).m().shape(),
            old(self).moves@.len() > 0,
            move_ok(
                old(self).m(),
                old(self).moves@.last().target,
                old(self).moves@.last().source,
            ),
        ensures
            final(self).m() == old(self).m().move_applied(
                old(self).moves@.last().target,
                old(self).moves@.last().source,
            ),
            final(self).m().shape(),
            final(self).moves@ == old(self).moves@.drop_last(),
            final(self).visited == old(self).visited,
            final(self).stack_size == old(self).stack_size,
            final(self).total_moves == old(self).total_moves,
            final(self).repeats_avoided == old(self).repeats_avoided,
    {
        proof {
            lemma_move_preserves(
                old(self).m(),
                old(self).moves@.last().target,
                old(self).moves@.last().source,
            );
        }
        let mv = self.moves.pop().unwrap();
        let card = self.board.pop_card(mv.target);
        self.board.push_card(card, mv.source);
        proof {
            assert(final(self).m() =~~= old(self).m().move_applied(
                old(self).moves@.last().target,
                old(self).moves@.last().source,
            ));
        }
    }

    /// Register the current board in the visited set; report `true` when
    /// the caller must backtrack (a repeated state, or an abandoned
    /// session), `false` when the state is novel and the search may go on.
    pub fn register_board(&mut self) -> (repeat: bool)
        requires
            old(self).wf(),
        ensures
            final(self).wf(),
            final(self).m() == old(self).m(),
            final(self).moves@ == old(self).moves@,
            final(self).stack_size == old(self).stack_size,
            final(self).total_moves == old(self).total_moves,
            !repeat <==> (!old(self).visited.is_abandoned() && !old(self).visited.keys().contains(
                sig_key(old(self).m()) as u64,
            ) && old(self).visited.keys().len() + 1 <= ABANDON_THRESHOLD),
            !repeat ==> final(self).visited.keys().len() == old(self).visited.keys().len() + 1
                && !final(self).visited.is_abandoned(),
            final(self).visited.keys().len() >= old(self).visited.keys().len(),
            old(self).visited.keys().subset_of(final(self).visited.keys()),
            // An abandoned session records nothing and always reports a
            // forced repeat.
            old(self).visited.is_abandoned() ==> repeat && final(self).visited == old(
                self,
            ).visited && final(self).repeats_avoided == old(self).repeats_avoided,
            // A state seen before: set and flag untouched, the repeat
            // counter grows by one.
            !old(self).visited.is_abandoned() && old(self).visited.keys().contains(
                sig_key(old(self).m()) as u64,
            ) ==> repeat && final(self).visited == old(self).visited
                && final(self).repeats_avoided == bumped(old(self).repeats_avoided),
            // A state never seen before: its key is recorded, the set grows
            // by exactly one, the repeat counter stays, and the session
            // abandons exactly when the threshold is crossed.
            !old(self).visited.is_abandoned() && !old(self).visited.keys().contains(
                sig_key(old(self).m()) as u64,
            ) ==> final(self).visited.keys() == old(self).visited.keys().insert(
                sig_key(old(self).m()) as u64,
            ) && final(self).visited.keys().contains(sig_key(old(self).m()) as u64)
                && final(self).repeats_avoided == old(self).repeats_avoided
                && (final(self).visited.is_abandoned() <==> old(self).visited.keys().len() + 1
                > ABANDON_THRESHOLD),
    {
        let key = self.board.board_signature();
        let verdict = self.visited.register(key);
        match verdict {
            Verdict::Repeat => {
                self.repeats_avoided = if self.repeats_avoided < u64::MAX {
                    self.repeats_avoided + 1
                } else {
                    self.repeats_avoided
                };
                true
            },
            Verdict::Abandon => true,
            Verdict::Novel => false,
        }
    }

    /// Relocate a block of `extent` cards from the top of the tableau pile
    /// at `source` onto the tableau pile at `target`, using empty free
    /// cells as temporary storage: the top `extent - 1` cards are parked
    /// one per cell, the exposed block-bottom card moves directly, and the
    /// parked cards return in reverse order. Every primitive relocation is
    /// recorded, `2 * (extent - 1) + 1` in all, and undoing exactly that
    /// many restores the board.
    #[verifier::rlimit(100)]
    pub fn move_extent(&mut self, source: Position, target: Position, extent: u16)
        requires
            old(self).m().shape(),
            source.kind == PileKind::Tableau,
            target.kind == PileKind::Tableau,
            source.valid(),
            target.valid(),
            source != target,
            1 <= extent,
            extent as int <= old(self).m().pile(source).len(),
            old(self).m().free_cells() >= extent - 1,
        ensures
            final(self).m().shape(),
            final(self).m().cards() == old(self).m().cards(),
            final(self).m().pile(source) == old(self).m().pile(source).take(
                old(self).m().pile(source).len() - extent,
            ),
            final(self).m().pile(target) == old(self).m().pile(target) + old(self).m().pile(
                source,
            ).skip(old(self).m().pile(source).len() - extent),
            forall|q: Position|
                q.valid() && q != source && q != target ==> final(self).m().pile(q) == old(
                    self,
                ).m().pile(q),
            final(self).moves@.len() == old(self).moves@.len() + 2 * (extent - 1) + 1,
            final(self).moves@.take(old(self).moves@.len() as int) == old(self).moves@,
            final(self).moves@ == old(self).moves@ + extent_protocol_moves(
                old(self).m(),
                source,
                target,
                extent,
            ),
            unwind_ok(final(self).m(), final(self).moves@, (2 * (extent - 1) + 1) as nat),
            unwind_board(final(self).m(), final(self).moves@, (2 * (extent - 1) + 1) as nat)
                == old(self).m(),
            all_applicable(
                old(self).m(),
                final(self).moves@.skip(old(self).moves@.len() as int),
            ),
            apply_all(old(self).m(), final(self).moves@.skip(old(self).moves@.len() as int))
                == final(self).m(),
            final(self).visited == old(self).visited,
            final(self).stack_size == old(self).stack_size,
            old(self).total_moves + 2 * (extent - 1) + 1 <= u64::MAX ==> final(self).total_moves
                == old(self).total_moves + 2 * (extent - 1) + 1,
            final(self).total_moves >= old(self).total_moves,
            final(self).repeats_avoided == old(self).repeats_avoided,
    {
        let ghost m0 = self.m();
        let ghost h0 = self.moves@;
        let ghost len0 = m0.pile(source).len() as int;
        let ghost pm = extent_protocol_moves(m0, source, target, extent);
        let free = self.board.find_free_cells();
        proof {
            crate::model::lemma_free_cells_rec(m0.cells, 4);
        }
        let park = extent as usize - 1;
        proof {
            assert(self.moves@.skip(h0.len() as int) =~= Seq::<RecordedMove>::empty());
            assert(all_applicable(m0, Seq::<RecordedMove>::empty()));
            assert(apply_all(m0, Seq::<RecordedMove>::empty()) == m0);
        }

        // Park the top extent - 1 cards, one per free cell.
        let mut i: usize = 0;
        while i < park
            invariant
                self.m().shape(),
                source.kind == PileKind::Tableau && source.valid(),
                target.kind == PileKind::Tableau && target.valid(),
                source != target,
                i <= park,
                park == extent - 1,
                1 <= extent as int <= len0,
                len0 == m0.pile(source).len(),
                free@ == m0.free_cell_seq(),
                free@.len() >= park,
                forall|k: int|
                    0 <= k < free@.len() ==> (#[trigger] free@[k]).kind == PileKind::Cell
                        && free@[k].valid() && m0.pile(free@[k]).len() == 0,
                forall|k1: int, k2: int|
                    0 <= k1 < k2 < free@.len() ==> free@[k1].index < free@[k2].index,
                self.m().pile(source) == m0.pile(source).take(len0 - i),
                forall|j: int|
                    0 <= j < i ==> self.m().pile(#[trigger] free@[j]) == seq![
                        m0.pile(source)[len0 - 1 - j],
                    ],
                forall|j: int| i <= j < free@.len() ==> self.m().pile(#[trigger] free@[j]).len() == 0,
                forall|q: Position|
                    q.valid() && q != source && (forall|j: int| 0 <= j < i ==> q != free@[j])
                        ==> self.m().pile(q) == m0.pile(q),
                self.moves@.len() == h0.len() + i,
                self.moves@.take(h0.len() as int) == h0,
                pm == extent_protocol_moves(m0, source, target, extent),
                self.moves@ == h0 + pm.take(i as int),
                unwind_ok(self.m(), self.moves@, i as nat),
                unwind_board(self.m(), self.moves@, i as nat) == m0,
                all_applicable(m0, self.moves@.skip(h0.len() as int)),
                apply_all(m0, self.moves@.skip(h0.len() as int)) == self.m(),
                self.visited == old(self).visited,
                self.stack_size == old(self).stack_size,
                old(self).total_moves + i <= u64::MAX ==> self.total_moves == old(
                    self,
                ).total_moves + i,
                self.total_moves >= old(self).total_moves,
                self.repeats_avoided == old(self).repeats_avoided,
            decreases park - i,
        {
            let ghost mpre = self.m();
            let ghost hpre = self.moves@;
            let cell = free[i];
            assert(move_ok(mpre, source, cell)) by {
                assert(mpre.pile(source).len() == len0 - i);
            }
            self.move_card(source, cell, extent);
            proof {
                lemma_unwind_push(mpre, hpre, i as nat, source, cell, extent);
                assert(self.m().pile(source) =~= m0.pile(source).take(len0 - (i + 1)));
                assert(mpre.pile(source).last() == m0.pile(source)[len0 - 1 - i]);
                assert(self.m().pile(cell) =~= Seq::<crate::card::Card>::empty().push(
                    m0.pile(source)[len0 - 1 - i],
                ));
                assert(self.m().pile(cell) =~= seq![m0.pile(source)[len0 - 1 - i]]);
                assert(self.moves@.take(h0.len() as int) =~= h0);
                lemma_apply_all_snoc(
                    m0,
                    hpre.skip(h0.len() as int),
                    RecordedMove { source, target: cell, extent },
                );
                assert(self.moves@.skip(h0.len() as int) =~= hpre.skip(h0.len() as int).push(
                    RecordedMove { source, target: cell, extent },
                ));
                assert(pm[i as int] == RecordedMove { source, target: cell, extent });
                assert(self.moves@ =~= h0 + pm.take(i + 1));
            }
            i = i + 1;
        }

        // Move the exposed block-bottom card directly onto the target.
        let ghost mpark = self.m();
        let ghost hpark = self.moves@;
        assert(move_ok(mpark, source, target)) by {
            assert(mpark.pile(source).len() == len0 - park);
        }
        self.move_card(source, target, extent);
        proof {
            lemma_unwind_push(mpark, hpark, park as nat, source, target, extent);
            assert(self.m().pile(source) =~= m0.pile(source).take(len0 - extent));
            assert(mpark.pile(source).last() == m0.pile(source)[len0 - extent]);
            assert(self.m().pile(target) =~= m0.pile(target) + m0.pile(source).subrange(
                len0 - extent,
                len0 - extent + 1,
            ));
            assert(self.moves@.take(h0.len() as int) =~= h0);
            lemma_apply_all_snoc(
                m0,
                hpark.skip(h0.len() as int),
                RecordedMove { source, target, extent },
            );
            assert(self.moves@.skip(h0.len() as int) =~= hpark.skip(h0.len() as int).push(
                RecordedMove { source, target, extent },
            ));
            assert(pm[park as int] == RecordedMove { source, target, extent });
            assert(self.moves@ =~= h0 + pm.take(park + 1));
        }

        // Return the parked cards, in reverse parking order.
        let mut i2: usize = park;
        while i2 > 0
            invariant
                self.m().shape(),
                source.kind == PileKind::Tableau && source.valid(),
                target.kind == PileKind::Tableau && target.valid(),
                source != target,
                i2 <= park,
                park == extent - 1,
                1 <= extent as int <= len0,
                len0 == m0.pile(source).len(),
                free@ == m0.free_cell_seq(),
                free@.len() >= park,
                forall|k: int|
                    0 <= k < free@.len() ==> (#[trigger] free@[k]).kind == PileKind::Cell
                        && free@[k].valid() && m0.pile(free@[k]).len() == 0,
                forall|k1: int, k2: int|
                    0 <= k1 < k2 < free@.len() ==> free@[k1].index < free@[k2].index,
                self.m().pile(source) == m0.pile(source).take(len0 - extent),
                self.m().pile(target) == m0.pile(target) + m0.pile(source).subrange(
                    len0 - extent,
                    len0 - extent + 1 + (park - i2),
                ),
                forall|j: int|
                    0 <= j < i2 ==> self.m().pile(#[trigger] free@[j]) == seq![
                        m0.pile(source)[len0 - 1 - j],
                    ],
                forall|j: int| i2 <= j < free@.len() ==> self.m().pile(#[trigger] free@[j]).len() == 0,
                forall|q: Position|
                    q.valid() && q != source && q != target && (forall|j: int|
                        0 <= j < i2 ==> q != free@[j]) ==> self.m().pile(q) == m0.pile(q),
                self.moves@.len() == h0.len() + park + 1 + (park - i2),
                self.moves@.take(h0.len() as int) == h0,
                pm == extent_protocol_moves(m0, source, target, extent),
                self.moves@ == h0 + pm.take(park + 1 + (park - i2)),
                unwind_ok(self.m(), self.moves@, (park + 1 + (park - i2)) as nat),
                unwind_board(self.m(), self.moves@, (park + 1 + (park - i2)) as nat) == m0,
                all_applicable(m0, self.moves@.skip(h0.len() as int)),
                apply_all(m0, self.moves@.skip(h0.len() as int)) == self.m(),
                self.visited == old(self).visited,
                self.stack_size == old(self).stack_size,
                old(self).total_moves + park + 1 + (park - i2) <= u64::MAX ==> self.total_moves
                    == old(self).total_moves + park + 1 + (park - i2),
                self.total_moves >= old(self).total_moves,
                self.repeats_avoided == old(self).repeats_avoided,
            decreases i2,
        {
            let ghost mpre = self.m();
            let ghost hpre = self.moves@;
            let idx = i2 - 1;
            let cell = free[idx];
            assert(move_ok(mpre, cell, target)) by {
                assert(mpre.pile(cell) == seq![m0.pile(source)[len0 - 1 - idx]]);
            }
            self.move_card(cell, target, extent);
            proof {
                lemma_unwind_push(mpre, hpre, (park + 1 + (park - i2)) as nat, cell, target, extent);
                assert(mpre.pile(cell).last() == m0.pile(source)[len0 - i2]);
                assert(self.m().pile(target) =~= m0.pile(target) + m0.pile(source).subrange(
                    len0 - extent,
                    len0 - extent + 1 + (park - idx),
                ));
                assert(self.m().pile(cell) =~= Seq::<crate::card::Card>::empty());
                assert(self.moves@.take(h0.len() as int) =~= h0);
                lemma_apply_all_snoc(
                    m0,
                    hpre.skip(h0.len() as int),
                    RecordedMove { source: cell, target, extent },
                );
                assert(self.moves@.skip(h0.len() as int) =~= hpre.skip(h0.len() as int).push(
                    RecordedMove { source: cell, target, extent },
                ));
                assert(pm[park + 1 + (park - i2)] == RecordedMove { source: cell, target, extent });
                assert(self.moves@ =~= h0 + pm.take(park + 1 + (park - i2) + 1));
            }
            i2 = idx;
        }
        proof {
            assert(self.m().pile(target) =~= m0.pile(target) + m0.pile(source).skip(
                len0 - extent,
            ));
            assert forall|q: Position|
                q.valid() && q != source && q != target implies self.m().pile(q) == m0.pile(
                q,
            ) by {
                if exists|j: int| 0 <= j < free@.len() && q == free@[j] {
                    let j = choose|j: int| 0 <= j < free@.len() && q == free@[j];
                    assert(self.m().pile(free@[j]).len() == 0);
                    assert(m0.pile(free@[j]).len() == 0);
                    assert(self.m().pile(q) =~= m0.pile(q));
                }
            }
            lemma_unwind_preserves(self.m(), self.moves@, (2 * (extent - 1) + 1) as nat);
            assert(pm.take(2 * (extent - 1) + 1) =~= pm);
            assert(self.moves@ =~= h0 + pm);
        }
    }
}

// ------------------------------------------------------------------
// Choosing the one move worth trying from each source pile
// ------------------------------------------------------------------

/// The first goal pile, from index `i` on, that accepts the card.
pub open spec fn goal_scan(m: BoardModel, c: Card, src: Position, i: int) -> Option<LegalMove>
    decreases 4 - i,
{
    if i < 0 || i >= 4 {
        None
    } else {
        let t = Position { kind: PileKind::Goal, index: i as usize };
        if legal_spec(m, c, t, 1) {
            Some(LegalMove { source: src, target: t, extent: 1 })
        } else {
            goal_scan(m, c, src, i + 1)
        }
    }
}

/// The first tableau pile, from index `i` on, that accepts the card.
pub open spec fn tableau_scan(m: BoardModel, c: Card, src: Position, e: u16, i: int) -> Option<
    LegalMove,
>
    decreases 10 - i,
{
    if i < 0 || i >= 10 {
        None
    } else {
        let t = Position { kind: PileKind::Tableau, index: i as usize };
        if legal_spec(m, c, t, e as int) {
            Some(LegalMove { source: src, target: t, extent: e })
        } else {
            tableau_scan(m, c, src, e, i + 1)
        }
    }
}

/// The last resort: the first empty free cell, for single cards only.
pub open spec fn cell_fallback(m: BoardModel, src: Position, e: u16) -> Option<LegalMove> {
    if m.free_cell_seq().len() > 0 && e <= 1 {
        Some(LegalMove { source: src, target: m.free_cell_seq()[0], extent: 1 })
    } else {
        None
    }
}

/// The one canonical candidate move from a source pile, in strict priority
/// order: a goal if any accepts; nothing from a fully ordered tableau pile;
/// otherwise the movable block (or top card) to the first accepting tableau
/// pile; a card from a cell never moves to another cell; finally a single
/// card to the first empty free cell.
pub open spec fn find_legal_move_spec(m: BoardModel, src: Position) -> Option<LegalMove> {
    if m.pile(src).len() == 0 {
        None
    } else {
        let top = m.pile(src).last();
        if goal_scan(m, top, src, 0) is Some {
            goal_scan(m, top, src, 0)
        } else if src.kind == PileKind::Tableau && fully_ordered_spec(m, m.pile(src)) {
            None
        } else if src.kind == PileKind::Tableau {
            let e = extent_spec(m, m.pile(src));
            if e == 0 {
                None
            } else {
                let c = m.pile(src)[m.pile(src).len() - e];
                if tableau_scan(m, c, src, e as u16, 0) is Some {
                    tableau_scan(m, c, src, e as u16, 0)
                } else {
                    cell_fallback(m, src, e as u16)
                }
            }
        } else {
            if tableau_scan(m, top, src, 0, 0) is Some {
                tableau_scan(m, top, src, 0, 0)
            } else if src.kind == PileKind::Cell {
                None
            } else {
                cell_fallback(m, src, 0)
            }
        }
    }
}

/// The source pile the engine consults at enumeration step `i`:
/// the 4 cells first, then the 10 tableau piles, in index order.
pub open spec fn source_of(i: int) -> Position {
    if i > 3 {
        Position { kind: PileKind::Tableau, index: (i - 4) as usize }
    } else {
        Position { kind: PileKind::Cell, index: i as usize }
    }
}

/// The board after committing a candidate: a single card moved, or the
/// whole block of `extent` cards transferred in order, cells as before.
pub open spec fn apply_candidate(m: BoardModel, lm: LegalMove) -> BoardModel {
    if lm.extent <= 1 {
        m.move_applied(lm.source, lm.target)
    } else {
        let ps = m.pile(lm.source);
        let e = lm.extent as int;
        let m1 = m.with_pile(lm.source, ps.take(ps.len() - e));
        m1.with_pile(lm.target, m.pile(lm.target) + ps.skip(ps.len() - e))
    }
}

/// The primitive relocations of the extent protocol, in order: park the
/// top `extent - 1` cards one per empty cell, move the exposed block
/// bottom to the target, return the parked cards in reverse order.
pub open spec fn extent_protocol_moves(
    m: BoardModel,
    source: Position,
    target: Position,
    extent: u16,
) -> Seq<RecordedMove> {
    let e = extent as int;
    let free = m.free_cell_seq();
    Seq::new(
        (2 * (e - 1) + 1) as nat,
        |k: int|
            if k < e - 1 {
                RecordedMove { source, target: free[k], extent }
            } else if k == e - 1 {
                RecordedMove { source, target, extent }
            } else {
                RecordedMove { source: free[2 * (e - 1) - k], target, extent }
            },
    )
}

/// The primitive relocations that committing a candidate records: one
/// direct move, or the extent protocol's `2 * (extent - 1) + 1` moves.
pub open spec fn candidate_moves(m: BoardModel, lm: LegalMove) -> Seq<RecordedMove> {
    if lm.extent <= 1 {
        seq![RecordedMove { source: lm.source, target: lm.target, extent: lm.extent }]
    } else {
        extent_protocol_moves(m, lm.source, lm.target, lm.extent)
    }
}

/// Everything the engine needs to know before committing to a candidate
/// move on board `m`; a goal-bound candidate is a legal goal move, which
/// keeps the goal piles ascending.
pub open spec fn valid_candidate(m: BoardModel, lm: LegalMove) -> bool {
    &&& lm.source.valid()
    &&& lm.target.valid()
    &&& m.pile(lm.source).len() > 0
    &&& move_ok(m, lm.source, lm.target)
    &&& (lm.extent > 1 ==> lm.source.kind == PileKind::Tableau && lm.target.kind
        == PileKind::Tableau && lm.source != lm.target && lm.extent as int <= m.pile(
        lm.source,
    ).len() && m.free_cells() >= lm.extent - 1)
    &&& (lm.target.kind == PileKind::Goal ==> legal_spec(
        m,
        m.pile(lm.source).last(),
        lm.target,
        lm.extent as int,
    ))
}

proof fn lemma_goal_scan_sound(m: BoardModel, c: Card, src: Position, i: int, lm: LegalMove)
    requires
        goal_scan(m, c, src, i) == Some(lm),
    ensures
        lm.source == src,
        lm.target.kind == PileKind::Goal,
        lm.target.valid(),
        lm.extent == 1,
        legal_spec(m, c, lm.target, 1),
    decreases 4 - i,
{
    let t = Position { kind: PileKind::Goal, index: i as usize };
    if !(i < 0 || i >= 4) && !legal_spec(m, c, t, 1) {
        lemma_goal_scan_sound(m, c, src, i + 1, lm);
    }
}

proof fn lemma_tableau_scan_sound(
    m: BoardModel,
    c: Card,
    src: Position,
    e: u16,
    i: int,
    lm: LegalMove,
)
    requires
        tableau_scan(m, c, src, e, i) == Some(lm),
    ensures
        lm.source == src,
        lm.target.kind == PileKind::Tableau,
        lm.target.valid(),
        lm.extent == e,
        legal_spec(m, c, lm.target, e as int),
    decreases 10 - i,
{
    let t = Position { kind: PileKind::Tableau, index: i as usize };
    if !(i < 0 || i >= 10) && !legal_spec(m, c, t, e as int) {
        lemma_tableau_scan_sound(m, c, src, e, i + 1, lm);
    }
}

/// Whatever `find_legal_move_spec` proposes can actually be committed,
/// and names the scanned pile as its source.
pub proof fn lemma_flm_sound(m: BoardModel, src: Position, lm: LegalMove)
    requires
        m.shape(),
        src.valid(),
        find_legal_move_spec(m, src) == Some(lm),
    ensures
        valid_candidate(m, lm),
        lm.source == src,
{
    crate::model::lemma_free_cells_rec(m.cells, 4);
    let p = m.pile(src);
    let top = p.last();
    if goal_scan(m, top, src, 0) is Some {
        lemma_goal_scan_sound(m, top, src, 0, lm);
    } else if src.kind == PileKind::Tableau && fully_ordered_spec(m, p) {
    } else if src.kind == PileKind::Tableau {
        let e = extent_spec(m, p);
        if e != 0 {
            lemma_ordered_count(p);
            assert(1 <= e <= p.len());
            assert(e <= m.free_cells() + 1);
            let c = p[p.len() - e];
            if tableau_scan(m, c, src, e as u16, 0) is Some {
                lemma_tableau_scan_sound(m, c, src, e as u16, 0, lm);
                if lm.target == src {
                    // The target's top would have to be one above the
                    // block's bottom card, which the run makes impossible.
                    assert(crate::rules::is_run(p, ordered_count(p) as int));
                    assert(crate::rules::is_run(p, e)) by {
                        assert(forall|j: int|
                            p.len() - e <= j < p.len() - 1 ==> crate::rules::link(p, j));
                    }
                    lemma_run_values(p, e);
                    assert(p[p.len() - e].value == p[p.len() - 1].value + (e - 1));
                    assert(false);
                }
            }
        }
    } else {
        if tableau_scan(m, top, src, 0, 0) is Some {
            lemma_tableau_scan_sound(m, top, src, 0, 0, lm);
        }
    }
}

/// The candidate moves of one search step, from enumeration step `i` on:
/// each source pile's canonical candidate, consulting the 4 cells then the
/// 10 tableau piles in index order, skipping sources that offer nothing.
pub open spec fn candidate_list(m: BoardModel, i: int) -> Seq<LegalMove>
    decreases 14 - i,
{
    if i < 0 || i >= 14 {
        Seq::empty()
    } else {
        match find_legal_move_spec(m, source_of(i)) {
            Some(lm) => seq![lm] + candidate_list(m, i + 1),
            None => candidate_list(m, i + 1),
        }
    }
}

/// Every entry of the candidate list can be committed, carries its source's
/// enumeration rank (so the ranks strictly increase), and every source that
/// offers a candidate is represented.
proof fn lemma_candidate_list_sound(m: BoardModel, i: int)
    requires
        m.shape(),
        0 <= i,
    ensures
        forall|k: int|
            0 <= k < candidate_list(m, i).len() ==> valid_candidate(
                m,
                #[trigger] candidate_list(m, i)[k],
            ),
        forall|k: int|
            0 <= k < candidate_list(m, i).len() ==> i <= source_rank(
                #[trigger] candidate_list(m, i)[k],
            ) < 14,
        forall|k1: int, k2: int|
            0 <= k1 < k2 < candidate_list(m, i).len() ==> source_rank(candidate_list(m, i)[k1])
                < source_rank(candidate_list(m, i)[k2]),
        forall|j: int|
            i <= j < 14 && (#[trigger] find_legal_move_spec(m, source_of(j))) is Some
                ==> candidate_list(m, i).contains(find_legal_move_spec(m, source_of(j)).unwrap()),
    decreases 14 - i,
{
    if 0 <= i < 14 {
        lemma_candidate_list_sound(m, i + 1);
        let rest = candidate_list(m, i + 1);
        let cur = candidate_list(m, i);
        match find_legal_move_spec(m, source_of(i)) {
            Some(lm) => {
                lemma_flm_sound(m, source_of(i), lm);
                assert(source_rank(lm) == i);
                assert(cur =~= seq![lm] + rest);
                assert(cur[0] == lm);
                assert(forall|k: int| 1 <= k < cur.len() ==> #[trigger] cur[k] == rest[k - 1]);
                assert forall|j: int|
                    i <= j < 14 && (#[trigger] find_legal_move_spec(m, source_of(j))) is Some
                        implies cur.contains(
                    find_legal_move_spec(m, source_of(j)).unwrap(),
                ) by {
                    let w = find_legal_move_spec(m, source_of(j)).unwrap();
                    if j == i {
                        assert(cur[0] == w);
                    } else {
                        assert(rest.contains(w));
                        let k = choose|k: int| 0 <= k < rest.len() && rest[k] == w;
                        assert(cur[k + 1] == w);
                    }
                }
            },
            None => {
                assert(cur == rest);
            },
        }
    }
}

impl Game {
    /// Collect each source pile's canonical candidate move for this step:
    /// the 4 cells first, then the 10 tableau piles, in index order.
    pub fn collect_candidates(&self) -> (r: Vec<LegalMove>)
        requires
            self.m().shape(),
        ensures
            r@ == candidate_list(self.m(), 0),
    {
        let ghost m = self.m();
        let mut all_moves: Vec<LegalMove> = Vec::new();
        let mut idx: usize = 0;
        while idx < 14
            invariant
                self.m() == m,
                m.shape(),
                idx <= 14,
                all_moves@ + candidate_list(m, idx as int) == candidate_list(m, 0),
            decreases 14 - idx,
        {
            let source = if idx > 3 {
                Position { kind: PileKind::Tableau, index: idx - 4 }
            } else {
                Position { kind: PileKind::Cell, index: idx }
            };
            proof {
                assert(source_of(idx as int) == source);
            }
            match self.find_legal_move(source) {
                Some(lm) => {
                    proof {
                        assert(candidate_list(m, idx as int) =~= seq![lm] + candidate_list(
                            m,
                            idx + 1,
                        ));
                        assert(all_moves@.push(lm) + candidate_list(m, idx + 1) =~= all_moves@
                            + candidate_list(m, idx as int));
                    }
                    all_moves.push(lm);
                },
                None => {},
            }
            idx = idx + 1;
        }
        proof {
            assert(candidate_list(m, 14) =~= Seq::<LegalMove>::empty());
            assert(all_moves@ =~= candidate_list(m, 0));
        }
        all_moves
    }
}

/// The priority of a move's target kind: goals first, then tableau piles,
/// free cells last.
pub open spec fn prio(lm: LegalMove) -> int {
    match lm.target.kind {
        PileKind::Goal => 0,
        PileKind::Tableau => 1,
        PileKind::Cell => 2,
    }
}

/// The enumeration rank of a move's source: the 4 cells come before the 10
/// tableau piles, each group in index order.
pub open spec fn source_rank(lm: LegalMove) -> int {
    match lm.source.kind {
        PileKind::Cell => lm.source.index as int,
        PileKind::Tableau => 4 + lm.source.index,
        PileKind::Goal => 14 + lm.source.index,
    }
}

/// Stable sort of candidate moves by target-kind priority: within equal
/// priority the original source order (strictly increasing ranks) is kept.
fn sort_moves(input: Vec<LegalMove>) -> (out: Vec<LegalMove>)
    requires
        forall|i: int, j: int|
            0 <= i < j < input@.len() ==> source_rank(input@[i]) < source_rank(input@[j]),
    ensures
        out@.to_multiset() == input@.to_multiset(),
        forall|i: int, j: int| 0 <= i < j < out@.len() ==> prio(out@[i]) <= prio(out@[j]),
        forall|i: int, j: int|
            0 <= i < j < out@.len() && prio(out@[i]) == prio(out@[j]) ==> source_rank(out@[i])
                < source_rank(out@[j]),
{
    let mut rest = input;
    let mut out: Vec<LegalMove> = Vec::new();
    while rest.len() > 0
        invariant
            forall|i: int, j: int| 0 <= i < j < out@.len() ==> prio(out@[i]) <= prio(out@[j]),
            forall|i: int, j: int|
                0 <= i < j < out@.len() && prio(out@[i]) == prio(out@[j]) ==> source_rank(
                    out@[i],
                ) < source_rank(out@[j]),
            forall|i: int, j: int|
                0 <= i < j < rest@.len() ==> source_rank(rest@[i]) < source_rank(rest@[j]),
            out@.to_multiset().add(rest@.to_multiset()) == input@.to_multiset(),
            forall|i: int, j: int|
                0 <= i < out@.len() && 0 <= j < rest@.len() ==> prio(out@[i]) <= prio(rest@[j]),
            forall|i: int, j: int|
                0 <= i < out@.len() && 0 <= j < rest@.len() && prio(out@[i]) == prio(rest@[j])
                    ==> source_rank(out@[i]) < source_rank(rest@[j]),
        decreases rest@.len(),
    {
        let mut min: usize = 0;
        let mut k: usize = 1;
        while k < rest.len()
            invariant
                min < k,
                k <= rest@.len(),
                min < rest@.len(),
                forall|j: int| 0 <= j < k ==> prio(rest@[min as int]) <= prio(rest@[j]),
                forall|j: int|
                    0 <= j < k && prio(rest@[min as int]) == prio(rest@[j]) ==> min <= j,
            decreases rest@.len() - k,
        {
            let pk = move_prio(&rest[k]);
            let pm = move_prio(&rest[min]);
            if pk < pm {
                min = k;
            }
            k = k + 1;
        }
        let ghost old_rest = rest@;
        let ghost old_out = out@;
        let mv = rest.remove(min);
        out.push(mv);
        proof {
            assert(old_rest.remove(min as int).to_multiset() == old_rest.to_multiset().remove(
                old_rest[min as int],
            ));
            assert forall|x: LegalMove|
                out@.to_multiset().add(rest@.to_multiset()).count(x) == input@.to_multiset().count(
                    x,
                ) by {
                assert(old_out.to_multiset().add(old_rest.to_multiset()).count(x)
                    == input@.to_multiset().count(x));
            }
            assert(out@.to_multiset().add(rest@.to_multiset()) =~= input@.to_multiset());
            assert forall|i: int, j: int|
                0 <= i < out@.len() && 0 <= j < rest@.len() implies prio(out@[i]) <= prio(
                rest@[j],
            ) && (prio(out@[i]) == prio(rest@[j]) ==> source_rank(out@[i]) < source_rank(
                rest@[j],
            )) by {
                let oj: int = if j < min { j } else { j + 1 };
                assert(rest@[j] == old_rest[oj]);
                if i < old_out.len() {
                    assert(out@[i] == old_out[i]);
                } else {
                    assert(out@[i] == old_rest[min as int]);
                    assert(prio(old_rest[min as int]) <= prio(old_rest[oj]));
                    if prio(old_rest[min as int]) == prio(old_rest[oj]) {
                        assert(min < oj);
                    }
                }
            }
            assert forall|i: int, j: int|
                0 <= i < j < rest@.len() implies source_rank(rest@[i]) < source_rank(
                rest@[j],
            ) by {
                let oi: int = if i < min { i } else { i + 1 };
                let oj: int = if j < min { j } else { j + 1 };
                assert(rest@[i] == old_rest[oi]);
                assert(rest@[j] == old_rest[oj]);
            }
        }
    }
    out
}

/// The target-kind priority of a candidate move.
fn move_prio(lm: &LegalMove) -> (r: u8)
    ensures
        r as int == prio(*lm),
{
    match lm.target.kind {
        PileKind::Goal => 0,
        PileKind::Tableau => 1,
        PileKind::Cell => 2,
    }
}

impl Game {
    /// The one candidate move worth trying from the given source pile, or
    /// `None` if that pile offers nothing this step.
    pub fn find_legal_move(&self, source: Position) -> (r: Option<LegalMove>)
        requires
            self.m().shape(),
            source.valid(),
        ensures
            r == find_legal_move_spec(self.m(), source),
    {
        let ghost m = self.m();
        let pile = self.board.resolve_position(source);
        if pile.len() == 0 {
            return None;
        }
        let top = pile[pile.len() - 1];

        // First choice: a goal pile that accepts the top card.
        let mut gi: usize = 0;
        while gi < 4
            invariant
                self.m() == m,
                m.shape(),
                source.valid(),
                gi <= 4,
                m.pile(source).len() > 0,
                top == m.pile(source).last(),
                goal_scan(m, top, source, 0) == goal_scan(m, top, source, gi as int),
            decreases 4 - gi,
        {
            let t = Position { kind: PileKind::Goal, index: gi };
            if self.board.is_legal_move(&top, t, 1) {
                return Some(LegalMove { source, target: t, extent: 1 });
            }
            gi = gi + 1;
        }
        proof {
            assert(goal_scan(m, top, source, 0) is None);
        }

        // A fully ordered tableau pile has nothing further to offer.
        let is_tableau = match source.kind {
            PileKind::Tableau => true,
            _ => false,
        };
        if is_tableau && crate::rules::is_fully_ordered(&self.board, pile) {
            return None;
        }

        // For a tableau source the candidate is the movable block's bottom
        // card; for a cell the top card with extent 0.
        let mut extent: u16 = 0;
        let mut card = top;
        if is_tableau {
            let e = crate::rules::find_extent(&self.board, pile);
            proof {
                crate::model::lemma_free_cells_rec(m.cells, 4);
            }
            if e == 0 {
                return None;
            }
            extent = e as u16;
            card = pile[pile.len() - e];
        }

        // Second choice: a tableau pile that accepts the candidate.
        let mut ti: usize = 0;
        while ti < 10
            invariant
                self.m() == m,
                m.shape(),
                source.valid(),
                ti <= 10,
                m.pile(source).len() > 0,
                top == m.pile(source).last(),
                goal_scan(m, top, source, 0) is None,
                is_tableau == (source.kind == PileKind::Tableau),
                !(source.kind == PileKind::Tableau && fully_ordered_spec(m, m.pile(source))),
                is_tableau ==> extent_spec(m, m.pile(source)) != 0 && extent as int
                    == extent_spec(m, m.pile(source)) && extent == extent_spec(
                    m,
                    m.pile(source),
                ) as u16 && card == m.pile(source)[m.pile(source).len() - extent_spec(
                    m,
                    m.pile(source),
                )],
                !is_tableau ==> extent == 0 && card == top,
                tableau_scan(m, card, source, extent, 0) == tableau_scan(
                    m,
                    card,
                    source,
                    extent,
                    ti as int,
                ),
            decreases 10 - ti,
        {
            let t = Position { kind: PileKind::Tableau, index: ti };
            if self.board.is_legal_move(&card, t, extent) {
                proof {
                    assert(tableau_scan(m, card, source, extent, ti as int) == Some(
                        LegalMove { source, target: t, extent },
                    ));
                    if is_tableau {
                        let e_spec = extent_spec(m, m.pile(source));
                        assert(e_spec != 0);
                        assert(extent as int == e_spec);
                        assert(card == m.pile(source)[m.pile(source).len() - e_spec]);
                        assert(extent == e_spec as u16);
                        assert(find_legal_move_spec(m, source) == tableau_scan(
                            m,
                            card,
                            source,
                            extent,
                            0,
                        ));
                    } else {
                        assert(card == m.pile(source).last());
                        assert(extent == 0);
                        assert(find_legal_move_spec(m, source) == tableau_scan(
                            m,
                            card,
                            source,
                            0,
                            0,
                        ));
                    }
                }
                return Some(LegalMove { source, target: t, extent });
            }
            ti = ti + 1;
        }

        // A card in a cell only ever moves to a goal or a tableau pile.
        let is_cell = match source.kind {
            PileKind::Cell => true,
            _ => false,
        };
        if is_cell {
            return None;
        }

        // Last resort: the first empty free cell, for a single card.
        let free = self.board.find_free_cells();
        if free.len() > 0 && extent <= 1 {
            return Some(LegalMove { source, target: free[0], extent: 1 });
        }
        None
    }

    /// Commit the candidate move, then play on from the new configuration:
    /// success if the foundations are complete, otherwise register the new
    /// state and recurse while it is novel; on any failure undo exactly the
    /// primitive relocations just made and report failure.
    pub fn move_and_play_on(&mut self, lm: LegalMove) -> (success: bool)
        requires
            old(self).wf(),
            valid_candidate(old(self).m(), lm),
            old(self).stack_size as int <= old(self).visited.keys().len() + 1,
        ensures
            final(self).wf(),
            !success ==> final(self).m() == old(self).m() && final(self).moves@ == old(
                self,
            ).moves@,
            success ==> final(self).m().goal_count() == 52 && exists|rest: Seq<RecordedMove>|
                final(self).moves@ == old(self).moves@ + candidate_moves(old(self).m(), lm)
                    + rest && all_applicable(
                    old(self).m(),
                    candidate_moves(old(self).m(), lm) + rest,
                ) && apply_all(old(self).m(), candidate_moves(old(self).m(), lm) + rest)
                    == final(self).m(),
            apply_candidate(old(self).m(), lm).goal_count() == 52 ==> success,
            final(self).visited.keys().len() >= old(self).visited.keys().len(),
            old(self).visited.keys().subset_of(final(self).visited.keys()),
            old(self).visited.is_abandoned() ==> final(self).visited.is_abandoned(),
            final(self).stack_size == old(self).stack_size,
        decreases ABANDON_THRESHOLD + 1 - self.visited.keys().len(), 0int,
    {
        proof {
            old(self).visited.lemma_wf_bounds();
        }
        let ghost m0 = self.m();
        let ghost h0 = self.moves@;
        let total: usize = if lm.extent > 1 {
            2 * (lm.extent as usize - 1) + 1
        } else {
            1
        };
        if lm.extent > 1 {
            self.move_extent(lm.source, lm.target, lm.extent);
        } else {
            self.move_card(lm.source, lm.target, lm.extent);
            proof {
                lemma_unwind_push(m0, h0, 0nat, lm.source, lm.target, lm.extent);
                assert(self.moves@.take(h0.len() as int) =~= h0);
                assert(all_applicable(m0, Seq::<RecordedMove>::empty()));
                assert(apply_all(m0, Seq::<RecordedMove>::empty()) == m0);
                lemma_apply_all_snoc(
                    m0,
                    Seq::<RecordedMove>::empty(),
                    RecordedMove { source: lm.source, target: lm.target, extent: lm.extent },
                );
                assert(self.moves@.skip(h0.len() as int) =~= Seq::<RecordedMove>::empty().push(
                    RecordedMove { source: lm.source, target: lm.target, extent: lm.extent },
                ));
            }
        }
        // The primitive relocations just made, as a forward-replayable plan:
        // exactly the candidate's own protocol.
        let ghost tail1 = self.moves@.skip(h0.len() as int);
        proof {
            assert(all_applicable(m0, tail1));
            assert(apply_all(m0, tail1) == self.m());
            assert(self.moves@ =~= h0 + tail1);
            assert(tail1 =~= candidate_moves(m0, lm)) by {
                if lm.extent > 1 {
                    assert((h0 + extent_protocol_moves(m0, lm.source, lm.target, lm.extent)).skip(
                        h0.len() as int,
                    ) =~= extent_protocol_moves(m0, lm.source, lm.target, lm.extent));
                }
            }
            // The committed board is the candidate applied in one step.
            if lm.extent > 1 {
                let mc = apply_candidate(m0, lm);
                assert forall|q: Position| #[trigger] q.valid() implies self.m().pile(q)
                    == mc.pile(q) by {
                    if q != lm.source && q != lm.target {
                        assert(self.m().pile(q) == m0.pile(q));
                    }
                }
                assert(mc.shape());
                crate::model::lemma_model_eq(self.m(), mc);
            }
            assert(self.m() == apply_candidate(m0, lm));
            // The goal piles stay ascending: an extent move never touches
            // them, and a single goal-bound move is legal by construction.
            if lm.extent > 1 {
                assert forall|i: int|
                    0 <= i < 4 implies crate::model::goal_pile_ascending(
                    #[trigger] self.m().goals[i],
                ) by {
                    let q = Position { kind: PileKind::Goal, index: i as usize };
                    assert(q.valid());
                    assert(lm.source.kind == PileKind::Tableau);
                    assert(q != lm.source && q != lm.target);
                    assert(self.m().pile(q) == m0.pile(q));
                }
            } else {
                crate::rules::lemma_goal_wf_preserved(m0, lm.source, lm.target, lm.extent as int);
            }
            assert(goal_wf(self.m()));
            assert(self.m().wf());
        }
        if self.board.is_success() {
            proof {
                let empty = Seq::<RecordedMove>::empty();
                assert(candidate_moves(m0, lm) + empty =~= tail1);
                assert(self.moves@ == h0 + candidate_moves(m0, lm) + empty && all_applicable(
                    m0,
                    candidate_moves(m0, lm) + empty,
                ) && apply_all(m0, candidate_moves(m0, lm) + empty) == self.m());
            }
            return true;
        }
        let ghost m_after = self.m();
        let ghost h_after = self.moves@;
        let repeat = self.register_board();
        let ghost kreg = self.visited.keys();
        if !repeat {
            proof {
                self.visited.lemma_wf_bounds();
            }
            let success = self.cycle_through_cards();
            if success {
                proof {
                    let tail2 = choose|t2: Seq<RecordedMove>|
                        self.moves@ == h_after + t2 && all_applicable(m_after, t2) && apply_all(
                            m_after,
                            t2,
                        ) == self.m();
                    lemma_apply_all_concat(m0, tail1, tail2);
                    assert(self.moves@ =~= h0 + (tail1 + tail2));
                    assert(candidate_moves(m0, lm) + tail2 == tail1 + tail2);
                    assert(self.moves@ =~= h0 + candidate_moves(m0, lm) + tail2);
                    assert(self.moves@ == h0 + candidate_moves(m0, lm) + tail2 && all_applicable(
                        m0,
                        candidate_moves(m0, lm) + tail2,
                    ) && apply_all(m0, candidate_moves(m0, lm) + tail2) == self.m());
                    assert forall|x: u64| old(self).visited.keys().contains(x)
                        implies self.visited.keys().contains(x) by {
                        assert(kreg.contains(x));
                    }
                }
                return true;
            }
        }
        // Backtrack: undo exactly the primitive relocations just made.
        let ghost vkept = self.visited;
        let mut k: usize = 0;
        while k < total
            invariant
                self.m().shape(),
                k <= total,
                unwind_ok(self.m(), self.moves@, (total - k) as nat),
                unwind_board(self.m(), self.moves@, (total - k) as nat) == m0,
                self.moves@.len() == h0.len() + total - k,
                self.moves@.take(h0.len() as int) == h0,
                self.visited == vkept,
                self.visited.wf(),
                self.stack_size == old(self).stack_size,
            decreases total - k,
        {
            proof {
                assert(self.moves@.len() > 0);
                assert(move_ok(self.m(), self.moves@.last().target, self.moves@.last().source));
            }
            let ghost before_moves = self.moves@;
            self.undo_last_move();
            proof {
                assert(self.moves@.take(h0.len() as int) =~= before_moves.take(h0.len() as int));
            }
            k = k + 1;
        }
        proof {
            assert(self.m() == m0);
            assert(self.moves@.take(self.moves@.len() as int) =~= self.moves@);
            assert(self.moves@ == h0);
            assert forall|x: u64| old(self).visited.keys().contains(x)
                implies self.visited.keys().contains(x) by {
                assert(kreg.contains(x));
            }
        }
        false
    }

    /// One search step: collect each source pile's canonical candidate move
    /// (4 cells, then 10 tableau piles), try them in target-kind priority
    /// order, and stop at the first success. On failure the board and the
    /// history are exactly as before.
    pub fn cycle_through_cards(&mut self) -> (success: bool)
        requires
            old(self).wf(),
            old(self).stack_size as int <= old(self).visited.keys().len(),
        ensures
            final(self).wf(),
            !success ==> final(self).m() == old(self).m() && final(self).moves@ == old(
                self,
            ).moves@,
            success ==> final(self).m().goal_count() == 52 && exists|tail: Seq<RecordedMove>|
                final(self).moves@ == old(self).moves@ + tail && all_applicable(
                    old(self).m(),
                    tail,
                ) && apply_all(old(self).m(), tail) == final(self).m(),
            // Success is owed whenever some source's canonical candidate
            // completes the foundations in one committed move.
            (exists|i: int|
                0 <= i < 14 && (#[trigger] find_legal_move_spec(
                    old(self).m(),
                    source_of(i),
                )) is Some && apply_candidate(
                    old(self).m(),
                    find_legal_move_spec(old(self).m(), source_of(i)).unwrap(),
                ).goal_count() == 52) ==> success,
            final(self).visited.keys().len() >= old(self).visited.keys().len(),
            old(self).visited.keys().subset_of(final(self).visited.keys()),
            old(self).visited.is_abandoned() ==> final(self).visited.is_abandoned(),
            final(self).stack_size == old(self).stack_size,
        decreases ABANDON_THRESHOLD + 1 - self.visited.keys().len(), 1int,
    {
        proof {
            old(self).visited.lemma_wf_bounds();
        }
        self.stack_size = self.stack_size + 1;

        let ghost m0 = self.m();
        let all_moves = self.collect_candidates();
        proof {
            lemma_candidate_list_sound(m0, 0);
        }
        let sorted = sort_moves(all_moves);
        proof {
            assert forall|k: int| 0 <= k < sorted@.len() implies valid_candidate(
                m0,
                #[trigger] sorted@[k],
            ) by {
                assert(sorted@.to_multiset().count(sorted@[k]) > 0);
                assert(all_moves@.to_multiset().count(sorted@[k]) > 0);
                assert(all_moves@.contains(sorted@[k]));
            }
        }

        let ghost h0 = self.moves@;
        let ghost len0 = self.visited.keys().len();
        let mut success = false;
        let mut t: usize = 0;
        while t < sorted.len()
            invariant
                t <= sorted@.len(),
                self.wf(),
                forall|k: int|
                    0 <= k < sorted@.len() ==> valid_candidate(m0, #[trigger] sorted@[k]),
                !success ==> self.m() == m0 && self.moves@ == h0,
                success ==> self.m().goal_count() == 52 && exists|tail: Seq<RecordedMove>|
                    self.moves@ == h0 + tail && all_applicable(m0, tail) && apply_all(m0, tail)
                        == self.m(),
                self.visited.keys().len() >= len0,
                self.visited.keys().len() >= old(self).visited.keys().len(),
                old(self).visited.keys().subset_of(self.visited.keys()),
                old(self).visited.is_abandoned() ==> self.visited.is_abandoned(),
                self.stack_size == old(self).stack_size + 1,
                self.stack_size as int <= len0 + 1,
                !success ==> forall|k: int|
                    0 <= k < t ==> apply_candidate(m0, #[trigger] sorted@[k]).goal_count() != 52,
            decreases sorted@.len() - t,
        {
            if !success {
                proof {
                    self.visited.lemma_wf_bounds();
                }
                let ghost kpre = self.visited.keys();
                let lm = sorted[t];
                success = self.move_and_play_on(lm);
                proof {
                    assert forall|x: u64| old(self).visited.keys().contains(x)
                        implies self.visited.keys().contains(x) by {
                        assert(kpre.contains(x));
                    }
                    if !success {
                        assert(apply_candidate(m0, sorted@[t as int]).goal_count() != 52);
                    }
                }
            }
            t = t + 1;
        }
        proof {
            if !success {
                assert forall|i: int|
                    0 <= i < 14 && (#[trigger] find_legal_move_spec(m0, source_of(i))) is Some
                        implies apply_candidate(
                        m0,
                        find_legal_move_spec(m0, source_of(i)).unwrap(),
                    ).goal_count() != 52 by {
                    let w = find_legal_move_spec(m0, source_of(i)).unwrap();
                    assert(all_moves@.contains(w));
                    assert(all_moves@.to_multiset().count(w) > 0);
                    assert(sorted@.to_multiset().count(w) > 0);
                    assert(sorted@.contains(w));
                    let k = choose|k: int| 0 <= k < sorted@.len() && sorted@[k] == w;
                    assert(apply_candidate(m0, sorted@[k]).goal_count() != 52);
                }
            }
        }

        self.stack_size = self.stack_size - 1;
        success
    }
}

} // verus!
