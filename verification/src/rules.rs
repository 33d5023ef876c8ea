//! Legality rules and pruning heuristics: the ordered-run count at the top
//! of a pile, the movable extent, the fully-ordered test, the blocking-move
//! test, and the single legality predicate for a candidate move.

use vstd::prelude::*;

use crate::card::Card;
use crate::board::Board;
use crate::model::{BoardModel, PileKind, Position};

verus! {

/// Card `j` sits directly below card `j + 1` and continues a descending
/// same-suit run: same suit, exactly one greater in value.
pub open spec fn link(p: Seq<Card>, j: int) -> bool {
    p[j].suit == p[j + 1].suit && p[j].value == p[j + 1].value + 1
}

/// Length of the maximal run at the top of the pile in which each card is
/// same suit and exactly one less in value than the card below it:
/// 0 for an empty pile, otherwise at least 1.
pub open spec fn ordered_count(p: Seq<Card>) -> nat
    decreases p.len(),
{
    if p.len() <= 1 {
        p.len()
    } else if link(p, p.len() - 2) {
        1 + ordered_count(p.drop_last())
    } else {
        1
    }
}

/// The top `k` cards of the pile form a descending same-suit run.
pub open spec fn is_run(p: Seq<Card>, k: int) -> bool {
    0 <= k <= p.len() && forall|j: int| p.len() - k <= j < p.len() - 1 ==> link(p, j)
}

/// The ordered count never exceeds the pile length, is positive on a
/// non-empty pile, marks a real run, and is maximal.
pub proof fn lemma_ordered_count(p: Seq<Card>)
    ensures
        ordered_count(p) <= p.len(),
        p.len() > 0 ==> ordered_count(p) >= 1,
        is_run(p, ordered_count(p) as int),
        ordered_count(p) < p.len() ==> !link(p, p.len() - ordered_count(p) - 1),
    decreases p.len(),
{
    if p.len() > 1 && link(p, p.len() - 2) {
        lemma_ordered_count(p.drop_last());
        let q = p.drop_last();
        let c = ordered_count(p) as int;
        assert forall|j: int| p.len() - c <= j < p.len() - 1 implies link(p, j) by {
            if j < p.len() - 2 {
                assert(link(q, j));
                assert(q[j] == p[j] && q[j + 1] == p[j + 1]);
            }
        }
        if ordered_count(p) < p.len() {
            assert(!link(q, q.len() - ordered_count(q) - 1));
            assert(q[q.len() - ordered_count(q) - 1] == p[p.len() - c - 1]);
            assert(q[q.len() - ordered_count(q)] == p[p.len() - c]);
        }
    }
}

/// Within the top run, values increase by one with depth and suits agree:
/// the card at distance `d` from the top has value `top + d`.
pub proof fn lemma_run_values(p: Seq<Card>, k: int)
    requires
        is_run(p, k),
    ensures
        forall|j: int|
            p.len() - k <= j < p.len() ==> (#[trigger] p[j]).suit == p[p.len() - 1].suit && p[
                j
            ].value == p[p.len() - 1].value + (p.len() - 1 - j),
    decreases k,
{
    if k > 0 {
        assert(is_run(p, k - 1));
        lemma_run_values(p, k - 1);
        if k <= p.len() && p.len() - k < p.len() - 1 {
            assert(link(p, p.len() - k));
        }
    }
}

/// How many cards at the top of the pile are in descending same-suit order.
pub fn stack_ordered_count(pile: &Vec<Card>) -> (r: usize)
    ensures
        r as int == ordered_count(pile@),
{
    if pile.len() == 0 {
        return 0;
    }
    let mut count: usize = 1;
    let mut i: usize = pile.len() - 1;
    while i >= 1
        invariant
            pile@.len() > 0,
            i < pile@.len(),
            count == pile@.len() - i,
            is_run(pile@, count as int),
        decreases i,
    {
        let below = pile[i - 1];
        let here = pile[i];
        if below.suit == here.suit && (below.value as u16) == (here.value as u16) + 1 {
            proof {
                assert(link(pile@, i - 1));
                assert forall|j: int|
                    pile@.len() - (count + 1) <= j < pile@.len() - 1 implies link(pile@, j) by {
                    if j > i - 1 {
                        assert(link(pile@, j));
                    }
                }
            }
            assert(count < pile.len());
            count = count + 1;
            i = i - 1;
        } else {
            proof {
                assert(!link(pile@, pile@.len() - count - 1));
                lemma_count_from_run(pile@, count as int);
            }
            return count;
        }
    }
    proof {
        lemma_count_from_run(pile@, count as int);
    }
    count
}

/// If the top `k` cards form a run and the run does not continue below them
/// (or they are the whole pile), then `k` is exactly the ordered count.
proof fn lemma_count_from_run(p: Seq<Card>, k: int)
    requires
        1 <= k <= p.len(),
        is_run(p, k),
        k < p.len() ==> !link(p, p.len() - k - 1),
    ensures
        ordered_count(p) == k,
    decreases p.len(),
{
    if p.len() > 1 && link(p, p.len() - 2) {
        let q = p.drop_last();
        if k == 1 {
            assert(link(p, p.len() - 1 - 1));
            assert(false);
        } else {
            assert forall|j: int| q.len() - (k - 1) <= j < q.len() - 1 implies link(q, j) by {
                assert(link(p, j));
                assert(q[j] == p[j] && q[j + 1] == p[j + 1]);
            }
            assert(is_run(q, k - 1));
            if k - 1 < q.len() {
                assert(!link(p, p.len() - k - 1));
                assert(q[q.len() - (k - 1) - 1] == p[p.len() - k - 1]);
                assert(q[q.len() - (k - 1)] == p[p.len() - k]);
                assert(!link(q, q.len() - (k - 1) - 1));
            }
            lemma_count_from_run(q, k - 1);
        }
    } else {
        if k > 1 {
            assert(link(p, p.len() - 2));
            assert(false);
        }
    }
}

/// The movable extent of a pile: its top ordered run, if the free cells
/// allow relocating it as one block, else 0.
pub open spec fn extent_spec(m: BoardModel, p: Seq<Card>) -> int {
    if ordered_count(p) <= m.free_cells() + 1 {
        ordered_count(p) as int
    } else {
        0
    }
}

/// The size of the block that can currently be moved off the top of this
/// pile, or 0 if its top run is too long for the free cells.
pub fn find_extent(board: &Board, pile: &Vec<Card>) -> (r: usize)
    requires
        board.model().shape(),
    ensures
        r as int == extent_spec(board.model(), pile@),
        r <= pile@.len(),
        r as int <= board.model().free_cells() + 1,
{
    proof {
        lemma_ordered_count(pile@);
        crate::model::lemma_free_cells_rec(board.model().cells, 4);
    }
    let free = board.count_free_cells();
    let count = stack_ordered_count(pile);
    if count <= free + 1 {
        count
    } else {
        0
    }
}

/// The extent is never negative and never exceeds the pile length nor the
/// number of free cells plus one.
pub proof fn lemma_extent_bounds(m: BoardModel, p: Seq<Card>)
    requires
        m.shape(),
    ensures
        0 <= extent_spec(m, p),
        extent_spec(m, p) <= p.len(),
        extent_spec(m, p) <= m.free_cells() + 1,
{
    lemma_ordered_count(p);
    crate::model::lemma_free_cells_rec(m.cells, 4);
}

/// A pile is fully ordered when both it and its top run are longer than the
/// free cells could ever shuttle; its only useful move is then to a goal.
pub open spec fn fully_ordered_spec(m: BoardModel, p: Seq<Card>) -> bool {
    p.len() > m.free_cells() + 1 && ordered_count(p) > m.free_cells() + 1
}

/// Whether a pile is fully ordered for the current number of free cells.
pub fn is_fully_ordered(board: &Board, pile: &Vec<Card>) -> (r: bool)
    requires
        board.model().shape(),
    ensures
        r == fully_ordered_spec(board.model(), pile@),
{
    proof {
        crate::model::lemma_free_cells_rec(board.model().cells, 4);
    }
    let free = board.count_free_cells();
    pile.len() > free + 1 && stack_ordered_count(pile) > free + 1
}

/// Somewhere below the top of the pile sits a card of the moving card's
/// suit with a strictly lower value.
pub open spec fn has_lower(p: Seq<Card>, c: Card) -> bool {
    exists|j: int| 0 <= j < p.len() - 1 && (#[trigger] p[j]).suit == c.suit && p[j].value < c.value
}

/// A blocking move: it would grow, on a pile of 5 or more cards, a same-suit
/// descending run to length 5 or more above a buried strictly-lower card of
/// the moving card's suit, stranding that card forever.
pub open spec fn blocking_spec(c: Card, p: Seq<Card>, e: int) -> bool {
    p.len() >= 5 && has_lower(p, c) && ordered_count(p) + e >= 5
}

/// Whether moving `card` (as part of a block of `extent` cards) onto
/// `target` would be a blocking move.
pub fn is_blocking_move(card: &Card, target: &Vec<Card>, extent: u16) -> (r: bool)
    ensures
        r == blocking_spec(*card, target@, extent as int),
{
    if target.len() < 5 {
        return false;
    }
    let count = stack_ordered_count(target);
    let mut found_lower = false;
    let mut j: usize = 0;
    while j < target.len() - 1
        invariant
            target@.len() >= 1,
            j <= target@.len() - 1,
            found_lower == exists|i: int|
                0 <= i < j && (#[trigger] target@[i]).suit == card.suit && target@[i].value
                    < card.value,
        decreases target@.len() - j,
    {
        let t = target[j];
        if t.suit == card.suit && t.value < card.value {
            found_lower = true;
        }
        j = j + 1;
    }
    proof {
        lemma_ordered_count(target@);
    }
    let reaches_five = if count >= 5 {
        true
    } else {
        (count as u32) + (extent as u32) >= 5
    };
    found_lower && reaches_five
}

/// Whether the top card of the pile at `target` would accept `card`,
/// per the rules of the game.
pub open spec fn legal_spec(m: BoardModel, c: Card, target: Position, e: int) -> bool {
    let p = m.pile(target);
    match target.kind {
        PileKind::Goal => if p.len() == 0 {
            c.value == 1
        } else {
            p.last().suit == c.suit && p.last().value == c.value - 1
        },
        PileKind::Cell => p.len() == 0,
        PileKind::Tableau => if p.len() == 0 {
            c.value == 13
        } else {
            p.last().suit == c.suit && p.last().value == c.value + 1 && !blocking_spec(c, p, e)
        },
    }
}

impl Board {
    /// Decide whether moving `card`, as the bottom of a block of
    /// `extent` cards, onto the pile at `target` is legal.
    pub fn is_legal_move(&self, card: &Card, target: Position, extent: u16) -> (r: bool)
        requires
            self.model().shape(),
            target.valid(),
        ensures
            r == legal_spec(self.model(), *card, target, extent as int),
    {
        let pile = self.resolve_position(target);
        match target.kind {
            PileKind::Goal => {
                if pile.len() == 0 {
                    card.value == 1
                } else {
                    let top = pile[pile.len() - 1];
                    top.suit == card.suit && (top.value as u16) + 1 == card.value as u16
                }
            },
            PileKind::Cell => pile.len() == 0,
            PileKind::Tableau => {
                if pile.len() == 0 {
                    card.value == 13
                } else {
                    let top = pile[pile.len() - 1];
                    top.suit == card.suit && (top.value as u16) == (card.value as u16) + 1
                        && !crate::rules::is_blocking_move(card, pile, extent)
                }
            },
        }
    }
}

/// An empty goal accepts exactly an ace; an empty tableau pile accepts
/// exactly a king; every other value is rejected by both.
pub proof fn lemma_empty_pile_acceptance(m: BoardModel, c: Card, target: Position, e: int)
    requires
        target.valid(),
        m.pile(target).len() == 0,
    ensures
        target.kind == PileKind::Goal ==> (legal_spec(m, c, target, e) <==> c.value == 1),
        target.kind == PileKind::Tableau ==> (legal_spec(m, c, target, e) <==> c.value == 13),
{
}

/// The declarative reading of the blocking test, valid whenever the moving
/// card would actually continue the target's top run (its top is the same
/// suit, one greater in value): the move is blocking exactly when the pile
/// has 5 or more cards, a strictly-lower same-suit card lies beneath the
/// top descending run, and the run plus the moved block reaches length 5.
/// The goal piles' invariant survives any possible move whose goal target,
/// if it has one, is legal: a legal goal move stacks the next value of the
/// pile's own suit onto it, popping a goal pile only shortens an ascending
/// pile, and every other move leaves the goals alone.
pub proof fn lemma_goal_wf_preserved(m: BoardModel, s: Position, t: Position, e: int)
    requires
        m.shape(),
        crate::model::move_ok(m, s, t),
        crate::model::goal_wf(m),
        t.kind == PileKind::Goal ==> legal_spec(m, m.pile(s).last(), t, e),
    ensures
        crate::model::goal_wf(m.move_applied(s, t)),
{
    let m2 = m.move_applied(s, t);
    if s == t {
        assert(m2 =~~= m);
    } else {
        let c = m.pile(s).last();
        assert forall|i: int|
            0 <= i < 4 implies crate::model::goal_pile_ascending(#[trigger] m2.goals[i]) by {
            let q = Position { kind: PileKind::Goal, index: i as usize };
            assert(m.pile(q) == m.goals[i]);
            assert(m2.pile(q) == m2.goals[i]);
            let p = m.pile(q);
            assert(crate::model::goal_pile_ascending(p));
            if t == q {
                assert(m2.pile(q) == p.push(c));
                if p.len() == 0 {
                    assert(c.value == 1);
                } else {
                    assert(p.last().suit == c.suit && p.last().value == c.value - 1);
                    assert(p[p.len() - 1].value == p.len());
                    assert(p[p.len() - 1].suit == p[0].suit);
                }
                assert forall|j: int| 0 <= j < p.push(c).len() implies (#[trigger] p.push(c)[j]).value
                    == j + 1 && p.push(c)[j].suit == p.push(c)[0].suit by {
                    if j < p.len() {
                        assert(p.push(c)[j] == p[j]);
                    } else {
                        assert(p.push(c)[j] == c);
                    }
                }
            } else if s == q {
                assert(m2.pile(q) == p.drop_last());
                assert forall|j: int|
                    0 <= j < p.drop_last().len() implies (#[trigger] p.drop_last()[j]).value == j + 1
                        && p.drop_last()[j].suit == p.drop_last()[0].suit by {
                    assert(p.drop_last()[j] == p[j]);
                    assert(p.drop_last()[0] == p[0]);
                }
            } else {
                assert(m2.pile(q) == p);
            }
        }
    }
}

pub proof fn lemma_blocking_characterization(c: Card, p: Seq<Card>, e: int)
    requires
        p.len() > 0 ==> p.last().suit == c.suit && p.last().value == c.value + 1,
    ensures
        blocking_spec(c, p, e) <==> {
            &&& p.len() >= 5
            &&& exists|j: int|
                0 <= j < p.len() - ordered_count(p) && (#[trigger] p[j]).suit == c.suit && p[
                    j
                ].value < c.value
            &&& ordered_count(p) + e >= 5
        },
{
    if p.len() > 0 {
        let k = ordered_count(p) as int;
        lemma_ordered_count(p);
        lemma_run_values(p, k);
        assert forall|j: int|
            0 <= j < p.len() - 1 && (#[trigger] p[j]).suit == c.suit && p[j].value
                < c.value implies 0 <= j < p.len() - k by {
            if j >= p.len() - k {
                assert(p[j].value == p[p.len() - 1].value + (p.len() - 1 - j));
                assert(p[j].value >= c.value + 1);
            }
        }
    }
}

} // verus!
