use freecell_search::board::Board;
use freecell_search::card::Card;
use freecell_search::model::{PileKind, Position};
use freecell_search::rules::{find_extent, is_blocking_move, is_fully_ordered, stack_ordered_count};

fn h(value: u8) -> Card {
    Card { suit: 0, value }
}

fn s(value: u8) -> Card {
    Card { suit: 3, value }
}

/// A board with the given tableau piles and cell piles; goals empty,
/// remaining piles empty.
fn board_with(mut stacks: Vec<Vec<Card>>, mut cells: Vec<Vec<Card>>) -> Board {
    while stacks.len() < 10 {
        stacks.push(Vec::new());
    }
    while cells.len() < 4 {
        cells.push(Vec::new());
    }
    let goals = vec![Vec::new(), Vec::new(), Vec::new(), Vec::new()];
    Board { goals, cells, stacks }
}

fn tableau(index: usize) -> Position {
    Position { kind: PileKind::Tableau, index }
}

fn goal(index: usize) -> Position {
    Position { kind: PileKind::Goal, index }
}

fn cell(index: usize) -> Position {
    Position { kind: PileKind::Cell, index }
}

#[test]
fn ordered_count_basics() {
    assert_eq!(stack_ordered_count(&vec![]), 0);
    assert_eq!(stack_ordered_count(&vec![h(9)]), 1);
    // Bottom-to-top 9,8,7: the whole pile is one descending run.
    assert_eq!(stack_ordered_count(&vec![h(9), h(8), h(7)]), 3);
    // A suit change breaks the run.
    assert_eq!(stack_ordered_count(&vec![s(9), h(8), h(7)]), 2);
    // A value gap breaks the run.
    assert_eq!(stack_ordered_count(&vec![h(10), h(8), h(7)]), 2);
}

#[test]
fn extent_respects_free_cells() {
    // All four cells empty: a 3-card run is movable.
    let b = board_with(vec![vec![h(9), h(8), h(7)]], vec![]);
    assert_eq!(find_extent(&b, &b.stacks[0]), 3);

    // No free cells: a 2-card run cannot be relocated as a block, so the
    // source offers no movable extent at all.
    let b0 = board_with(
        vec![vec![h(5), h(4)]],
        vec![vec![s(1)], vec![s(2)], vec![s(3)], vec![s(4)]],
    );
    assert_eq!(find_extent(&b0, &b0.stacks[0]), 0);

    // No free cells: a single card still moves.
    let b1 = board_with(
        vec![vec![h(5), s(4)]],
        vec![vec![s(1)], vec![s(2)], vec![s(3)], vec![s(5)]],
    );
    assert_eq!(find_extent(&b1, &b1.stacks[0]), 1);
}

#[test]
fn fully_ordered_detection() {
    // One free cell: runs longer than 2 can never be shuttled.
    let cells = vec![vec![s(1)], vec![s(2)], vec![s(3)], Vec::new()];
    let b = board_with(vec![vec![h(10), h(9), h(8), h(7)]], cells.clone());
    assert!(is_fully_ordered(&b, &b.stacks[0]));

    // Same pile with all cells free: not fully ordered.
    let b2 = board_with(vec![vec![h(10), h(9), h(8), h(7)]], vec![]);
    assert!(!is_fully_ordered(&b2, &b2.stacks[0]));

    // Short piles are never fully ordered.
    let b3 = board_with(vec![vec![h(8), h(7)]], cells);
    assert!(!is_fully_ordered(&b3, &b3.stacks[0]));
}

#[test]
fn blocking_move_boundaries() {
    // Bottom-to-top: 2H buried under the run 10,9,8,7 of hearts.
    let pile5 = vec![h(2), h(10), h(9), h(8), h(7)];
    // Run 4 + extent 1 reaches 5 with a lower heart buried: blocking.
    assert!(is_blocking_move(&h(6), &pile5, 1));
    // Extent 0 (a bare probe) stays below the limit: not blocking.
    assert!(!is_blocking_move(&h(6), &pile5, 0));
    // No same-suit lower card buried: not blocking.
    let pile_no_lower = vec![s(13), h(10), h(9), h(8), h(7)];
    assert!(!is_blocking_move(&h(6), &pile_no_lower, 2));
    // A pile shorter than 5 never blocks.
    let pile4 = vec![h(2), h(9), h(8), h(7)];
    assert!(!is_blocking_move(&h(6), &pile4, 5));
    // Run 3 + extent 2 reaches 5: blocking again.
    let pile_run3 = vec![h(2), s(5), h(9), h(8), h(7)];
    assert!(is_blocking_move(&h(6), &pile_run3, 2));
    assert!(!is_blocking_move(&h(6), &pile_run3, 1));
}

#[test]
fn empty_goal_accepts_only_ace() {
    let b = board_with(vec![], vec![]);
    for value in 1..=13u8 {
        let legal = b.is_legal_move(&h(value), goal(0), 1);
        assert_eq!(legal, value == 1);
    }
}

#[test]
fn empty_tableau_accepts_only_king() {
    let b = board_with(vec![], vec![]);
    for value in 1..=13u8 {
        let legal = b.is_legal_move(&h(value), tableau(4), 1);
        assert_eq!(legal, value == 13);
    }
}

#[test]
fn goal_builds_ascending_same_suit() {
    let mut b = board_with(vec![], vec![]);
    b.goals[0] = vec![h(1), h(2), h(3)];
    assert!(b.is_legal_move(&h(4), goal(0), 1));
    assert!(!b.is_legal_move(&h(5), goal(0), 1));
    assert!(!b.is_legal_move(&s(4), goal(0), 1));
}

#[test]
fn cell_accepts_single_card_only() {
    let b = board_with(vec![], vec![vec![s(9)]]);
    assert!(!b.is_legal_move(&h(4), cell(0), 1));
    assert!(b.is_legal_move(&h(4), cell(1), 1));
}

#[test]
fn tableau_builds_descending_same_suit() {
    let b = board_with(vec![vec![h(8)]], vec![]);
    assert!(b.is_legal_move(&h(7), tableau(0), 1));
    assert!(!b.is_legal_move(&h(6), tableau(0), 1));
    assert!(!b.is_legal_move(&s(7), tableau(0), 1));
}
