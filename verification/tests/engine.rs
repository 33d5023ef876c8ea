use freecell_search::board::Board;
use freecell_search::card::Card;
use freecell_search::game::Game;
use freecell_search::model::{PileKind, Position};

fn tableau(index: usize) -> Position {
    Position { kind: PileKind::Tableau, index }
}

fn cell(index: usize) -> Position {
    Position { kind: PileKind::Cell, index }
}

fn full_deck() -> Vec<Card> {
    let mut deck = Vec::new();
    for suit in 0..4u8 {
        for value in 1..14u8 {
            deck.push(Card { suit, value });
        }
    }
    deck
}

/// A trivially orderable deal: each suit stands on one tableau pile as a
/// full descending run (king at the bottom, ace on top); cells empty.
fn ordered_board() -> Board {
    let goals = vec![Vec::new(), Vec::new(), Vec::new(), Vec::new()];
    let cells = vec![Vec::new(), Vec::new(), Vec::new(), Vec::new()];
    let mut stacks = Vec::new();
    for suit in 0..4u8 {
        let mut pile = Vec::new();
        for value in 0..13u8 {
            pile.push(Card { suit, value: 13 - value });
        }
        stacks.push(pile);
    }
    while stacks.len() < 10 {
        stacks.push(Vec::new());
    }
    Board { goals, cells, stacks }
}

/// A board staging a 3-card extent move: hearts 6,5,4 on top of a spade,
/// with 7H alone on the next pile; the rest of the deck fills the board.
fn extent_board() -> Board {
    let used = [
        Card { suit: 3, value: 9 },
        Card { suit: 0, value: 6 },
        Card { suit: 0, value: 5 },
        Card { suit: 0, value: 4 },
        Card { suit: 0, value: 7 },
    ];
    let mut rest: Vec<Card> = full_deck()
        .into_iter()
        .filter(|c| !used.iter().any(|u| u.suit == c.suit && u.value == c.value))
        .collect();
    let goals = vec![Vec::new(), Vec::new(), Vec::new(), Vec::new()];
    let cells = vec![Vec::new(), Vec::new(), Vec::new(), Vec::new()];
    let mut stacks = Vec::new();
    stacks.push(vec![used[0], used[1], used[2], used[3]]);
    stacks.push(vec![used[4]]);
    for _ in 2..10 {
        let mut pile = Vec::new();
        for _ in 0..5 {
            if let Some(c) = rest.pop() {
                pile.push(c);
            }
        }
        stacks.push(pile);
    }
    // 47 remaining cards: 8 piles hold 5 each, the last 7 go on pile 2.
    while let Some(c) = rest.pop() {
        stacks[2].push(c);
    }
    Board { goals, cells, stacks }
}

fn count_cards(b: &Board) -> usize {
    let mut n = 0;
    for p in b.goals.iter().chain(b.cells.iter()).chain(b.stacks.iter()) {
        n += p.len();
    }
    n
}

#[test]
fn deal_conserves_the_deck() {
    let g = Game::new(42);
    assert_eq!(count_cards(&g.board), 52);
    let mut seen = [false; 52];
    for p in g.board.goals.iter().chain(g.board.cells.iter()).chain(g.board.stacks.iter()) {
        for c in p.iter() {
            let idx = c.suit as usize * 13 + c.value as usize - 1;
            assert!(!seen[idx], "duplicate card in deal");
            seen[idx] = true;
        }
    }
    assert!(seen.iter().all(|&x| x));
    for pile in g.board.stacks.iter() {
        assert_eq!(pile.len(), 5);
    }
    assert_eq!(g.board.cells[0].len(), 1);
    assert_eq!(g.board.cells[1].len(), 1);
    assert_eq!(g.board.cells[2].len(), 0);
    assert_eq!(g.board.cells[3].len(), 0);
}

#[test]
fn deal_is_deterministic_per_seed() {
    let a = Game::new(7);
    let b = Game::new(7);
    let c = Game::new(8);
    assert_eq!(a.board.board_signature(), b.board.board_signature());
    assert_ne!(a.board.board_signature(), c.board.board_signature());
}

#[test]
fn moves_then_undos_restore_signature() {
    let mut g = Game::from_board(ordered_board());
    let before = g.board.board_signature();
    // Three legal single-card moves: two aces into cells, one two onto the
    // ace-vacated pile top is not legal, so park a third ace instead.
    g.move_card(tableau(0), cell(0), 1);
    g.move_card(tableau(1), cell(1), 1);
    g.move_card(tableau(2), cell(2), 1);
    assert_ne!(g.board.board_signature(), before);
    g.undo_last_move();
    g.undo_last_move();
    g.undo_last_move();
    assert_eq!(g.board.board_signature(), before);
    assert_eq!(g.move_history().len(), 0);
}

#[test]
fn extent_move_round_trip() {
    let mut g = Game::from_board(extent_board());
    let before_stack0 = g.board.stacks[0].clone();
    let before_stack1 = g.board.stacks[1].clone();
    let before_sig = g.board.board_signature();

    g.move_extent(tableau(0), tableau(1), 3);
    // Net effect: the block 6H,5H,4H sits on 7H, in order; cells are free
    // again; the source kept only its bottom card.
    assert_eq!(g.board.stacks[0].len(), 1);
    assert_eq!(g.board.stacks[1].len(), 4);
    assert_eq!(g.board.stacks[1][1], Card { suit: 0, value: 6 });
    assert_eq!(g.board.stacks[1][2], Card { suit: 0, value: 5 });
    assert_eq!(g.board.stacks[1][3], Card { suit: 0, value: 4 });
    for c in g.board.cells.iter() {
        assert_eq!(c.len(), 0);
    }
    // The protocol records (extent - 1) * 2 + 1 primitive moves.
    assert_eq!(g.move_history().len(), 5);

    // Exactly that many undos restore source, target and cells.
    for _ in 0..5 {
        g.undo_last_move();
    }
    assert_eq!(g.board.stacks[0], before_stack0);
    assert_eq!(g.board.stacks[1], before_stack1);
    for c in g.board.cells.iter() {
        assert_eq!(c.len(), 0);
    }
    assert_eq!(g.board.board_signature(), before_sig);
    assert_eq!(g.move_history().len(), 0);
}

#[test]
fn goal_move_is_found_first() {
    let g = Game::from_board(ordered_board());
    // The ace on top of pile 0 goes straight to the first goal.
    let mv = g.find_legal_move(tableau(0)).expect("a move");
    assert_eq!(mv.source, tableau(0));
    assert_eq!(mv.target, Position { kind: PileKind::Goal, index: 0 });
    assert_eq!(mv.extent, 1);
    // An empty pile offers nothing.
    assert!(g.find_legal_move(tableau(9)).is_none());
    assert!(g.find_legal_move(cell(0)).is_none());
}

#[test]
fn candidates_come_from_sources_in_order() {
    let g = Game::from_board(ordered_board());
    // Empty cells offer nothing; each of the four occupied tableau piles
    // offers its ace, bound for the first goal, in source order.
    let cands = g.collect_candidates();
    assert_eq!(cands.len(), 4);
    for (i, mv) in cands.iter().enumerate() {
        assert_eq!(mv.source, tableau(i));
        assert_eq!(mv.target, Position { kind: PileKind::Goal, index: 0 });
        assert_eq!(mv.extent, 1);
    }
}

#[test]
fn parked_card_returns_to_a_goal() {
    let mut g = Game::from_board(ordered_board());
    g.move_card(tableau(0), cell(0), 1);
    // The parked ace's only sensible move is to a goal, never to
    // another cell.
    let mv = g.find_legal_move(cell(0)).expect("a move");
    assert_eq!(mv.target, Position { kind: PileKind::Goal, index: 0 });
}

#[test]
fn register_reports_repeats() {
    let mut g = Game::from_board(ordered_board());
    assert!(!g.register_board());
    assert!(g.register_board());
    assert_eq!(g.visited_count(), 1);
    assert_eq!(g.repeats_avoided(), 1);
}

#[test]
fn trivial_deal_is_solved() {
    let mut g = Game::from_board(ordered_board());
    let success = g.cycle_through_cards();
    assert!(success);
    assert_eq!(g.board.count_goal(), 52);
    assert!(!g.abandoned());
    // Exactly one relocation per card, straight to the goals, and the
    // committed winning line is kept for replay.
    assert_eq!(g.total_moves(), 52);
    assert_eq!(g.move_history().len(), 52);
}
