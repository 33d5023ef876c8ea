use freecell_search::board::Board;
use freecell_search::card::Card;

/// The full 52-card deck in a fixed order.
fn full_deck() -> Vec<Card> {
    let mut deck = Vec::new();
    for suit in 0..4u8 {
        for value in 1..14u8 {
            deck.push(Card { suit, value });
        }
    }
    deck
}

/// A well-formed board: 5 cards per tableau pile, 2 in the first two cells.
fn dealt_board() -> Board {
    let mut deck = full_deck();
    let goals = vec![Vec::new(), Vec::new(), Vec::new(), Vec::new()];
    let mut stacks = Vec::new();
    for _ in 0..10 {
        let mut pile = Vec::new();
        for _ in 0..5 {
            pile.push(deck.pop().unwrap());
        }
        stacks.push(pile);
    }
    let cells = vec![
        vec![deck.pop().unwrap()],
        vec![deck.pop().unwrap()],
        Vec::new(),
        Vec::new(),
    ];
    Board { goals, cells, stacks }
}

#[test]
fn signature_ignores_tableau_pile_order() {
    let a = dealt_board();
    let mut b = dealt_board();
    b.stacks.swap(0, 9);
    b.stacks.swap(3, 7);
    assert_eq!(a.board_signature(), b.board_signature());
}

#[test]
fn signature_ignores_cell_slot_assignment() {
    let a = dealt_board();
    let mut b = dealt_board();
    b.cells.swap(0, 1);
    b.cells.swap(2, 3);
    assert_eq!(a.board_signature(), b.board_signature());
}

#[test]
fn signature_ignores_goal_piles() {
    // Two boards identical outside the goals hash identically even when
    // their goal piles differ; cards here come from the cells so both
    // boards stay internally consistent.
    let mut a = dealt_board();
    let moved = a.cells[0].pop().unwrap();
    let mut b = dealt_board();
    b.cells[0].pop().unwrap();
    a.goals[0].push(moved);
    assert_eq!(a.board_signature(), b.board_signature());
}

#[test]
fn signature_distinguishes_layouts() {
    // Swapping two cards between piles must change the signature; a
    // digest that ignored its input would collapse these.
    let a = dealt_board();
    let mut b = dealt_board();
    let x = b.stacks[0].pop().unwrap();
    let y = b.stacks[1].pop().unwrap();
    b.stacks[0].push(y);
    b.stacks[1].push(x);
    assert_ne!(a.board_signature(), b.board_signature());
}

#[test]
fn signature_depends_on_pile_order_within_a_pile() {
    let a = dealt_board();
    let mut b = dealt_board();
    // Reverse one pile: same cards, different internal order.
    b.stacks[2].reverse();
    assert_ne!(a.board_signature(), b.board_signature());
}
