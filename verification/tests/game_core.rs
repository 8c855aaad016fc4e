//! End-to-end tests of the game core: board model, win detector, cell
//! evaluator and move selector.

use gomoku::GRID_SIZE;
use gomoku::board::Board;
use gomoku::board::Stone;
use gomoku::board::is_inbound;
use gomoku::evaluate::CellScore;
use gomoku::evaluate::evaluate_cell;
use gomoku::selector::evaluate_and_choose;
use gomoku::selector::evaluate_and_choose_with;
use gomoku::selector::has_candidate;
use gomoku::winner::GameOutcome;
use gomoku::winner::check_winner;

fn board_with(n: usize, attackers: &[(usize, usize)], defenders: &[(usize, usize)]) -> Board {
    let mut b = Board::new(n);
    for &(x, y) in attackers {
        b.set(x, y, Some(Stone::AttackerStone));
    }
    for &(x, y) in defenders {
        b.set(x, y, Some(Stone::DefenderStone));
    }
    b
}

#[test]
fn board_accessors() {
    let mut b = Board::new(GRID_SIZE);
    assert!(b.in_bounds(0, 0));
    assert!(b.in_bounds(19, 19));
    assert!(!b.in_bounds(20, 0));
    assert!(!b.in_bounds(0, 20));
    assert!(b.is_empty(7, 3));
    b.set(7, 3, Some(Stone::DefenderStone));
    assert!(!b.is_empty(7, 3));
    assert_eq!(b.get(7, 3), Some(Stone::DefenderStone));
    assert_eq!(b.get(3, 7), None);
    b.set(7, 3, None);
    assert!(b.is_empty(7, 3));
}

#[test]
fn is_inbound_reference_bounds() {
    assert!(is_inbound(0, 0));
    assert!(is_inbound(19, 19));
    assert!(!is_inbound(-1, 0));
    assert!(!is_inbound(0, -1));
    assert!(!is_inbound(20, 0));
    assert!(!is_inbound(0, 20));
}

#[test]
fn empty_board_in_progress() {
    let b = Board::new(GRID_SIZE);
    assert_eq!(check_winner(&b), GameOutcome::InProgress);
}

#[test]
fn five_horizontal_attacker_wins() {
    let b = board_with(GRID_SIZE, &[(3, 6), (4, 6), (5, 6), (6, 6), (7, 6)], &[]);
    assert_eq!(check_winner(&b), GameOutcome::AttackerWon);
}

#[test]
fn five_vertical_defender_wins() {
    let b = board_with(GRID_SIZE, &[], &[(12, 2), (12, 3), (12, 4), (12, 5), (12, 6)]);
    assert_eq!(check_winner(&b), GameOutcome::DefenderWon);
}

#[test]
fn five_diagonal_detected() {
    let b = board_with(GRID_SIZE, &[(1, 1), (2, 2), (3, 3), (4, 4), (5, 5)], &[]);
    assert_eq!(check_winner(&b), GameOutcome::AttackerWon);
    let b2 = board_with(GRID_SIZE, &[(8, 4), (7, 5), (6, 6), (5, 7), (4, 8)], &[]);
    assert_eq!(check_winner(&b2), GameOutcome::AttackerWon);
}

#[test]
fn run_at_board_edge_detected() {
    let b = board_with(GRID_SIZE, &[(15, 0), (16, 0), (17, 0), (18, 0), (19, 0)], &[]);
    assert_eq!(check_winner(&b), GameOutcome::AttackerWon);
}

#[test]
fn six_in_a_row_still_a_win() {
    let b = board_with(GRID_SIZE, &[(3, 9), (4, 9), (5, 9), (6, 9), (7, 9), (8, 9)], &[]);
    assert_eq!(check_winner(&b), GameOutcome::AttackerWon);
}

#[test]
fn four_in_a_row_is_not_a_win() {
    let b = board_with(GRID_SIZE, &[(5, 5), (5, 6), (5, 7), (5, 8)], &[]);
    assert_eq!(check_winner(&b), GameOutcome::InProgress);
    let b2 = board_with(GRID_SIZE, &[], &[(2, 2), (3, 3), (4, 4), (5, 5)]);
    assert_eq!(check_winner(&b2), GameOutcome::InProgress);
}

#[test]
fn broken_run_is_not_a_win() {
    let b = board_with(
        GRID_SIZE,
        &[(3, 6), (4, 6), (5, 6), (7, 6), (8, 6)],
        &[(6, 6)],
    );
    assert_eq!(check_winner(&b), GameOutcome::InProgress);
}

#[test]
fn isolated_cell_scores_zero() {
    let b = board_with(GRID_SIZE, &[(0, 0)], &[]);
    let score = evaluate_cell(&b, 10, 10);
    assert_eq!(score.attack, 0);
    assert_eq!(score.defense, 0);
    assert!(!score.forcing);
}

#[test]
fn default_cell_score_is_zero() {
    let zero = CellScore::default();
    assert_eq!(zero.attack, 0);
    assert_eq!(zero.defense, 0);
    assert!(!zero.forcing);
}

#[test]
fn diagonal_chain_at_corner() {
    // Three attacker stones on the main diagonal of a reduced board.
    // From either corner the outward pass scores 30; the pass the
    // other way leaves the board at once, which counts one penalty,
    // so the divided score is 30 / 2 = 15.
    let b = board_with(5, &[(1, 1), (2, 2), (3, 3)], &[]);
    let near = evaluate_cell(&b, 0, 0);
    assert_eq!(near.attack, 15);
    assert_eq!(near.defense, 0);
    assert!(!near.forcing);
    let far = evaluate_cell(&b, 4, 4);
    assert_eq!(far.attack, 15);
    assert_eq!(far.defense, 0);
    assert!(!far.forcing);
}

#[test]
fn open_diagonal_chain_scores_thirty() {
    // The same three-stone chain away from the edges: both passes end
    // on an empty cell, no penalty, so the full 30 stands.
    let b = board_with(7, &[(2, 2), (3, 3), (4, 4)], &[]);
    assert_eq!(evaluate_cell(&b, 1, 1).attack, 30);
    assert_eq!(evaluate_cell(&b, 5, 5).attack, 30);
}

#[test]
fn adjacent_stones_give_both_candidates() {
    // One defender at (10, 10), one attacker right below at (10, 11).
    let b = board_with(GRID_SIZE, &[(10, 11)], &[(10, 10)]);
    let above = evaluate_cell(&b, 10, 9);
    assert!(above.defense > 0);
    assert_eq!(above.defense, 5);
    let below = evaluate_cell(&b, 10, 12);
    assert!(below.attack > 0);
    assert_eq!(below.attack, 5);
    // The open sideways lines of both stones score 10, so the maxima
    // tie at 10 and the selector draws from the attack-tied cells.
    let ((x, y), grid) = evaluate_and_choose(&b);
    assert!(b.is_empty(x, y));
    assert_eq!(grid[y][x].attack, 10);
}

#[test]
fn lone_defender_stone_is_answered_next_to_it() {
    let b = board_with(GRID_SIZE, &[], &[(10, 10)]);
    let ((x, y), grid) = evaluate_and_choose(&b);
    assert!(b.is_empty(x, y));
    assert!(x.abs_diff(10) <= 1 && y.abs_diff(10) <= 1);
    assert_eq!(grid[y][x].defense, 10);
}

#[test]
fn open_four_is_forcing() {
    // Four attacker stones in an open vertical line: the two cells
    // that complete it are forcing, and the selector must take one of
    // them — the first in scan order.
    let b = board_with(GRID_SIZE, &[(5, 5), (5, 6), (5, 7), (5, 8)], &[]);
    let ((x, y), grid) = evaluate_and_choose(&b);
    assert!(grid[4][5].forcing);
    assert!(grid[9][5].forcing);
    assert!((x, y) == (5, 4) || (x, y) == (5, 9));
    assert_eq!((x, y), (5, 4));
}

#[test]
fn forcing_beats_higher_score() {
    // The capped four-line makes (5, 4) forcing with a divided score
    // of 20, while the open three-line elsewhere scores 30.  The
    // forcing cell must win regardless.
    let b = board_with(
        GRID_SIZE,
        &[(5, 5), (5, 6), (5, 7), (5, 8), (10, 10), (11, 10), (12, 10)],
        &[(5, 9)],
    );
    let ((x, y), grid) = evaluate_and_choose(&b);
    assert!(grid[4][5].forcing);
    assert_eq!(grid[4][5].attack, 20);
    assert_eq!(grid[10][9].attack, 30);
    assert_eq!((x, y), (5, 4));
}

#[test]
fn same_draw_same_choice() {
    let b = board_with(GRID_SIZE, &[(10, 11)], &[(10, 10)]);
    let (first, _) = evaluate_and_choose_with(&b, 7);
    let (second, _) = evaluate_and_choose_with(&b, 7);
    assert_eq!(first, second);
    let (third, _) = evaluate_and_choose_with(&b, 7);
    assert_eq!(first, third);
}

#[test]
fn every_draw_lands_in_the_tie_pool() {
    let b = board_with(GRID_SIZE, &[(10, 11)], &[(10, 10)]);
    for pick in 0..32usize {
        let ((x, y), grid) = evaluate_and_choose_with(&b, pick);
        assert!(b.is_empty(x, y));
        assert_eq!(grid[y][x].attack, 10);
    }
}

#[test]
fn random_choice_stays_in_the_tie_pool() {
    let b = board_with(GRID_SIZE, &[], &[(10, 10)]);
    for _ in 0..16 {
        let ((x, y), grid) = evaluate_and_choose(&b);
        assert!(b.is_empty(x, y));
        assert_eq!(grid[y][x].defense, 10);
    }
}

#[test]
fn largest_board_score_fits() {
    // On the largest supported board a fully chained column scores
    // 10 * 25 = 250 before division; both ends of the line sit on the
    // board edge, so two penalties divide it down to 250 / 3 = 83.
    let mut b = Board::new(26);
    for y in 1..26 {
        b.set(0, y, Some(Stone::AttackerStone));
    }
    let s = evaluate_cell(&b, 0, 0);
    assert_eq!(s.attack, 83);
    assert!(s.forcing);
}

#[test]
fn candidate_detection() {
    let empty = Board::new(GRID_SIZE);
    assert!(!has_candidate(&empty));
    let b = board_with(GRID_SIZE, &[(0, 0)], &[]);
    assert!(has_candidate(&b));
    let small = board_with(1, &[], &[]);
    assert!(!has_candidate(&small));
}
