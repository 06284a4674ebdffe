use course_projects::tic_tac_toe::{
    check_heuristic, try_heuristic, heuristic, order_moves, score_move, score_window, stable_order, AlphaBeta, BoardState, Cell,
    Player,
};

use Cell::{Empty as E, Wall as W, O, X};

fn swap(c: Cell) -> Cell {
    match c {
        X => O,
        O => X,
        other => other,
    }
}

#[test]
fn window_table() {
    assert_eq!(score_window(&X, &X, &X), 500);
    assert_eq!(score_window(&O, &O, &O), -500);
    assert_eq!(score_window(&X, &X, &E), 100);
    assert_eq!(score_window(&E, &X, &X), 100);
    assert_eq!(score_window(&O, &O, &E), -100);
    assert_eq!(score_window(&E, &O, &O), -100);
    assert_eq!(score_window(&X, &E, &X), 80);
    assert_eq!(score_window(&O, &E, &O), -80);
    assert_eq!(score_window(&X, &X, &W), 30);
    assert_eq!(score_window(&W, &X, &X), 30);
    assert_eq!(score_window(&O, &O, &W), -30);
    assert_eq!(score_window(&W, &O, &O), -30);
    assert_eq!(score_window(&X, &X, &O), 0);
    assert_eq!(score_window(&O, &X, &X), 0);
    assert_eq!(score_window(&X, &E, &E), 0);
}

#[test]
fn window_symmetries_on_all_cells() {
    let all = [X, O, E, W];
    for a in all {
        for b in all {
            for c in all {
                assert_eq!(score_window(&c, &b, &a), score_window(&a, &b, &c));
                assert_eq!(score_window(&swap(a), &swap(b), &swap(c)), -score_window(&a, &b, &c));
            }
        }
    }
}

fn board(rows: &[&[Cell]], score: i32) -> BoardState {
    BoardState { cells: rows.iter().map(|r| r.to_vec()).collect(), score }
}

#[test]
fn heuristic_small_boards() {
    // A lone X in the centre of a 3x3 board: centre bonus 10, no lines.
    let b = board(&[&[E, E, E], &[E, X, E], &[E, E, E]], 0);
    assert_eq!(heuristic(&b), 10);
    // X X X on the top row of a 3x3 board, game score 1.
    let b = board(&[&[X, X, X], &[E, E, E], &[E, E, E]], 1);
    // 1000 + centre bonuses (10-4) + (10-2) + (10-4) = 20 + row 500.
    assert_eq!(heuristic(&b), 1000 + 6 + 8 + 6 + 500);
    // An empty board is worth the game's score alone.
    let b = board(&[&[E; 5], &[E; 5], &[E; 5], &[E; 5], &[E; 5]], -2);
    assert_eq!(heuristic(&b), -2000);
    assert_eq!(heuristic(&board(&[], 3)), 3000);
}

#[test]
fn heuristic_is_antisymmetric() {
    let rows: Vec<Vec<Cell>> = vec![
        vec![X, O, E, W, X],
        vec![E, X, X, O, E],
        vec![O, E, X, E, O],
        vec![W, O, O, X, E],
        vec![X, E, E, O, X],
    ];
    let b = BoardState { cells: rows.clone(), score: 3 };
    let s = BoardState {
        cells: rows.iter().map(|r| r.iter().map(|c| swap(*c)).collect()).collect(),
        score: -3,
    };
    assert_eq!(heuristic(&s), -heuristic(&b));
}

#[test]
fn move_ratings() {
    assert_eq!(score_move(5, Player::X), -5);
    assert_eq!(score_move(5, Player::O), 5);
}

#[test]
fn moves_are_sorted_stably() {
    let keys = vec![3, 1, 3, 0, 1];
    assert_eq!(stable_order(&keys), vec![3, 1, 4, 0, 2]);
    let moves = vec![(0, 0), (0, 1), (0, 2), (1, 0), (1, 1)];
    assert_eq!(order_moves(&moves, &keys), vec![(1, 0), (0, 1), (1, 1), (0, 0), (0, 2)]);
    assert!(order_moves(&vec![], &vec![]).is_empty());
}

#[test]
fn maximiser_keeps_first_best_and_cuts_off() {
    let mut s = AlphaBeta::new(Player::X, vec![(0, 0), (1, 1), (2, 2)], i32::MIN, 10);
    assert_eq!(s.next_move(), Some((0, 0)));
    s.record(4);
    assert_eq!(s.alpha(), 4);
    assert_eq!(s.next_move(), Some((1, 1)));
    s.record(4);
    assert_eq!(s.result(), (4, 0, 0));
    s.record(12);
    // 12 >= beta = 10: the window closes.
    assert_eq!(s.next_move(), None);
    assert_eq!(s.result(), (12, 2, 2));
}

#[test]
fn minimiser_lowers_beta() {
    let mut s = AlphaBeta::new(Player::O, vec![(0, 1), (1, 0)], -5, i32::MAX);
    assert_eq!(s.result(), (i32::MAX, 0, 1));
    s.record(7);
    assert_eq!(s.beta(), 7);
    s.record(-5);
    assert_eq!(s.result(), (-5, 1, 0));
    assert_eq!(s.next_move(), None);
}

#[test]
fn evaluation_out_of_range_is_refused() {
    let b = board(&[&[X, E, E], &[E, X, E], &[E, E, X]], 5);
    assert!(check_heuristic(&b));
    assert_eq!(try_heuristic(&b), Some(heuristic(&b)));
    // A thousand times this score leaves i32.
    let b = board(&[&[E]], i32::MAX / 1000 + 1);
    assert_eq!(try_heuristic(&b), None);
    // The score fits, and one line fits, but adding all the lines of X's does not.
    let b = board(&[&[X, X, X], &[E, E, E], &[E, E, E]], i32::MAX / 1000);
    assert_eq!(try_heuristic(&b), Some(2147483520));
    let b = board(&[&[X, X, X], &[X, X, X], &[X, X, X]], i32::MAX / 1000);
    assert_eq!(try_heuristic(&b), None);
    // A row shorter than the number of rows.
    let b = board(&[&[E, E], &[E]], 0);
    assert_eq!(try_heuristic(&b), None);
}
