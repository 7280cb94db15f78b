use lights_out::grid::{action, display_moves_on_board, is_complete, Board};
use lights_out::solver::solve;

#[test]
fn test_solve_1() {
    // standard case, has solution
    let board = Board {
        rows: 4,
        cols: 4,
        cells: vec![
            vec![1, 1, 0, 0],
            vec![0, 1, 0, 9],
            vec![0, 0, 9, 0],
            vec![9, 0, 0, 1],
        ],
    };

    assert_eq!(
        Some(vec![(0, 0), (0, 2), (0, 3), (1, 0), (1, 1), (2, 1), (3, 1), (2, 3)]),
        solve(&board)
    );
}

#[test]
fn test_solve_2() {
    // standard case, no solution
    let board = Board {
        rows: 4,
        cols: 4,
        cells: vec![
            vec![1, 1, 0, 0],
            vec![0, 1, 0, 9],
            vec![0, 0, 9, 0],
            vec![1, 0, 9, 1],
        ],
    };

    assert_eq!(None, solve(&board));
}

#[test]
fn test_solve_3() {
    // non-rectangular board
    let board = Board {
        rows: 3,
        cols: 4,
        cells: vec![
            vec![1, 1, 0, 0],
            vec![0, 1, 0, 9],
            vec![1, 0, 9, 0],
        ],
    };

    assert_eq!(Some(vec![(0, 0), (0, 1), (0, 3), (2, 0), (1, 1), (2, 3)]), solve(&board));
}

#[test]
fn test_solve_already_complete_board() {
    // nothing to do: the empty activation sequence is returned
    let board = Board {
        rows: 2,
        cols: 3,
        cells: vec![vec![1, 9, 1], vec![1, 1, 1]],
    };

    assert_eq!(Some(vec![]), solve(&board));
}

#[test]
fn test_solution_completes_the_board_and_keeps_holes() {
    // replaying the returned activations one by one completes the board,
    // and every hole of the initial board is still a hole afterwards
    let board = Board {
        rows: 4,
        cols: 4,
        cells: vec![
            vec![1, 1, 0, 0],
            vec![0, 1, 0, 9],
            vec![0, 0, 9, 0],
            vec![9, 0, 0, 1],
        ],
    };

    let sol = solve(&board).unwrap();
    let mut current = Board {
        rows: board.rows,
        cols: board.cols,
        cells: board.cells.clone(),
    };
    for &pos in &sol {
        current = action(&current, pos).unwrap();
    }
    assert!(is_complete(&current));
    for r in 0..4 {
        for c in 0..4 {
            assert_eq!(board.cells[r][c] == 9, current.cells[r][c] == 9);
        }
    }
}

#[test]
fn test_display_moves_on_board() {
    // visited cells are marked 8, holes stay 9, untouched cells keep their
    // state
    let board = Board {
        rows: 4,
        cols: 4,
        cells: vec![
            vec![1, 1, 0, 0],
            vec![0, 1, 0, 9],
            vec![0, 0, 9, 0],
            vec![9, 0, 0, 1],
        ],
    };

    let sol = vec![(0, 0), (0, 2), (0, 3), (1, 0), (1, 1), (2, 1), (3, 1), (2, 3)];
    assert_eq!(
        vec![
            vec![8, 1, 8, 8],
            vec![8, 8, 0, 9],
            vec![0, 8, 9, 8],
            vec![9, 8, 0, 1],
        ],
        display_moves_on_board(&board, &sol)
    );
}
