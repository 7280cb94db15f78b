use lights_out::grid::{action, build_board_from_str, is_complete, is_complete_minor, Board,
    PuzzleError};

#[test]
fn test_build_board_from_str_1() {
    // standard case
    assert_eq!(
        vec![
            vec![1, 1, 0, 0],
            vec![0, 1, 0, 9],
            vec![0, 0, 9, 0],
            vec![9, 0, 0, 1],
        ],
        build_board_from_str("1100010x00x0x001", 4, 4).unwrap().cells
    );
}

#[test]
fn test_build_board_from_str_2() {
    // non-rectangular board
    assert_eq!(
        vec![
            vec![1, 1, 0, 0],
            vec![0, 1, 0, 9],
            vec![0, 0, 9, 0],
        ],
        build_board_from_str("1100010x00x0", 3, 4).unwrap().cells
    );
}

#[test]
fn test_build_board_from_str_wrong_length() {
    // twelve symbols can never fill a 4 x 4 board
    assert!(matches!(
        build_board_from_str("1100010x00x0", 4, 4),
        Err(PuzzleError::EncodingError)
    ));
    // and sixteen symbols overflow a 3 x 4 board
    assert!(matches!(
        build_board_from_str("1100010x00x0x001", 3, 4),
        Err(PuzzleError::EncodingError)
    ));
}

#[test]
fn test_build_board_from_str_bad_symbol() {
    assert!(matches!(
        build_board_from_str("1102", 2, 2),
        Err(PuzzleError::EncodingError)
    ));
}

#[test]
fn test_action_1() {
    // standard case
    let board = Board {
        rows: 4,
        cols: 4,
        cells: vec![
            vec![1, 1, 0, 0],
            vec![0, 1, 0, 9],
            vec![0, 0, 9, 0],
            vec![9, 0, 0, 1],
        ],
    };

    assert_eq!(
        vec![
            vec![1, 0, 0, 0],
            vec![0, 0, 0, 9],
            vec![1, 1, 9, 0],
            vec![9, 1, 0, 1],
        ],
        action(&board, (2, 1)).unwrap().cells
    );
}

#[test]
fn test_action_on_hole_is_rejected() {
    // a hole is never a valid activation target
    let board = Board {
        rows: 4,
        cols: 4,
        cells: vec![
            vec![1, 1, 0, 0],
            vec![0, 1, 0, 9],
            vec![0, 0, 9, 0],
            vec![9, 0, 0, 1],
        ],
    };

    assert!(matches!(action(&board, (1, 3)), Err(PuzzleError::InvalidActivation)));
}

#[test]
fn test_action_twice_restores_the_board() {
    // activation is its own inverse
    let board = Board {
        rows: 4,
        cols: 4,
        cells: vec![
            vec![1, 1, 0, 0],
            vec![0, 1, 0, 9],
            vec![0, 0, 9, 0],
            vec![9, 0, 0, 1],
        ],
    };

    let once = action(&board, (2, 1)).unwrap();
    let twice = action(&once, (2, 1)).unwrap();
    assert_eq!(board.cells, twice.cells);
}

#[test]
fn test_is_complete_1() {
    let board = Board {
        rows: 3,
        cols: 3,
        cells: vec![
            vec![9, 1, 1],
            vec![1, 1, 9],
            vec![9, 1, 1],
        ],
    };

    assert_eq!(true, is_complete(&board));
}

#[test]
fn test_is_complete_2() {
    let board = Board {
        rows: 3,
        cols: 3,
        cells: vec![
            vec![9, 1, 1],
            vec![1, 1, 9],
            vec![9, 1, 0],
        ],
    };

    assert_eq!(false, is_complete(&board));
}

#[test]
fn test_is_complete_minor_1() {
    let board = Board {
        rows: 3,
        cols: 3,
        cells: vec![
            vec![1, 1, 1],
            vec![1, 0, 1],
            vec![1, 1, 1],
        ],
    };

    assert_eq!(true, is_complete_minor(&board, 1));
}

#[test]
fn test_is_complete_minor_2() {
    let board = Board {
        rows: 3,
        cols: 3,
        cells: vec![
            vec![1, 1, 1],
            vec![1, 0, 1],
            vec![1, 1, 1],
        ],
    };

    assert_eq!(false, is_complete_minor(&board, 2));
}

#[test]
fn test_is_complete_minor_3() {
    // a hole does not matter when checking completeness
    let board = Board {
        rows: 3,
        cols: 3,
        cells: vec![
            vec![1, 1, 1],
            vec![1, 9, 1],
            vec![1, 1, 0],
        ],
    };

    assert_eq!(true, is_complete_minor(&board, 2));
}

#[test]
fn test_is_complete_minor_zero_is_vacuous() {
    let board = Board {
        rows: 2,
        cols: 2,
        cells: vec![vec![0, 0], vec![0, 0]],
    };

    assert_eq!(true, is_complete_minor(&board, 0));
}

#[test]
fn test_is_complete_minor_beyond_the_board() {
    // cells past the board's edge do not exist, so they cannot be off
    let board = Board {
        rows: 2,
        cols: 2,
        cells: vec![vec![1, 1], vec![1, 9]],
    };

    assert_eq!(true, is_complete_minor(&board, 5));
}
