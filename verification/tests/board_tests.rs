use rusty_connect_four::board::{Board, FullColumn, OutOfBounds};

fn rows(a: [[u8; 7]; 6]) -> Vec<Vec<u8>> {
    a.iter().map(|r| r.to_vec()).collect()
}

#[test]
fn board_from_arrays() {
    let board = Board::from_arrays(&rows([
        [0, 0, 0, 0, 0, 0, 2],
        [0, 0, 0, 0, 0, 0, 2],
        [0, 0, 0, 0, 0, 0, 1],
        [0, 2, 0, 0, 0, 2, 1],
        [0, 1, 2, 0, 0, 1, 2],
        [0, 1, 2, 0, 2, 1, 2],
    ]));

    let ones: [(u8, u8); 6] = [(1, 0), (1, 1), (5, 0), (5, 1), (6, 2), (6, 3)];
    let twos: [(u8, u8); 9] = [
        (1, 2),
        (2, 0),
        (2, 1),
        (4, 0),
        (5, 2),
        (6, 0),
        (6, 1),
        (6, 4),
        (6, 5),
    ];

    for col in 0..7u8 {
        for row in 0..6u8 {
            match board.get_piece(col, row) {
                Ok(piece) => {
                    if piece {
                        assert!(twos.contains(&(col, row)));
                    } else {
                        assert!(ones.contains(&(col, row)));
                    }
                }
                Err(_) => {
                    assert!(!ones.contains(&(col, row)));
                    assert!(!twos.contains(&(col, row)));
                }
            }
        }
    }
}

#[test]
fn board_get_piece() {
    let board = Board::from_arrays(&rows([
        [0, 0, 0, 0, 0, 0, 2],
        [0, 0, 0, 0, 0, 0, 2],
        [0, 0, 0, 0, 0, 0, 1],
        [0, 2, 0, 0, 0, 2, 1],
        [0, 1, 2, 0, 0, 1, 2],
        [0, 1, 2, 0, 2, 1, 2],
    ]));

    assert_eq!(board.get_piece(0, 5), Err(OutOfBounds));
    assert_eq!(board.get_piece(0, 3), Err(OutOfBounds));
    assert_eq!(board.get_piece(0, 2), Err(OutOfBounds));
    assert_eq!(board.get_piece(0, 1), Err(OutOfBounds));
    assert_eq!(board.get_piece(0, 0), Err(OutOfBounds));

    assert_eq!(board.get_piece(1, 5), Err(OutOfBounds));
    assert_eq!(board.get_piece(1, 3), Err(OutOfBounds));
    assert_eq!(board.get_piece(1, 2), Ok(true));
    assert_eq!(board.get_piece(1, 1), Ok(false));
    assert_eq!(board.get_piece(1, 0), Ok(false));

    assert_eq!(board.get_piece(6, 5), Ok(true));
    assert_eq!(board.get_piece(6, 3), Ok(false));
    assert_eq!(board.get_piece(6, 2), Ok(false));
    assert_eq!(board.get_piece(6, 1), Ok(true));
    assert_eq!(board.get_piece(6, 0), Ok(true));
}

#[test]
fn board_drop_piece() {
    let mut board = Board::from_arrays(&rows([
        [0, 0, 0, 0, 0, 0, 2],
        [0, 0, 0, 0, 0, 0, 2],
        [0, 0, 0, 0, 0, 0, 1],
        [0, 2, 0, 0, 0, 2, 1],
        [0, 1, 2, 0, 0, 1, 2],
        [0, 1, 2, 0, 2, 1, 2],
    ]));

    for i in 1..=6u8 {
        let color = (i % 2) == 0;

        assert_eq!(board.drop_piece(3, color), Ok(()));
        assert_eq!(board.get_height(3), i);
        assert_eq!(board.get_piece(3, i - 1), Ok(color));
        assert_eq!(board.get_piece(3, i), Err(OutOfBounds));
    }

    assert_eq!(board.drop_piece(3, true), Err(FullColumn));
    assert_eq!(board.get_height(3), 6);
    assert_eq!(board.get_piece(3, 6), Err(OutOfBounds));
}

#[test]
fn board_get_max_height() {
    let board = Board::from_arrays(&rows([
        [0, 0, 0, 0, 0, 0, 0],
        [0, 0, 0, 0, 0, 0, 0],
        [0, 0, 0, 0, 0, 0, 0],
        [0, 0, 0, 0, 0, 0, 0],
        [0, 0, 0, 0, 0, 0, 0],
        [0, 0, 0, 0, 0, 0, 0],
    ]));

    assert_eq!(board.get_max_height(), 0);

    let board = Board::from_arrays(&rows([
        [0, 0, 0, 0, 0, 0, 0],
        [0, 0, 0, 0, 0, 0, 0],
        [0, 0, 0, 0, 0, 0, 0],
        [0, 0, 0, 0, 0, 0, 0],
        [0, 0, 0, 0, 2, 0, 0],
        [0, 0, 1, 0, 2, 0, 0],
    ]));

    assert_eq!(board.get_max_height(), 2);

    let board = Board::from_arrays(&rows([
        [0, 0, 0, 0, 0, 0, 0],
        [0, 0, 0, 0, 0, 0, 0],
        [1, 0, 0, 0, 0, 0, 0],
        [1, 0, 0, 0, 0, 0, 0],
        [1, 0, 0, 2, 0, 0, 0],
        [1, 0, 0, 2, 0, 1, 0],
    ]));

    assert_eq!(board.get_max_height(), 4);

    let board = Board::from_arrays(&rows([
        [0, 0, 0, 0, 0, 0, 2],
        [0, 0, 0, 0, 0, 0, 2],
        [0, 0, 0, 0, 0, 0, 2],
        [0, 0, 0, 1, 0, 0, 2],
        [0, 0, 0, 1, 0, 0, 2],
        [0, 0, 0, 1, 0, 0, 2],
    ]));

    assert_eq!(board.get_max_height(), 6);
}

#[test]
fn board_flip() {
    let board = Board::from_arrays(&rows([
        [0, 0, 0, 0, 0, 0, 2],
        [0, 0, 0, 0, 0, 0, 2],
        [0, 0, 0, 1, 0, 0, 1],
        [0, 2, 0, 1, 0, 2, 1],
        [0, 1, 2, 1, 0, 1, 2],
        [0, 1, 2, 1, 2, 1, 2],
    ]));

    let mut flipped_board = Board::from_arrays(&rows([
        [2, 0, 0, 0, 0, 0, 0],
        [2, 0, 0, 0, 0, 0, 0],
        [1, 0, 0, 1, 0, 0, 0],
        [1, 2, 0, 1, 0, 2, 0],
        [2, 1, 0, 1, 2, 1, 0],
        [2, 1, 2, 1, 2, 1, 0],
    ]));
    flipped_board.flip();

    assert_eq!(board, flipped_board);
}

#[test]
fn board_to_arrays_round_trip() {
    let position = rows([
        [0, 0, 0, 0, 0, 0, 2],
        [0, 0, 0, 0, 0, 0, 2],
        [0, 0, 0, 1, 0, 0, 1],
        [0, 2, 0, 1, 0, 2, 1],
        [0, 1, 2, 1, 0, 1, 2],
        [0, 1, 2, 1, 2, 1, 2],
    ]);
    let board = Board::from_arrays(&position);
    assert_eq!(board.to_arrays(), position);
}

#[test]
fn board_is_full() {
    let board = Board::from_arrays(&rows([
        [2, 2, 2, 1, 2, 2, 2],
        [1, 1, 1, 2, 1, 1, 1],
        [2, 2, 1, 1, 1, 2, 1],
        [1, 1, 2, 2, 1, 1, 2],
        [2, 2, 1, 1, 2, 2, 1],
        [2, 2, 1, 1, 2, 1, 2],
    ]));
    assert!(board.is_full());

    let board = Board::from_arrays(&rows([
        [2, 2, 2, 1, 2, 2, 0],
        [1, 1, 1, 2, 1, 1, 1],
        [2, 2, 1, 1, 1, 2, 1],
        [1, 1, 2, 2, 1, 1, 2],
        [2, 2, 1, 1, 2, 2, 1],
        [2, 2, 1, 1, 2, 1, 2],
    ]));
    assert!(!board.is_full());
}
