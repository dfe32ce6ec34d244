use rusty_connect_four::board::{Board, OutOfBounds};
use rusty_connect_four::board_iters::Cell;

fn rows(a: [[u8; 7]; 6]) -> Vec<Vec<u8>> {
    a.iter().map(|r| r.to_vec()).collect()
}

fn piece_to_num(piece: Cell) -> u8 {
    match piece {
        Ok(value) => value as u8 + 1,
        Err(_) => 0,
    }
}

fn super_collect(strips: Vec<Vec<Cell>>) -> Vec<Vec<u8>> {
    strips
        .into_iter()
        .map(|strip| strip.into_iter().map(piece_to_num).collect())
        .collect()
}

const OOB: Cell = Err(OutOfBounds);

#[test]
fn horizontal_strip_iter() {
    let board = Board::from_arrays(&rows([
        [0, 0, 0, 0, 0, 0, 0],
        [0, 0, 0, 0, 0, 0, 0],
        [0, 0, 0, 0, 0, 0, 0],
        [0, 0, 0, 0, 0, 0, 0],
        [0, 0, 0, 0, 0, 0, 0],
        [0, 0, 0, 0, 0, 0, 0],
    ]));

    let combined_strips = super_collect(board.horizontal_strip_iter());

    assert_eq!(combined_strips, Vec::<Vec<u8>>::new());

    let mut board = Board::from_arrays(&rows([
        [0, 0, 0, 0, 0, 0, 0],
        [1, 0, 0, 0, 0, 0, 0],
        [1, 0, 0, 0, 0, 0, 0],
        [1, 2, 2, 0, 0, 0, 0],
        [1, 2, 2, 0, 0, 1, 1],
        [1, 1, 2, 0, 1, 2, 2],
    ]));

    let combined_strips = super_collect(board.horizontal_strip_iter());

    assert_eq!(
        combined_strips,
        vec![
            vec![1, 1, 2, 0, 1, 2, 2],
            vec![1, 2, 2, 0, 0, 1, 1],
            vec![1, 2, 2, 0, 0, 0, 0],
            vec![1, 0, 0, 0, 0, 0, 0],
            vec![1, 0, 0, 0, 0, 0, 0],
        ]
    );

    board.drop_piece(0, true).unwrap();

    let combined_strips = super_collect(board.horizontal_strip_iter());

    assert_eq!(
        combined_strips,
        vec![
            vec![1, 1, 2, 0, 1, 2, 2],
            vec![1, 2, 2, 0, 0, 1, 1],
            vec![1, 2, 2, 0, 0, 0, 0],
            vec![1, 0, 0, 0, 0, 0, 0],
            vec![1, 0, 0, 0, 0, 0, 0],
            vec![2, 0, 0, 0, 0, 0, 0],
        ]
    );
}

#[test]
fn vertical_strip_iter() {
    let board = Board::from_arrays(&rows([
        [0, 0, 0, 0, 0, 0, 0],
        [0, 0, 0, 0, 0, 0, 0],
        [0, 0, 0, 0, 0, 0, 0],
        [0, 0, 0, 0, 0, 0, 0],
        [0, 0, 0, 0, 0, 0, 0],
        [0, 0, 0, 0, 0, 0, 0],
    ]));

    let combined_strips = super_collect(board.vertical_strip_iter(false));

    assert_eq!(combined_strips, Vec::<Vec<u8>>::new());

    let mut board = Board::from_arrays(&rows([
        [2, 0, 0, 0, 0, 0, 0],
        [1, 0, 0, 0, 0, 0, 0],
        [1, 0, 1, 0, 0, 0, 0],
        [1, 2, 2, 0, 0, 0, 2],
        [1, 2, 2, 0, 0, 1, 1],
        [1, 1, 2, 0, 1, 2, 2],
    ]));

    let combined_strips = super_collect(board.vertical_strip_iter(false));

    assert_eq!(
        combined_strips,
        vec![vec![1, 1, 1, 1, 1, 2], vec![2, 2, 2, 1],]
    );

    board.drop_piece(6, true).unwrap();

    let combined_strips = super_collect(board.vertical_strip_iter(false));

    assert_eq!(
        combined_strips,
        vec![vec![1, 1, 1, 1, 1, 2], vec![2, 2, 2, 1], vec![2, 1, 2, 2],]
    );
}

#[test]
fn upward_diagonal_strip_iter() {
    let board = Board::from_arrays(&rows([
        [2, 0, 0, 0, 0, 0, 0],
        [1, 0, 0, 0, 0, 0, 0],
        [1, 0, 1, 0, 0, 0, 0],
        [1, 2, 2, 0, 0, 0, 2],
        [1, 2, 2, 0, 0, 1, 1],
        [1, 1, 2, 0, 1, 2, 2],
    ]));

    let combined_strips = super_collect(board.upward_diagonal_strip_iter(false));

    assert_eq!(
        combined_strips,
        vec![
            vec![1, 0, 0, 0],
            vec![1, 2, 1, 0, 0],
            vec![1, 2, 2, 0, 0, 0],
            vec![1, 2, 0, 0, 0, 0],
            vec![2, 0, 0, 0, 0],
            vec![0, 0, 0, 0],
        ]
    );

    let board = Board::from_arrays(&rows([
        [0, 0, 0, 0, 0, 0, 0],
        [1, 0, 0, 0, 0, 0, 0],
        [1, 0, 1, 0, 0, 0, 0],
        [1, 2, 2, 0, 0, 0, 2],
        [1, 2, 2, 0, 0, 1, 1],
        [1, 1, 2, 0, 1, 2, 2],
    ]));

    let combined_strips = super_collect(board.upward_diagonal_strip_iter(false));

    assert_eq!(
        combined_strips,
        vec![
            vec![1, 2, 1, 0],
            vec![1, 2, 2, 0, 0],
            vec![1, 2, 0, 0, 0],
            vec![2, 0, 0, 0, 0],
            vec![0, 0, 0, 0],
        ]
    );

    let board = Board::from_arrays(&rows([
        [0, 0, 0, 0, 0, 0, 0],
        [0, 0, 0, 0, 0, 0, 0],
        [0, 0, 0, 0, 0, 0, 0],
        [1, 2, 2, 0, 0, 0, 2],
        [1, 2, 2, 0, 0, 1, 1],
        [1, 1, 2, 0, 1, 2, 2],
    ]));

    let combined_strips = super_collect(board.upward_diagonal_strip_iter(false));

    assert_eq!(combined_strips, Vec::<Vec<u8>>::new());
}

#[test]
fn downward_diagonal_strip_iter() {
    let board = Board::from_arrays(&rows([
        [2, 0, 0, 0, 0, 0, 0],
        [1, 0, 0, 0, 0, 0, 0],
        [1, 0, 1, 0, 0, 0, 0],
        [1, 2, 2, 0, 0, 0, 2],
        [1, 2, 2, 0, 0, 1, 1],
        [1, 1, 2, 0, 1, 2, 2],
    ]));

    let combined_strips = super_collect(board.downward_diagonal_strip_iter(false));

    assert_eq!(
        combined_strips,
        vec![
            vec![2, 0, 0, 0],
            vec![1, 0, 0, 0, 0],
            vec![2, 1, 0, 0, 0, 0],
            vec![2, 0, 0, 1, 0, 2],
            vec![1, 0, 2, 0, 1],
            vec![0, 2, 2, 1],
        ]
    );

    let board = Board::from_arrays(&rows([
        [0, 0, 0, 0, 0, 0, 0],
        [1, 0, 0, 0, 0, 0, 0],
        [1, 0, 1, 0, 0, 0, 0],
        [1, 2, 2, 0, 0, 0, 2],
        [1, 2, 2, 0, 0, 1, 1],
        [1, 1, 2, 0, 1, 2, 2],
    ]));

    let combined_strips = super_collect(board.downward_diagonal_strip_iter(false));

    assert_eq!(
        combined_strips,
        vec![
            vec![1, 0, 0, 0],
            vec![2, 1, 0, 0, 0],
            vec![2, 0, 0, 1, 0],
            vec![1, 0, 2, 0, 1],
            vec![0, 2, 2, 1],
        ]
    );

    let board = Board::from_arrays(&rows([
        [0, 0, 0, 0, 0, 0, 0],
        [0, 0, 0, 0, 0, 0, 0],
        [0, 0, 0, 0, 0, 0, 0],
        [1, 2, 2, 0, 0, 0, 2],
        [1, 2, 2, 0, 0, 1, 1],
        [1, 1, 2, 0, 1, 2, 2],
    ]));

    let combined_strips = super_collect(board.upward_diagonal_strip_iter(false));

    assert_eq!(combined_strips, Vec::<Vec<u8>>::new());
}

#[test]
fn vertical_strip_iter_full() {
    let board = Board::from_arrays(&rows([
        [0, 0, 0, 0, 0, 0, 0],
        [0, 0, 0, 0, 0, 0, 0],
        [0, 0, 0, 0, 0, 0, 0],
        [0, 0, 0, 0, 0, 0, 0],
        [0, 0, 0, 0, 0, 0, 0],
        [0, 0, 0, 0, 0, 0, 0],
    ]));

    let combined_strips = super_collect(board.vertical_strip_iter(true));

    assert_eq!(combined_strips, Vec::<Vec<u8>>::new());

    let mut board = Board::from_arrays(&rows([
        [2, 0, 0, 0, 0, 0, 0],
        [1, 0, 0, 0, 0, 0, 0],
        [1, 0, 1, 0, 0, 0, 0],
        [1, 2, 2, 0, 0, 0, 2],
        [1, 2, 2, 0, 0, 1, 1],
        [1, 1, 2, 0, 1, 2, 2],
    ]));

    let combined_strips = super_collect(board.vertical_strip_iter(true));

    assert_eq!(
        combined_strips,
        vec![
            vec![1, 1, 1, 1, 1, 2],
            vec![1, 2, 2, 0, 0, 0],
            vec![2, 2, 2, 1, 0, 0],
            vec![1, 0, 0, 0],
            vec![2, 1, 0, 0, 0],
            vec![2, 1, 2, 0, 0, 0],
        ]
    );

    board.drop_piece(6, true).unwrap();

    let combined_strips = super_collect(board.vertical_strip_iter(true));

    assert_eq!(
        combined_strips,
        vec![
            vec![1, 1, 1, 1, 1, 2],
            vec![1, 2, 2, 0, 0, 0],
            vec![2, 2, 2, 1, 0, 0],
            vec![1, 0, 0, 0],
            vec![2, 1, 0, 0, 0],
            vec![2, 1, 2, 2, 0, 0],
        ]
    );
}

#[test]
fn upward_diagonal_strip_iter_full() {
    let board = Board::from_arrays(&rows([
        [2, 0, 0, 0, 0, 0, 0],
        [1, 0, 0, 0, 0, 0, 0],
        [1, 0, 1, 0, 0, 0, 0],
        [1, 2, 2, 0, 0, 0, 2],
        [1, 2, 2, 0, 0, 1, 1],
        [1, 1, 2, 0, 1, 2, 2],
    ]));

    let combined_strips = super_collect(board.upward_diagonal_strip_iter(true));

    assert_eq!(
        combined_strips,
        vec![
            vec![1, 0, 0, 0],
            vec![1, 2, 1, 0, 0],
            vec![1, 2, 2, 0, 0, 0],
            vec![1, 2, 0, 0, 0, 0],
            vec![2, 0, 0, 0, 0],
            vec![0, 0, 0, 0],
        ]
    );

    let board = Board::from_arrays(&rows([
        [0, 0, 0, 0, 0, 0, 0],
        [1, 0, 0, 0, 0, 0, 0],
        [1, 0, 1, 0, 0, 0, 0],
        [1, 2, 2, 0, 0, 0, 2],
        [1, 2, 2, 0, 0, 1, 1],
        [1, 1, 2, 0, 1, 2, 2],
    ]));

    let combined_strips = super_collect(board.upward_diagonal_strip_iter(true));

    assert_eq!(
        combined_strips,
        vec![
            vec![1, 0, 0, 0],
            vec![1, 2, 1, 0, 0],
            vec![1, 2, 2, 0, 0, 0],
            vec![1, 2, 0, 0, 0, 0],
            vec![2, 0, 0, 0, 0],
            vec![0, 0, 0, 0],
        ]
    );

    let board = Board::from_arrays(&rows([
        [0, 0, 0, 0, 0, 0, 0],
        [0, 0, 0, 0, 0, 0, 0],
        [0, 0, 0, 0, 0, 0, 0],
        [1, 2, 2, 0, 0, 0, 2],
        [1, 2, 2, 0, 0, 1, 1],
        [1, 1, 2, 0, 1, 2, 2],
    ]));

    let combined_strips = super_collect(board.upward_diagonal_strip_iter(true));

    assert_eq!(
        combined_strips,
        vec![
            vec![1, 0, 0, 0],
            vec![1, 2, 0, 0, 0],
            vec![1, 2, 2, 0, 0, 0],
            vec![1, 2, 0, 0, 0, 0],
            vec![2, 0, 0, 0, 0],
            vec![0, 0, 0, 0],
        ]
    );

    let board = Board::from_arrays(&rows([
        [0, 0, 0, 0, 0, 0, 0],
        [0, 0, 0, 0, 0, 0, 0],
        [0, 0, 0, 0, 0, 0, 0],
        [0, 0, 0, 0, 0, 0, 0],
        [0, 0, 0, 0, 0, 0, 0],
        [1, 1, 2, 0, 1, 2, 2],
    ]));

    let combined_strips = super_collect(board.upward_diagonal_strip_iter(true));

    assert_eq!(
        combined_strips,
        vec![
            vec![1, 0, 0, 0],
            vec![1, 0, 0, 0],
            vec![2, 0, 0, 0],
            vec![0, 0, 0, 0],
        ]
    );
}

#[test]
fn downward_diagonal_strip_iter_full() {
    let board = Board::from_arrays(&rows([
        [2, 0, 0, 0, 0, 0, 0],
        [1, 0, 0, 0, 0, 0, 0],
        [1, 0, 1, 0, 0, 0, 0],
        [1, 2, 2, 0, 0, 0, 2],
        [1, 2, 2, 0, 0, 1, 1],
        [1, 1, 2, 0, 1, 2, 2],
    ]));

    let combined_strips = super_collect(board.downward_diagonal_strip_iter(true));

    assert_eq!(
        combined_strips,
        vec![
            vec![2, 0, 0, 0],
            vec![1, 0, 0, 0, 0],
            vec![2, 1, 0, 0, 0, 0],
            vec![2, 0, 0, 1, 0, 2],
            vec![1, 0, 2, 0, 1],
            vec![0, 2, 2, 1],
        ]
    );

    let board = Board::from_arrays(&rows([
        [0, 0, 0, 0, 0, 0, 0],
        [1, 0, 0, 0, 0, 0, 0],
        [1, 0, 1, 0, 0, 0, 0],
        [1, 2, 2, 0, 0, 0, 2],
        [1, 2, 2, 0, 0, 1, 1],
        [1, 1, 2, 0, 1, 2, 2],
    ]));

    let combined_strips = super_collect(board.downward_diagonal_strip_iter(true));

    assert_eq!(
        combined_strips,
        vec![
            vec![2, 0, 0, 0],
            vec![1, 0, 0, 0, 0],
            vec![2, 1, 0, 0, 0, 0],
            vec![2, 0, 0, 1, 0, 0],
            vec![1, 0, 2, 0, 1],
            vec![0, 2, 2, 1],
        ]
    );

    let board = Board::from_arrays(&rows([
        [0, 0, 0, 0, 0, 0, 0],
        [0, 0, 0, 0, 0, 0, 0],
        [0, 0, 0, 0, 0, 0, 0],
        [1, 2, 2, 0, 0, 0, 2],
        [1, 2, 2, 0, 0, 1, 1],
        [1, 1, 2, 0, 1, 2, 2],
    ]));

    let combined_strips = super_collect(board.downward_diagonal_strip_iter(true));

    assert_eq!(
        combined_strips,
        vec![
            vec![2, 0, 0, 0],
            vec![1, 0, 0, 0, 0],
            vec![2, 1, 0, 0, 0, 0],
            vec![2, 0, 0, 0, 0, 0],
            vec![1, 0, 2, 0, 0],
            vec![0, 2, 2, 0],
        ]
    );

    let board = Board::from_arrays(&rows([
        [0, 0, 0, 0, 0, 0, 0],
        [0, 0, 0, 0, 0, 0, 0],
        [0, 0, 0, 0, 0, 0, 0],
        [0, 0, 0, 0, 0, 0, 0],
        [0, 0, 0, 0, 0, 0, 0],
        [1, 1, 2, 0, 1, 2, 2],
    ]));

    let combined_strips = super_collect(board.downward_diagonal_strip_iter(true));

    assert_eq!(
        combined_strips,
        vec![
            vec![2, 0, 0, 0],
            vec![2, 0, 0, 0],
            vec![1, 0, 0, 0],
            vec![0, 0, 0, 0],
        ]
    );
}

#[test]
fn iters_len() {
    let board = Board::from_arrays(&rows([
        [2, 0, 0, 0, 0, 0, 0],
        [1, 0, 0, 0, 0, 0, 0],
        [1, 0, 1, 0, 0, 0, 0],
        [1, 2, 2, 0, 0, 0, 2],
        [1, 2, 2, 0, 0, 1, 1],
        [1, 1, 2, 0, 1, 2, 2],
    ]));

    let horizontal_lens: Vec<usize> = board.horizontal_strip_iter().iter().map(|s| s.len()).collect();
    assert_eq!(horizontal_lens, vec![7, 7, 7, 7, 7, 7]);

    let vertical_lens: Vec<usize> = board.vertical_strip_iter(false).iter().map(|s| s.len()).collect();
    assert_eq!(vertical_lens, vec![6, 4]);

    let upward_lens: Vec<usize> = board
        .upward_diagonal_strip_iter(false)
        .iter()
        .map(|s| s.len())
        .collect();
    assert_eq!(upward_lens, vec![4, 5, 6, 6, 5, 4]);

    let downward_lens: Vec<usize> = board
        .downward_diagonal_strip_iter(false)
        .iter()
        .map(|s| s.len())
        .collect();
    assert_eq!(downward_lens, vec![4, 5, 6, 6, 5, 4]);

    let board = Board::from_arrays(&rows([
        [0, 0, 0, 0, 0, 0, 0],
        [1, 0, 0, 0, 0, 0, 0],
        [1, 0, 1, 0, 0, 0, 0],
        [1, 2, 2, 0, 0, 0, 2],
        [1, 2, 2, 0, 0, 1, 1],
        [1, 1, 2, 0, 1, 2, 2],
    ]));

    let horizontal_lens: Vec<usize> = board.horizontal_strip_iter().iter().map(|s| s.len()).collect();
    assert_eq!(horizontal_lens, vec![7, 7, 7, 7, 7]);

    let vertical_lens: Vec<usize> = board.vertical_strip_iter(false).iter().map(|s| s.len()).collect();
    assert_eq!(vertical_lens, vec![5, 4]);

    let upward_lens: Vec<usize> = board
        .upward_diagonal_strip_iter(false)
        .iter()
        .map(|s| s.len())
        .collect();
    assert_eq!(upward_lens, vec![4, 5, 5, 5, 4]);

    let downward_lens: Vec<usize> = board
        .downward_diagonal_strip_iter(false)
        .iter()
        .map(|s| s.len())
        .collect();
    assert_eq!(downward_lens, vec![4, 5, 5, 5, 4]);

    let board = Board::from_arrays(&rows([
        [0, 0, 0, 0, 0, 0, 0],
        [0, 0, 0, 0, 0, 0, 0],
        [1, 0, 1, 0, 0, 0, 0],
        [1, 2, 2, 0, 0, 0, 2],
        [1, 2, 2, 0, 0, 1, 1],
        [1, 1, 2, 0, 1, 2, 2],
    ]));

    let horizontal_lens: Vec<usize> = board.horizontal_strip_iter().iter().map(|s| s.len()).collect();
    assert_eq!(horizontal_lens, vec![7, 7, 7, 7]);

    let vertical_lens: Vec<usize> = board.vertical_strip_iter(false).iter().map(|s| s.len()).collect();
    assert_eq!(vertical_lens, vec![4, 4]);

    let upward_lens: Vec<usize> = board
        .upward_diagonal_strip_iter(false)
        .iter()
        .map(|s| s.len())
        .collect();
    assert_eq!(upward_lens, vec![4, 4, 4, 4]);

    let downward_lens: Vec<usize> = board
        .downward_diagonal_strip_iter(false)
        .iter()
        .map(|s| s.len())
        .collect();
    assert_eq!(downward_lens, vec![4, 4, 4, 4]);

    let board = Board::from_arrays(&rows([
        [0, 0, 0, 0, 0, 0, 0],
        [0, 0, 0, 0, 0, 0, 0],
        [0, 0, 0, 0, 0, 0, 0],
        [1, 2, 2, 0, 0, 0, 2],
        [1, 2, 2, 0, 0, 1, 1],
        [1, 1, 2, 0, 1, 2, 2],
    ]));

    let horizontal_lens: Vec<usize> = board.horizontal_strip_iter().iter().map(|s| s.len()).collect();
    assert_eq!(horizontal_lens, vec![7, 7, 7]);

    let vertical_lens: Vec<usize> = board.vertical_strip_iter(false).iter().map(|s| s.len()).collect();
    assert_eq!(vertical_lens, Vec::<usize>::new());

    let upward_lens: Vec<usize> = board
        .upward_diagonal_strip_iter(false)
        .iter()
        .map(|s| s.len())
        .collect();
    assert_eq!(upward_lens, Vec::<usize>::new());

    let downward_lens: Vec<usize> = board
        .downward_diagonal_strip_iter(false)
        .iter()
        .map(|s| s.len())
        .collect();
    assert_eq!(downward_lens, Vec::<usize>::new());

    let board = Board::from_arrays(&rows([
        [0, 0, 0, 0, 0, 0, 0],
        [0, 0, 0, 0, 0, 0, 0],
        [0, 0, 0, 0, 0, 0, 0],
        [0, 0, 0, 0, 0, 0, 0],
        [0, 0, 0, 0, 0, 0, 0],
        [1, 1, 2, 0, 1, 2, 2],
    ]));

    let horizontal_lens: Vec<usize> = board.horizontal_strip_iter().iter().map(|s| s.len()).collect();
    assert_eq!(horizontal_lens, vec![7]);

    let vertical_lens: Vec<usize> = board.vertical_strip_iter(false).iter().map(|s| s.len()).collect();
    assert_eq!(vertical_lens, Vec::<usize>::new());

    let upward_lens: Vec<usize> = board
        .upward_diagonal_strip_iter(false)
        .iter()
        .map(|s| s.len())
        .collect();
    assert_eq!(upward_lens, Vec::<usize>::new());

    let downward_lens: Vec<usize> = board
        .downward_diagonal_strip_iter(false)
        .iter()
        .map(|s| s.len())
        .collect();
    assert_eq!(downward_lens, Vec::<usize>::new());
}

#[test]
fn iters_len_full() {
    let board = Board::from_arrays(&rows([
        [2, 0, 0, 0, 0, 0, 0],
        [1, 0, 0, 0, 0, 0, 0],
        [1, 0, 1, 0, 0, 0, 0],
        [1, 2, 2, 0, 0, 0, 2],
        [1, 2, 2, 0, 0, 1, 1],
        [1, 1, 2, 0, 1, 2, 2],
    ]));

    let vertical_lens: Vec<usize> = board.vertical_strip_iter(true).iter().map(|s| s.len()).collect();
    assert_eq!(vertical_lens, vec![6, 6, 6, 4, 5, 6]);

    let upward_lens: Vec<usize> = board
        .upward_diagonal_strip_iter(true)
        .iter()
        .map(|s| s.len())
        .collect();
    assert_eq!(upward_lens, vec![4, 5, 6, 6, 5, 4]);

    let downward_lens: Vec<usize> = board
        .downward_diagonal_strip_iter(true)
        .iter()
        .map(|s| s.len())
        .collect();
    assert_eq!(downward_lens, vec![4, 5, 6, 6, 5, 4]);

    let board = Board::from_arrays(&rows([
        [0, 0, 0, 0, 0, 0, 0],
        [1, 0, 0, 0, 0, 0, 0],
        [1, 0, 1, 0, 0, 0, 0],
        [1, 2, 2, 0, 0, 0, 2],
        [1, 2, 2, 0, 0, 1, 1],
        [1, 1, 2, 0, 1, 2, 2],
    ]));

    let vertical_lens: Vec<usize> = board.vertical_strip_iter(true).iter().map(|s| s.len()).collect();
    assert_eq!(vertical_lens, vec![6, 6, 6, 4, 5, 6]);

    let upward_lens: Vec<usize> = board
        .upward_diagonal_strip_iter(true)
        .iter()
        .map(|s| s.len())
        .collect();
    assert_eq!(upward_lens, vec![4, 5, 6, 6, 5, 4]);

    let downward_lens: Vec<usize> = board
        .downward_diagonal_strip_iter(true)
        .iter()
        .map(|s| s.len())
        .collect();
    assert_eq!(downward_lens, vec![4, 5, 6, 6, 5, 4]);

    let board = Board::from_arrays(&rows([
        [0, 0, 0, 0, 0, 0, 0],
        [0, 0, 0, 0, 0, 0, 0],
        [1, 0, 1, 0, 0, 0, 0],
        [1, 2, 2, 0, 0, 0, 2],
        [1, 2, 2, 0, 0, 1, 1],
        [1, 1, 2, 0, 1, 2, 2],
    ]));

    let vertical_lens: Vec<usize> = board.vertical_strip_iter(true).iter().map(|s| s.len()).collect();
    assert_eq!(vertical_lens, vec![6, 6, 6, 4, 5, 6]);

    let upward_lens: Vec<usize> = board
        .upward_diagonal_strip_iter(true)
        .iter()
        .map(|s| s.len())
        .collect();
    assert_eq!(upward_lens, vec![4, 5, 6, 6, 5, 4]);

    let downward_lens: Vec<usize> = board
        .downward_diagonal_strip_iter(true)
        .iter()
        .map(|s| s.len())
        .collect();
    assert_eq!(downward_lens, vec![4, 5, 6, 6, 5, 4]);

    let board = Board::from_arrays(&rows([
        [0, 0, 0, 0, 0, 0, 0],
        [0, 0, 0, 0, 0, 0, 0],
        [0, 0, 0, 0, 0, 0, 0],
        [1, 2, 2, 0, 0, 0, 2],
        [1, 2, 2, 0, 0, 1, 1],
        [1, 1, 2, 0, 1, 2, 2],
    ]));

    let vertical_lens: Vec<usize> = board.vertical_strip_iter(true).iter().map(|s| s.len()).collect();
    assert_eq!(vertical_lens, vec![6, 6, 6, 4, 5, 6]);

    let upward_lens: Vec<usize> = board
        .upward_diagonal_strip_iter(true)
        .iter()
        .map(|s| s.len())
        .collect();
    assert_eq!(upward_lens, vec![4, 5, 6, 6, 5, 4]);

    let downward_lens: Vec<usize> = board
        .downward_diagonal_strip_iter(true)
        .iter()
        .map(|s| s.len())
        .collect();
    assert_eq!(downward_lens, vec![4, 5, 6, 6, 5, 4]);

    let board = Board::from_arrays(&rows([
        [0, 0, 0, 0, 0, 0, 0],
        [0, 0, 0, 0, 0, 0, 0],
        [0, 0, 0, 0, 0, 0, 0],
        [0, 0, 0, 0, 0, 0, 0],
        [0, 0, 0, 0, 0, 0, 0],
        [1, 1, 2, 0, 1, 2, 2],
    ]));

    let vertical_lens: Vec<usize> = board.vertical_strip_iter(true).iter().map(|s| s.len()).collect();
    assert_eq!(vertical_lens, vec![4, 4, 4, 4, 4, 4]);

    let upward_lens: Vec<usize> = board
        .upward_diagonal_strip_iter(true)
        .iter()
        .map(|s| s.len())
        .collect();
    assert_eq!(upward_lens, vec![4, 4, 4, 4]);

    let downward_lens: Vec<usize> = board
        .downward_diagonal_strip_iter(true)
        .iter()
        .map(|s| s.len())
        .collect();
    assert_eq!(downward_lens, vec![4, 4, 4, 4]);
}

#[test]
fn strips_use_oob_cells() {
    let board = Board::from_arrays(&rows([
        [0, 0, 0, 0, 0, 0, 0],
        [0, 0, 0, 0, 0, 0, 0],
        [0, 0, 0, 0, 0, 0, 0],
        [0, 0, 0, 0, 0, 0, 0],
        [0, 0, 0, 0, 0, 0, 0],
        [1, 0, 0, 0, 0, 0, 0],
    ]));
    let strips = board.horizontal_strip_iter();
    assert_eq!(strips.len(), 1);
    assert_eq!(strips[0][0], Ok(false));
    assert_eq!(strips[0][1], OOB);
}
