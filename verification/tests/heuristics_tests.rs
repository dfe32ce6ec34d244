use rusty_connect_four::board::{Board, OutOfBounds};
use rusty_connect_four::board_iters::Cell;
use rusty_connect_four::heuristics::{how_good_is_board, score_circle_buffer, CircleBuffer};

fn rows(a: [[u8; 7]; 6]) -> Vec<Vec<u8>> {
    a.iter().map(|r| r.to_vec()).collect()
}

const OOB: Cell = Err(OutOfBounds);

#[test]
fn heuristics_circle_buffer() {
    let mut cb = CircleBuffer::new(vec![]);

    assert_eq!(cb.next(), Some((0, 0)));
    assert_eq!(cb.next(), None);

    let mut cb = CircleBuffer::new(vec![Ok(true), OOB, Ok(false)]);

    assert_eq!(cb.next(), Some((1, 1)));
    assert_eq!(cb.next(), None);

    let mut cb = CircleBuffer::new(vec![Ok(true), Ok(true), OOB, OOB]);

    assert_eq!(cb.next(), Some((0, 2)));
    assert_eq!(cb.next(), None);

    let mut cb = CircleBuffer::new(vec![
        OOB,
        Ok(true),
        OOB,
        Ok(false),
        Ok(false),
        OOB,
        Ok(false),
        Ok(false),
        Ok(true),
        OOB,
        OOB,
        OOB,
        OOB,
    ]);

    assert_eq!(cb.next(), Some((1, 1)));
    assert_eq!(cb.next(), Some((2, 1)));
    assert_eq!(cb.next(), Some((2, 0)));
    assert_eq!(cb.next(), Some((3, 0)));
    assert_eq!(cb.next(), Some((3, 0)));
    assert_eq!(cb.next(), Some((2, 1)));
    assert_eq!(cb.next(), Some((2, 1)));
    assert_eq!(cb.next(), Some((1, 1)));
    assert_eq!(cb.next(), Some((0, 1)));
    assert_eq!(cb.next(), Some((0, 0)));
    assert_eq!(cb.next(), None);
}

#[test]
fn heuristics_scoring_circle_buffer() {
    let cb = CircleBuffer::new(vec![]);

    assert_eq!(score_circle_buffer(cb), 0);

    let cb = CircleBuffer::new(vec![Ok(true), OOB, Ok(false)]);

    assert_eq!(score_circle_buffer(cb), 0);

    let cb = CircleBuffer::new(vec![Ok(true), Ok(true), OOB, OOB]);

    assert_eq!(score_circle_buffer(cb), 10);

    let cb = CircleBuffer::new(vec![
        OOB,
        Ok(true),
        OOB,
        Ok(false),
        Ok(false),
        OOB,
        Ok(false),
        Ok(false),
        Ok(true),
        OOB,
        OOB,
        OOB,
        OOB,
    ]);

    assert_eq!(score_circle_buffer(cb), -209);
}

#[test]
fn heuristics_scoring_board() {
    let board = Board::from_arrays(&rows([
        [0, 0, 0, 0, 0, 0, 0],
        [0, 0, 0, 0, 0, 0, 0],
        [0, 0, 0, 2, 0, 0, 0],
        [0, 0, 0, 2, 0, 0, 0],
        [0, 0, 0, 2, 0, 0, 0],
        [0, 0, 0, 1, 0, 0, 0],
    ]));

    assert_eq!(how_good_is_board(&board), 132);

    let board = Board::from_arrays(&rows([
        [2, 2, 2, 1, 2, 2, 2],
        [1, 1, 1, 2, 1, 1, 1],
        [2, 2, 1, 1, 1, 2, 1],
        [1, 1, 2, 2, 1, 1, 2],
        [2, 2, 1, 1, 2, 2, 1],
        [2, 2, 1, 1, 2, 1, 2],
    ]));

    assert_eq!(how_good_is_board(&board), 0);
}

#[test]
fn mirrored_heuristic_matches() {
    let board = Board::from_arrays(&rows([
        [0, 0, 0, 0, 0, 0, 0],
        [0, 0, 0, 0, 0, 0, 0],
        [0, 0, 0, 2, 0, 0, 0],
        [0, 0, 0, 2, 0, 0, 0],
        [0, 1, 0, 2, 0, 0, 0],
        [0, 1, 0, 1, 0, 2, 0],
    ]));
    let mut flipped = Board::from_arrays(&rows([
        [0, 0, 0, 0, 0, 0, 0],
        [0, 0, 0, 0, 0, 0, 0],
        [0, 0, 0, 2, 0, 0, 0],
        [0, 0, 0, 2, 0, 0, 0],
        [0, 1, 0, 2, 0, 0, 0],
        [0, 1, 0, 1, 0, 2, 0],
    ]));
    flipped.flip();

    assert_eq!(how_good_is_board(&board), how_good_is_board(&flipped));
}
