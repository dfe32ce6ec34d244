use rusty_connect_four::board::Board;
use rusty_connect_four::win_check::{check_strips, does_color_win, has_color_won, is_game_over, GameOver};

fn won_vertically(board: &Board, color: bool) -> bool {
    check_strips(&board.vertical_strip_iter(false), color)
}

fn won_upward(board: &Board, color: bool) -> bool {
    check_strips(&board.upward_diagonal_strip_iter(false), color)
}

fn won_downward(board: &Board, color: bool) -> bool {
    check_strips(&board.downward_diagonal_strip_iter(false), color)
}

fn won_horizontally(board: &Board, color: bool) -> bool {
    check_strips(&board.horizontal_strip_iter(), color)
}

fn rows(a: [[u8; 7]; 6]) -> Vec<Vec<u8>> {
    a.iter().map(|r| r.to_vec()).collect()
}

#[test]
fn win_check_horizontal_wins() {
    let board = Board::from_arrays(&rows([
        [2, 2, 2, 1, 2, 2, 2],
        [1, 1, 1, 2, 1, 1, 1],
        [2, 2, 1, 1, 1, 2, 1],
        [1, 1, 2, 2, 1, 1, 2],
        [2, 2, 1, 1, 2, 2, 1],
        [2, 2, 1, 1, 2, 1, 2],
    ]));

    assert!(won_horizontally(&board, false) == false);
    assert!(has_color_won(&board, false) == false);
    assert!(won_horizontally(&board, true) == false);
    assert!(has_color_won(&board, true) == false);

    let board = Board::from_arrays(&rows([
        [2, 2, 2, 2, 0, 0, 0],
        [1, 1, 1, 2, 0, 0, 0],
        [1, 1, 1, 2, 0, 0, 0],
        [1, 1, 1, 2, 0, 0, 0],
        [1, 1, 1, 2, 0, 0, 0],
        [1, 1, 1, 1, 0, 0, 0],
    ]));

    assert!(has_color_won(&board, false));
    assert!(has_color_won(&board, true));

    let board = Board::from_arrays(&rows([
        [0, 0, 0, 2, 2, 2, 2],
        [0, 0, 0, 1, 1, 1, 2],
        [0, 0, 0, 1, 1, 1, 2],
        [0, 0, 0, 1, 1, 1, 2],
        [0, 0, 0, 1, 1, 1, 2],
        [0, 0, 0, 1, 1, 1, 1],
    ]));

    assert!(has_color_won(&board, false));
    assert!(has_color_won(&board, true));

    let board = Board::from_arrays(&rows([
        [0, 0, 0, 0, 0, 0, 0],
        [0, 0, 0, 0, 0, 0, 0],
        [0, 1, 1, 1, 1, 0, 0],
        [0, 2, 2, 2, 1, 0, 0],
        [0, 2, 2, 2, 1, 0, 0],
        [0, 2, 2, 2, 1, 0, 0],
    ]));

    assert!(won_horizontally(&board, false));
    assert!(has_color_won(&board, false));
    assert!(won_horizontally(&board, true) == false);
}

#[test]
fn win_check_vertical_wins() {
    let board = Board::from_arrays(&rows([
        [2, 2, 2, 1, 2, 2, 2],
        [1, 1, 1, 2, 1, 1, 1],
        [1, 2, 1, 1, 1, 2, 1],
        [1, 1, 2, 1, 2, 1, 1],
        [2, 1, 1, 2, 1, 1, 2],
        [1, 1, 2, 2, 2, 1, 1],
    ]));

    assert!(won_vertically(&board, false) == false);
    assert!(won_vertically(&board, true) == false);

    let board = Board::from_arrays(&rows([
        [2, 0, 0, 0, 0, 0, 0],
        [2, 0, 0, 0, 0, 0, 0],
        [2, 0, 0, 0, 0, 0, 1],
        [2, 0, 0, 0, 0, 0, 1],
        [1, 0, 0, 0, 0, 0, 1],
        [1, 0, 0, 0, 0, 0, 1],
    ]));

    assert!(won_vertically(&board, false));
    assert!(has_color_won(&board, false));
    assert!(won_vertically(&board, true));
    assert!(has_color_won(&board, true));

    let board = Board::from_arrays(&rows([
        [0, 0, 0, 0, 0, 0, 2],
        [0, 0, 0, 0, 0, 0, 2],
        [1, 0, 0, 0, 0, 0, 2],
        [1, 0, 0, 0, 0, 0, 2],
        [1, 0, 0, 0, 0, 0, 1],
        [1, 0, 0, 0, 0, 0, 1],
    ]));

    assert!(won_vertically(&board, false));
    assert!(has_color_won(&board, false));
    assert!(won_vertically(&board, true));
    assert!(has_color_won(&board, true));

    let board = Board::from_arrays(&rows([
        [0, 0, 0, 0, 0, 0, 0],
        [0, 0, 0, 2, 0, 0, 0],
        [0, 0, 0, 2, 0, 0, 0],
        [0, 0, 0, 2, 0, 0, 0],
        [0, 0, 0, 2, 0, 0, 0],
        [0, 0, 0, 1, 0, 0, 0],
    ]));

    assert!(won_vertically(&board, false) == false);
    assert!(won_vertically(&board, true));
    assert!(has_color_won(&board, true));
}

#[test]
fn win_check_upward_diagonal_wins() {
    let board = Board::from_arrays(&rows([
        [2, 2, 2, 1, 2, 2, 2],
        [1, 1, 1, 2, 1, 1, 1],
        [1, 2, 1, 1, 1, 2, 1],
        [1, 1, 2, 1, 2, 1, 1],
        [2, 1, 2, 2, 1, 1, 2],
        [1, 1, 1, 2, 2, 1, 1],
    ]));

    assert!(won_upward(&board, false) == false);
    assert!(won_upward(&board, true) == false);

    let board = Board::from_arrays(&rows([
        [0, 0, 0, 0, 0, 0, 2],
        [0, 0, 0, 0, 0, 2, 1],
        [0, 0, 0, 1, 2, 1, 2],
        [0, 0, 1, 2, 1, 1, 1],
        [0, 1, 1, 2, 1, 1, 1],
        [1, 1, 2, 1, 1, 1, 1],
    ]));

    assert!(won_upward(&board, false));
    assert!(has_color_won(&board, false));
    assert!(won_upward(&board, true));
    assert!(has_color_won(&board, true));

    let board = Board::from_arrays(&rows([
        [0, 0, 0, 1, 0, 0, 0],
        [0, 0, 1, 1, 0, 0, 0],
        [0, 1, 1, 1, 0, 0, 2],
        [1, 1, 1, 1, 0, 2, 1],
        [2, 1, 1, 1, 2, 1, 1],
        [2, 1, 1, 2, 1, 1, 1],
    ]));

    assert!(won_upward(&board, false));
    assert!(has_color_won(&board, false));
    assert!(won_upward(&board, true));
    assert!(has_color_won(&board, true));

    let board = Board::from_arrays(&rows([
        [0, 0, 0, 0, 0, 0, 0],
        [0, 0, 0, 0, 1, 0, 0],
        [0, 0, 0, 1, 1, 0, 0],
        [0, 0, 1, 1, 1, 0, 0],
        [0, 1, 1, 1, 1, 0, 0],
        [0, 2, 1, 1, 1, 0, 0],
    ]));

    assert!(won_upward(&board, false));
    assert!(has_color_won(&board, false));
    assert!(won_upward(&board, true) == false);
}

#[test]
fn win_check_downward_diagonal_wins() {
    let board = Board::from_arrays(&rows([
        [2, 2, 2, 1, 2, 2, 2],
        [1, 1, 1, 2, 1, 1, 1],
        [1, 1, 1, 1, 1, 2, 1],
        [1, 1, 2, 1, 2, 1, 1],
        [2, 1, 2, 2, 2, 1, 2],
        [1, 1, 1, 2, 2, 1, 1],
    ]));

    assert!(won_downward(&board, false) == false);
    assert!(won_downward(&board, true) == false);

    let board = Board::from_arrays(&rows([
        [0, 0, 0, 2, 0, 0, 0],
        [0, 0, 0, 2, 2, 0, 0],
        [1, 0, 0, 2, 1, 2, 0],
        [2, 1, 0, 2, 1, 1, 2],
        [2, 2, 1, 2, 1, 1, 1],
        [2, 2, 2, 1, 1, 1, 1],
    ]));

    assert!(won_downward(&board, false));
    assert!(has_color_won(&board, false));
    assert!(won_downward(&board, true));
    assert!(has_color_won(&board, true));

    let board = Board::from_arrays(&rows([
        [1, 0, 0, 0, 0, 0, 0],
        [1, 1, 0, 0, 0, 0, 0],
        [1, 1, 1, 2, 0, 0, 0],
        [1, 1, 1, 1, 2, 0, 0],
        [1, 1, 1, 2, 2, 2, 0],
        [1, 1, 1, 2, 2, 2, 2],
    ]));

    assert!(won_downward(&board, false));
    assert!(has_color_won(&board, false));
    assert!(won_downward(&board, true));
    assert!(has_color_won(&board, true));

    let board = Board::from_arrays(&rows([
        [0, 0, 0, 0, 0, 0, 0],
        [0, 0, 2, 0, 0, 0, 0],
        [0, 0, 1, 2, 0, 0, 0],
        [0, 0, 1, 1, 2, 0, 0],
        [0, 0, 1, 1, 1, 2, 0],
        [0, 0, 1, 1, 1, 2, 0],
    ]));

    assert!(won_downward(&board, false) == false);
    assert!(won_downward(&board, true));
    assert!(has_color_won(&board, true));
}

#[test]
fn no_double_win_in_play() {
    // play out a game move by move; at no reachable position do both colors
    // hold a four-in-a-row
    let mut board = Board::default();
    let moves: [u8; 15] = [3, 3, 2, 4, 4, 2, 2, 5, 1, 1, 5, 0, 6, 6, 5];
    let mut turn = false;
    for col in moves {
        if is_game_over(&board, turn) != GameOver::NoWin {
            break;
        }
        board.drop_piece(col, turn).unwrap();
        turn = !turn;
        assert!(!(does_color_win(&board, true) && does_color_win(&board, false)));
    }
}

#[test]
fn mirrored_win_status_matches() {
    let board = Board::from_arrays(&rows([
        [0, 0, 0, 0, 0, 0, 0],
        [0, 0, 0, 0, 1, 0, 0],
        [0, 0, 0, 1, 1, 0, 0],
        [0, 0, 1, 1, 1, 0, 0],
        [0, 1, 1, 1, 1, 0, 0],
        [0, 2, 1, 2, 1, 2, 0],
    ]));
    let mut flipped = Board::from_arrays(&rows([
        [0, 0, 0, 0, 0, 0, 0],
        [0, 0, 0, 0, 1, 0, 0],
        [0, 0, 0, 1, 1, 0, 0],
        [0, 0, 1, 1, 1, 0, 0],
        [0, 1, 1, 1, 1, 0, 0],
        [0, 2, 1, 2, 1, 2, 0],
    ]));
    flipped.flip();

    for color in [false, true] {
        assert_eq!(has_color_won(&board, color), has_color_won(&flipped, color));
    }
}

#[test]
fn gameover_from_numbers() {
    assert_eq!(GameOver::from(0), GameOver::NoWin);
    assert_eq!(GameOver::from(1), GameOver::Tie);
    assert_eq!(GameOver::from(2), GameOver::OneWins);
    assert_eq!(GameOver::from(3), GameOver::TwoWins);
}

#[test]
fn board_state_gameover_conversion() {
    for i in 0..4u8 {
        let game = GameOver::from(i);
        let new_i = game as u8;
        assert_eq!(i, new_i);
    }
}
