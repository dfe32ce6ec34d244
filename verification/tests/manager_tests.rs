use std::collections::HashMap;

use rusty_connect_four::game_manager::{GameManager, MoveError};
use rusty_connect_four::players::medium_choose_move;
use rusty_connect_four::win_check::GameOver;

fn rows(a: [[u8; 7]; 6]) -> Vec<Vec<u8>> {
    a.iter().map(|r| r.to_vec()).collect()
}

#[test]
fn game_manager_board_translation() {
    let board_array = rows([
        [0, 0, 0, 0, 0, 0, 2],
        [0, 0, 0, 0, 0, 0, 2],
        [0, 0, 0, 0, 0, 0, 1],
        [0, 2, 0, 0, 0, 2, 1],
        [0, 1, 2, 0, 0, 1, 2],
        [0, 1, 2, 0, 2, 1, 2],
    ]);

    let manager = GameManager::start_from_position(&board_array, true);

    assert_eq!(manager.get_position(), board_array);
}

#[test]
fn game_manager_generates_to_win() {
    let board_array = rows([
        [1, 2, 2, 1, 1, 0, 0],
        [1, 2, 1, 2, 1, 2, 0],
        [1, 2, 1, 2, 1, 2, 0],
        [2, 1, 2, 1, 2, 1, 0],
        [2, 1, 2, 1, 2, 1, 0],
        [2, 1, 2, 1, 2, 1, 0],
    ]);

    let mut manager = GameManager::start_from_position(&board_array, false);
    manager.try_generate_x_states(10000);

    let move_scores = manager.get_move_scores();
    // the first player to move can force a win down column 5
    assert_eq!(move_scores[&5], isize::MAX);

    let mut manager = GameManager::start_from_position(&board_array, true);
    manager.try_generate_x_states(10000);

    let move_scores = manager.get_move_scores();
    // with the second player to move, neither open column wins
    assert_eq!(move_scores[&5], 0);
    assert_eq!(move_scores[&6], 0);
}

#[test]
fn game_manager_drops_successful() {
    let board_array = rows([
        [1, 2, 2, 1, 1, 0, 0],
        [1, 2, 1, 2, 1, 2, 0],
        [1, 2, 1, 2, 1, 2, 0],
        [2, 1, 2, 1, 2, 1, 0],
        [2, 1, 2, 1, 2, 1, 0],
        [2, 1, 2, 1, 2, 1, 0],
    ]);

    let mut manager = GameManager::start_from_position(&board_array, false);

    manager.make_move(5).unwrap();
    manager.make_move(5).unwrap_err();
    manager.make_move(4).unwrap_err();
    manager.make_move(0).unwrap_err();
    manager.make_move(6).unwrap();
    manager.make_move(6).unwrap();
    manager.make_move(6).unwrap();
    manager.make_move(6).unwrap();
    manager.make_move(6).unwrap();
    manager.make_move(6).unwrap();
    manager.make_move(6).unwrap_err();
    assert_eq!(manager.is_game_over(), GameOver::OneWins);

    let mut manager = GameManager::start_from_position(&board_array, true);

    manager.make_move(5).unwrap();
    manager.make_move(5).unwrap_err();
    manager.make_move(4).unwrap_err();
    manager.make_move(0).unwrap_err();
    manager.make_move(6).unwrap();
    manager.make_move(6).unwrap();
    manager.make_move(6).unwrap();
    manager.make_move(6).unwrap();
    manager.make_move(6).unwrap();
    manager.make_move(6).unwrap();
    manager.make_move(6).unwrap_err();
    assert_eq!(manager.is_game_over(), GameOver::Tie);
}

#[test]
fn game_manager_correct_predictions() {
    let board_array = rows([
        [1, 2, 2, 1, 1, 0, 0],
        [1, 2, 1, 2, 1, 2, 0],
        [1, 2, 1, 2, 1, 2, 0],
        [2, 1, 2, 1, 2, 1, 0],
        [2, 1, 2, 1, 2, 1, 0],
        [2, 1, 2, 1, 2, 1, 0],
    ]);

    let mut manager = GameManager::start_from_position(&board_array, false);
    manager.try_generate_x_states(10000);

    let move_scores = manager.get_move_scores();
    let mut real_move_scores = HashMap::new();
    real_move_scores.insert(5, isize::MAX);
    real_move_scores.insert(6, 0);
    assert_eq!(move_scores, real_move_scores);

    let mut manager = GameManager::start_from_position(&board_array, true);
    manager.try_generate_x_states(10000);

    let move_scores = manager.get_move_scores();
    let mut real_move_scores = HashMap::new();
    real_move_scores.insert(5, 0);
    real_move_scores.insert(6, 0);
    assert_eq!(move_scores, real_move_scores);

    let board_array = rows([
        [0, 0, 0, 0, 0, 0, 0],
        [0, 0, 0, 0, 0, 0, 0],
        [0, 0, 0, 2, 0, 0, 0],
        [0, 0, 0, 2, 0, 0, 0],
        [0, 0, 0, 2, 0, 0, 0],
        [0, 0, 0, 1, 0, 0, 0],
    ]);

    let mut manager = GameManager::start_from_position(&board_array, false);
    manager.try_generate_x_states(10000);

    let move_scores = manager.get_move_scores();
    for (col, score) in move_scores {
        if col == 3 {
            assert_ne!(score, isize::MIN);
        } else {
            assert_eq!(score, isize::MIN);
        }
    }

    let mut manager = GameManager::start_from_position(&board_array, true);
    manager.try_generate_x_states(10000);

    let move_scores = manager.get_move_scores();
    for (col, score) in move_scores {
        if col == 3 {
            assert_eq!(score, isize::MAX);
        } else {
            assert_ne!(score, isize::MAX);
        }
    }
}

#[test]
fn generation_is_monotonic() {
    let board_array = rows([
        [1, 2, 2, 1, 1, 0, 0],
        [1, 2, 1, 2, 1, 2, 0],
        [1, 2, 1, 2, 1, 2, 0],
        [2, 1, 2, 1, 2, 1, 0],
        [2, 1, 2, 1, 2, 1, 0],
        [2, 1, 2, 1, 2, 1, 0],
    ]);

    let mut manager = GameManager::start_from_position(&board_array, false);
    let mut last_count = manager.size().size;
    for _ in 0..30 {
        manager.try_generate_x_states(3);
        let count = manager.size().size;
        assert!(count >= last_count);
        last_count = count;
    }

    // the reachable tree here is tiny; once it is fully expanded the
    // generator reports nothing more
    manager.try_generate_x_states(100000);
    assert_eq!(manager.try_generate_x_states(1000), 0);
    let settled = manager.size().size;
    manager.try_generate_x_states(1000);
    assert_eq!(manager.size().size, settled);
}

#[test]
fn invalid_move_changes_nothing() {
    let board_array = rows([
        [0, 0, 0, 0, 0, 0, 0],
        [0, 0, 0, 0, 0, 0, 0],
        [0, 0, 0, 2, 0, 0, 0],
        [0, 0, 0, 2, 0, 0, 0],
        [2, 1, 0, 2, 0, 0, 1],
        [1, 2, 1, 1, 0, 1, 2],
    ]);

    let mut manager = GameManager::start_from_position(&board_array, false);
    manager.try_generate_x_states(50);

    let position_before = manager.get_position();
    let size_before = manager.size();

    // column 9 does not exist
    assert_eq!(manager.make_move(9), Err(MoveError::InvalidColumn));

    assert_eq!(manager.get_position(), position_before);
    assert_eq!(manager.size().size, size_before.size);
    assert_eq!(manager.size().depth, size_before.depth);
    assert_eq!(manager.size().memory, size_before.memory);
}

#[test]
fn finished_game_rejects_moves() {
    let board_array = rows([
        [0, 0, 0, 0, 0, 0, 0],
        [0, 0, 0, 0, 0, 0, 0],
        [0, 0, 0, 0, 0, 0, 0],
        [0, 0, 0, 0, 0, 0, 0],
        [0, 0, 0, 0, 0, 0, 0],
        [1, 1, 1, 1, 2, 2, 2],
    ]);

    let mut manager = GameManager::start_from_position(&board_array, true);
    assert_eq!(manager.is_game_over(), GameOver::OneWins);
    assert_eq!(manager.make_move(4), Err(MoveError::GameAlreadyOver));
}

#[test]
fn new_game_is_empty() {
    let manager = GameManager::new_game();
    assert_eq!(manager.is_game_over(), GameOver::NoWin);
    let position = manager.get_position();
    for row in position {
        for cell in row {
            assert_eq!(cell, 0);
        }
    }
}

#[test]
fn medium_chooser_avoids_losing_moves() {
    // the column paired with the losing sentinel must never come out while
    // a survivable move exists
    let moves: Vec<(isize, u8)> = vec![(isize::MIN, 2), (0, 4), (10, 3)];
    for _ in 0..40 {
        let pick = medium_choose_move(&moves);
        assert!(pick == 4 || pick == 3);
    }

    // with only losing moves the backup move is taken
    let moves: Vec<(isize, u8)> = vec![(isize::MIN, 1), (isize::MIN, 5)];
    assert_eq!(medium_choose_move(&moves), 1);
}
