use rusty_connect_four::board::Board;
use rusty_connect_four::board_state::{BoardState, ChildState};
use rusty_connect_four::layer_generator::LayerGenerator;
use rusty_connect_four::transposition::{IsFlipped, TranspositionStateTable, TranspositionTable};
use rusty_connect_four::tree_analysis::how_good_is;
use rusty_connect_four::tree_size::calculate_size;
use rusty_connect_four::win_check::{has_color_won, GameOver};

fn rows(a: [[u8; 7]; 6]) -> Vec<Vec<u8>> {
    a.iter().map(|r| r.to_vec()).collect()
}

fn node(table: &TranspositionStateTable, i: usize) -> &BoardState {
    table.nodes_ref()[i].as_ref().unwrap()
}

#[test]
fn transposes() {
    let board = Board::from_arrays(&rows([
        [0, 0, 0, 0, 0, 0, 2],
        [0, 0, 0, 0, 0, 0, 2],
        [0, 0, 0, 1, 0, 0, 1],
        [0, 2, 0, 1, 0, 2, 1],
        [0, 1, 2, 1, 0, 1, 2],
        [0, 1, 2, 1, 2, 1, 2],
    ]));

    let flipped_board = Board::from_arrays(&rows([
        [2, 0, 0, 0, 0, 0, 0],
        [2, 0, 0, 0, 0, 0, 0],
        [1, 0, 0, 1, 0, 0, 0],
        [1, 2, 0, 1, 0, 2, 0],
        [2, 1, 0, 1, 2, 1, 0],
        [2, 1, 2, 1, 2, 1, 0],
    ]));

    let mut table = TranspositionStateTable::new();

    let (state, state_is_flipped) = table.get_board_state(board, false);
    let (flipped, flipped_is_flipped) = table.get_board_state(flipped_board, false);

    assert_eq!(state, flipped);
    assert_eq!(state_is_flipped, IsFlipped::Normal);
    assert_eq!(flipped_is_flipped, IsFlipped::Flipped);

    let board = Board::from_arrays(&rows([
        [0, 0, 0, 0, 0, 0, 2],
        [0, 0, 0, 0, 0, 0, 2],
        [0, 0, 0, 1, 0, 0, 1],
        [0, 2, 0, 1, 0, 2, 1],
        [0, 1, 2, 1, 0, 1, 2],
        [0, 1, 2, 1, 2, 1, 2],
    ]));

    let (clone, clone_is_flipped) = table.get_board_state(board, false);
    assert_eq!(state, clone);
    assert_eq!(clone_is_flipped, IsFlipped::Normal);
}

#[test]
fn new_reference() {
    let board = Board::from_arrays(&rows([
        [0, 0, 0, 0, 0, 0, 2],
        [0, 0, 0, 0, 0, 0, 2],
        [0, 0, 0, 1, 0, 0, 1],
        [0, 2, 0, 1, 0, 2, 1],
        [0, 1, 2, 1, 0, 1, 2],
        [0, 1, 2, 1, 2, 1, 2],
    ]));

    let mut table = TranspositionStateTable::new();

    let (_state, _) = table.get_board_state(board, false);
    // in the arena, a node is dropped by sweeping to a root that cannot
    // reach it
    let (keeper, _) = table.get_board_state(Board::default(), true);
    table.clean(keeper);

    let flipped_board = Board::from_arrays(&rows([
        [2, 0, 0, 0, 0, 0, 0],
        [2, 0, 0, 0, 0, 0, 0],
        [1, 0, 0, 1, 0, 0, 0],
        [1, 2, 0, 1, 0, 2, 0],
        [2, 1, 0, 1, 2, 1, 0],
        [2, 1, 2, 1, 2, 1, 0],
    ]));

    let (_, is_flipped) = table.get_board_state(flipped_board, false);
    assert_eq!(is_flipped, IsFlipped::Normal);
}

#[test]
fn clean_table() {
    let board = Board::from_arrays(&rows([
        [0, 0, 0, 0, 0, 0, 2],
        [0, 0, 0, 0, 0, 0, 2],
        [0, 0, 0, 1, 0, 0, 1],
        [0, 2, 0, 1, 0, 2, 1],
        [0, 1, 2, 1, 0, 1, 2],
        [0, 1, 2, 1, 2, 1, 2],
    ]));

    let mut table = TranspositionStateTable::new();

    let (_state, _) = table.get_board_state(board, false);
    let (keeper, _) = table.get_board_state(Board::default(), true);
    assert_eq!(table.len(), 2);

    // sweeping to the empty-board root drops the unreachable entry and
    // keeps the live one
    table.clean(keeper);

    assert_eq!(table.len(), 1);
}

#[test]
fn board_state_generate_children() {
    let board = Board::from_arrays(&rows([
        [0, 0, 0, 0, 0, 0, 0],
        [0, 0, 0, 0, 0, 0, 0],
        [0, 0, 0, 2, 0, 0, 0],
        [0, 0, 0, 2, 0, 0, 0],
        [0, 0, 0, 2, 0, 0, 0],
        [0, 0, 0, 1, 0, 0, 0],
    ]));

    let ideal_columns_first: [u8; 7] = [3, 4, 2, 5, 1, 6, 0];

    let mut table = TranspositionStateTable::new();
    let (root, _) = table.get_board_state(board, false);
    table.generate_children(root);

    let children: Vec<ChildState> = node(&table, root).children.clone();
    for (i, child) in children.iter().enumerate() {
        assert_eq!(child.get_last_move(), ideal_columns_first[i]);
        assert_eq!(node(&table, child.state).is_game_over(), GameOver::NoWin);
        assert_eq!(node(&table, child.state).get_turn(), true);
        assert_eq!(node(&table, child.state).children.len(), 0);
    }
    // the first child corresponds to column 3, due to the alpha-beta move
    // generation optimization
    assert_eq!(
        node(&table, children[0].state).board.get_piece(3, 4),
        Ok(false)
    );

    let board = Board::from_arrays(&rows([
        [2, 0, 2, 1, 2, 2, 2],
        [1, 1, 1, 2, 1, 1, 1],
        [2, 2, 1, 1, 1, 2, 1],
        [1, 1, 2, 2, 1, 1, 2],
        [2, 2, 1, 1, 2, 2, 1],
        [2, 2, 1, 1, 2, 1, 2],
    ]));

    let mut table = TranspositionStateTable::new();
    let (root, _) = table.get_board_state(board, true);
    table.generate_children(root);

    let children: Vec<ChildState> = node(&table, root).children.clone();
    assert_eq!(children.len(), 1);
    for child in children.iter() {
        assert_eq!(child.get_last_move(), 1);
        assert_eq!(node(&table, child.state).is_game_over(), GameOver::Tie);
        assert_eq!(node(&table, child.state).get_turn(), false);
        assert_eq!(node(&table, child.state).children.len(), 0);
    }

    let board = Board::from_arrays(&rows([
        [2, 0, 2, 1, 2, 2, 2],
        [1, 1, 1, 2, 1, 1, 1],
        [2, 2, 1, 1, 1, 2, 1],
        [1, 1, 2, 2, 1, 1, 2],
        [2, 2, 1, 1, 2, 2, 1],
        [2, 2, 1, 1, 2, 1, 2],
    ]));

    let mut table = TranspositionStateTable::new();
    let (root, _) = table.get_board_state(board, false);
    table.generate_children(root);

    let children: Vec<ChildState> = node(&table, root).children.clone();
    assert_eq!(children.len(), 1);
    for child in children.iter() {
        assert_eq!(child.get_last_move(), 1);
        assert_eq!(node(&table, child.state).is_game_over(), GameOver::OneWins);
        assert_eq!(node(&table, child.state).get_turn(), true);
        assert_eq!(node(&table, child.state).children.len(), 0);
    }

    let board = Board::from_arrays(&rows([
        [0, 0, 0, 0, 0, 0, 0],
        [0, 0, 0, 0, 0, 0, 0],
        [0, 0, 0, 0, 0, 0, 0],
        [0, 0, 0, 0, 0, 0, 0],
        [0, 0, 0, 0, 0, 0, 0],
        [1, 1, 1, 1, 0, 0, 0],
    ]));

    let mut table = TranspositionStateTable::new();
    let (root, _) = table.get_board_state(board, true);
    let generated = table.generate_children(root);
    assert!(generated.is_empty());
    assert_eq!(node(&table, root).children.len(), 0);
}

#[test]
fn board_state_narrow_possibilities() {
    let board = Board::from_arrays(&rows([
        [0, 0, 0, 0, 0, 0, 0],
        [0, 0, 0, 0, 0, 0, 0],
        [0, 0, 0, 2, 0, 0, 0],
        [0, 0, 0, 2, 0, 0, 0],
        [0, 0, 0, 2, 0, 0, 0],
        [0, 0, 0, 1, 0, 0, 0],
    ]));

    for i in 0..7u8 {
        let mut table = TranspositionStateTable::new();
        let (root, _) = table.get_board_state(board.clone(), false);
        let children = table.generate_children(root);
        for child in children {
            table.generate_children(child);
        }

        let mut board_clone = board.clone();
        board_clone.drop_piece(i, false).unwrap();

        let new_root = table.narrow_possibilities(root, i);

        assert_eq!(node(&table, new_root).board, board_clone);
        assert_eq!(node(&table, new_root).is_game_over(), GameOver::NoWin);
        assert_eq!(node(&table, new_root).get_turn(), true);
        assert_eq!(node(&table, new_root).children.len(), 7);
    }
}

#[test]
fn board_state_get_depth() {
    let mut board_state = BoardState::new(Board::default(), false);

    for i in 0..21u8 {
        assert_eq!(i, board_state.get_depth());
        board_state.board.drop_piece(i % 7, (i % 2) == 0).unwrap();
    }
}

#[test]
fn layer_generator_layer_generator() {
    let mut table = TranspositionStateTable::new();
    let (root, _) = table.get_board_state(Board::default(), false);
    let mut layer_generator = LayerGenerator::new(&table);

    assert!(layer_generator.next(&mut table).is_some());
    assert_eq!(layer_generator.buffer_size(), 7);

    for _ in 0..7 {
        assert!(layer_generator.next(&mut table).is_some());
    }
    assert_eq!(layer_generator.buffer_size(), 7 * 4);

    let last_board = Board::from_arrays(&rows([
        [0, 0, 0, 0, 0, 0, 0],
        [0, 0, 0, 0, 0, 0, 0],
        [0, 0, 0, 0, 0, 0, 0],
        [0, 0, 0, 0, 0, 0, 0],
        [0, 0, 0, 0, 0, 0, 2],
        [0, 0, 0, 0, 0, 0, 1],
    ]));

    // the 5th child is column 6, due to the alpha-beta move generation
    // optimization
    let child = node(&table, root).children[5].state;
    let grandchild = node(&table, child).children[5].state;
    assert_eq!(node(&table, grandchild).board, last_board);

    let mut table = TranspositionStateTable::new();
    let (_root, _) = table.get_board_state(Board::default(), false);
    let mut layer_generator = LayerGenerator::new(&table);

    for _ in 0..10_000 {
        layer_generator.next(&mut table);
    }

    assert!(layer_generator.next(&mut table).is_some());
}

#[test]
fn layer_generator_get_bottom_two_layers() {
    let mut table = TranspositionStateTable::new();
    let (_root, _) = table.get_board_state(Board::default(), false);

    let (previous, new) = LayerGenerator::get_bottom_two_layers(&table);

    assert_eq!(previous.len(), 1);
    assert_eq!(new.len(), 0);

    let mut layer_generator = LayerGenerator::new(&table);
    layer_generator.next(&mut table);

    let (previous, new) = LayerGenerator::get_bottom_two_layers(&table);

    // the seven one-piece positions share mirror-image nodes
    assert_eq!(previous.len(), 7 / 2 + 1);
    assert_eq!(new.len(), 0);

    let mut layer_generator = LayerGenerator::new(&table);
    for _ in 0..(7 / 2 + 1) {
        layer_generator.next(&mut table);
    }

    let (previous, new) = LayerGenerator::get_bottom_two_layers(&table);

    assert_eq!(previous.len(), (7 * 7 / 2 + 1) as usize);
    assert_eq!(new.len(), 0);

    let mut layer_generator = LayerGenerator::new(&table);
    for _ in 0..3_000 {
        layer_generator.next(&mut table);
    }

    let (previous, new) = LayerGenerator::get_bottom_two_layers(&table);
    assert!(previous.len() > 0);

    let previous_depth = node(&table, previous[0]).get_depth();
    for state in previous.iter() {
        assert_eq!(node(&table, *state).get_depth(), previous_depth);
    }

    if new.len() > 0 {
        let new_depth = node(&table, new[0]).get_depth();
        for state in new.iter() {
            assert_eq!(node(&table, *state).get_depth(), new_depth);
        }
        assert_eq!(previous_depth + 1, new_depth);
    }
}

#[test]
fn try_generate_counts_correctly() {
    let board = Board::from_arrays(&rows([
        [2, 2, 2, 1, 0, 2, 2],
        [1, 1, 1, 2, 1, 1, 1],
        [2, 2, 1, 1, 1, 2, 1],
        [1, 1, 2, 2, 1, 1, 2],
        [2, 2, 1, 1, 2, 2, 1],
        [2, 2, 1, 1, 2, 1, 2],
    ]));

    let mut table = TranspositionStateTable::new();
    let (_root, _) = table.get_board_state(board, true);

    let mut generator = LayerGenerator::new(&table);

    assert_eq!(generator.next(&mut table), Some(1));

    let board = Board::from_arrays(&rows([
        [0, 0, 0, 0, 0, 0, 2],
        [0, 0, 0, 0, 0, 0, 2],
        [0, 0, 0, 0, 0, 0, 2],
        [0, 0, 0, 0, 0, 0, 1],
        [0, 0, 0, 0, 0, 0, 1],
        [0, 0, 0, 0, 0, 0, 1],
    ]));

    let mut table = TranspositionStateTable::new();
    let (_root, _) = table.get_board_state(board, true);

    let mut generator = LayerGenerator::new(&table);

    for _ in 0..(7 + 49 + 343) {
        let num_generated = generator.next(&mut table).unwrap();
        assert!(num_generated == 6 || num_generated == 0);
    }
}

#[test]
fn tree_analysis_alpha_beta_pruning() {
    let board = Board::from_arrays(&rows([
        [0, 0, 0, 0, 0, 0, 0],
        [0, 0, 0, 0, 0, 0, 0],
        [0, 0, 0, 0, 0, 0, 0],
        [0, 0, 0, 0, 0, 0, 0],
        [0, 2, 2, 2, 0, 0, 0],
        [0, 1, 1, 1, 0, 0, 0],
    ]));

    let mut table = TranspositionStateTable::new();
    let (board_state, _) = table.get_board_state(board, false);
    let mut generator = LayerGenerator::new(&table);

    for _ in 0..1000 {
        generator.next(&mut table);
    }

    assert_eq!(
        how_good_is(&table, board_state, &mut TranspositionTable::new()),
        isize::MIN
    );

    let board = Board::from_arrays(&rows([
        [0, 0, 0, 0, 0, 0, 0],
        [0, 0, 0, 0, 0, 0, 0],
        [0, 0, 0, 0, 0, 0, 1],
        [0, 0, 0, 0, 0, 1, 2],
        [0, 2, 2, 0, 1, 2, 2],
        [0, 1, 1, 0, 2, 2, 1],
    ]));

    let mut table = TranspositionStateTable::new();
    let (board_state, _) = table.get_board_state(board, true);
    let mut generator = LayerGenerator::new(&table);

    for _ in 0..1000 {
        generator.next(&mut table);
    }

    assert_ne!(
        how_good_is(&table, board_state, &mut TranspositionTable::new()),
        isize::MIN
    );
    assert_ne!(
        how_good_is(&table, board_state, &mut TranspositionTable::new()),
        isize::MAX
    );

    let board = Board::from_arrays(&rows([
        [1, 2, 2, 1, 1, 0, 0],
        [1, 2, 1, 2, 1, 2, 0],
        [1, 2, 1, 2, 1, 2, 0],
        [2, 1, 2, 1, 2, 1, 0],
        [2, 1, 2, 1, 2, 1, 0],
        [2, 1, 2, 1, 2, 1, 0],
    ]));

    let mut table = TranspositionStateTable::new();
    let (board_state, _) = table.get_board_state(board, false);
    let mut generator = LayerGenerator::new(&table);

    for _ in 0..1000 {
        generator.next(&mut table);
    }

    assert_eq!(
        how_good_is(&table, board_state, &mut TranspositionTable::new()),
        isize::MIN
    );

    let board = Board::from_arrays(&rows([
        [1, 2, 2, 1, 1, 0, 0],
        [1, 2, 1, 2, 1, 2, 0],
        [1, 2, 1, 2, 1, 2, 0],
        [2, 1, 2, 1, 2, 1, 0],
        [2, 1, 2, 1, 2, 1, 0],
        [2, 1, 2, 1, 2, 1, 0],
    ]));

    let mut table = TranspositionStateTable::new();
    let (board_state, _) = table.get_board_state(board, true);
    let mut generator = LayerGenerator::new(&table);

    for _ in 0..1000 {
        generator.next(&mut table);
    }

    assert_eq!(
        how_good_is(&table, board_state, &mut TranspositionTable::new()),
        0
    );
}

#[test]
fn tree_size_correct_size() {
    let board_array = rows([
        [0, 0, 0, 0, 0, 0, 2],
        [0, 0, 0, 0, 0, 0, 2],
        [0, 0, 0, 0, 0, 0, 1],
        [0, 2, 0, 0, 0, 2, 1],
        [0, 1, 2, 0, 0, 1, 2],
        [0, 1, 2, 0, 2, 1, 2],
    ]);

    let mut table = TranspositionStateTable::new();
    let (root, _) = table.get_board_state(Board::from_arrays(&board_array), false);

    let mut generator = LayerGenerator::new(&table);
    for _ in 0..(1 + 6 + 36) {
        generator.next(&mut table);
    }

    let stats = calculate_size(&table, root);

    let (depth, size) = calculate_from_root(&table, root);
    assert_eq!(stats.depth, depth);
    assert!(
        stats.size <= size + 1,
        "calculated: {}, manually: {}",
        stats.size,
        size
    );

    for _ in 0..1000 {
        generator.next(&mut table);
    }

    let stats = calculate_size(&table, root);

    let (depth, size) = calculate_from_root(&table, root);
    assert_eq!(stats.depth, depth);
    assert!(
        stats.size < size,
        "calculated: {}, manually: {}",
        stats.size,
        size
    );
}

fn calculate_from_root(table: &TranspositionStateTable, root: usize) -> (usize, usize) {
    let mut current_layer = vec![root];
    let mut next_layer = Vec::new();

    let mut size = 0;
    let mut depth = 0;
    while let Some(current_node) = current_layer.pop() {
        size += 1;
        next_layer.extend(node(table, current_node).children.iter().map(|c| c.state));

        if current_layer.is_empty() {
            current_layer = next_layer;
            next_layer = Vec::new();
            depth += 1;
        }
    }

    (depth, size)
}

#[test]
fn simulation_reaches_outcomes() {
    let board = Board::from_arrays(&rows([
        [1, 2, 2, 1, 1, 0, 0],
        [1, 2, 1, 2, 1, 2, 0],
        [1, 2, 1, 2, 1, 2, 0],
        [2, 1, 2, 1, 2, 1, 0],
        [2, 1, 2, 1, 2, 1, 0],
        [2, 1, 2, 1, 2, 1, 0],
    ]));
    let mut table = TranspositionStateTable::new();
    let (root, _) = table.get_board_state(board, false);

    for _ in 0..20 {
        let result = table.simulation(root);
        assert_ne!(result, GameOver::NoWin);
    }
    let results = node(&table, root).rollout_results;
    assert_eq!(results.total, 40);
    assert!(results.success <= results.total);
}

fn brute_force_minimax(board: &Board, turn: bool) -> isize {
    if has_color_won(board, !turn) {
        if !turn == false {
            isize::MIN
        } else {
            isize::MAX
        }
    } else if board.is_full() {
        0
    } else {
        let mut best: Option<isize> = None;
        for col in 0..7u8 {
            let mut child = board.clone();
            if child.drop_piece(col, turn).is_err() {
                continue;
            }
            let value = brute_force_minimax(&child, !turn);
            best = Some(match best {
                None => value,
                Some(b) => {
                    if turn {
                        b.max(value)
                    } else {
                        b.min(value)
                    }
                }
            });
        }
        best.unwrap()
    }
}

#[test]
fn alpha_beta_matches_minimax() {
    // with the whole remaining game expanded, the pruned search must agree
    // with a direct full-tree evaluation
    let boards = [
        rows([
            [1, 2, 2, 1, 1, 0, 0],
            [1, 2, 1, 2, 1, 2, 0],
            [1, 2, 1, 2, 1, 2, 0],
            [2, 1, 2, 1, 2, 1, 0],
            [2, 1, 2, 1, 2, 1, 0],
            [2, 1, 2, 1, 2, 1, 0],
        ]),
        rows([
            [1, 2, 2, 1, 1, 0, 0],
            [1, 2, 1, 2, 1, 0, 0],
            [1, 2, 1, 2, 1, 2, 0],
            [2, 1, 2, 1, 2, 1, 0],
            [2, 1, 2, 1, 2, 1, 2],
            [2, 1, 2, 1, 2, 1, 1],
        ]),
    ];
    for board_array in boards {
        for turn in [false, true] {
            let board = Board::from_arrays(&board_array);
            let mut table = TranspositionStateTable::new();
            let (root, _) = table.get_board_state(board.clone(), turn);
            let mut generator = LayerGenerator::new(&table);
            while generator.next(&mut table).is_some() {}

            assert_eq!(
                how_good_is(&table, root, &mut TranspositionTable::new()),
                brute_force_minimax(&board, turn)
            );
        }
    }
}
