use sudoku::board_generator::BoardDifficulty;
use sudoku::events::Events;
use sudoku::game::GameState;

fn count_empty_cells(b: &Vec<Vec<Option<i32>>>) -> usize {
    b.iter().flatten().filter(|c| c.is_none()).count()
}

#[test]
fn test_new_game_state_defaults() {
    let state = GameState::new();
    assert!(state.selected_square.is_none());
    assert!(!state.new_puzzle_button_pressed);
    assert!(!state.solve_button_pressed);
    assert!(!state.candidate_button_pressed);
    assert!(!state.board_initialized);
    assert!(!state.puzzle_solved);
    assert!(state.difficulty == BoardDifficulty::Medium);
    assert!(state.invalid_positions.is_empty());
    assert_eq!(count_empty_cells(&state.board), 81);
    assert_eq!(count_empty_cells(&state.initial_board), 81);
    assert_eq!(count_empty_cells(&state.solved_board), 81);
}

#[test]
fn test_generate_new_board_sets_boards() {
    let mut state = GameState::new();
    state.difficulty = BoardDifficulty::Beginner;
    state.generate_new_board();
    assert_eq!(state.board, state.initial_board);
    assert_eq!(count_empty_cells(&state.board), 30);
    assert_eq!(count_empty_cells(&state.solved_board), 0);
    for i in 0..9 {
        for j in 0..9 {
            if state.board[i][j].is_some() {
                assert_eq!(state.board[i][j], state.solved_board[i][j]);
            }
        }
    }
}

#[test]
fn test_handle_number_entry_writes_board() {
    let mut state = GameState::new();
    state.candidate_button_pressed = false;
    Events::handle_number_entry(&mut state, 2, 3, 7);
    assert_eq!(state.board[2][3], Some(7));
    assert!(state.candidates[2][3].is_none());
}

#[test]
fn test_handle_number_entry_toggles_candidates() {
    let mut state = GameState::new();
    state.candidate_button_pressed = true;
    Events::handle_number_entry(&mut state, 0, 0, 5);
    assert_eq!(state.candidates[0][0], Some(vec![5]));
    Events::handle_number_entry(&mut state, 0, 0, 3);
    assert_eq!(state.candidates[0][0], Some(vec![5, 3]));
    Events::handle_number_entry(&mut state, 0, 0, 5);
    assert_eq!(state.candidates[0][0], Some(vec![3]));
    assert_eq!(state.board[0][0], None);
}

#[test]
fn test_is_valid_move_empty_cell_is_never_flagged() {
    let state = GameState::new();
    let board: Vec<Vec<Option<i32>>> = vec![vec![None; 9]; 9];
    assert!(state.is_valid_move(&board, 4, 4, 5));
}

#[test]
fn test_is_valid_move_flags_row_conflict() {
    let state = GameState::new();
    let mut board: Vec<Vec<Option<i32>>> = vec![vec![None; 9]; 9];
    board[0][0] = Some(5);
    // Alone, the digit is fine: the cell itself is not counted.
    assert!(state.is_valid_move(&board, 0, 0, 5));
    // A second 5 in the same row is a conflict.
    board[0][4] = Some(5);
    assert!(!state.is_valid_move(&board, 0, 0, 5));
    // A second 5 in the same column is a conflict too.
    board[0][4] = None;
    board[6][0] = Some(5);
    assert!(!state.is_valid_move(&board, 0, 0, 5));
    // And so is one elsewhere in the 3x3 box.
    board[6][0] = None;
    board[1][1] = Some(5);
    assert!(!state.is_valid_move(&board, 0, 0, 5));
}

#[test]
fn test_apply_new_puzzle_resets_session() {
    let mut state = GameState::new();
    state.difficulty = BoardDifficulty::Easy;
    state.new_puzzle_button_pressed = true;
    state.invalid_positions.push((1, 1, 4));
    state.apply_new_puzzle();
    assert!(!state.new_puzzle_button_pressed);
    assert!(state.board_initialized);
    assert!(!state.puzzle_solved);
    assert!(state.selected_square.is_none());
    assert!(state.invalid_positions.is_empty());
    assert_eq!(count_empty_cells(&state.board), 45);
    assert!(state.candidates.iter().flatten().all(|c| c.is_none()));
}

#[test]
fn test_apply_solve_reveals_solution() {
    let mut state = GameState::new();
    state.difficulty = BoardDifficulty::Expert;
    state.apply_new_puzzle();
    state.solve_button_pressed = true;
    state.apply_solve();
    assert!(!state.solve_button_pressed);
    assert_eq!(state.board, state.solved_board);
    assert!(state.invalid_positions.is_empty());
}

#[test]
fn test_check_completion_ends_session() {
    let mut state = GameState::new();
    state.apply_new_puzzle();
    state.board = state.solved_board.clone();
    state.check_completion();
    assert!(state.puzzle_solved);
    assert!(!state.board_initialized);
    assert_eq!(count_empty_cells(&state.board), 81);
    assert_eq!(count_empty_cells(&state.solved_board), 81);
    assert!(state.invalid_positions.is_empty());
}

#[test]
fn test_check_completion_keeps_unfinished_session() {
    let mut state = GameState::new();
    state.apply_new_puzzle();
    let board_before = state.board.clone();
    state.check_completion();
    assert!(!state.puzzle_solved);
    assert!(state.board_initialized);
    assert_eq!(state.board, board_before);
}

#[test]
fn test_record_entry_validity_marks_conflict() {
    let mut state = GameState::new();
    state.board[0][0] = Some(5);
    state.board[0][4] = Some(5);
    state.record_entry_validity(0, 0);
    assert_eq!(state.invalid_positions, vec![(0, 0, 5)]);
}

#[test]
fn test_record_entry_validity_drops_stale_mark() {
    let mut state = GameState::new();
    state.board[0][0] = Some(3);
    state.invalid_positions.push((0, 0, 5));
    state.record_entry_validity(0, 0);
    // The old mark recorded digit 5; the cell now holds a 3 with no
    // conflict, so the list ends up empty.
    assert!(state.invalid_positions.is_empty());
}

#[test]
fn test_record_entry_validity_ignores_empty_cell() {
    let mut state = GameState::new();
    state.invalid_positions.push((2, 2, 9));
    state.record_entry_validity(4, 4);
    assert_eq!(state.invalid_positions, vec![(2, 2, 9)]);
}
