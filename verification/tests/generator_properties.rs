use sudoku::board_generator::{BoardDifficulty, BoardGenerator};

fn count_empty_cells(b: &Vec<Vec<Option<i32>>>) -> usize {
    b.iter().flatten().filter(|c| c.is_none()).count()
}

fn assert_solved_grid_valid(b: &Vec<Vec<Option<i32>>>) {
    assert_eq!(b.len(), 9);
    for row in b {
        assert_eq!(row.len(), 9);
    }
    for i in 0..9 {
        let mut seen = [false; 10];
        for j in 0..9 {
            let v = b[i][j].expect("every cell must be populated") as usize;
            assert!((1..=9).contains(&v), "digit out of range");
            assert!(!seen[v], "duplicate digit in a row");
            seen[v] = true;
        }
    }
    for j in 0..9 {
        let mut seen = [false; 10];
        for i in 0..9 {
            let v = b[i][j].unwrap() as usize;
            assert!(!seen[v], "duplicate digit in a column");
            seen[v] = true;
        }
    }
    for bi in 0..3 {
        for bj in 0..3 {
            let mut seen = [false; 10];
            for i in 0..3 {
                for j in 0..3 {
                    let v = b[3 * bi + i][3 * bj + j].unwrap() as usize;
                    assert!(!seen[v], "duplicate digit in a box");
                    seen[v] = true;
                }
            }
        }
    }
}

fn cyclic_board() -> Vec<Vec<Option<i32>>> {
    let mut board: Vec<Vec<Option<i32>>> = Vec::new();
    for i in 0..9i32 {
        let mut row: Vec<Option<i32>> = Vec::new();
        for j in 0..9i32 {
            row.push(Some((3 * i + i / 3 + j) % 9 + 1));
        }
        board.push(row);
    }
    board
}

#[test]
fn test_generate_fills_and_solves() {
    let mut generator = BoardGenerator::new(BoardDifficulty::Medium);
    let _puzzle = generator.generate_sudoku();
    let solved = generator.get_solved_board().expect("a solved board is retained");
    assert_solved_grid_valid(&solved);
}

#[test]
fn test_removal_counts_per_tier() {
    let tiers = [
        (BoardDifficulty::Beginner, 30),
        (BoardDifficulty::Easy, 45),
        (BoardDifficulty::Medium, 55),
        (BoardDifficulty::Hard, 62),
        (BoardDifficulty::Expert, 64),
    ];
    for (tier, expected) in tiers {
        let mut generator = BoardGenerator::new(tier);
        let puzzle = generator.generate_sudoku();
        assert_eq!(count_empty_cells(&puzzle), expected);
        let solved = generator.get_solved_board().unwrap();
        for i in 0..9 {
            for j in 0..9 {
                if puzzle[i][j].is_some() {
                    assert_eq!(puzzle[i][j], solved[i][j], "a retained clue was corrupted");
                }
            }
        }
    }
}

#[test]
fn test_puzzle_subset_of_solution() {
    let mut generator = BoardGenerator::new(BoardDifficulty::Hard);
    let puzzle = generator.generate_sudoku();
    let solved = generator.get_solved_board().unwrap();
    assert_solved_grid_valid(&solved);
    for i in 0..9 {
        for j in 0..9 {
            if puzzle[i][j].is_some() {
                assert_eq!(puzzle[i][j], solved[i][j]);
            }
        }
    }
}

#[test]
fn test_consecutive_generations_differ() {
    let mut generator = BoardGenerator::new(BoardDifficulty::Easy);
    let _ = generator.generate_sudoku();
    let first = generator.get_solved_board().unwrap();
    let _ = generator.generate_sudoku();
    let second = generator.get_solved_board().unwrap();
    assert_ne!(first, second, "two fills agreed; randomization is broken");
}

#[test]
fn test_no_board_before_generation() {
    let generator = BoardGenerator::new(BoardDifficulty::Beginner);
    assert!(generator.get_solved_board().is_none());
}

#[test]
fn test_is_valid_self_exclusion_on_full_grid() {
    let generator = BoardGenerator::new(BoardDifficulty::Easy);
    let board = cyclic_board();
    // (0, 0) holds the only 1 of its row, column and box, so re-placing it
    // is allowed; a 9 already stands elsewhere in row 0.
    assert_eq!(board[0][0], Some(1));
    assert_eq!(generator.is_valid(&board, 0, 0, 1), true);
    assert_eq!(generator.is_valid(&board, 0, 0, 9), false);
}

#[test]
fn test_get_square_top_left_box() {
    let generator = BoardGenerator::new(BoardDifficulty::Easy);
    let board = cyclic_board();
    let square = generator.get_square(&board, 0, 0);
    assert_eq!(square, vec![
        vec![Some(1), Some(2), Some(3)],
        vec![Some(4), Some(5), Some(6)],
        vec![Some(7), Some(8), Some(9)],
    ]);
}

#[test]
fn test_format_board() {
    let generator = BoardGenerator::new(BoardDifficulty::Easy);
    let mut board: Vec<Vec<Option<i32>>> = vec![vec![None; 9]; 9];
    for j in 0..9 {
        board[0][j] = Some(j as i32 + 1);
    }
    let text = generator._format_board(&board);
    let mut expected = String::from("1 2 3 4 5 6 7 8 9");
    for _ in 0..8 {
        expected.push_str("\n0 0 0 0 0 0 0 0 0");
    }
    assert_eq!(text, expected);
}
