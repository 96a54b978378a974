//! The state of one play session: the live board, the starting clues, the
//! retained solution, the player's candidate notes, and the session flags
//! the interface reads.

use vstd::prelude::*;
use crate::board_generator::{BoardDifficulty, BoardGenerator, removal_count};
use crate::grid::{
    gv, grid_wf, digits_ok, solved_grid, cell_at, count_empty, placement_ok,
    placement_allowed, is_completion, lemma_puzzle_solvable, clone_grid, grids_equal,
    new_empty_board,
};

verus! {

/// The 2D view of the candidate notes: rows of cells, each cell holding an
/// optional list of pencilled digits.
pub open spec fn cv(c: &Vec<Vec<Option<Vec<i32>>>>) -> Seq<Seq<Option<Vec<i32>>>> {
    Seq::new(c@.len(), |i: int| c@[i]@)
}

/// Nine rows of nine candidate cells.
pub open spec fn cands_wf(c: Seq<Seq<Option<Vec<i32>>>>) -> bool {
    c.len() == 9 && forall|i: int| 0 <= i < 9 ==> (#[trigger] c[i]).len() == 9
}

/// A fresh 9x9 block of candidate cells, none holding any note.
pub fn new_empty_candidates() -> (c: Vec<Vec<Option<Vec<i32>>>>)
    ensures
        cands_wf(cv(&c)),
        forall|i: int, j: int| 0 <= i < 9 && 0 <= j < 9 ==> (#[trigger] cv(&c)[i][j]) is None,
{
    let mut out: Vec<Vec<Option<Vec<i32>>>> = Vec::new();
    let mut i: usize = 0;
    while i < 9
        invariant
            i <= 9,
            out@.len() == i,
            forall|a: int| 0 <= a < i ==> (#[trigger] out@[a])@.len() == 9,
            forall|a: int, b: int| 0 <= a < i && 0 <= b < 9 ==> (#[trigger] out@[a]@[b]) is None,
        decreases 9 - i,
    {
        let mut row: Vec<Option<Vec<i32>>> = Vec::new();
        let mut j: usize = 0;
        while j < 9
            invariant
                j <= 9,
                row@.len() == j,
                forall|b: int| 0 <= b < j ==> (#[trigger] row@[b]) is None,
            decreases 9 - j,
        {
            row.push(None);
            j += 1;
        }
        out.push(row);
        i += 1;
    }
    out
}


/// The position of the first conflict mark recorded for cell (`x`, `y`) in a
/// list of marks, or -1 when there is none.
pub open spec fn first_mark_index(s: Seq<(i32, i32, i32)>, x: i32, y: i32) -> int
    decreases s.len(),
{
    if s.len() == 0 {
        -1
    } else if s[0].0 == x && s[0].1 == y {
        0
    } else {
        let rest = first_mark_index(s.drop_first(), x, y);
        if rest < 0 {
            -1
        } else {
            rest + 1
        }
    }
}

/// A mark found at `i`, with none before it, is the first mark.
proof fn lemma_first_mark_here(s: Seq<(i32, i32, i32)>, x: i32, y: i32, i: int)
    requires
        0 <= i < s.len(),
        s[i].0 == x && s[i].1 == y,
        forall|t: int| 0 <= t < i ==> !((#[trigger] s[t]).0 == x && s[t].1 == y),
    ensures
        first_mark_index(s, x, y) == i,
    decreases i,
{
    if i > 0 {
        assert forall|t: int| 0 <= t < i - 1 implies
            !((#[trigger] s.drop_first()[t]).0 == x && s.drop_first()[t].1 == y) by {
            assert(s.drop_first()[t] == s[t + 1]);
        }
        assert(s.drop_first()[i - 1] == s[i]);
        lemma_first_mark_here(s.drop_first(), x, y, i - 1);
    }
}

/// With no mark for the cell anywhere, the first-mark position is -1.
proof fn lemma_first_mark_absent(s: Seq<(i32, i32, i32)>, x: i32, y: i32)
    requires
        forall|t: int| 0 <= t < s.len() ==> !((#[trigger] s[t]).0 == x && s[t].1 == y),
    ensures
        first_mark_index(s, x, y) == -1,
    decreases s.len(),
{
    if s.len() > 0 {
        assert forall|t: int| 0 <= t < s.len() - 1 implies
            !((#[trigger] s.drop_first()[t]).0 == x && s.drop_first()[t].1 == y) by {
            assert(s.drop_first()[t] == s[t + 1]);
        }
        lemma_first_mark_absent(s.drop_first(), x, y);
    }
}

/// Finds the first conflict mark recorded for cell (`x`, `y`).
fn find_mark(v: &Vec<(i32, i32, i32)>, x: i32, y: i32) -> (r: Option<usize>)
    ensures
        match r {
            Some(i) => i == first_mark_index(v@, x, y) && i < v@.len()
                && v@[i as int].0 == x && v@[i as int].1 == y,
            None => first_mark_index(v@, x, y) == -1,
        },
{
    let mut i: usize = 0;
    while i < v.len()
        invariant
            i <= v@.len(),
            forall|t: int| 0 <= t < i ==> !((#[trigger] v@[t]).0 == x && v@[t].1 == y),
        decreases v@.len() - i,
    {
        let entry = v[i];
        if entry.0 == x && entry.1 == y {
            proof {
                lemma_first_mark_here(v@, x, y, i as int);
            }
            return Some(i);
        }
        i += 1;
    }
    proof {
        lemma_first_mark_absent(v@, x, y);
    }
    None
}

/// Everything one play session tracks.
pub struct GameState {
    pub selected_square: Option<(i32, i32)>,
    pub new_puzzle_button_pressed: bool,
    pub solve_button_pressed: bool,
    pub candidate_button_pressed: bool,
    pub board: Vec<Vec<Option<i32>>>,
    pub initial_board: Vec<Vec<Option<i32>>>,
    pub solved_board: Vec<Vec<Option<i32>>>,
    pub candidates: Vec<Vec<Option<Vec<i32>>>>,
    pub board_initialized: bool,
    pub puzzle_solved: bool,
    pub difficulty: BoardDifficulty,
    pub invalid_positions: Vec<(i32, i32, i32)>,
}

impl GameState {
    /// The structural well-formedness every method preserves: all three
    /// boards and the candidate notes are nine by nine.
    pub open spec fn wf(&self) -> bool {
        &&& grid_wf(gv(&self.board))
        &&& grid_wf(gv(&self.initial_board))
        &&& grid_wf(gv(&self.solved_board))
        &&& cands_wf(cv(&self.candidates))
    }

    /// A fresh session: empty boards, no notes, no selection, medium
    /// difficulty.
    pub fn new() -> (r: GameState)
        ensures
            r.wf(),
            r.selected_square is None,
            !r.new_puzzle_button_pressed,
            !r.solve_button_pressed,
            !r.candidate_button_pressed,
            forall|q: int| 0 <= q < 81 ==> #[trigger] cell_at(gv(&r.board), q) is None,
            forall|q: int| 0 <= q < 81 ==> #[trigger] cell_at(gv(&r.initial_board), q) is None,
            forall|q: int| 0 <= q < 81 ==> #[trigger] cell_at(gv(&r.solved_board), q) is None,
            forall|i: int, j: int| 0 <= i < 9 && 0 <= j < 9
                ==> (#[trigger] cv(&r.candidates)[i][j]) is None,
            !r.board_initialized,
            !r.puzzle_solved,
            r.difficulty == BoardDifficulty::Medium,
            r.invalid_positions@.len() == 0,
    {
        let r = GameState {
            selected_square: None,
            new_puzzle_button_pressed: false,
            solve_button_pressed: false,
            candidate_button_pressed: false,
            board: new_empty_board(),
            initial_board: new_empty_board(),
            solved_board: new_empty_board(),
            candidates: new_empty_candidates(),
            board_initialized: false,
            puzzle_solved: false,
            difficulty: BoardDifficulty::Medium,
            invalid_positions: Vec::new(),
        };
        proof {
            assert forall|q: int| 0 <= q < 81 implies #[trigger] cell_at(gv(&r.board), q) is None by {
                assert(0 <= q / 9 < 9 && 0 <= q % 9 < 9);
            }
            assert forall|q: int| 0 <= q < 81 implies #[trigger] cell_at(gv(&r.initial_board), q) is None by {
                assert(0 <= q / 9 < 9 && 0 <= q % 9 < 9);
            }
            assert forall|q: int| 0 <= q < 81 implies #[trigger] cell_at(gv(&r.solved_board), q) is None by {
                assert(0 <= q / 9 < 9 && 0 <= q % 9 < 9);
            }
        }
        r
    }

    /// Replaces the session's boards with a freshly generated puzzle at the
    /// current difficulty: the live board and the starting clues both become
    /// the carved puzzle, and the retained solution solves it.
    pub fn generate_new_board(&mut self)
        requires
            old(self).wf(),
        ensures
            final(self).wf(),
            solved_grid(gv(&final(self).solved_board)),
            digits_ok(gv(&final(self).board)),
            count_empty(gv(&final(self).board)) == removal_count(old(self).difficulty),
            forall|q: int| 0 <= q < 81 && #[trigger] cell_at(gv(&final(self).board), q) is Some
                ==> cell_at(gv(&final(self).board), q) == cell_at(gv(&final(self).solved_board), q),
            is_completion(gv(&final(self).solved_board), gv(&final(self).board), 0),
            gv(&final(self).initial_board) == gv(&final(self).board),
            final(self).difficulty == old(self).difficulty,
            final(self).selected_square == old(self).selected_square,
            final(self).new_puzzle_button_pressed == old(self).new_puzzle_button_pressed,
            final(self).solve_button_pressed == old(self).solve_button_pressed,
            final(self).candidate_button_pressed == old(self).candidate_button_pressed,
            final(self).candidates == old(self).candidates,
            final(self).board_initialized == old(self).board_initialized,
            final(self).puzzle_solved == old(self).puzzle_solved,
            final(self).invalid_positions == old(self).invalid_positions,
    {
        let mut generator = BoardGenerator::new(self.difficulty);
        self.board = generator.generate_sudoku();
        match generator.get_solved_board() {
            Some(solved) => {
                self.solved_board = solved;
            }
            None => {
                proof {
                    assert(false);
                }
            }
        }
        self.initial_board = clone_grid(&self.board);
        proof {
            lemma_puzzle_solvable(gv(&self.board), gv(&self.solved_board));
        }
    }


    /// The player released the new-puzzle button: a fresh puzzle replaces the
    /// boards, the selection, the conflict marks and the candidate notes are
    /// cleared, and the session is marked live again.
    pub fn apply_new_puzzle(&mut self)
        requires
            old(self).wf(),
        ensures
            final(self).wf(),
            final(self).selected_square is None,
            !final(self).new_puzzle_button_pressed,
            final(self).board_initialized,
            !final(self).puzzle_solved,
            final(self).invalid_positions@.len() == 0,
            forall|i: int, j: int| 0 <= i < 9 && 0 <= j < 9
                ==> (#[trigger] cv(&final(self).candidates)[i][j]) is None,
            solved_grid(gv(&final(self).solved_board)),
            digits_ok(gv(&final(self).board)),
            count_empty(gv(&final(self).board)) == removal_count(old(self).difficulty),
            is_completion(gv(&final(self).solved_board), gv(&final(self).board), 0),
            gv(&final(self).initial_board) == gv(&final(self).board),
            final(self).difficulty == old(self).difficulty,
            final(self).solve_button_pressed == old(self).solve_button_pressed,
            final(self).candidate_button_pressed == old(self).candidate_button_pressed,
    {
        self.selected_square = None;
        self.new_puzzle_button_pressed = false;
        self.generate_new_board();
        self.board_initialized = true;
        self.puzzle_solved = false;
        self.invalid_positions = Vec::new();
        self.candidates = new_empty_candidates();
    }

    /// The player released the solve button: on a live board the retained
    /// solution is revealed and the conflict marks dropped; otherwise only
    /// the button state resets.
    pub fn apply_solve(&mut self)
        requires
            old(self).wf(),
        ensures
            final(self).wf(),
            !final(self).solve_button_pressed,
            old(self).board_initialized ==> gv(&final(self).board) == gv(&old(self).solved_board)
                && final(self).invalid_positions@.len() == 0,
            !old(self).board_initialized ==> final(self).board == old(self).board
                && final(self).invalid_positions == old(self).invalid_positions,
            final(self).selected_square == old(self).selected_square,
            final(self).new_puzzle_button_pressed == old(self).new_puzzle_button_pressed,
            final(self).candidate_button_pressed == old(self).candidate_button_pressed,
            final(self).initial_board == old(self).initial_board,
            final(self).solved_board == old(self).solved_board,
            final(self).candidates == old(self).candidates,
            final(self).board_initialized == old(self).board_initialized,
            final(self).puzzle_solved == old(self).puzzle_solved,
            final(self).difficulty == old(self).difficulty,
    {
        self.solve_button_pressed = false;
        if self.board_initialized {
            self.board = clone_grid(&self.solved_board);
            self.invalid_positions = Vec::new();
        }
    }

    /// After an entry, a live board that equals the retained solution ends
    /// the session: the grids are discarded and the solved flag is raised.
    /// A board that differs from the solution leaves the state untouched.
    pub fn check_completion(&mut self)
        requires
            old(self).wf(),
        ensures
            final(self).wf(),
            final(self).new_puzzle_button_pressed == old(self).new_puzzle_button_pressed,
            final(self).solve_button_pressed == old(self).solve_button_pressed,
            final(self).candidate_button_pressed == old(self).candidate_button_pressed,
            final(self).candidates == old(self).candidates,
            final(self).difficulty == old(self).difficulty,
            if gv(&old(self).board) == gv(&old(self).solved_board) {
                &&& final(self).selected_square is None
                &&& forall|i: int, j: int| 0 <= i < 9 && 0 <= j < 9
                    ==> (#[trigger] gv(&final(self).board)[i][j]) is None
                &&& forall|i: int, j: int| 0 <= i < 9 && 0 <= j < 9
                    ==> (#[trigger] gv(&final(self).initial_board)[i][j]) is None
                &&& forall|i: int, j: int| 0 <= i < 9 && 0 <= j < 9
                    ==> (#[trigger] gv(&final(self).solved_board)[i][j]) is None
                &&& !final(self).board_initialized
                &&& final(self).puzzle_solved
                &&& final(self).invalid_positions@.len() == 0
            } else {
                &&& final(self).selected_square == old(self).selected_square
                &&& final(self).board == old(self).board
                &&& final(self).initial_board == old(self).initial_board
                &&& final(self).solved_board == old(self).solved_board
                &&& final(self).board_initialized == old(self).board_initialized
                &&& final(self).puzzle_solved == old(self).puzzle_solved
                &&& final(self).invalid_positions == old(self).invalid_positions
            },
    {
        if grids_equal(&self.board, &self.solved_board) {
            self.selected_square = None;
            self.board = new_empty_board();
            self.initial_board = new_empty_board();
            self.solved_board = new_empty_board();
            self.board_initialized = false;
            self.puzzle_solved = true;
            self.invalid_positions = Vec::new();
        }
    }


    /// After the player's entry, refresh the conflict marks of cell
    /// (`x`, `y`): a stale mark holding a different digit is dropped, and if
    /// the digit now on the board clashes with another cell, a fresh mark is
    /// appended. An empty cell leaves the marks untouched.
    pub fn record_entry_validity(&mut self, x: i32, y: i32)
        requires
            old(self).wf(),
            0 <= x < 9,
            0 <= y < 9,
            digits_ok(gv(&old(self).board)),
        ensures
            final(self).wf(),
            final(self).selected_square == old(self).selected_square,
            final(self).new_puzzle_button_pressed == old(self).new_puzzle_button_pressed,
            final(self).solve_button_pressed == old(self).solve_button_pressed,
            final(self).candidate_button_pressed == old(self).candidate_button_pressed,
            final(self).board == old(self).board,
            final(self).initial_board == old(self).initial_board,
            final(self).solved_board == old(self).solved_board,
            final(self).candidates == old(self).candidates,
            final(self).board_initialized == old(self).board_initialized,
            final(self).puzzle_solved == old(self).puzzle_solved,
            final(self).difficulty == old(self).difficulty,
            ({
                let marks = old(self).invalid_positions@;
                match gv(&old(self).board)[x as int][y as int] {
                    None => final(self).invalid_positions@ == marks,
                    Some(val) => {
                        let idx = first_mark_index(marks, x, y);
                        let kept = if idx >= 0 && marks[idx].2 != val {
                            marks.remove(idx)
                        } else {
                            marks
                        };
                        if placement_ok(gv(&old(self).board), x as int, y as int, val) {
                            final(self).invalid_positions@ == kept
                        } else {
                            final(self).invalid_positions@ == kept.push((x, y, val))
                        }
                    }
                }
            }),
    {
        proof {
            assert(gv(&self.board)[x as int] == self.board@[x as int]@);
        }
        let xi = x as usize;
        let yi = y as usize;
        match self.board[xi][yi] {
            Some(val) => {
                match find_mark(&self.invalid_positions, x, y) {
                    Some(i) => {
                        if self.invalid_positions[i].2 != val {
                            self.invalid_positions.remove(i);
                        }
                    }
                    None => {}
                }
                if !self.is_valid_move(&self.board, xi, yi, val) {
                    self.invalid_positions.push((x, y, val));
                }
            }
            None => {}
        }
    }

    /// Judges the digit claimed to sit at (`row`, `col`) against the other
    /// cells of its row, column and box, for the interface's conflict
    /// highlighting. An empty target cell is never flagged.
    pub fn is_valid_move(
        &self,
        board: &Vec<Vec<Option<i32>>>,
        row: usize,
        col: usize,
        val: i32,
    ) -> (r: bool)
        requires
            grid_wf(gv(board)),
            row < 9,
            col < 9,
            1 <= val <= 9,
        ensures
            r == (gv(board)[row as int][col as int] is None
                || placement_ok(gv(board), row as int, col as int, val)),
    {
        proof {
            assert(gv(board)[row as int] == board@[row as int]@);
        }
        if board[row][col].is_none() {
            return true;
        }
        placement_allowed(board, row, col, val)
    }
}

} // verus!
