//! The puzzle generator: a randomized backtracking fill of an empty grid
//! under the Sudoku constraints, and the carving policy that clears a
//! difficulty-dependent number of cells from the solved grid.

use vstd::prelude::*;
use vstd::string::StringExecFns;
use rand::seq::SliceRandom;
use rand::Rng;
use crate::grid::{
    gv, grid_wf, digits_ok, box_base, same_unit, placement_ok, consistent,
    solved_grid, cell_at, grid_set, is_completion, completable, count_empty,
    lemma_pos_distinct, lemma_flat_parts, lemma_place_consistent, lemma_count_set_none,
    lemma_count_full, lemma_empty_completable, lemma_puzzle_solvable, set_cell,
    clone_grid, new_empty_board,
    placement_allowed,
};

verus! {

/// The five difficulty tiers, ordered from most starting clues to fewest.
#[derive(Copy, Clone, PartialEq, Eq, Structural)]
pub enum BoardDifficulty {
    Beginner,
    Easy,
    Medium,
    Hard,
    Expert,
}

/// How many cells the carving step clears from a solved grid at each tier.
pub open spec fn removal_count(d: BoardDifficulty) -> int {
    match d {
        BoardDifficulty::Beginner => 30,
        BoardDifficulty::Easy => 45,
        BoardDifficulty::Medium => 55,
        BoardDifficulty::Hard => 62,
        BoardDifficulty::Expert => 64,
    }
}

/// Relies on rand::seq::SliceRandom::shuffle: it reorders the elements of the
/// slice in place, drawing the order from the thread-local generator, so the
/// multiset of elements (and hence the length) is unchanged.
#[verifier::external_body]
fn shuffle_digits(v: &mut Vec<i32>)
    ensures
        final(v)@.len() == old(v)@.len(),
        final(v)@.to_multiset() == old(v)@.to_multiset(),
{
    v.shuffle(&mut rand::thread_rng());
}

/// Relies on rand::Rng::gen_range: it returns a value drawn from the given
/// range, so the result is below the bound. It panics on an empty range,
/// hence the precondition.
#[verifier::external_body]
fn random_below(bound: usize) -> (r: usize)
    requires
        bound > 0,
    ensures
        r < bound,
{
    rand::thread_rng().gen_range(0..bound)
}

/// The text a cell contributes to the formatted board: its digit, or `0` for
/// an empty cell.
pub open spec fn cell_text(c: Option<i32>) -> Seq<char> {
    match c {
        None => seq!['0'],
        Some(d) => seq![
            if d == 1 { '1' } else if d == 2 { '2' } else if d == 3 { '3' }
            else if d == 4 { '4' } else if d == 5 { '5' } else if d == 6 { '6' }
            else if d == 7 { '7' } else if d == 8 { '8' } else { '9' }
        ],
    }
}

/// The first `n` cells of a row, separated by single spaces.
pub open spec fn row_text(row: Seq<Option<i32>>, n: int) -> Seq<char>
    decreases n,
{
    if n <= 0 {
        Seq::empty()
    } else if n == 1 {
        cell_text(row[0])
    } else {
        row_text(row, n - 1) + seq![' '] + cell_text(row[n - 1])
    }
}

/// The first `n` rows of a grid, separated by single newlines.
pub open spec fn grid_text(g: Seq<Seq<Option<i32>>>, n: int) -> Seq<char>
    decreases n,
{
    if n <= 0 {
        Seq::empty()
    } else if n == 1 {
        row_text(g[0], 9)
    } else {
        grid_text(g, n - 1) + seq!['\n'] + row_text(g[n - 1], 9)
    }
}

/// Appends one cell's text to the string being built.
fn append_cell(s: &mut String, c: Option<i32>)
    requires
        c matches Some(d) ==> 1 <= d <= 9,
    ensures
        final(s)@ == old(s)@ + cell_text(c),
{
    match c {
        None => {
            s.append("0");
            proof {
                reveal_strlit("0");
                assert("0"@ =~= cell_text(c));
            }
        }
        Some(d) => {
            if d == 1 {
                s.append("1");
                proof {
                    reveal_strlit("1");
                    assert("1"@ =~= cell_text(c));
                }
            } else if d == 2 {
                s.append("2");
                proof {
                    reveal_strlit("2");
                    assert("2"@ =~= cell_text(c));
                }
            } else if d == 3 {
                s.append("3");
                proof {
                    reveal_strlit("3");
                    assert("3"@ =~= cell_text(c));
                }
            } else if d == 4 {
                s.append("4");
                proof {
                    reveal_strlit("4");
                    assert("4"@ =~= cell_text(c));
                }
            } else if d == 5 {
                s.append("5");
                proof {
                    reveal_strlit("5");
                    assert("5"@ =~= cell_text(c));
                }
            } else if d == 6 {
                s.append("6");
                proof {
                    reveal_strlit("6");
                    assert("6"@ =~= cell_text(c));
                }
            } else if d == 7 {
                s.append("7");
                proof {
                    reveal_strlit("7");
                    assert("7"@ =~= cell_text(c));
                }
            } else if d == 8 {
                s.append("8");
                proof {
                    reveal_strlit("8");
                    assert("8"@ =~= cell_text(c));
                }
            } else {
                s.append("9");
                proof {
                    reveal_strlit("9");
                    assert("9"@ =~= cell_text(c));
                }
            }
        }
    }
    proof {
        assert(s@ =~= old(s)@ + cell_text(c));
    }
}

/// Produces solved grids and carves puzzles out of them, keeping the most
/// recent solution for later reveal and validation.
pub struct BoardGenerator {
    difficulty: BoardDifficulty,
    solved_board: Option<Vec<Vec<Option<i32>>>>,
}

impl BoardGenerator {
    /// The difficulty this generator was configured with.
    pub closed spec fn spec_difficulty(&self) -> BoardDifficulty {
        self.difficulty
    }

    /// Whether a solved grid has been produced and retained.
    pub closed spec fn has_solved(&self) -> bool {
        self.solved_board is Some
    }

    /// The retained solved grid (meaningful only when `has_solved`).
    pub closed spec fn solved_view(&self) -> Seq<Seq<Option<i32>>> {
        match self.solved_board {
            Some(b) => gv(&b),
            None => Seq::empty(),
        }
    }

    /// A retained grid, if any, is a genuine solution.
    pub closed spec fn inv(&self) -> bool {
        match self.solved_board {
            Some(b) => solved_grid(gv(&b)),
            None => true,
        }
    }

    pub fn new(difficulty: BoardDifficulty) -> (r: BoardGenerator)
        ensures
            r.spec_difficulty() == difficulty,
            !r.has_solved(),
            r.inv(),
    {
        BoardGenerator { difficulty, solved_board: None }
    }

    /// Hands back a copy of the solved grid retained by the last generation,
    /// if one exists.
    pub fn get_solved_board(&self) -> (r: Option<Vec<Vec<Option<i32>>>>)
        requires
            self.inv(),
        ensures
            r is Some <==> self.has_solved(),
            r matches Some(b) ==> gv(&b) == self.solved_view() && solved_grid(gv(&b)),
    {
        match &self.solved_board {
            Some(b) => Some(clone_grid(b)),
            None => None,
        }
    }

    /// Extracts the 3x3 box containing (`row`, `col`), as three rows of
    /// three cells in row-major order.
    pub fn get_square(&self, board: &Vec<Vec<Option<i32>>>, row: usize, col: usize) -> (result: Vec<Vec<Option<i32>>>)
        requires
            grid_wf(gv(board)),
            row < 9,
            col < 9,
        ensures
            result@.len() == 3,
            forall|i: int| 0 <= i < 3 ==> (#[trigger] result@[i])@.len() == 3,
            forall|i: int, j: int| 0 <= i < 3 && 0 <= j < 3 ==>
                (#[trigger] result@[i]@[j])
                    == gv(board)[box_base(row as int) + i][box_base(col as int) + j],
    {
        let start_row = row - row % 3;
        let start_col = col - col % 3;
        let mut result: Vec<Vec<Option<i32>>> = Vec::new();

        let mut i = start_row;
        while i < start_row + 3
            invariant
                start_row <= i <= start_row + 3,
                start_row == box_base(row as int),
                start_col == box_base(col as int),
                result@.len() == i - start_row,
                forall|a: int| 0 <= a < i - start_row ==> (#[trigger] result@[a])@.len() == 3,
                forall|a: int, b: int| 0 <= a < i - start_row && 0 <= b < 3 ==>
                    (#[trigger] result@[a]@[b]) == gv(board)[start_row + a][start_col + b],
            decreases start_row + 3 - i,
        {
            let mut row_slice: Vec<Option<i32>> = Vec::new();
            let mut j = start_col;
            while j < start_col + 3
                invariant
                    start_col <= j <= start_col + 3,
                    i < start_row + 3,
                    start_row == box_base(row as int),
                    start_col == box_base(col as int),
                    row_slice@.len() == j - start_col,
                    forall|b: int| 0 <= b < j - start_col ==>
                        (#[trigger] row_slice@[b]) == gv(board)[i as int][start_col + b],
                decreases start_col + 3 - j,
            {
                assert(gv(board)[i as int] == board@[i as int]@);
                row_slice.push(board[i][j]);
                j += 1;
            }
            result.push(row_slice);
            i += 1;
        }

        result
    }

    /// Reports whether placing `num` at (`row`, `col`) would violate the
    /// row, column, or 3x3-box uniqueness rules, judged against the grid's
    /// other cells only.
    pub fn is_valid(&self, board: &Vec<Vec<Option<i32>>>, row: usize, col: usize, num: i32) -> (r: bool)
        requires
            grid_wf(gv(board)),
            row < 9,
            col < 9,
            1 <= num <= 9,
        ensures
            r == placement_ok(gv(board), row as int, col as int, num),
    {
        placement_allowed(board, row, col, num)
    }

    /// Renders the board as nine lines of nine space-separated digits, an
    /// empty cell shown as `0`.
    pub fn _format_board(&self, board: &Vec<Vec<Option<i32>>>) -> (r: String)
        requires
            grid_wf(gv(board)),
            digits_ok(gv(board)),
        ensures
            r@ == grid_text(gv(board), 9),
    {
        let mut s = String::new();
        let mut i: usize = 0;
        while i < 9
            invariant
                i <= 9,
                s@ == grid_text(gv(board), i as int),
            decreases 9 - i,
        {
            if i > 0 {
                s.append("\n");
                proof {
                    reveal_strlit("\n");
                    assert(s@ =~= grid_text(gv(board), i as int) + seq!['\n']);
                }
            }
            let pre = Ghost(s@);
            let mut j: usize = 0;
            while j < 9
                invariant
                    j <= 9,
                    i < 9,
                    s@ == pre@ + row_text(gv(board)[i as int], j as int),
                decreases 9 - j,
            {
                if j > 0 {
                    s.append(" ");
                    proof {
                        reveal_strlit(" ");
                    }
                }
                proof {
                    assert(gv(board)[i as int] == board@[i as int]@);
                }
                append_cell(&mut s, board[i][j]);
                proof {
                    assert(s@ =~= pre@ + row_text(gv(board)[i as int], j + 1));
                }
                j += 1;
            }
            proof {
                assert(s@ =~= grid_text(gv(board), i + 1));
            }
            i += 1;
        }
        s
    }

    /// Fills every empty cell from flat position `position` on by randomized
    /// depth-first search with backtracking. Returns whether it succeeded; on
    /// failure the board is restored unchanged. The search is exhaustive, so
    /// it succeeds whenever the board can be completed at all.
    fn fill_board(&self, board: &mut Vec<Vec<Option<i32>>>, position: usize) -> (r: bool)
        requires
            grid_wf(gv(old(board))),
            digits_ok(gv(old(board))),
            consistent(gv(old(board))),
            position <= 81,
        ensures
            grid_wf(gv(final(board))),
            digits_ok(gv(final(board))),
            consistent(gv(final(board))),
            !r ==> gv(final(board)) == gv(old(board)),
            r ==> forall|q: int| 0 <= q < position
                ==> #[trigger] cell_at(gv(final(board)), q) == cell_at(gv(old(board)), q),
            r ==> forall|q: int| 0 <= q < 81 && cell_at(gv(old(board)), q) is Some
                ==> #[trigger] cell_at(gv(final(board)), q) == cell_at(gv(old(board)), q),
            r ==> forall|q: int| position <= q < 81 ==> #[trigger] cell_at(gv(final(board)), q) is Some,
            completable(gv(old(board)), position as int) ==> r,
        decreases 81 - position,
    {
        if position == 81 {
            return true;
        }

        let row = position / 9;
        let col = position % 9;
        proof {
            assert(gv(board)[row as int] == board@[row as int]@);
        }

        if board[row][col].is_some() {
            assert(cell_at(gv(old(board)), position as int) is Some);
            let rec = self.fill_board(board, position + 1);
            proof {
                if completable(gv(old(board)), position as int) {
                    let h = choose|h: Seq<Seq<Option<i32>>>|
                        is_completion(h, gv(old(board)), position as int);
                    assert(is_completion(h, gv(old(board)), position as int + 1));
                }
            }
            return rec;
        }

        // The cell is empty: try the digits 1 through 9 in a random order.
        let mut numbers: Vec<i32> = Vec::new();
        let mut d: i32 = 1;
        while d <= 9
            invariant
                1 <= d <= 10,
                numbers@.len() == d - 1,
                forall|t: int| 0 <= t < d - 1 ==> #[trigger] numbers@[t] == t + 1,
            decreases 10 - d,
        {
            numbers.push(d);
            d = d + 1;
        }
        let pre = Ghost(numbers@);
        shuffle_digits(&mut numbers);
        proof {
            broadcast use vstd::seq_lib::group_to_multiset_ensures;
            assert forall|dd: i32| 1 <= dd <= 9 implies numbers@.contains(dd) by {
                assert(pre@[dd - 1] == dd);
                assert(pre@.contains(dd));
                assert(numbers@.to_multiset().count(dd) > 0);
            }
            assert forall|t: int| 0 <= t < 9 implies 1 <= #[trigger] numbers@[t] <= 9 by {
                assert(numbers@.contains(numbers@[t]));
                assert(pre@.to_multiset().count(numbers@[t]) > 0);
                assert(pre@.contains(numbers@[t]));
                let w = choose|w: int| 0 <= w < pre@.len() && pre@[w] == numbers@[t];
                assert(pre@[w] == w + 1);
            }
        }

        let mut k: usize = 0;
        while k < 9
            invariant
                k <= 9,
                gv(board) == gv(old(board)),
                numbers@.len() == 9,
                forall|t: int| 0 <= t < 9 ==> 1 <= #[trigger] numbers@[t] <= 9,
                forall|dd: i32| 1 <= dd <= 9 ==> numbers@.contains(dd),
                forall|h: Seq<Seq<Option<i32>>>, t: int|
                    #![trigger is_completion(h, gv(old(board)), position as int), numbers@[t]]
                    is_completion(h, gv(old(board)), position as int) && 0 <= t < k
                        ==> cell_at(h, position as int) != Some(numbers@[t]),
            decreases 9 - k,
        {
            let num = numbers[k];
            if self.is_valid(board, row, col, num) {
                let gmid = Ghost(grid_set(gv(old(board)), row as int, col as int, Some(num)));
                set_cell(board, row, col, Some(num));
                proof {
                    lemma_place_consistent(gv(old(board)), row as int, col as int, num);
                    assert(grid_wf(gmid@));
                    assert forall|i: int, j: int| 0 <= i < 9 && 0 <= j < 9 implies
                        ((#[trigger] gmid@[i][j]) matches Some(dd) ==> 1 <= dd <= 9) by {
                        if !(i == row && j == col) {
                            assert(gmid@[i][j] == gv(old(board))[i][j]);
                        }
                    }
                }
                let rec = self.fill_board(board, position + 1);
                if rec {
                    proof {
                        assert(cell_at(gmid@, position as int) == Some(num));
                        assert forall|q: int| 0 <= q < 81 && q != position implies
                            #[trigger] cell_at(gmid@, q) == cell_at(gv(old(board)), q) by {
                            lemma_pos_distinct(q, position as int);
                        }
                        assert forall|q: int| 0 <= q < position implies
                            #[trigger] cell_at(gv(board), q) == cell_at(gv(old(board)), q) by {
                            assert(cell_at(gv(board), q) == cell_at(gmid@, q));
                        }
                        assert forall|q: int| 0 <= q < 81 && cell_at(gv(old(board)), q) is Some implies
                            #[trigger] cell_at(gv(board), q) == cell_at(gv(old(board)), q) by {
                            assert(q != position);
                            assert(cell_at(gmid@, q) == cell_at(gv(old(board)), q));
                            assert(cell_at(gv(board), q) == cell_at(gmid@, q));
                        }
                        assert forall|q: int| position <= q < 81 implies
                            #[trigger] cell_at(gv(board), q) is Some by {
                            if q == position {
                                assert(cell_at(gv(board), q) == cell_at(gmid@, q));
                            }
                        }
                    }
                    return true;
                }
                set_cell(board, row, col, None);
                proof {
                    assert(gv(board) =~~= gv(old(board)));
                    assert forall|h: Seq<Seq<Option<i32>>>, t: int|
                        is_completion(h, gv(old(board)), position as int) && 0 <= t < k + 1
                            implies cell_at(h, position as int) != Some(numbers@[t]) by {
                        if t == k && cell_at(h, position as int) == Some(num) {
                            assert forall|q: int| 0 <= q < position + 1 implies
                                #[trigger] cell_at(h, q) == cell_at(gmid@, q) by {
                                if q < position {
                                    lemma_pos_distinct(q, position as int);
                                }
                            }
                            assert forall|q: int| position + 1 <= q < 81 && cell_at(gmid@, q) is Some
                                implies #[trigger] cell_at(h, q) == cell_at(gmid@, q) by {
                                lemma_pos_distinct(q, position as int);
                            }
                            assert(is_completion(h, gmid@, position as int + 1));
                            assert(false);
                        }
                    }
                }
            } else {
                proof {
                    assert forall|h: Seq<Seq<Option<i32>>>, t: int|
                        is_completion(h, gv(old(board)), position as int) && 0 <= t < k + 1
                            implies cell_at(h, position as int) != Some(numbers@[t]) by {
                        if t == k && cell_at(h, position as int) == Some(num) {
                            let (a, b) = choose|a: int, b: int|
                                0 <= a < 9 && 0 <= b < 9 && !(a == row && b == col)
                                    && same_unit(row as int, col as int, a, b)
                                    && gv(old(board))[a][b] == Some(num);
                            let q2 = 9 * a + b;
                            lemma_flat_parts(a, b);
                            assert(cell_at(gv(old(board)), q2) == Some(num));
                            assert(cell_at(h, q2) == Some(num));
                            assert(h[a][b] == Some(num));
                            assert(h[row as int][col as int] == Some(num));
                            assert(placement_ok(h, row as int, col as int, num));
                            assert(false);
                        }
                    }
                }
            }
            k += 1;
        }

        proof {
            if completable(gv(old(board)), position as int) {
                let h = choose|h: Seq<Seq<Option<i32>>>|
                    is_completion(h, gv(old(board)), position as int);
                assert(cell_at(h, position as int) is Some);
                assert(h[row as int][col as int] == cell_at(h, position as int));
                let hd = cell_at(h, position as int)->0;
                assert(1 <= hd <= 9);
                assert(numbers@.contains(hd));
                let t = choose|t: int| 0 <= t < numbers@.len() && numbers@[t] == hd;
                assert(cell_at(h, position as int) != Some(numbers@[t]));
                assert(false);
            }
        }
        false
    }

    /// Produces a puzzle at this generator's difficulty: fills a fresh grid
    /// by randomized backtracking, retains the solution, and clears exactly
    /// the tier's number of cells, each chosen at random among the cells
    /// still populated.
    pub fn generate_sudoku(&mut self) -> (puzzle: Vec<Vec<Option<i32>>>)
        ensures
            final(self).spec_difficulty() == old(self).spec_difficulty(),
            final(self).inv(),
            final(self).has_solved(),
            solved_grid(final(self).solved_view()),
            grid_wf(gv(&puzzle)),
            digits_ok(gv(&puzzle)),
            forall|q: int| 0 <= q < 81 && #[trigger] cell_at(gv(&puzzle), q) is Some
                ==> cell_at(gv(&puzzle), q) == cell_at(final(self).solved_view(), q),
            count_empty(gv(&puzzle)) == removal_count(old(self).spec_difficulty()),
            is_completion(final(self).solved_view(), gv(&puzzle), 0),
    {
        // A fresh empty grid always completes, so a single exhaustive search
        // suffices: no outer retry is ever taken.
        let mut board = new_empty_board();
        proof {
            lemma_empty_completable(gv(&board));
        }
        let filled = self.fill_board(&mut board, 0);
        assert(filled);
        proof {
            assert forall|i: int, j: int| 0 <= i < 9 && 0 <= j < 9 implies
                (#[trigger] gv(&board)[i][j]) is Some by {
                lemma_flat_parts(i, j);
                assert(cell_at(gv(&board), 9 * i + j) is Some);
            }
        }
        let gsol = Ghost(gv(&board));
        let solved = clone_grid(&board);
        self.solved_board = Some(solved);

        let removals: usize = match self.difficulty {
            BoardDifficulty::Beginner => 30,
            BoardDifficulty::Easy => 45,
            BoardDifficulty::Medium => 55,
            BoardDifficulty::Hard => 62,
            BoardDifficulty::Expert => 64,
        };

        // Every cell is populated to begin with; `positions` tracks the flat
        // positions of the cells still holding a digit.
        let mut positions: Vec<usize> = Vec::new();
        let mut p: usize = 0;
        while p < 81
            invariant
                p <= 81,
                positions@.len() == p,
                forall|t: int| 0 <= t < p ==> #[trigger] positions@[t] == t,
            decreases 81 - p,
        {
            positions.push(p);
            p += 1;
        }

        proof {
            lemma_count_full(gv(&board), 81);
        }

        let mut k: usize = 0;
        while k < removals
            invariant
                k <= removals,
                removals == removal_count(old(self).spec_difficulty()),
                positions@.len() == 81 - k,
                forall|t: int| 0 <= t < 81 - k ==> (#[trigger] positions@[t]) < 81,
                forall|t1: int, t2: int| 0 <= t1 < t2 < 81 - k
                    ==> positions@[t1] != positions@[t2],
                grid_wf(gv(&board)),
                forall|t: int| 0 <= t < 81 - k
                    ==> #[trigger] cell_at(gv(&board), positions@[t] as int) is Some,
                forall|q: int| 0 <= q < 81 && #[trigger] cell_at(gv(&board), q) is Some
                    ==> cell_at(gv(&board), q) == cell_at(gsol@, q),
                count_empty(gv(&board)) == k,
            decreases removals - k,
        {
            let idx = random_below(positions.len());
            let prev = Ghost(positions@);
            let pos = positions.swap_remove(idx);
            let gprev = Ghost(gv(&board));
            proof {
                assert(cell_at(gprev@, pos as int) is Some);
                assert forall|t: int| 0 <= t < 81 - (k + 1) implies
                    (#[trigger] positions@[t]) < 81
                        && positions@[t] != pos
                        && prev@.contains(positions@[t]) by {
                    if t == idx {
                        assert(positions@[t] == prev@[81 - k - 1]);
                    } else {
                        assert(positions@[t] == prev@[t]);
                    }
                }
            }
            let prow = pos / 9;
            let pcol = pos % 9;
            set_cell(&mut board, prow, pcol, None);
            proof {
                assert(cell_at(gv(&board), pos as int) is None);
                assert forall|q: int| 0 <= q < 81 && q != pos implies
                    #[trigger] cell_at(gv(&board), q) == cell_at(gprev@, q) by {
                    lemma_pos_distinct(q, pos as int);
                }
                lemma_count_set_none(gprev@, gv(&board), pos as int, 81);
                assert forall|t1: int, t2: int| 0 <= t1 < t2 < 81 - (k + 1) implies
                    positions@[t1] != positions@[t2] by {
                    if t1 == idx {
                        assert(positions@[t1] == prev@[81 - k - 1]);
                        assert(positions@[t2] == prev@[t2]);
                    } else if t2 == idx {
                        assert(positions@[t2] == prev@[81 - k - 1]);
                        assert(positions@[t1] == prev@[t1]);
                    }
                }
                assert forall|t: int| 0 <= t < 81 - (k + 1) implies
                    #[trigger] cell_at(gv(&board), positions@[t] as int) is Some by {
                    assert(positions@[t] != pos);
                    assert(cell_at(gprev@, positions@[t] as int) is Some);
                }
            }
            k += 1;
        }

        proof {
            assert forall|i: int, j: int| 0 <= i < 9 && 0 <= j < 9 implies
                ((#[trigger] gv(&board)[i][j]) matches Some(dd) ==> 1 <= dd <= 9) by {
                lemma_flat_parts(i, j);
                if cell_at(gv(&board), 9 * i + j) is Some {
                    assert(cell_at(gv(&board), 9 * i + j) == cell_at(gsol@, 9 * i + j));
                }
            }
        }
        proof {
            lemma_puzzle_solvable(gv(&board), self.solved_view());
        }
        board
    }
}

} // verus!
