//! The mathematical model of a 9x9 Sudoku grid: well-formedness, the
//! row/column/box uniqueness constraints, completions of partial grids, and
//! a census of empty cells, together with the lemmas the generator needs.

use vstd::prelude::*;

verus! {

/// The mathematical view of a board: a sequence of rows, each a sequence of
/// cells, a cell being empty or holding a digit.
pub open spec fn gv(b: &Vec<Vec<Option<i32>>>) -> Seq<Seq<Option<i32>>> {
    Seq::new(b@.len(), |i: int| b@[i]@)
}

/// A structurally well-formed grid: nine rows of nine cells.
pub open spec fn grid_wf(g: Seq<Seq<Option<i32>>>) -> bool {
    g.len() == 9 && forall|i: int| 0 <= i < 9 ==> (#[trigger] g[i]).len() == 9
}

/// Every populated cell holds a digit between 1 and 9.
pub open spec fn digits_ok(g: Seq<Seq<Option<i32>>>) -> bool {
    forall|i: int, j: int| 0 <= i < 9 && 0 <= j < 9 ==>
        ((#[trigger] g[i][j]) matches Some(d) ==> 1 <= d <= 9)
}

/// The first row (or column) of the 3x3 box that `x` falls in.
pub open spec fn box_base(x: int) -> int {
    x - x % 3
}

/// Whether two positions share a row, a column, or a 3x3 box.
pub open spec fn same_unit(r1: int, c1: int, r2: int, c2: int) -> bool {
    r1 == r2 || c1 == c2 || (box_base(r1) == box_base(r2) && box_base(c1) == box_base(c2))
}

/// The digit `num` may be placed at (`row`, `col`): no other cell in the same
/// row, column or box already holds it. The target cell's own content is not
/// inspected.
pub open spec fn placement_ok(g: Seq<Seq<Option<i32>>>, row: int, col: int, num: i32) -> bool {
    forall|i: int, j: int|
        0 <= i < 9 && 0 <= j < 9 && !(i == row && j == col) && same_unit(row, col, i, j)
            ==> (#[trigger] g[i][j]) != Some(num)
}

/// Every populated cell's digit appears nowhere else in its row, column or
/// box. A partial grid with this property can still hope to be completed.
pub open spec fn consistent(g: Seq<Seq<Option<i32>>>) -> bool {
    forall|i: int, j: int| 0 <= i < 9 && 0 <= j < 9 ==>
        ((#[trigger] g[i][j]) matches Some(d) ==> placement_ok(g, i, j, d))
}

/// Every cell is populated.
pub open spec fn full_grid(g: Seq<Seq<Option<i32>>>) -> bool {
    forall|i: int, j: int| 0 <= i < 9 && 0 <= j < 9 ==> (#[trigger] g[i][j]) is Some
}

/// A complete, rule-valid Sudoku solution.
pub open spec fn solved_grid(g: Seq<Seq<Option<i32>>>) -> bool {
    grid_wf(g) && digits_ok(g) && full_grid(g) && consistent(g)
}

/// The cell at flat position `p` of a grid walked in row-major order.
pub open spec fn cell_at(g: Seq<Seq<Option<i32>>>, p: int) -> Option<i32> {
    g[p / 9][p % 9]
}

/// The grid with the one cell at (`row`, `col`) replaced by `val`.
pub open spec fn grid_set(g: Seq<Seq<Option<i32>>>, row: int, col: int, val: Option<i32>) -> Seq<Seq<Option<i32>>> {
    g.update(row, g[row].update(col, val))
}

/// `h` completes `g` from position `p` on: it is a consistent grid that keeps
/// every cell of `g` below `p`, keeps every populated cell of `g` at or above
/// `p`, and populates every cell at or above `p`.
pub open spec fn is_completion(h: Seq<Seq<Option<i32>>>, g: Seq<Seq<Option<i32>>>, p: int) -> bool {
    &&& grid_wf(h)
    &&& digits_ok(h)
    &&& consistent(h)
    &&& forall|q: int| 0 <= q < p ==> #[trigger] cell_at(h, q) == cell_at(g, q)
    &&& forall|q: int| p <= q < 81 && cell_at(g, q) is Some ==> #[trigger] cell_at(h, q) == cell_at(g, q)
    &&& forall|q: int| p <= q < 81 ==> #[trigger] cell_at(h, q) is Some
}

/// Some completion of `g` from position `p` on exists.
pub open spec fn completable(g: Seq<Seq<Option<i32>>>, p: int) -> bool {
    exists|h: Seq<Seq<Option<i32>>>| is_completion(h, g, p)
}

/// How many of the first `n` flat positions hold no digit.
pub open spec fn count_empty_upto(g: Seq<Seq<Option<i32>>>, n: int) -> int
    decreases n,
{
    if n <= 0 {
        0
    } else {
        count_empty_upto(g, n - 1) + if cell_at(g, n - 1) is None { 1int } else { 0int }
    }
}

/// How many of a grid's 81 cells hold no digit.
pub open spec fn count_empty(g: Seq<Seq<Option<i32>>>) -> int {
    count_empty_upto(g, 81)
}

/// Distinct flat positions name distinct (row, column) pairs.
pub(crate) proof fn lemma_pos_distinct(q1: int, q2: int)
    requires
        0 <= q1 < 81,
        0 <= q2 < 81,
        q1 != q2,
    ensures
        !(q1 / 9 == q2 / 9 && q1 % 9 == q2 % 9),
{
    assert(q1 == 9 * (q1 / 9) + q1 % 9);
    assert(q2 == 9 * (q2 / 9) + q2 % 9);
}

/// Distinct row and column parts of a flat position built from them.
pub(crate) proof fn lemma_flat_parts(a: int, b: int)
    requires
        0 <= a < 9,
        0 <= b < 9,
    ensures
        (9 * a + b) / 9 == a,
        (9 * a + b) % 9 == b,
{
    assert((9 * a + b) / 9 == a && (9 * a + b) % 9 == b) by (nonlinear_arith)
        requires 0 <= a < 9 && 0 <= b < 9;
}

/// Placing a digit that passes the validator into an empty cell keeps the
/// grid consistent.
pub(crate) proof fn lemma_place_consistent(g: Seq<Seq<Option<i32>>>, row: int, col: int, num: i32)
    requires
        grid_wf(g),
        consistent(g),
        0 <= row < 9,
        0 <= col < 9,
        g[row][col] is None,
        placement_ok(g, row, col, num),
    ensures
        consistent(grid_set(g, row, col, Some(num))),
{
    let g2 = grid_set(g, row, col, Some(num));
    assert forall|i: int, j: int| 0 <= i < 9 && 0 <= j < 9 implies
        ((#[trigger] g2[i][j]) matches Some(d) ==> placement_ok(g2, i, j, d)) by {
        if g2[i][j] is Some {
            let d = g2[i][j]->0;
            assert forall|a: int, b: int|
                0 <= a < 9 && 0 <= b < 9 && !(a == i && b == j) && same_unit(i, j, a, b)
                implies (#[trigger] g2[a][b]) != Some(d) by {
                if i == row && j == col {
                    assert(g2[a][b] == g[a][b]);
                    assert(g[a][b] != Some(num));
                } else {
                    assert(g2[i][j] == g[i][j]);
                    assert(placement_ok(g, i, j, d));
                    if a == row && b == col {
                        assert(same_unit(row, col, i, j));
                        assert(g[i][j] != Some(num));
                    } else {
                        assert(g2[a][b] == g[a][b]);
                    }
                }
            }
        }
    }
}

/// Emptying one populated cell raises the census of empties by exactly one.
pub(crate) proof fn lemma_count_set_none(
    g1: Seq<Seq<Option<i32>>>,
    g2: Seq<Seq<Option<i32>>>,
    p: int,
    n: int,
)
    requires
        0 <= p < 81,
        cell_at(g1, p) is Some,
        cell_at(g2, p) is None,
        forall|q: int| 0 <= q < 81 && q != p ==> #[trigger] cell_at(g1, q) == cell_at(g2, q),
        0 <= n <= 81,
    ensures
        count_empty_upto(g2, n) == count_empty_upto(g1, n) + if p < n { 1int } else { 0int },
    decreases n,
{
    if n > 0 {
        lemma_count_set_none(g1, g2, p, n - 1);
    }
}

/// A grid populated on its first `n` positions counts no empties there.
pub(crate) proof fn lemma_count_full(g: Seq<Seq<Option<i32>>>, n: int)
    requires
        0 <= n <= 81,
        forall|q: int| 0 <= q < n ==> #[trigger] cell_at(g, q) is Some,
    ensures
        count_empty_upto(g, n) == 0,
    decreases n,
{
    if n > 0 {
        lemma_count_full(g, n - 1);
    }
}

/// One cell of a closed-form solved grid: the classic cyclic pattern.
pub open spec fn pattern_cell(i: int, j: int) -> int {
    (3 * i + i / 3 + j) % 9 + 1
}

/// A closed-form solved grid; it witnesses that an empty grid can always be
/// completed.
pub open spec fn pattern_grid() -> Seq<Seq<Option<i32>>> {
    Seq::new(9, |i: int| Seq::new(9, |j: int| Some(pattern_cell(i, j) as i32)))
}

/// Two distinct shifts below nine land on distinct residues modulo nine.
proof fn lemma_mod9_shift_distinct(x: int, a: int, b: int)
    requires
        x >= 0,
        0 <= a < 9,
        0 <= b < 9,
        a != b,
    ensures
        (x + a) % 9 != (x + b) % 9,
{
    vstd::arithmetic::div_mod::lemma_fundamental_div_mod(x + a, 9);
    vstd::arithmetic::div_mod::lemma_fundamental_div_mod(x + b, 9);
    vstd::arithmetic::div_mod::lemma_mod_bound(x + a, 9);
    vstd::arithmetic::div_mod::lemma_mod_bound(x + b, 9);
    if (x + a) % 9 == (x + b) % 9 {
        let qa = (x + a) / 9;
        let qb = (x + b) / 9;
        assert(a - b == 9 * (qa - qb));
        assert(false);
    }
}

/// The pattern cell reduced to a shift of the in-box offset.
proof fn lemma_pattern_cell_rewrite(i: int, j: int)
    requires
        0 <= i < 9,
        0 <= j < 9,
    ensures
        pattern_cell(i, j) == (3 * (i % 3) + i / 3 + j) % 9 + 1,
{
    vstd::arithmetic::div_mod::lemma_fundamental_div_mod(i, 3);
    assert(3 * i + i / 3 + j == 9 * (i / 3) + (3 * (i % 3) + i / 3 + j));
    vstd::arithmetic::div_mod::lemma_mod_multiples_vanish(i / 3, 3 * (i % 3) + i / 3 + j, 9);
}

/// Cells of the pattern grid that share a row, a column or a box hold
/// distinct digits.
proof fn lemma_pattern_distinct(i: int, j: int, a: int, b: int)
    requires
        0 <= i < 9,
        0 <= j < 9,
        0 <= a < 9,
        0 <= b < 9,
        !(a == i && b == j),
        same_unit(i, j, a, b),
    ensures
        pattern_cell(i, j) != pattern_cell(a, b),
{
    lemma_pattern_cell_rewrite(i, j);
    lemma_pattern_cell_rewrite(a, b);
    vstd::arithmetic::div_mod::lemma_fundamental_div_mod(i, 3);
    vstd::arithmetic::div_mod::lemma_fundamental_div_mod(a, 3);
    vstd::arithmetic::div_mod::lemma_fundamental_div_mod(j, 3);
    vstd::arithmetic::div_mod::lemma_fundamental_div_mod(b, 3);
    if i == a {
        lemma_mod9_shift_distinct(3 * (i % 3) + i / 3, j, b);
    } else if j == b {
        let si = 3 * (i % 3) + i / 3;
        let sa = 3 * (a % 3) + a / 3;
        assert(si != sa);
        lemma_mod9_shift_distinct(j, si, sa);
    } else {
        assert(box_base(i) == box_base(a) && box_base(j) == box_base(b));
        assert(i / 3 == a / 3 && j / 3 == b / 3);
        let x = i / 3 + 3 * (j / 3);
        let vi = 3 * (i % 3) + j % 3;
        let va = 3 * (a % 3) + b % 3;
        assert(vi != va);
        assert(3 * (i % 3) + i / 3 + j == x + vi);
        assert(3 * (a % 3) + a / 3 + b == x + va);
        lemma_mod9_shift_distinct(x, vi, va);
    }
}

/// The pattern grid is a solved grid.
pub(crate) proof fn lemma_pattern_solved()
    ensures
        solved_grid(pattern_grid()),
{
    let g = pattern_grid();
    assert forall|i: int, j: int| 0 <= i < 9 && 0 <= j < 9 implies
        (#[trigger] g[i][j]) == Some(pattern_cell(i, j) as i32) && 1 <= pattern_cell(i, j) <= 9 by {
        vstd::arithmetic::div_mod::lemma_mod_bound(3 * i + i / 3 + j, 9);
    }
    assert forall|i: int, j: int| 0 <= i < 9 && 0 <= j < 9 implies
        ((#[trigger] g[i][j]) matches Some(d) ==> placement_ok(g, i, j, d)) by {
        assert forall|a: int, b: int|
            0 <= a < 9 && 0 <= b < 9 && !(a == i && b == j) && same_unit(i, j, a, b)
            implies (#[trigger] g[a][b]) != g[i][j] by {
            lemma_pattern_distinct(i, j, a, b);
        }
    }
}

/// An entirely empty, well-formed grid has a completion.
pub(crate) proof fn lemma_empty_completable(g: Seq<Seq<Option<i32>>>)
    requires
        grid_wf(g),
        forall|i: int, j: int| 0 <= i < 9 && 0 <= j < 9 ==> (#[trigger] g[i][j]) is None,
    ensures
        completable(g, 0),
{
    lemma_pattern_solved();
    assert forall|q: int| 0 <= q < 81 implies !(#[trigger] cell_at(g, q) is Some) by {
        assert(0 <= q / 9 < 9 && 0 <= q % 9 < 9);
    }
    assert forall|q: int| 0 <= q < 81 implies #[trigger] cell_at(pattern_grid(), q) is Some by {
        assert(0 <= q / 9 < 9 && 0 <= q % 9 < 9);
    }
    assert(is_completion(pattern_grid(), g, 0));
}

/// Writes one cell of the board.
pub(crate) fn set_cell(board: &mut Vec<Vec<Option<i32>>>, row: usize, col: usize, val: Option<i32>)
    requires
        grid_wf(gv(old(board))),
        row < 9,
        col < 9,
    ensures
        gv(final(board)) == grid_set(gv(old(board)), row as int, col as int, val),
{
    proof {
        assert(gv(board)[row as int] == board@[row as int]@);
    }
    board[row][col] = val;
    proof {
        assert(gv(board) =~~= grid_set(gv(old(board)), row as int, col as int, val));
    }
}

/// Copies a board cell for cell.
pub(crate) fn clone_grid(src: &Vec<Vec<Option<i32>>>) -> (r: Vec<Vec<Option<i32>>>)
    requires
        grid_wf(gv(src)),
    ensures
        gv(&r) == gv(src),
{
    let mut out: Vec<Vec<Option<i32>>> = Vec::new();
    let mut i: usize = 0;
    while i < 9
        invariant
            i <= 9,
            out@.len() == i,
            forall|a: int| 0 <= a < i ==> (#[trigger] out@[a])@ == gv(src)[a],
        decreases 9 - i,
    {
        let mut row: Vec<Option<i32>> = Vec::new();
        let mut j: usize = 0;
        while j < 9
            invariant
                j <= 9,
                i < 9,
                row@.len() == j,
                forall|b: int| 0 <= b < j ==> #[trigger] row@[b] == gv(src)[i as int][b],
            decreases 9 - j,
        {
            proof {
                assert(gv(src)[i as int] == src@[i as int]@);
            }
            row.push(src[i][j]);
            j += 1;
        }
        proof {
            assert(row@ =~= gv(src)[i as int]);
        }
        out.push(row);
        i += 1;
    }
    proof {
        assert(gv(&out) =~~= gv(src));
    }
    out
}

/// A fresh board with every cell empty.
pub(crate) fn new_empty_board() -> (b: Vec<Vec<Option<i32>>>)
    ensures
        grid_wf(gv(&b)),
        forall|i: int, j: int| 0 <= i < 9 && 0 <= j < 9 ==> (#[trigger] gv(&b)[i][j]) is None,
{
    let mut out: Vec<Vec<Option<i32>>> = Vec::new();
    let mut i: usize = 0;
    while i < 9
        invariant
            i <= 9,
            out@.len() == i,
            forall|a: int| 0 <= a < i ==> (#[trigger] out@[a])@.len() == 9,
            forall|a: int, b: int| 0 <= a < i && 0 <= b < 9 ==> (#[trigger] out@[a]@[b]) is None,
        decreases 9 - i,
    {
        let mut row: Vec<Option<i32>> = Vec::new();
        let mut j: usize = 0;
        while j < 9
            invariant
                j <= 9,
                row@.len() == j,
                forall|b: int| 0 <= b < j ==> (#[trigger] row@[b]) is None,
            decreases 9 - j,
        {
            row.push(None);
            j += 1;
        }
        out.push(row);
        i += 1;
    }
    out
}

/// Scans the row, the column and the 3x3 box of (`row`, `col`) and reports
/// whether `num` could be placed there without clashing with any other cell.
pub fn placement_allowed(board: &Vec<Vec<Option<i32>>>, row: usize, col: usize, num: i32) -> (r: bool)
    requires
        grid_wf(gv(board)),
        row < 9,
        col < 9,
        1 <= num <= 9,
    ensures
        r == placement_ok(gv(board), row as int, col as int, num),
{
    let g = Ghost(gv(board));

    // Scan the row.
    let mut j: usize = 0;
    while j < 9
        invariant
            j <= 9,
            forall|t: int| 0 <= t < j && t != col ==> g@[row as int][t] != Some(num),
        decreases 9 - j,
    {
        if j != col {
            match board[row][j] {
                Some(v) => {
                    if v == num {
                        assert(g@[row as int][j as int] == Some(num));
                        return false;
                    }
                }
                None => {}
            }
        }
        j += 1;
    }

    // Scan the column.
    let mut i: usize = 0;
    while i < 9
        invariant
            i <= 9,
            forall|t: int| 0 <= t < i && t != row ==> g@[t][col as int] != Some(num),
        decreases 9 - i,
    {
        if i != row {
            assert(g@[i as int] == board@[i as int]@);
            match board[i][col] {
                Some(v) => {
                    if v == num {
                        assert(g@[i as int][col as int] == Some(num));
                        return false;
                    }
                }
                None => {}
            }
        }
        i += 1;
    }

    // Scan the 3x3 box.
    let start_row = row - row % 3;
    let start_col = col - col % 3;
    let mut di: usize = 0;
    while di < 3
        invariant
            di <= 3,
            start_row == box_base(row as int),
            start_col == box_base(col as int),
            forall|a: int, b: int|
                start_row <= a < start_row + di && start_col <= b < start_col + 3
                    && !(a == row && b == col)
                    ==> (#[trigger] g@[a][b]) != Some(num),
        decreases 3 - di,
    {
        let mut dj: usize = 0;
        while dj < 3
            invariant
                di < 3,
                dj <= 3,
                start_row == box_base(row as int),
                start_col == box_base(col as int),
                forall|a: int, b: int|
                    start_row <= a < start_row + di && start_col <= b < start_col + 3
                        && !(a == row && b == col)
                        ==> (#[trigger] g@[a][b]) != Some(num),
                forall|a: int, b: int|
                    a == start_row + di && start_col <= b < start_col + dj
                        && !(a == row && b == col)
                        ==> (#[trigger] g@[a][b]) != Some(num),
            decreases 3 - dj,
        {
            let bi = start_row + di;
            let bj = start_col + dj;
            if !(bi == row && bj == col) {
                assert(g@[bi as int] == board@[bi as int]@);
                match board[bi][bj] {
                    Some(v) => {
                        if v == num {
                            assert(g@[bi as int][bj as int] == Some(num));
                            assert(same_unit(row as int, col as int, bi as int, bj as int));
                            return false;
                        }
                    }
                    None => {}
                }
            }
            dj += 1;
        }
        di += 1;
    }

    assert(placement_ok(g@, row as int, col as int, num)) by {
        assert forall|i2: int, j2: int|
            0 <= i2 < 9 && 0 <= j2 < 9 && !(i2 == row && j2 == col)
                && same_unit(row as int, col as int, i2, j2)
            implies #[trigger] g@[i2][j2] != Some(num) by {
            if i2 == row {
            } else if j2 == col {
            } else {
                assert(box_base(i2) == box_base(row as int) && box_base(j2) == box_base(col as int));
                assert(box_base(i2) <= i2 < box_base(i2) + 3);
                assert(box_base(j2) <= j2 < box_base(j2) + 3);
            }
        }
    }
    true
}

/// Law: in a solved grid every cell's own digit still passes the validator
/// at its own position — a correct solution is never flagged by the
/// self-exclusion semantics.
pub proof fn lemma_solved_self_valid(g: Seq<Seq<Option<i32>>>, row: int, col: int)
    requires
        solved_grid(g),
        0 <= row < 9,
        0 <= col < 9,
    ensures
        g[row][col] is Some,
        placement_ok(g, row, col, g[row][col]->0),
{
}

/// Law: a solution returned beside a carved puzzle completes that puzzle:
/// it agrees with every populated puzzle cell and populates the rest, so the
/// puzzle is solvable and the retained grid is one of its solutions.
pub proof fn lemma_puzzle_solvable(puzzle: Seq<Seq<Option<i32>>>, solution: Seq<Seq<Option<i32>>>)
    requires
        solved_grid(solution),
        grid_wf(puzzle),
        forall|q: int| 0 <= q < 81 && #[trigger] cell_at(puzzle, q) is Some
            ==> cell_at(puzzle, q) == cell_at(solution, q),
    ensures
        is_completion(solution, puzzle, 0),
        completable(puzzle, 0),
{
    assert forall|q: int| 0 <= q < 81 implies #[trigger] cell_at(solution, q) is Some by {
        assert(0 <= q / 9 < 9 && 0 <= q % 9 < 9);
    }
    assert(is_completion(solution, puzzle, 0));
}

/// Compares two boards cell for cell.
pub fn grids_equal(a: &Vec<Vec<Option<i32>>>, b: &Vec<Vec<Option<i32>>>) -> (r: bool)
    requires
        grid_wf(gv(a)),
        grid_wf(gv(b)),
    ensures
        r == (gv(a) == gv(b)),
{
    let mut i: usize = 0;
    while i < 9
        invariant
            i <= 9,
            forall|t: int, u: int| 0 <= t < i && 0 <= u < 9
                ==> (#[trigger] gv(a)[t][u]) == gv(b)[t][u],
        decreases 9 - i,
    {
        let mut j: usize = 0;
        while j < 9
            invariant
                j <= 9,
                i < 9,
                forall|t: int, u: int| 0 <= t < i && 0 <= u < 9
                    ==> (#[trigger] gv(a)[t][u]) == gv(b)[t][u],
                forall|u: int| 0 <= u < j
                    ==> (#[trigger] gv(a)[i as int][u]) == gv(b)[i as int][u],
            decreases 9 - j,
        {
            proof {
                assert(gv(a)[i as int] == a@[i as int]@);
                assert(gv(b)[i as int] == b@[i as int]@);
            }
            let same = match (a[i][j], b[i][j]) {
                (None, None) => true,
                (Some(u), Some(v)) => u == v,
                _ => false,
            };
            if !same {
                proof {
                    assert(gv(a)[i as int][j as int] != gv(b)[i as int][j as int]);
                }
                return false;
            }
            j += 1;
        }
        i += 1;
    }
    proof {
        assert(gv(a) =~~= gv(b));
    }
    true
}

} // verus!
