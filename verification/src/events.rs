//! The state transitions taken when the player enters a digit: either the
//! digit is pencilled into (or erased from) the cell's candidate notes, or it
//! is written onto the board and the cell's notes are discarded.

use vstd::prelude::*;
use crate::game::{GameState, cv, cands_wf};
use crate::grid::{gv, grid_wf, grid_set, set_cell};

verus! {

/// `s` with every occurrence of `x` removed, order kept.
pub open spec fn without_value(s: Seq<i32>, x: i32) -> Seq<i32> {
    s.filter(|e: i32| e != x)
}

/// Reports whether `v` holds `x`.
fn vec_contains(v: &Vec<i32>, x: i32) -> (r: bool)
    ensures
        r == v@.contains(x),
{
    let mut t: usize = 0;
    while t < v.len()
        invariant
            t <= v@.len(),
            forall|s: int| 0 <= s < t ==> v@[s] != x,
        decreases v@.len() - t,
    {
        if v[t] == x {
            return true;
        }
        t += 1;
    }
    false
}

/// Builds a copy of `v` with every occurrence of `x` dropped.
fn remove_value(v: &Vec<i32>, x: i32) -> (r: Vec<i32>)
    ensures
        r@ == without_value(v@, x),
{
    broadcast use vstd::seq_lib::group_seq_lib_default;

    let mut out: Vec<i32> = Vec::new();
    let mut t: usize = 0;
    while t < v.len()
        invariant
            t <= v@.len(),
            out@ == without_value(v@.take(t as int), x),
        decreases v@.len() - t,
    {
        let e = v[t];
        proof {
            assert(v@.take(t + 1) =~= v@.take(t as int) + seq![v@[t as int]]);
            assert(without_value(v@.take(t as int) + seq![v@[t as int]], x)
                == without_value(v@.take(t as int), x) + without_value(seq![v@[t as int]], x));
            assert(without_value(seq![v@[t as int]], x) =~= if v@[t as int] != x {
                seq![v@[t as int]]
            } else {
                Seq::<i32>::empty()
            }) by {
                reveal_with_fuel(Seq::<i32>::filter, 2);
            }
        }
        if e != x {
            out.push(e);
        }
        proof {
            assert(out@ =~= without_value(v@.take(t + 1), x));
        }
        t += 1;
    }
    proof {
        assert(v@.take(v@.len() as int) =~= v@);
    }
    out
}

/// Copies a list of digits.
fn clone_digits(v: &Vec<i32>) -> (r: Vec<i32>)
    ensures
        r@ == v@,
{
    let mut out: Vec<i32> = Vec::new();
    let mut t: usize = 0;
    while t < v.len()
        invariant
            t <= v@.len(),
            out@ == v@.take(t as int),
        decreases v@.len() - t,
    {
        out.push(v[t]);
        proof {
            assert(out@ =~= v@.take(t + 1));
        }
        t += 1;
    }
    proof {
        assert(v@.take(v@.len() as int) =~= v@);
    }
    out
}

/// Writes one cell of the candidate notes.
fn set_cand(c: &mut Vec<Vec<Option<Vec<i32>>>>, row: usize, col: usize, val: Option<Vec<i32>>)
    requires
        cands_wf(cv(old(c))),
        row < 9,
        col < 9,
    ensures
        cv(final(c)) == cv(old(c)).update(row as int, cv(old(c))[row as int].update(col as int, val)),
{
    proof {
        assert(cv(c)[row as int] == c@[row as int]@);
    }
    c[row][col] = val;
    proof {
        assert(cv(c) =~~= cv(old(c)).update(
            row as int,
            cv(old(c))[row as int].update(col as int, val),
        ));
    }
}

/// The event handlers around the play session. The interface loop decodes
/// inputs and calls in here to change the state.
pub struct Events;

impl Events {
    /// The player entered digit `val` with the cell (`x`, `y`) selected.
    /// In candidate mode the digit is toggled in that cell's notes; otherwise
    /// it is written onto the board and the cell's notes are discarded.
    pub fn handle_number_entry(game_state: &mut GameState, x: usize, y: usize, val: i32)
        requires
            old(game_state).wf(),
            x < 9,
            y < 9,
        ensures
            final(game_state).wf(),
            final(game_state).selected_square == old(game_state).selected_square,
            final(game_state).new_puzzle_button_pressed == old(game_state).new_puzzle_button_pressed,
            final(game_state).solve_button_pressed == old(game_state).solve_button_pressed,
            final(game_state).candidate_button_pressed == old(game_state).candidate_button_pressed,
            final(game_state).initial_board == old(game_state).initial_board,
            final(game_state).solved_board == old(game_state).solved_board,
            final(game_state).board_initialized == old(game_state).board_initialized,
            final(game_state).puzzle_solved == old(game_state).puzzle_solved,
            final(game_state).difficulty == old(game_state).difficulty,
            final(game_state).invalid_positions == old(game_state).invalid_positions,
            forall|i: int, j: int| 0 <= i < 9 && 0 <= j < 9 && !(i == x && j == y)
                ==> #[trigger] cv(&final(game_state).candidates)[i][j]
                    == cv(&old(game_state).candidates)[i][j],
            old(game_state).candidate_button_pressed ==> {
                &&& gv(&final(game_state).board) == gv(&old(game_state).board)
                &&& match cv(&old(game_state).candidates)[x as int][y as int] {
                    None => (cv(&final(game_state).candidates)[x as int][y as int]
                        matches Some(v) && v@ == seq![val]),
                    Some(list) => {
                        if list@.contains(val) {
                            cv(&final(game_state).candidates)[x as int][y as int]
                                matches Some(v) && v@ == without_value(list@, val)
                        } else {
                            cv(&final(game_state).candidates)[x as int][y as int]
                                matches Some(v) && v@ == list@.push(val)
                        }
                    }
                }
            },
            !old(game_state).candidate_button_pressed ==> {
                &&& gv(&final(game_state).board)
                    == grid_set(gv(&old(game_state).board), x as int, y as int, Some(val))
                &&& cv(&final(game_state).candidates)[x as int][y as int] is None
            },
    {
        if game_state.candidate_button_pressed {
            proof {
                assert(cv(&game_state.candidates)[x as int] == game_state.candidates@[x as int]@);
            }
            let replacement: Vec<i32> = match &game_state.candidates[x][y] {
                Some(list) => {
                    if vec_contains(list, val) {
                        remove_value(list, val)
                    } else {
                        let mut extended = clone_digits(list);
                        extended.push(val);
                        extended
                    }
                }
                None => {
                    let mut single: Vec<i32> = Vec::new();
                    single.push(val);
                    single
                }
            };
            set_cand(&mut game_state.candidates, x, y, Some(replacement));
        } else {
            set_cand(&mut game_state.candidates, x, y, None);
            set_cell(&mut game_state.board, x, y, Some(val));
        }
        proof {
            assert(grid_wf(gv(&game_state.board)));
            assert(cands_wf(cv(&game_state.candidates)));
        }
    }
}

} // verus!
