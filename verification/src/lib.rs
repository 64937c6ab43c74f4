//! A 9x9 sudoku solver that works purely by constraint propagation:
//! candidate-bitmask elimination over the peers of each resolved cell,
//! plus a hidden-single search over the nine 3x3 quadrants. No guessing
//! and no backtracking: a puzzle that propagation cannot finish is
//! reported as not solved, never brute-forced.

use vstd::arithmetic::div_mod::lemma_fundamental_div_mod;
use vstd::arithmetic::div_mod::lemma_fundamental_div_mod_converse;
use vstd::prelude::*;

pub mod bits;
pub mod indices;
pub mod masks;
pub mod solver_base;
pub mod solver_full_loop;
pub mod sudoku;
pub mod work_queue;

pub use indices::CellIndex;
pub use indices::CellIndices;
pub use indices::FlatIndex;
pub use indices::SudokuValue;
pub use sudoku::Sudoku;

use crate::bits::digit_mask;
use crate::bits::elim_mask;
use crate::bits::idx_bit;
use crate::bits::lemma_u128_zero_bit;
use crate::bits::lemma_u16_and_bit;
use crate::bits::lemma_u16_and_bound;
use crate::bits::lemma_u16_digit_mask;
use crate::bits::lemma_u16_elim_bit;
use crate::bits::lemma_u16_elim_bound;
use crate::bits::lemma_u16_full_mask_bit;
use crate::bits::lemma_u16_no_digits_zero;
use crate::bits::lemma_u16_zero_and;
use crate::bits::lemma_u16_zero_mask;
use crate::bits::mask_bit;
use crate::bits::mask_is_singleton;
use crate::indices::lemma_flat_index_range;
use crate::indices::lemma_value_range;
use crate::masks::col_of;
use crate::masks::is_peer;
use crate::masks::is_peer_exec;
use crate::masks::lemma_cell_in_quad;
use crate::masks::lemma_quad_cell;
use crate::masks::quad_cell;
use crate::masks::quad_of;
use crate::masks::row_of;
use crate::solver_base::GeneralSudokuSolver;
use crate::solver_base::GiveValError;
use crate::solver_base::masks_wf;
use crate::solver_full_loop::SolverFullLoop;
use crate::solver_full_loop::drive;
use crate::solver_full_loop::drive_plain;
use crate::solver_full_loop::lemma_plain_complete_drive;
use crate::solver_full_loop::exactly_one_mask;
use crate::solver_full_loop::lemma_exactly_one_mask;
use crate::solver_full_loop::lemma_full_masks_no_hidden_single;
use crate::solver_full_loop::lemma_quad_count_at_least_two;
use crate::solver_full_loop::lemma_quad_count_zero;
use crate::solver_full_loop::pending_after_set;
use crate::solver_full_loop::pending_of;
use crate::solver_full_loop::quad_digit_count;
use crate::solver_full_loop::seek_hit;
use crate::sudoku::grid_complete;
use crate::sudoku::grid_consistent;
use crate::sudoku::grid_extends;
use crate::sudoku::resolved;
use crate::sudoku::value_at;

verus! {

/// Why a set of givens was rejected during seeding.
pub enum InvalidSudokuError {
    PositionGivenTwice(FlatIndex),
    ValueCannotFit(FlatIndex, SudokuValue),
}

/// Either the givens were rejected, or propagation stalled; both carry the
/// board as far as it was filled in.
pub enum SudokuSolveError {
    SudokuHasNotSolution(Sudoku),
    InvalidSudoku(InvalidSudokuError, Sudoku),
}

/// The candidate masks after the first `n` givens have been seeded: each
/// seeded cell is cleared to the zero sentinel and its digit eliminated
/// from all its peers.
pub open spec fn seed_masks(givens: Seq<(FlatIndex, SudokuValue)>, n: int) -> Seq<u16>
    decreases n,
{
    if n <= 0 {
        Seq::new(81, |i: int| 0x1FFu16)
    } else {
        let c = seed_masks(givens, n - 1);
        let idx = givens[n - 1].0@;
        let v = givens[n - 1].1@;
        Seq::new(
            81,
            |j: int|
                if j == idx {
                    0u16
                } else if is_peer(idx, j) {
                    elim_mask(c[j], v)
                } else {
                    c[j]
                },
        )
    }
}

/// The resolved grid after the first `n` givens have been seeded.
pub open spec fn seed_grid(givens: Seq<(FlatIndex, SudokuValue)>, n: int) -> Seq<
    Option<SudokuValue>,
>
    decreases n,
{
    if n <= 0 {
        Seq::new(81, |i: int| None)
    } else {
        seed_grid(givens, n - 1).update(givens[n - 1].0@, Some(givens[n - 1].1))
    }
}

/// Exactly which digits seeding leaves possible: cell `j` keeps digit `d`
/// unless `j` itself was one of the seeded cells, or a seeded peer of `j`
/// carries `d`.
pub proof fn lemma_seed_masks_digits(givens: Seq<(FlatIndex, SudokuValue)>, n: int, j: int, d: int)
    requires
        0 <= n <= givens.len(),
        0 <= j < 81,
        0 <= d < 9,
    ensures
        mask_bit(seed_masks(givens, n)[j], d) <==> (forall|t: int|
            0 <= t < n ==> (givens[t].0@ != j && !(is_peer(givens[t].0@, j) && givens[t].1@
                == d))),
    decreases n,
{
    if n == 0 {
        lemma_u16_full_mask_bit(d as u16);
    } else {
        lemma_seed_masks_digits(givens, n - 1, j, d);
        let c = seed_masks(givens, n - 1);
        let idx = givens[n - 1].0@;
        let v = givens[n - 1].1@;
        lemma_flat_index_range(givens[n - 1].0);
        lemma_value_range(givens[n - 1].1);
        if j == idx {
            lemma_u16_zero_mask(d as u16);
        } else if is_peer(idx, j) {
            lemma_u16_elim_bit(c[j], v as u16, d as u16);
        }
    }
}

/// A cell that was itself seeded keeps the cleared sentinel mask.
proof fn lemma_seed_masks_seeded_zero(givens: Seq<(FlatIndex, SudokuValue)>, n: int, t: int)
    requires
        0 <= t < n <= givens.len(),
    ensures
        seed_masks(givens, n)[givens[t].0@] == 0,
    decreases n,
{
    lemma_flat_index_range(givens[t].0);
    lemma_value_range(givens[n - 1].1);
    if n - 1 > t {
        lemma_seed_masks_seeded_zero(givens, n - 1, t);
        lemma_u16_zero_and(!digit_mask(givens[n - 1].1@));
    }
}

/// The empty sentinel mask is no singleton.
proof fn lemma_zero_not_singleton()
    ensures
        !mask_is_singleton(0u16),
{
    if mask_is_singleton(0u16) {
        let d = choose|d: int| 0 <= d < 9 && 0u16 == digit_mask(d);
        lemma_u16_digit_mask(d as u16, 0);
    }
}

/// With at most two givens seeded, a cell that was not itself seeded
/// keeps at least seven candidates, so its mask is never a singleton.
proof fn lemma_few_seeds_no_singleton(givens: Seq<(FlatIndex, SudokuValue)>, n: int, j: int)
    requires
        0 <= n <= 2,
        n <= givens.len(),
        0 <= j < 81,
        forall|t: int| 0 <= t < n ==> givens[t].0@ != j,
    ensures
        !mask_is_singleton(seed_masks(givens, n)[j]),
{
    let c = seed_masks(givens, n)[j];
    if mask_is_singleton(c) {
        let dd = choose|d: int| 0 <= d < 9 && c == digit_mask(d);
        let a0: int = if n >= 1 {
            givens[0].1@
        } else {
            -1
        };
        let a1: int = if n >= 2 {
            givens[1].1@
        } else {
            -1
        };
        let dp: int = if dd != 0 && a0 != 0 && a1 != 0 {
            0
        } else if dd != 1 && a0 != 1 && a1 != 1 {
            1
        } else if dd != 2 && a0 != 2 && a1 != 2 {
            2
        } else {
            3
        };
        lemma_seed_masks_digits(givens, n, j, dp);
        assert(mask_bit(c, dp));
        lemma_u16_digit_mask(dd as u16, dp as u16);
    }
}

/// Seeded candidate masks stay well formed.
proof fn lemma_seed_masks_wf(givens: Seq<(FlatIndex, SudokuValue)>, n: int)
    requires
        0 <= n <= givens.len(),
    ensures
        masks_wf(seed_masks(givens, n)),
    decreases n,
{
    if n > 0 {
        lemma_seed_masks_wf(givens, n - 1);
        lemma_value_range(givens[n - 1].1);
        let c = seed_masks(givens, n - 1);
        let v = givens[n - 1].1@;
        assert forall|i: int| 0 <= i < 81 implies seed_masks(givens, n)[i] < 512 by {
            lemma_u16_elim_bound(c[i], v as u16);
        }
    }
}

/// Whether given `t` takes digit `d` away from cell `j`: either `j` was
/// seeded itself, or the given is a peer of `j` carrying `d`.
spec fn seeded_blocks(givens: Seq<(FlatIndex, SudokuValue)>, t: int, j: int, d: int) -> bool {
    givens[t].0@ == j || (is_peer(givens[t].0@, j) && givens[t].1@ == d)
}

/// A given whose digit `d` does not sit inside quadrant `q` can block `d`
/// in at most one of two quadrant cells that share neither row nor column.
proof fn lemma_blocks_at_most_one(
    givens: Seq<(FlatIndex, SudokuValue)>,
    t: int,
    q: int,
    d: int,
    ka: int,
    kb: int,
)
    requires
        0 <= t < givens.len(),
        0 <= q < 9,
        0 <= d < 9,
        0 <= ka < 9,
        0 <= kb < 9,
        ka / 3 != kb / 3,
        ka % 3 != kb % 3,
        givens[t].1@ == d ==> quad_of(givens[t].0@) != q,
    ensures
        !(seeded_blocks(givens, t, quad_cell(q, ka), d) && seeded_blocks(
            givens,
            t,
            quad_cell(q, kb),
            d,
        )),
{
    lemma_quad_cell(q, ka);
    lemma_quad_cell(q, kb);
    lemma_flat_index_range(givens[t].0);
    let i = givens[t].0@;
    let ca = quad_cell(q, ka);
    let cb = quad_cell(q, kb);
    if seeded_blocks(givens, t, ca, d) && seeded_blocks(givens, t, cb, d) {
        assert(ca != cb);
        if i == ca {
            // the other cell is blocked through the peer relation, so the
            // digit matches and the given would sit inside this quadrant
            assert(is_peer(i, cb) && givens[t].1@ == d);
            assert(quad_of(i) == q);
        } else if i == cb {
            assert(is_peer(i, ca) && givens[t].1@ == d);
            assert(quad_of(i) == q);
        } else {
            assert(is_peer(i, ca) && is_peer(i, cb) && givens[t].1@ == d);
            assert(row_of(ca) != row_of(cb));
            assert(col_of(ca) != col_of(cb));
            if row_of(i) == row_of(ca) && col_of(i) == col_of(cb) {
                // sharing a row and a column of the quadrant places the
                // given inside it
                lemma_fundamental_div_mod_converse(row_of(i), 3, q / 3, ka / 3);
                lemma_fundamental_div_mod_converse(col_of(i), 3, q % 3, kb % 3);
                lemma_fundamental_div_mod(q, 3);
                assert(quad_of(i) == q);
            } else if row_of(i) == row_of(cb) && col_of(i) == col_of(ca) {
                lemma_fundamental_div_mod_converse(row_of(i), 3, q / 3, kb / 3);
                lemma_fundamental_div_mod_converse(col_of(i), 3, q % 3, ka % 3);
                lemma_fundamental_div_mod(q, 3);
                assert(quad_of(i) == q);
            }
        }
    }
}

/// With exactly two seeded givens, no digit is ever confined to a single
/// cell of a quadrant: a digit seeded inside the quadrant is eliminated
/// from all of it, and any other digit survives in at least two cells.
#[verifier::rlimit(50)]
proof fn lemma_two_seeds_count_not_one(givens: Seq<(FlatIndex, SudokuValue)>, q: int, d: int)
    requires
        givens.len() == 2,
        0 <= q < 9,
        0 <= d < 9,
    ensures
        quad_digit_count(seed_masks(givens, 2), q, d, 9) != 1,
{
    let c = seed_masks(givens, 2);
    lemma_flat_index_range(givens[0].0);
    lemma_flat_index_range(givens[1].0);
    lemma_value_range(givens[0].1);
    lemma_value_range(givens[1].1);
    if (givens[0].1@ == d && quad_of(givens[0].0@) == q) || (givens[1].1@ == d && quad_of(
        givens[1].0@,
    ) == q) {
        // the digit was seeded inside this quadrant: no cell keeps it
        let t: int = if givens[0].1@ == d && quad_of(givens[0].0@) == q {
            0
        } else {
            1
        };
        let i = givens[t].0@;
        lemma_cell_in_quad(i);
        assert forall|k: int| 0 <= k < 9 implies !mask_bit(c[#[trigger] quad_cell(q, k)], d) by {
            lemma_quad_cell(q, k);
            let cellk = quad_cell(q, k);
            lemma_seed_masks_digits(givens, 2, cellk, d);
            if cellk != i {
                assert(is_peer(i, cellk));
            }
            assert(!(givens[t].0@ != cellk && !(is_peer(givens[t].0@, cellk) && givens[t].1@
                == d)));
        }
        lemma_quad_count_zero(c, q, d, 9);
    } else {
        // each given can block the digit in at most one cell of each of
        // two disjoint transversal triples, leaving a keeper in both
        lemma_blocks_at_most_one(givens, 0, q, d, 0, 4);
        lemma_blocks_at_most_one(givens, 0, q, d, 0, 8);
        lemma_blocks_at_most_one(givens, 0, q, d, 4, 8);
        lemma_blocks_at_most_one(givens, 1, q, d, 0, 4);
        lemma_blocks_at_most_one(givens, 1, q, d, 0, 8);
        lemma_blocks_at_most_one(givens, 1, q, d, 4, 8);
        let ka: int = if !seeded_blocks(givens, 0, quad_cell(q, 0), d) && !seeded_blocks(
            givens,
            1,
            quad_cell(q, 0),
            d,
        ) {
            0
        } else if !seeded_blocks(givens, 0, quad_cell(q, 4), d) && !seeded_blocks(
            givens,
            1,
            quad_cell(q, 4),
            d,
        ) {
            4
        } else {
            8
        };
        assert(!seeded_blocks(givens, 0, quad_cell(q, ka), d) && !seeded_blocks(
            givens,
            1,
            quad_cell(q, ka),
            d,
        ));
        lemma_blocks_at_most_one(givens, 0, q, d, 2, 3);
        lemma_blocks_at_most_one(givens, 0, q, d, 2, 7);
        lemma_blocks_at_most_one(givens, 0, q, d, 3, 7);
        lemma_blocks_at_most_one(givens, 1, q, d, 2, 3);
        lemma_blocks_at_most_one(givens, 1, q, d, 2, 7);
        lemma_blocks_at_most_one(givens, 1, q, d, 3, 7);
        let kb: int = if !seeded_blocks(givens, 0, quad_cell(q, 2), d) && !seeded_blocks(
            givens,
            1,
            quad_cell(q, 2),
            d,
        ) {
            2
        } else if !seeded_blocks(givens, 0, quad_cell(q, 3), d) && !seeded_blocks(
            givens,
            1,
            quad_cell(q, 3),
            d,
        ) {
            3
        } else {
            7
        };
        assert(!seeded_blocks(givens, 0, quad_cell(q, kb), d) && !seeded_blocks(
            givens,
            1,
            quad_cell(q, kb),
            d,
        ));
        lemma_seed_masks_digits(givens, 2, quad_cell(q, ka), d);
        lemma_seed_masks_digits(givens, 2, quad_cell(q, kb), d);
        lemma_quad_cell(q, ka);
        lemma_quad_cell(q, kb);
        assert forall|t: int| 0 <= t < 2 implies (givens[t].0@ != quad_cell(q, ka) && !(is_peer(
            givens[t].0@,
            quad_cell(q, ka),
        ) && givens[t].1@ == d)) by {
            assert(!seeded_blocks(givens, t, quad_cell(q, ka), d));
        }
        assert forall|t: int| 0 <= t < 2 implies (givens[t].0@ != quad_cell(q, kb) && !(is_peer(
            givens[t].0@,
            quad_cell(q, kb),
        ) && givens[t].1@ == d)) by {
            assert(!seeded_blocks(givens, t, quad_cell(q, kb), d));
        }
        assert(mask_bit(c[quad_cell(q, ka)], d));
        assert(mask_bit(c[quad_cell(q, kb)], d));
        lemma_quad_count_at_least_two(c, q, d, ka, kb);
    }
}

/// Two givens can never create a hidden single: the quadrant search finds
/// nothing to do on a board seeded with only two values.
proof fn lemma_two_seeds_no_hidden_single(givens: Seq<(FlatIndex, SudokuValue)>)
    requires
        givens.len() == 2,
    ensures
        forall|j: int| 0 <= j < 81 ==> !seek_hit(seed_masks(givens, 2), j),
{
    let c = seed_masks(givens, 2);
    lemma_seed_masks_wf(givens, 2);
    assert forall|j: int| 0 <= j < 81 implies !seek_hit(c, j) by {
        lemma_cell_in_quad(j);
        let q = quad_of(j);
        let e1 = exactly_one_mask(c, q);
        assert forall|dd: int| 0 <= dd < 9 implies !mask_bit(c[j] & e1, dd) by {
            lemma_u16_and_bit(c[j], e1, dd as u16);
            if mask_bit(e1, dd) {
                lemma_exactly_one_mask(c, q, dd);
                lemma_two_seeds_count_not_one(givens, q, dd);
            }
        }
        lemma_u16_and_bound(c[j], e1);
        lemma_u16_no_digits_zero(c[j] & e1);
    }
}

/// The pending queue after the first `n` givens have been seeded: each
/// accepted given drops its own cell and enqueues the peers whose mask
/// changed to a single candidate.
pub open spec fn seed_pending(givens: Seq<(FlatIndex, SudokuValue)>, n: int) -> Set<int>
    decreases n,
{
    if n <= 0 {
        Set::empty()
    } else {
        pending_after_set(
            seed_masks(givens, n - 1),
            seed_pending(givens, n - 1),
            givens[n - 1].0@,
            givens[n - 1].1@,
        )
    }
}

/// Whether seeding rejects given `n`, in the state the earlier givens
/// left behind: its cell already holds a digit, or its digit is no longer
/// a candidate there.
pub open spec fn seed_step_fails(givens: Seq<(FlatIndex, SudokuValue)>, n: int) -> bool {
    resolved(seed_grid(givens, n), givens[n].0@) || !mask_bit(
        seed_masks(givens, n)[givens[n].0@],
        givens[n].1@,
    )
}

/// Position of the first given that seeding rejects, looking from `n` on;
/// the number of givens when none is rejected.
pub open spec fn first_invalid_from(givens: Seq<(FlatIndex, SudokuValue)>, n: int) -> int
    decreases givens.len() - n,
{
    if n < 0 || n >= givens.len() {
        givens.len() as int
    } else if seed_step_fails(givens, n) {
        n
    } else {
        first_invalid_from(givens, n + 1)
    }
}

/// Position of the first given that seeding rejects; the number of givens
/// when all are accepted.
pub open spec fn first_invalid(givens: Seq<(FlatIndex, SudokuValue)>) -> int {
    first_invalid_from(givens, 0)
}

proof fn lemma_first_invalid_from(givens: Seq<(FlatIndex, SudokuValue)>, n: int)
    requires
        0 <= n <= givens.len(),
    ensures
        n <= first_invalid_from(givens, n) <= givens.len(),
        forall|m: int| n <= m < first_invalid_from(givens, n) ==> !seed_step_fails(givens, m),
        first_invalid_from(givens, n) < givens.len() ==> seed_step_fails(
            givens,
            first_invalid_from(givens, n),
        ),
    decreases givens.len() - n,
{
    if n < givens.len() && !seed_step_fails(givens, n) {
        lemma_first_invalid_from(givens, n + 1);
    }
}

/// What `first_invalid` promises: every given before it seeds cleanly,
/// and when it lies inside the sequence it names a given that seeding
/// rejects.
pub proof fn lemma_first_invalid(givens: Seq<(FlatIndex, SudokuValue)>)
    ensures
        0 <= first_invalid(givens) <= givens.len(),
        forall|m: int| 0 <= m < first_invalid(givens) ==> !seed_step_fails(givens, m),
        first_invalid(givens) < givens.len() ==> seed_step_fails(givens, first_invalid(givens)),
{
    lemma_first_invalid_from(givens, 0);
}

/// The error that the first rejected given produces: a cell given twice
/// is reported ahead of a digit that no longer fits.
pub open spec fn expected_invalid_error(
    givens: Seq<(FlatIndex, SudokuValue)>,
) -> InvalidSudokuError {
    let k = first_invalid(givens);
    if resolved(seed_grid(givens, k), givens[k].0@) {
        InvalidSudokuError::PositionGivenTwice(givens[k].0)
    } else {
        InvalidSudokuError::ValueCannotFit(givens[k].0, givens[k].1)
    }
}

/// Solve a puzzle from its givens by propagation alone.
///
/// Seeding applies the givens in order and stops at the first invalid
/// one, returning the board as mutated so far. With all givens accepted,
/// the solver propagates to a fixpoint: a complete board is returned as
/// `Ok` and is consistent (no digit repeats among peers) and an extension
/// of the seeded board; a stalled board comes back as `NoSolutionFound`,
/// incomplete but equally consistent and faithful to the givens. The
/// returned board is in every case exactly what the deterministic driver
/// function `drive` yields on the seeded state, so the whole solve is a
/// function of the givens and succeeds precisely when that propagation
/// fixpoint is complete. A board
/// already complete after seeding is returned as it stands, with no
/// further propagation; an empty set of givens comes back untouched as
/// `NoSolutionFound`; and two lone givens never suffice: they are
/// returned as seeded, with `NoSolutionFound`.
pub fn solve(given: &[(FlatIndex, SudokuValue)]) -> (r: Result<Sudoku, SudokuSolveError>)
    ensures
        first_invalid(given@) < given@.len() ==> (r matches Err(
            SudokuSolveError::InvalidSudoku(e, s),
        ) && e == expected_invalid_error(given@) && s@ == seed_grid(given@, first_invalid(given@))),
        first_invalid(given@) == given@.len() ==> match r {
            Ok(s) => s@.len() == 81 && grid_complete(s@) && grid_consistent(s@) && grid_extends(
                s@,
                seed_grid(given@, given@.len() as int),
            ),
            Err(SudokuSolveError::SudokuHasNotSolution(s)) => s@.len() == 81 && !grid_complete(s@)
                && grid_consistent(s@) && grid_extends(s@, seed_grid(given@, given@.len() as int)),
            Err(SudokuSolveError::InvalidSudoku(_, _)) => false,
        },
        given@.len() == 0 ==> (r matches Err(SudokuSolveError::SudokuHasNotSolution(s)) && s@
            == seed_grid(given@, 0)),
        first_invalid(given@) == given@.len() && grid_complete(
            seed_grid(given@, given@.len() as int),
        ) ==> (r matches Ok(s) && s@ == seed_grid(given@, given@.len() as int)),
        given@.len() == 2 && first_invalid(given@) == 2 ==> (r matches Err(
            SudokuSolveError::SudokuHasNotSolution(s),
        ) && s@ == seed_grid(given@, 2)),
        first_invalid(given@) == given@.len() ==> ({
            let fixed = drive(
                seed_masks(given@, given@.len() as int),
                seed_grid(given@, given@.len() as int),
                seed_pending(given@, given@.len() as int),
            );
            &&& (r matches Ok(s) ==> s@ == fixed)
            &&& (r matches Err(SudokuSolveError::SudokuHasNotSolution(s)) ==> s@ == fixed)
            &&& ((r is Ok) <==> grid_complete(fixed))
        }),
        first_invalid(given@) == given@.len() && grid_complete(
            drive_plain(
                seed_masks(given@, given@.len() as int),
                seed_grid(given@, given@.len() as int),
                seed_pending(given@, given@.len() as int),
            ),
        ) ==> (r matches Ok(s) && s@ == drive_plain(
            seed_masks(given@, given@.len() as int),
            seed_grid(given@, given@.len() as int),
            seed_pending(given@, given@.len() as int),
        )),
{
    let ghost gs = given@;
    let mut solver = SolverFullLoop::new();
    proof {
        assert(solver.masks() =~= seed_masks(gs, 0));
        assert(solver.grid() =~= seed_grid(gs, 0));
        assert forall|b: int| !idx_bit(solver.queue_bits(), b) by {
            if 0 <= b < 128 {
                lemma_u128_zero_bit(b as u128);
            }
        }
        assert(pending_of(solver.queue_bits()) =~= seed_pending(gs, 0));
    }
    let n = given.len();
    let mut k: usize = 0;
    while k < n
        invariant
            n == gs.len(),
            gs == given@,
            k <= n,
            solver.inv(),
            solver.masks() == seed_masks(gs, k as int),
            solver.grid() == seed_grid(gs, k as int),
            first_invalid(gs) == first_invalid_from(gs, k as int),
            pending_of(solver.queue_bits()) == seed_pending(gs, k as int),
            n <= 2 ==> (forall|b: int| !idx_bit(solver.queue_bits(), b)),
        decreases n - k,
    {
        let pair = given[k];
        let idx = pair.0;
        let val = pair.1;
        proof {
            lemma_flat_index_range(idx);
        }
        let ghost old_queue = solver.queue_bits();
        let res = solver.give_val(idx, val);
        match res {
            Ok(()) => {
                proof {
                    assert(!seed_step_fails(gs, k as int));
                    assert(solver.masks() =~= seed_masks(gs, k + 1));
                    assert(solver.grid() == seed_grid(gs, k + 1));
                    assert(pending_of(solver.queue_bits()) =~= seed_pending(gs, k + 1)) by {
                        assert forall|b: int|
                            pending_of(solver.queue_bits()).contains(b) <==> seed_pending(
                            gs,
                            k + 1,
                        ).contains(b) by {
                            assert(idx_bit(solver.queue_bits(), b) <==> (b != idx@ && (idx_bit(
                                old_queue,
                                b,
                            ) || (is_peer(idx@, b) && mask_bit(seed_masks(gs, k as int)[b], val@)
                                && mask_is_singleton(
                                elim_mask(seed_masks(gs, k as int)[b], val@),
                            )))));
                        }
                    }
                    if n <= 2 {
                        // a board with at most two givens has no singleton
                        // mask, so seeding enqueues nothing
                        assert forall|b: int| !idx_bit(solver.queue_bits(), b) by {
                            if idx_bit(solver.queue_bits(), b) {
                                assert(is_peer(idx@, b) && mask_is_singleton(
                                    elim_mask(seed_masks(gs, k as int)[b], val@),
                                ));
                                assert(elim_mask(seed_masks(gs, k as int)[b], val@)
                                    == seed_masks(gs, k + 1)[b]);
                                if exists|t: int| 0 <= t < k + 1 && gs[t].0@ == b {
                                    let t = choose|t: int| 0 <= t < k + 1 && gs[t].0@ == b;
                                    lemma_seed_masks_seeded_zero(gs, k + 1, t);
                                    lemma_zero_not_singleton();
                                } else {
                                    lemma_few_seeds_no_singleton(gs, k + 1, b);
                                }
                            }
                        }
                    }
                }
                k = k + 1;
            },
            Err(e) => {
                proof {
                    assert(seed_step_fails(gs, k as int));
                    assert(first_invalid_from(gs, k as int) == k as int);
                }
                let invalid = match e {
                    GiveValError::PositionAlreadySet => InvalidSudokuError::PositionGivenTwice(idx),
                    GiveValError::ValueDoesNotFitThere => InvalidSudokuError::ValueCannotFit(
                        idx,
                        val,
                    ),
                };
                return Err(
                    SudokuSolveError::InvalidSudoku(invalid, solver.into_current_solved_state()),
                );
            },
        }
    }
    proof {
        solver.lemma_drive_wf();
        if grid_complete(
            drive_plain(seed_masks(gs, n as int), seed_grid(gs, n as int), seed_pending(gs, n as int)),
        ) {
            // a puzzle that direct elimination alone completes: the full
            // driver takes the same steps
            lemma_plain_complete_drive(
                seed_masks(gs, n as int),
                seed_grid(gs, n as int),
                seed_pending(gs, n as int),
            );
        }
        if grid_complete(solver.grid()) {
            // with a complete grid no pending bit can remain
            assert forall|b: int| 0 <= b < 81 implies !idx_bit(solver.queue_bits(), b) by {
                if idx_bit(solver.queue_bits(), b) {
                    assert(!resolved(solver.grid(), b));
                }
            }
        }
        if gs.len() == 0 {
            assert(!resolved(solver.grid(), 0));
            lemma_full_masks_no_hidden_single(solver.masks());
        }
        if gs.len() == 2 {
            // two givens leave at least one of the first three cells
            // untouched, and can never confine a digit to a single cell
            let i0 = gs[0].0@;
            let i1 = gs[1].0@;
            let j: int = if i0 != 0 && i1 != 0 {
                0
            } else if i0 != 1 && i1 != 1 {
                1
            } else {
                2
            };
            lemma_flat_index_range(gs[0].0);
            lemma_flat_index_range(gs[1].0);
            assert(seed_grid(gs, 2)[j] == seed_grid(gs, 1)[j]);
            assert(seed_grid(gs, 1)[j] == seed_grid(gs, 0)[j]);
            assert(!resolved(solver.grid(), j));
            lemma_two_seeds_no_hidden_single(gs);
        }
    }
    match solver.run() {
        Ok(s) => Ok(s),
        Err(s) => Err(SudokuSolveError::SudokuHasNotSolution(s)),
    }
}

/// Whether a board is a completed, rule-abiding solution: every cell
/// resolved and no digit repeated among peers.
pub fn check_sudoku(sudoku: &Sudoku) -> (r: bool)
    ensures
        r == (grid_complete(sudoku@) && grid_consistent(sudoku@)),
{
    let mut i: u8 = 0;
    while i < 81
        invariant
            i <= 81,
            i > 0 ==> sudoku@.len() == 81,
            forall|t: int| 0 <= t < i ==> resolved(sudoku@, t),
        decreases 81 - i,
    {
        if sudoku.get_flat(FlatIndex::checked_new(i)).is_none() {
            proof {
                assert(!resolved(sudoku@, i as int));
            }
            return false;
        }
        i = i + 1;
    }
    let mut a: u8 = 0;
    while a < 81
        invariant
            a <= 81,
            sudoku@.len() == 81,
            grid_complete(sudoku@),
            forall|x: int, y: int|
                #![trigger is_peer(x, y), value_at(sudoku@, x), value_at(sudoku@, y)]
                0 <= x < a && is_peer(x, y) ==> value_at(sudoku@, x) != value_at(sudoku@, y),
        decreases 81 - a,
    {
        let ia = FlatIndex::checked_new(a);
        let va = match sudoku.get_flat(ia) {
            Some(v) => v,
            None => {
                proof {
                    assert(resolved(sudoku@, a as int));
                    assert(false);
                }
                return false;
            },
        };
        let mut b: u8 = 0;
        while b < 81
            invariant
                b <= 81,
                a < 81,
                ia@ == a,
                sudoku@.len() == 81,
                grid_complete(sudoku@),
                sudoku@[a as int] == Some(va),
                forall|x: int, y: int|
                    #![trigger is_peer(x, y), value_at(sudoku@, x), value_at(sudoku@, y)]
                    0 <= x < a && is_peer(x, y) ==> value_at(sudoku@, x) != value_at(sudoku@, y),
                forall|y: int|
                    #![trigger is_peer(a as int, y)]
                    0 <= y < b && is_peer(a as int, y) ==> value_at(sudoku@, a as int) != value_at(
                        sudoku@,
                        y,
                    ),
            decreases 81 - b,
        {
            if is_peer_exec(ia, b) {
                let vb = match sudoku.get_flat(FlatIndex::checked_new(b)) {
                    Some(v) => v,
                    None => {
                        proof {
                            assert(resolved(sudoku@, b as int));
                            assert(false);
                        }
                        return false;
                    },
                };
                if va.get_0based() == vb.get_0based() {
                    proof {
                        assert(value_at(sudoku@, a as int) == value_at(sudoku@, b as int));
                        assert(is_peer(a as int, b as int));
                    }
                    return false;
                }
            }
            b = b + 1;
        }
        proof {
            // a cell is never its own peer, so pairs starting at `a` are done
            assert forall|y: int| #[trigger] is_peer(a as int, y) implies value_at(
                sudoku@,
                a as int,
            ) != value_at(sudoku@, y) by {
                assert(0 <= y < 81);
            }
        }
        a = a + 1;
    }
    proof {
        assert forall|x: int, y: int|
            #![trigger is_peer(x, y), value_at(sudoku@, x), value_at(sudoku@, y)]
            is_peer(x, y) && resolved(sudoku@, x) && resolved(sudoku@, y) implies value_at(
            sudoku@,
            x,
        ) != value_at(sudoku@, y) by {
            assert(0 <= x < 81);
        }
    }
    true
}

/// Seeded grids always keep the 81-cell shape.
pub proof fn lemma_seed_grid_len(givens: Seq<(FlatIndex, SudokuValue)>, n: int)
    ensures
        seed_grid(givens, n).len() == 81,
    decreases n,
{
    if n > 0 {
        lemma_seed_grid_len(givens, n - 1);
        lemma_flat_index_range(givens[n - 1].0);
    }
}

/// Every given seeded without error is present in the seeded grid with
/// exactly its digit: accepted givens are never overwritten.
pub proof fn lemma_seed_grid_contains(givens: Seq<(FlatIndex, SudokuValue)>, n: int, m: int)
    requires
        0 <= m < n <= givens.len(),
        forall|t: int| 0 <= t < n ==> !seed_step_fails(givens, t),
    ensures
        seed_grid(givens, n)[givens[m].0@] == Some(givens[m].1),
    decreases n,
{
    lemma_seed_grid_len(givens, n - 1);
    lemma_flat_index_range(givens[n - 1].0);
    lemma_flat_index_range(givens[m].0);
    if n - 1 == m {
    } else {
        lemma_seed_grid_contains(givens, n - 1, m);
        if givens[n - 1].0@ == givens[m].0@ {
            // the later given would have hit an already resolved cell
            assert(resolved(seed_grid(givens, n - 1), givens[n - 1].0@));
            assert(seed_step_fails(givens, n - 1));
        }
    }
}

} // verus!
