//! The solver interface and the spec-level model of a solver's state:
//! well-formed candidate masks, the elimination relation between masks and
//! resolved cells, and the count of resolved cells that drives termination.

use vstd::prelude::*;

use crate::bits::elim_mask;
use crate::bits::idx_bit;
use crate::bits::lemma_u16_elim_bit;
use crate::bits::lemma_u16_elim_unchanged;
use crate::bits::mask_bit;
use crate::indices::FlatIndex;
use crate::indices::SudokuValue;
use crate::masks::is_peer;
use crate::sudoku::Sudoku;
use crate::sudoku::resolved;
use crate::sudoku::value_at;

verus! {

/// Why a given could not be applied to the board.
#[derive(Clone, Copy, PartialEq, Eq, Structural, Debug)]
pub enum GiveValError {
    PositionAlreadySet,
    ValueDoesNotFitThere,
}

/// A solver that is seeded with givens one by one and then runs to a
/// terminal board: `Ok` when complete, `Err` with the partial board when
/// propagation got stuck.
pub trait GeneralSudokuSolver: Sized {
    spec fn inv(&self) -> bool;

    fn new() -> (r: Self)
        ensures
            r.inv(),
    ;

    fn give_val(&mut self, lc: FlatIndex, v: SudokuValue) -> (r: Result<(), GiveValError>)
        requires
            old(self).inv(),
        ensures
            final(self).inv(),
    ;

    fn into_current_solved_state(self) -> Sudoku;

    fn run(self) -> (r: Result<Sudoku, Sudoku>)
        requires
            self.inv(),
    ;
}

/// All 81 candidate masks present and confined to the nine digit bits.
pub open spec fn masks_wf(c: Seq<u16>) -> bool {
    c.len() == 81 && (forall|i: int| 0 <= i < 81 ==> c[i] < 512)
}

/// Candidate masks only ever lose digits: every digit of `c2` was in `c1`.
pub open spec fn masks_shrink(c2: Seq<u16>, c1: Seq<u16>) -> bool {
    forall|i: int, d: int| 0 <= i < 81 && #[trigger] mask_bit(c2[i], d) ==> mask_bit(c1[i], d)
}

/// If cell `i` is resolved and `j` is its peer, then `j` no longer holds
/// the digit of `i` as a candidate.
pub open spec fn cell_eliminated(
    c: Seq<u16>,
    g: Seq<Option<SudokuValue>>,
    i: int,
    j: int,
) -> bool {
    (resolved(g, i) && is_peer(i, j)) ==> !mask_bit(c[j], value_at(g, i))
}

/// Every resolved digit has been eliminated from all its peers.
pub open spec fn eliminated(c: Seq<u16>, g: Seq<Option<SudokuValue>>) -> bool {
    forall|i: int, j: int| 0 <= i < 81 && 0 <= j < 81 ==> #[trigger] cell_eliminated(c, g, i, j)
}

/// A resolved cell's own mask is cleared to the zero sentinel.
pub open spec fn resolved_cleared(c: Seq<u16>, g: Seq<Option<SudokuValue>>) -> bool {
    forall|i: int|
        #![trigger c[i]]
        #![trigger g[i]]
        0 <= i < 81 && resolved(g, i) ==> c[i] == 0
}

/// Queue bits stand only for unresolved board cells.
pub open spec fn queue_wf(q: u128, g: Seq<Option<SudokuValue>>) -> bool {
    forall|b: int| #[trigger] idx_bit(q, b) ==> 0 <= b < 81 && !resolved(g, b)
}

/// Number of resolved cells with index below `n`.
pub open spec fn num_resolved_below(g: Seq<Option<SudokuValue>>, n: int) -> int
    decreases n,
{
    if n <= 0 {
        0
    } else {
        num_resolved_below(g, n - 1) + (if resolved(g, n - 1) {
            1int
        } else {
            0int
        })
    }
}

pub proof fn lemma_num_resolved_bounds(g: Seq<Option<SudokuValue>>, n: int)
    ensures
        0 <= num_resolved_below(g, n) <= (if n <= 0 {
            0int
        } else {
            n
        }),
    decreases n,
{
    if n > 0 {
        lemma_num_resolved_bounds(g, n - 1);
    }
}

/// Resolving one unresolved cell raises the count by one.
pub proof fn lemma_num_resolved_update(
    g: Seq<Option<SudokuValue>>,
    i: int,
    v: SudokuValue,
    n: int,
)
    requires
        0 <= i < g.len(),
        n <= g.len(),
        !resolved(g, i),
    ensures
        num_resolved_below(g.update(i, Some(v)), n) == num_resolved_below(g, n) + (if i < n {
            1int
        } else {
            0int
        }),
    decreases n,
{
    if n > 0 {
        lemma_num_resolved_update(g, i, v, n - 1);
    }
}

/// A count of `n` among the first `n` cells means they are all resolved.
pub proof fn lemma_num_resolved_complete(g: Seq<Option<SudokuValue>>, n: int)
    requires
        num_resolved_below(g, n) == n,
    ensures
        forall|i: int| 0 <= i < n ==> resolved(g, i),
    decreases n,
{
    if n > 0 {
        lemma_num_resolved_bounds(g, n - 1);
        lemma_num_resolved_complete(g, n - 1);
    }
}

/// A board with no resolved cell counts zero.
pub proof fn lemma_num_resolved_empty(g: Seq<Option<SudokuValue>>, n: int)
    requires
        forall|i: int| 0 <= i < n ==> !resolved(g, i),
    ensures
        num_resolved_below(g, n) == 0,
    decreases n,
{
    if n > 0 {
        lemma_num_resolved_empty(g, n - 1);
    }
}

/// An incomplete count leaves an unresolved cell.
pub proof fn lemma_num_resolved_incomplete(g: Seq<Option<SudokuValue>>, n: int)
    requires
        forall|i: int| 0 <= i < n ==> resolved(g, i),
    ensures
        num_resolved_below(g, n) == (if n <= 0 {
            0int
        } else {
            n
        }),
    decreases n,
{
    if n > 0 {
        lemma_num_resolved_incomplete(g, n - 1);
    }
}

/// Elimination correctness survives any further shrinking of the masks.
pub proof fn lemma_eliminated_shrink(
    c1: Seq<u16>,
    c2: Seq<u16>,
    g: Seq<Option<SudokuValue>>,
)
    requires
        eliminated(c1, g),
        masks_shrink(c2, c1),
    ensures
        eliminated(c2, g),
{
    assert forall|i: int, j: int| 0 <= i < 81 && 0 <= j < 81 implies #[trigger] cell_eliminated(
        c2,
        g,
        i,
        j,
    ) by {
        assert(cell_eliminated(c1, g, i, j));
        if resolved(g, i) && is_peer(i, j) && mask_bit(c2[j], value_at(g, i)) {
            assert(mask_bit(c1[j], value_at(g, i)));
        }
    }
}

/// The per-cell result of one elimination step: digit `v` leaves the mask
/// of every peer of `i`, and nothing else changes.
pub open spec fn eliminate_result(c: Seq<u16>, i: int, v: int) -> Seq<u16> {
    Seq::new(
        81,
        |j: int|
            if is_peer(i, j) {
                elim_mask(c[j], v)
            } else {
                c[j]
            },
    )
}

/// Elimination is idempotent: right after eliminating digit `v` around
/// cell `i`, no peer of `i` still holds `v`, so eliminating again changes
/// no mask at all.
pub proof fn lemma_eliminate_idempotent(c: Seq<u16>, i: int, v: int)
    requires
        0 <= v < 9,
        c.len() == 81,
    ensures
        forall|j: int| 0 <= j < 81 && is_peer(i, j) ==> !mask_bit(
            #[trigger] eliminate_result(c, i, v)[j],
            v,
        ),
        eliminate_result(eliminate_result(c, i, v), i, v) =~= eliminate_result(c, i, v),
{
    let c1 = eliminate_result(c, i, v);
    assert forall|j: int| 0 <= j < 81 && is_peer(i, j) implies !mask_bit(
        #[trigger] eliminate_result(c, i, v)[j],
        v,
    ) by {
        lemma_u16_elim_bit(c[j], v as u16, v as u16);
    }
    assert forall|j: int| 0 <= j < 81 implies eliminate_result(c1, i, v)[j] == c1[j] by {
        if is_peer(i, j) {
            lemma_u16_elim_bit(c[j], v as u16, v as u16);
            lemma_u16_elim_unchanged(c1[j], v as u16);
        }
    }
}

} // verus!
