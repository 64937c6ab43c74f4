//! The grid of resolved cells, and the spec-level predicates that describe
//! a partially or fully solved board.

use vstd::prelude::*;
use vstd::seq_lib::*;
use vstd::set_lib::lemma_int_range;
use vstd::set_lib::lemma_subset_equality;
use vstd::set_lib::set_int_range;

use crate::indices::CellIndices;
use crate::indices::FlatIndex;
use crate::indices::SudokuValue;
use crate::indices::lemma_value_range;
use crate::indices::flat_from_cell_indices;
use crate::masks::is_peer;
use crate::masks::lemma_quad_cell;
use crate::masks::lemma_quad_cells_are_peers;
use crate::masks::lemma_row_col_of;
use crate::masks::quad_cell;

verus! {

/// Cell `i` of the grid holds a digit.
pub open spec fn resolved(g: Seq<Option<SudokuValue>>, i: int) -> bool {
    g[i] is Some
}

/// The 0-based digit of a resolved cell.
pub open spec fn value_at(g: Seq<Option<SudokuValue>>, i: int) -> int {
    g[i]->Some_0@
}

/// Every cell of the board is resolved.
pub open spec fn grid_complete(g: Seq<Option<SudokuValue>>) -> bool {
    forall|i: int| 0 <= i < 81 ==> resolved(g, i)
}

/// No two resolved peer cells hold the same digit.
pub open spec fn grid_consistent(g: Seq<Option<SudokuValue>>) -> bool {
    forall|i: int, j: int| #![trigger is_peer(i, j), value_at(g, i), value_at(g, j)]
        is_peer(i, j) && resolved(g, i) && resolved(g, j) ==> value_at(g, i) != value_at(g, j)
}

/// Any digit stored in a grid lies in the nine-digit range.
pub proof fn lemma_grid_digits_in_range(g: Seq<Option<SudokuValue>>)
    ensures
        forall|i: int| 0 <= i < g.len() && resolved(g, i) ==> 0 <= value_at(g, i) < 9,
{
    assert forall|i: int| 0 <= i < g.len() && resolved(g, i) implies 0 <= value_at(g, i) < 9 by {
        lemma_value_range(g[i]->Some_0);
    }
}

/// `g2` extends `g1`: resolved cells keep their digit, none is reopened.
pub open spec fn grid_extends(g2: Seq<Option<SudokuValue>>, g1: Seq<Option<SudokuValue>>) -> bool {
    forall|i: int| #![trigger g2[i]] 0 <= i < 81 && resolved(g1, i) ==> g2[i] == g1[i]
}

/// The resolved-value grid of one solve. Owned by its solver while the
/// solve runs; handed out as the result afterwards.
pub struct Sudoku {
    content: Vec<Option<SudokuValue>>,
}

impl View for Sudoku {
    type V = Seq<Option<SudokuValue>>;

    closed spec fn view(&self) -> Seq<Option<SudokuValue>> {
        self.content@
    }
}

impl Sudoku {
    #[verifier::type_invariant]
    spec fn wf(self) -> bool {
        self.content@.len() == 81
    }

    /// A board with every cell unresolved.
    pub fn new() -> (r: Self)
        ensures
            r@.len() == 81,
            forall|i: int| 0 <= i < 81 ==> !resolved(r@, i),
    {
        Sudoku { content: vec![None;81] }
    }

    /// Read one cell by row and column.
    pub fn get_value(&self, indices: CellIndices) -> (r: Option<SudokuValue>)
        ensures
            r == self@[indices.row@ * 9 + indices.column@],
    {
        proof {
            use_type_invariant(self);
        }
        let flat = flat_from_cell_indices(indices);
        self.content[flat.as_idx()]
    }

    /// Read one cell by flat index.
    pub fn get_flat(&self, index: FlatIndex) -> (r: Option<SudokuValue>)
        ensures
            r == self@[index@],
            self@.len() == 81,
    {
        proof {
            use_type_invariant(self);
        }
        self.content[index.as_idx()]
    }

    /// Record the digit of a freshly resolved cell.
    pub(crate) fn set_i(&mut self, index: FlatIndex, val: SudokuValue)
        ensures
            final(self)@ == old(self)@.update(index@, Some(val)),
    {
        proof {
            use_type_invariant(&*self);
        }
        let i = index.as_idx();
        self.content[i] = Some(val);
    }
}

/// Nine pairwise distinct values drawn from the nine digits cover them
/// all.
proof fn lemma_nine_distinct_cover(vals: Seq<int>)
    requires
        vals.len() == 9,
        forall|t: int| 0 <= t < 9 ==> 0 <= #[trigger] vals[t] < 9,
        forall|t1: int, t2: int| 0 <= t1 < 9 && 0 <= t2 < 9 && t1 != t2 ==> vals[t1] != vals[t2],
    ensures
        forall|d: int| 0 <= d < 9 ==> #[trigger] vals.contains(d),
{
    broadcast use seq_to_set_is_finite;

    assert(vals.no_duplicates());
    vals.unique_seq_to_set();
    let s = vals.to_set();
    let r = set_int_range(0, 9);
    lemma_int_range(0, 9);
    assert(s.subset_of(r)) by {
        assert forall|x: int| s.contains(x) implies r.contains(x) by {
            let t = choose|t: int| 0 <= t < vals.len() && vals[t] == x;
            assert(0 <= vals[t] < 9);
        }
    }
    lemma_subset_equality(s, r);
    assert forall|d: int| 0 <= d < 9 implies #[trigger] vals.contains(d) by {
        assert(s.contains(d));
    }
}

/// Digit `d` appears somewhere in row `r`.
pub open spec fn row_contains_digit(g: Seq<Option<SudokuValue>>, r: int, d: int) -> bool {
    exists|c: int| 0 <= c < 9 && value_at(g, #[trigger] (r * 9 + c)) == d
}

/// Digit `d` appears somewhere in column `c`.
pub open spec fn col_contains_digit(g: Seq<Option<SudokuValue>>, c: int, d: int) -> bool {
    exists|r: int| 0 <= r < 9 && value_at(g, #[trigger] (r * 9 + c)) == d
}

/// Digit `d` appears somewhere in quadrant `q`.
pub open spec fn quad_contains_digit(g: Seq<Option<SudokuValue>>, q: int, d: int) -> bool {
    exists|k: int| 0 <= k < 9 && value_at(g, #[trigger] quad_cell(q, k)) == d
}

/// The completion invariant: a complete, consistent board holds each
/// digit exactly once in every row, every column and every quadrant —
/// at least once by the statements below, and at most once because
/// `grid_consistent` forbids a repeated digit among peers.
pub proof fn lemma_complete_board_units(g: Seq<Option<SudokuValue>>, d: int)
    requires
        g.len() == 81,
        grid_complete(g),
        grid_consistent(g),
        0 <= d < 9,
    ensures
        forall|r: int| 0 <= r < 9 ==> #[trigger] row_contains_digit(g, r, d),
        forall|c: int| 0 <= c < 9 ==> #[trigger] col_contains_digit(g, c, d),
        forall|q: int| 0 <= q < 9 ==> #[trigger] quad_contains_digit(g, q, d),
{
    lemma_grid_digits_in_range(g);
    assert forall|r: int| 0 <= r < 9 implies #[trigger] row_contains_digit(g, r, d) by {
        let vals = Seq::new(9, |c: int| value_at(g, r * 9 + c));
        assert forall|t: int| 0 <= t < 9 implies 0 <= #[trigger] vals[t] < 9 by {
            assert(vals[t] == value_at(g, r * 9 + t));
            assert(resolved(g, r * 9 + t));
        }
        assert forall|t1: int, t2: int|
            0 <= t1 < 9 && 0 <= t2 < 9 && t1 != t2 implies vals[t1] != vals[t2] by {
            lemma_row_col_of(r, t1);
            lemma_row_col_of(r, t2);
            assert(is_peer(r * 9 + t1, r * 9 + t2));
        }
        lemma_nine_distinct_cover(vals);
        assert(vals.contains(d));
        let c = choose|t: int| 0 <= t < vals.len() && vals[t] == d;
        assert(value_at(g, r * 9 + c) == d);
    }
    assert forall|c: int| 0 <= c < 9 implies #[trigger] col_contains_digit(g, c, d) by {
        let vals = Seq::new(9, |r: int| value_at(g, r * 9 + c));
        assert forall|t: int| 0 <= t < 9 implies 0 <= #[trigger] vals[t] < 9 by {
            assert(vals[t] == value_at(g, t * 9 + c));
            assert(resolved(g, t * 9 + c));
        }
        assert forall|t1: int, t2: int|
            0 <= t1 < 9 && 0 <= t2 < 9 && t1 != t2 implies vals[t1] != vals[t2] by {
            lemma_row_col_of(t1, c);
            lemma_row_col_of(t2, c);
            assert(is_peer(t1 * 9 + c, t2 * 9 + c));
        }
        lemma_nine_distinct_cover(vals);
        assert(vals.contains(d));
        let r = choose|t: int| 0 <= t < vals.len() && vals[t] == d;
        assert(value_at(g, r * 9 + c) == d);
    }
    assert forall|q: int| 0 <= q < 9 implies #[trigger] quad_contains_digit(g, q, d) by {
        let vals = Seq::new(9, |k: int| value_at(g, quad_cell(q, k)));
        assert forall|t: int| 0 <= t < 9 implies 0 <= #[trigger] vals[t] < 9 by {
            lemma_quad_cell(q, t);
            assert(vals[t] == value_at(g, quad_cell(q, t)));
            assert(resolved(g, quad_cell(q, t)));
        }
        assert forall|t1: int, t2: int|
            0 <= t1 < 9 && 0 <= t2 < 9 && t1 != t2 implies vals[t1] != vals[t2] by {
            lemma_quad_cells_are_peers(q, t1, t2);
            lemma_quad_cell(q, t1);
            lemma_quad_cell(q, t2);
        }
        lemma_nine_distinct_cover(vals);
        assert(vals.contains(d));
        let k = choose|t: int| 0 <= t < vals.len() && vals[t] == d;
        assert(value_at(g, quad_cell(q, k)) == d);
    }
}

} // verus!
