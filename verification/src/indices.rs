//! Bounds-checked index and digit types for the 9x9 board.
//!
//! All types carry a type invariant keeping their value inside the declared
//! range, so every value a caller can ever hold is valid by construction.

use vstd::prelude::*;

verus! {

/// Index of a cell in the flat, row-major 81-cell board (`0..81`).
#[derive(Clone, Copy, PartialEq, Eq, Structural, Debug)]
pub struct FlatIndex(u8);

impl View for FlatIndex {
    type V = int;

    closed spec fn view(&self) -> int {
        if self.0 < 81 {
            self.0 as int
        } else {
            0
        }
    }
}

/// The view of any flat index lies on the board.
pub proof fn lemma_flat_index_range(i: FlatIndex)
    ensures
        0 <= i@ < 81,
{
}

impl FlatIndex {
    #[verifier::type_invariant]
    spec fn wf(self) -> bool {
        self.0 < 81
    }

    /// Validating factory: accepts exactly the indices `0..81`.
    pub fn new(i: u8) -> (r: Option<Self>)
        ensures
            i < 81 ==> (r matches Some(f) && f@ == i),
            i >= 81 ==> r is None,
    {
        if i < 81 {
            Some(FlatIndex(i))
        } else {
            None
        }
    }

    /// Factory for indices already known to be in range.
    pub fn checked_new(i: u8) -> (r: Self)
        requires
            i < 81,
        ensures
            r@ == i,
    {
        FlatIndex(i)
    }

    pub fn get(self) -> (r: u8)
        ensures
            r == self@,
            r < 81,
    {
        proof {
            use_type_invariant(self);
        }
        self.0
    }

    pub fn as_idx(self) -> (r: usize)
        ensures
            r == self@,
            r < 81,
    {
        self.get() as usize
    }
}

/// Row or column index within the 9x9 grid (`0..9`).
#[derive(Clone, Copy, PartialEq, Eq, Structural, Debug)]
pub struct CellIndex(u8);

impl View for CellIndex {
    type V = int;

    closed spec fn view(&self) -> int {
        if self.0 < 9 {
            self.0 as int
        } else {
            0
        }
    }
}

impl CellIndex {
    #[verifier::type_invariant]
    spec fn wf(self) -> bool {
        self.0 < 9
    }

    pub fn new(i: u8) -> (r: Option<Self>)
        ensures
            i < 9 ==> (r matches Some(c) && c@ == i),
            i >= 9 ==> r is None,
    {
        if i < 9 {
            Some(CellIndex(i))
        } else {
            None
        }
    }

    pub fn checked_new(i: u8) -> (r: Self)
        requires
            i < 9,
        ensures
            r@ == i,
    {
        CellIndex(i)
    }

    pub fn get(self) -> (r: u8)
        ensures
            r == self@,
            r < 9,
    {
        proof {
            use_type_invariant(self);
        }
        self.0
    }

    pub fn as_idx(self) -> (r: usize)
        ensures
            r == self@,
            r < 9,
    {
        self.get() as usize
    }
}

/// Row or column index of a 3x3 quadrant (`0..3`).
#[derive(Clone, Copy, PartialEq, Eq, Structural, Debug)]
pub struct QuadrantIndex(u8);

impl View for QuadrantIndex {
    type V = int;

    closed spec fn view(&self) -> int {
        if self.0 < 3 {
            self.0 as int
        } else {
            0
        }
    }
}

impl QuadrantIndex {
    #[verifier::type_invariant]
    spec fn wf(self) -> bool {
        self.0 < 3
    }

    pub fn new(i: u8) -> (r: Option<Self>)
        ensures
            i < 3 ==> (r matches Some(q) && q@ == i),
            i >= 3 ==> r is None,
    {
        if i < 3 {
            Some(QuadrantIndex(i))
        } else {
            None
        }
    }

    pub fn checked_new(i: u8) -> (r: Self)
        requires
            i < 3,
        ensures
            r@ == i,
    {
        QuadrantIndex(i)
    }

    pub fn get(self) -> (r: u8)
        ensures
            r == self@,
            r < 3,
    {
        proof {
            use_type_invariant(self);
        }
        self.0
    }

    pub fn as_idx(self) -> (r: usize)
        ensures
            r == self@,
            r < 3,
    {
        self.get() as usize
    }
}

/// Index of one of the nine 3x3 quadrants, row-major (`0..9`).
#[derive(Clone, Copy, PartialEq, Eq, Structural, Debug)]
pub struct FlatQuadrantIndex(u8);

impl View for FlatQuadrantIndex {
    type V = int;

    closed spec fn view(&self) -> int {
        if self.0 < 9 {
            self.0 as int
        } else {
            0
        }
    }
}

impl FlatQuadrantIndex {
    #[verifier::type_invariant]
    spec fn wf(self) -> bool {
        self.0 < 9
    }

    pub fn new(i: u8) -> (r: Option<Self>)
        ensures
            i < 9 ==> (r matches Some(q) && q@ == i),
            i >= 9 ==> r is None,
    {
        if i < 9 {
            Some(FlatQuadrantIndex(i))
        } else {
            None
        }
    }

    pub fn checked_new(i: u8) -> (r: Self)
        requires
            i < 9,
        ensures
            r@ == i,
    {
        FlatQuadrantIndex(i)
    }

    pub fn get(self) -> (r: u8)
        ensures
            r == self@,
            r < 9,
    {
        proof {
            use_type_invariant(self);
        }
        self.0
    }

    pub fn as_idx(self) -> (r: usize)
        ensures
            r == self@,
            r < 9,
    {
        self.get() as usize
    }
}

/// A sudoku digit. The view is the 0-based digit (`0..9`); the 1-based form
/// (`1..=9`) is what a puzzle displays.
#[derive(Clone, Copy, PartialEq, Eq, Structural, Debug)]
pub struct SudokuValue(u8);

impl View for SudokuValue {
    type V = int;

    closed spec fn view(&self) -> int {
        if self.0 < 9 {
            self.0 as int
        } else {
            0
        }
    }
}

/// The view of any digit value lies in the nine-digit range.
pub proof fn lemma_value_range(v: SudokuValue)
    ensures
        0 <= v@ < 9,
{
}

/// The digit value with 0-based view `d`, for spec-level board building.
pub closed spec fn value_from_digit(d: int) -> SudokuValue {
    SudokuValue(d as u8)
}

/// `value_from_digit` inverts the view on the nine digits.
pub proof fn lemma_value_from_digit(d: int)
    requires
        0 <= d < 9,
    ensures
        value_from_digit(d)@ == d,
{
}

impl SudokuValue {
    #[verifier::type_invariant]
    spec fn wf(self) -> bool {
        self.0 < 9
    }

    /// Validating factory from the displayed digit `1..=9`.
    pub fn new_1based(v: u8) -> (r: Option<Self>)
        ensures
            1 <= v <= 9 ==> (r matches Some(s) && s@ == v - 1 && s == value_from_digit(v - 1)),
            !(1 <= v <= 9) ==> r is None,
    {
        if 1 <= v && v <= 9 {
            Some(SudokuValue(v - 1))
        } else {
            None
        }
    }

    /// Validating factory from the 0-based digit `0..9`.
    pub fn new_0based(v: u8) -> (r: Option<Self>)
        ensures
            v < 9 ==> (r matches Some(s) && s@ == v && s == value_from_digit(v as int)),
            v >= 9 ==> r is None,
    {
        if v < 9 {
            Some(SudokuValue(v))
        } else {
            None
        }
    }

    /// The displayed digit, `1..=9`.
    pub fn get_1based(self) -> (r: u8)
        ensures
            r == self@ + 1,
            1 <= r <= 9,
    {
        proof {
            use_type_invariant(self);
        }
        self.0 + 1
    }

    /// The 0-based digit, `0..9`.
    pub fn get_0based(self) -> (r: u8)
        ensures
            r == self@,
            r < 9,
    {
        proof {
            use_type_invariant(self);
        }
        self.0
    }

    pub fn as_0based_idx(self) -> (r: usize)
        ensures
            r == self@,
            r < 9,
    {
        self.get_0based() as usize
    }

    /// The digit as a one-bit candidate mask.
    pub fn as_mask_0based(self) -> (r: u16)
        ensures
            r == 1u16 << (self@ as u16),
            0 <= self@ < 9,
    {
        1u16 << (self.get_0based() as u16)
    }
}

/// A row/column pair, either of cells (`CellIndices`) or of quadrants
/// (`QuadrantIndices`).
#[derive(Clone, Copy, PartialEq, Eq, Structural, Debug)]
pub struct Indices<T> {
    pub row: T,
    pub column: T,
}

pub type CellIndices = Indices<CellIndex>;

pub type QuadrantIndices = Indices<QuadrantIndex>;

pub fn cell_indices_from_flat(value: FlatIndex) -> (r: CellIndices)
    ensures
        r.row@ == value@ / 9,
        r.column@ == value@ % 9,
{
    let v = value.get();
    Indices { row: CellIndex::checked_new(v / 9), column: CellIndex::checked_new(v % 9) }
}

pub fn flat_from_cell_indices(value: CellIndices) -> (r: FlatIndex)
    ensures
        r@ == value.row@ * 9 + value.column@,
{
    FlatIndex::checked_new(value.row.get() * 9 + value.column.get())
}

pub fn quadrant_indices_from_cell_indices(value: CellIndices) -> (r: QuadrantIndices)
    ensures
        r.row@ == value.row@ / 3,
        r.column@ == value.column@ / 3,
{
    Indices {
        row: QuadrantIndex::checked_new(value.row.get() / 3),
        column: QuadrantIndex::checked_new(value.column.get() / 3),
    }
}

pub fn quadrant_indices_from_flat_quadrant(value: FlatQuadrantIndex) -> (r: QuadrantIndices)
    ensures
        r.row@ == value@ / 3,
        r.column@ == value@ % 3,
{
    let v = value.get();
    Indices { row: QuadrantIndex::checked_new(v / 3), column: QuadrantIndex::checked_new(v % 3) }
}

pub fn flat_quadrant_from_quadrant_indices(value: QuadrantIndices) -> (r: FlatQuadrantIndex)
    ensures
        r@ == value.row@ * 3 + value.column@,
{
    FlatQuadrantIndex::checked_new(value.row.get() * 3 + value.column.get())
}

/// Flat index of the top-left cell of a quadrant.
pub fn get_quad_offset(indices: QuadrantIndices) -> (r: FlatIndex)
    ensures
        r@ == indices.row@ * 27 + indices.column@ * 3,
{
    let quadrant_start = Indices {
        row: CellIndex::checked_new(indices.row.get() * 3),
        column: CellIndex::checked_new(indices.column.get() * 3),
    };
    flat_from_cell_indices(quadrant_start)
}

} // verus!
