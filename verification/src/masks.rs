//! Board geometry and the peer-mask table.
//!
//! Two cells are peers when they share a row, a column or a 3x3 quadrant.
//! `generate_mask` turns the peer relation of one cell into an 81-bit mask
//! so that a whole elimination sweep can test membership with one shift.

use vstd::arithmetic::div_mod::lemma_fundamental_div_mod_converse;
use vstd::prelude::*;

use crate::bits::idx_bit;
use crate::bits::lemma_u128_or_bit;
use crate::bits::lemma_u128_zero_bit;
use crate::indices::CellIndices;
use crate::indices::FlatIndex;

verus! {

/// Row of a flat cell index.
pub open spec fn row_of(i: int) -> int {
    i / 9
}

/// Column of a flat cell index.
pub open spec fn col_of(i: int) -> int {
    i % 9
}

/// Quadrant (3x3 box) of a flat cell index, numbered row-major `0..9`.
pub open spec fn quad_of(i: int) -> int {
    (row_of(i) / 3) * 3 + col_of(i) / 3
}

/// The peer relation: distinct cells sharing a row, column or quadrant.
pub open spec fn is_peer(i: int, j: int) -> bool {
    &&& 0 <= i < 81
    &&& 0 <= j < 81
    &&& i != j
    &&& (row_of(i) == row_of(j) || col_of(i) == col_of(j) || quad_of(i) == quad_of(j))
}

/// Flat index of cell `k` (in visiting order `0..9`) of quadrant `q`.
pub open spec fn quad_cell(q: int, k: int) -> int {
    (q / 3) * 27 + (q % 3) * 3 + (k / 3) * 9 + k % 3
}

/// Position of a cell inside its own quadrant, inverse of `quad_cell`.
pub open spec fn pos_in_quad(i: int) -> int {
    (row_of(i) % 3) * 3 + col_of(i) % 3
}

/// The peer relation is symmetric and irreflexive: a cell is never its own
/// peer, and `j` is a peer of `i` exactly when `i` is a peer of `j`.
pub proof fn lemma_peer_symmetry(i: int, j: int)
    ensures
        is_peer(i, j) <==> is_peer(j, i),
        !is_peer(i, i),
{
}

/// Row and column of the cells of a quadrant, and both directions of the
/// `quad_cell` / `pos_in_quad` correspondence.
pub proof fn lemma_quad_cell(q: int, k: int)
    requires
        0 <= q < 9,
        0 <= k < 9,
    ensures
        0 <= quad_cell(q, k) < 81,
        row_of(quad_cell(q, k)) == (q / 3) * 3 + k / 3,
        col_of(quad_cell(q, k)) == (q % 3) * 3 + k % 3,
        quad_of(quad_cell(q, k)) == q,
        pos_in_quad(quad_cell(q, k)) == k,
{
    let i = quad_cell(q, k);
    let r = (q / 3) * 3 + k / 3;
    let c = (q % 3) * 3 + k % 3;
    assert(i == 9 * r + c);
    lemma_fundamental_div_mod_converse(i, 9, r, c);
    lemma_fundamental_div_mod_converse(r, 3, q / 3, k / 3);
    lemma_fundamental_div_mod_converse(c, 3, q % 3, k % 3);
}

/// Every cell is the `pos_in_quad`-th cell of its own quadrant.
pub proof fn lemma_cell_in_quad(i: int)
    requires
        0 <= i < 81,
    ensures
        0 <= quad_of(i) < 9,
        0 <= pos_in_quad(i) < 9,
        quad_cell(quad_of(i), pos_in_quad(i)) == i,
{
    let q = quad_of(i);
    let k = pos_in_quad(i);
    lemma_fundamental_div_mod_converse(q, 3, row_of(i) / 3, col_of(i) / 3);
    lemma_fundamental_div_mod_converse(k, 3, row_of(i) % 3, col_of(i) % 3);
    assert(row_of(i) == 3 * (row_of(i) / 3) + row_of(i) % 3);
    assert(col_of(i) == 3 * (col_of(i) / 3) + col_of(i) % 3);
    assert(i == 9 * row_of(i) + col_of(i));
}

/// Cells of one quadrant share that quadrant, so distinct ones are peers.
pub proof fn lemma_quad_cells_are_peers(q: int, k1: int, k2: int)
    requires
        0 <= q < 9,
        0 <= k1 < 9,
        0 <= k2 < 9,
        k1 != k2,
    ensures
        is_peer(quad_cell(q, k1), quad_cell(q, k2)),
{
    lemma_quad_cell(q, k1);
    lemma_quad_cell(q, k2);
    assert(quad_cell(q, k1) != quad_cell(q, k2)) by {
        if quad_cell(q, k1) == quad_cell(q, k2) {
            assert(k1 / 3 == k2 / 3 && k1 % 3 == k2 % 3);
            assert(k1 == 3 * (k1 / 3) + k1 % 3);
            assert(k2 == 3 * (k2 / 3) + k2 % 3);
        }
    }
}

/// Row and column of a cell written as `row * 9 + column`.
pub proof fn lemma_row_col_of(r: int, c: int)
    requires
        0 <= r < 9,
        0 <= c < 9,
    ensures
        row_of(r * 9 + c) == r,
        col_of(r * 9 + c) == c,
{
    lemma_fundamental_div_mod_converse(r * 9 + c, 9, r, c);
}

/// Exec test of the peer relation.
pub(crate) fn is_peer_exec(i: FlatIndex, j: u8) -> (r: bool)
    requires
        j < 81,
    ensures
        r == is_peer(i@, j as int),
{
    let iv = i.get();
    if iv == j {
        return false;
    }
    let ri = iv / 9;
    let ci = iv % 9;
    let rj = j / 9;
    let cj = j % 9;
    ri == rj || ci == cj || (ri / 3 == rj / 3 && ci / 3 == cj / 3)
}

/// The 81-bit peer mask of a cell: bit `j` is set exactly for the 20 peers
/// of `i`; the cell itself and all padding bits stay clear.
pub fn generate_mask(i: FlatIndex) -> (r: u128)
    ensures
        forall|j: int| #![trigger idx_bit(r, j)] idx_bit(r, j) <==> is_peer(i@, j),
{
    let mut m: u128 = 0;
    proof {
        assert forall|b: int| 0 <= b < 128 implies !idx_bit(0u128, b) by {
            lemma_u128_zero_bit(b as u128);
        }
    }
    let mut j: u8 = 0;
    while j < 81
        invariant
            j <= 81,
            forall|b: int| #![trigger idx_bit(m, b)] idx_bit(m, b) <==> (b < j && is_peer(i@, b)),
        decreases 81 - j,
    {
        let ghost m0 = m;
        if is_peer_exec(i, j) {
            proof {
                assert forall|b: int| 0 <= b < 128 implies (idx_bit(m | (1u128 << (j as u128)), b)
                    <==> (b == j || idx_bit(m, b))) by {
                    lemma_u128_or_bit(m, j as u128, b as u128);
                }
            }
            m = m | (1u128 << (j as u128));
        }
        proof {
            assert forall|b: int| #![trigger idx_bit(m, b)] idx_bit(m, b) <==> (b < j + 1
                && is_peer(i@, b)) by {
                if b < 0 || b >= 128 {
                    assert(!idx_bit(m, b));
                    assert(!is_peer(i@, b));
                } else {
                    assert(idx_bit(m0, b) <==> (b < j && is_peer(i@, b)));
                }
            }
        }
        j = j + 1;
    }
    m
}

/// 32-bit helper mask naming, per 9-bit half, the cells of a row and column
/// other than the crossing point: bit `b` (low half) stands for column `b`
/// of the cell's row, bit `9 + b` for row `b` of the cell's column.
pub fn find_missing_index_mask(indices: CellIndices) -> (r: u32)
    ensures
        forall|b: int|
            0 <= b < 32 ==> ((#[trigger] ((r >> (b as u32)) & 1) == 1) <==> ((0 <= b < 9 && b
                != indices.column@) || (9 <= b < 18 && b - 9 != indices.row@))),
{
    let row = indices.row.get() as u32;
    let col = indices.column.get() as u32;
    let mis_row = 0x1FFu32 & !(1u32 << row);
    let mis_col = 0x1FFu32 & !(1u32 << col);
    let r = (mis_row << 9) | mis_col;
    proof {
        assert forall|b: int| 0 <= b < 32 implies ((#[trigger] ((r >> (b as u32)) & 1) == 1) <==> ((
        0 <= b < 9 && b != indices.column@) || (9 <= b < 18 && b - 9 != indices.row@))) by {
            lemma_missing_mask_bit(row, col, b as u32);
        }
    }
    r
}

proof fn lemma_missing_mask_bit(row: u32, col: u32, b: u32)
    requires
        row < 9,
        col < 9,
        b < 32,
    ensures
        (((((0x1FFu32 & !(1u32 << row)) << 9) | (0x1FFu32 & !(1u32 << col))) >> b) & 1 == 1) <==> ((
        b < 9 && b != col) || (9 <= b < 18 && b - 9 != row)),
{
    assert((row < 9 && col < 9 && b < 32) ==> ((((((0x1FFu32 & !(1u32 << row)) << 9) | (0x1FFu32 & !(
        1u32 << col))) >> b) & 1 == 1) <==> ((b < 9 && b != col) || (9 <= b && b < 18 && b != row
        + 9)))) by (bit_vector);
}

/// The 32-bit mask removing one digit from a candidate set, `!(1 << val)`.
pub fn comp_rem_mask(val: i32) -> (r: i32)
    requires
        0 <= val < 31,
    ensures
        r == !(1i32 << val),
{
    !(1i32 << val)
}

} // verus!
