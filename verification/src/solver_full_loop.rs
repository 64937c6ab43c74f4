//! The scalar full-loop solver: one elimination primitive sweeping all 81
//! cells against a peer mask, a bitmask work queue, and the driver that
//! alternates queue draining with the hidden-single quadrant search.

use vstd::prelude::*;

use crate::bits::digit_mask;
use crate::bits::elim_mask;
use crate::bits::idx_bit;
use crate::bits::lemma_u128_test_bit;
use crate::bits::lemma_u128_zero_bit;
use crate::bits::lemma_u16_and_bit;
use crate::bits::lemma_u16_and_bound;
use crate::bits::lemma_u16_andnot_bit;
use crate::bits::lemma_u16_digit_mask;
use crate::bits::lemma_u16_elim_bit;
use crate::bits::lemma_u16_elim_bound;
use crate::bits::lemma_u16_elim_unchanged;
use crate::bits::lemma_u16_nonzero_has_digit;
use crate::bits::lemma_u16_or_bit;
use crate::bits::lemma_u16_singleton_test;
use crate::bits::lemma_u16_test_mask;
use crate::bits::lemma_u16_zero_and;
use crate::bits::lemma_u16_zero_mask;
use crate::bits::lowest_digit;
use crate::bits::mask_bit;
use crate::bits::mask_is_singleton;
use crate::indices::FlatIndex;
use crate::indices::SudokuValue;
use crate::indices::lemma_value_from_digit;
use crate::indices::value_from_digit;
use crate::masks::generate_mask;
use crate::masks::is_peer;
use crate::masks::lemma_cell_in_quad;
use crate::masks::lemma_quad_cell;
use crate::masks::pos_in_quad;
use crate::masks::quad_cell;
use crate::masks::quad_of;
use crate::solver_base::GeneralSudokuSolver;
use crate::solver_base::GiveValError;
use crate::solver_base::cell_eliminated;
use crate::solver_base::eliminate_result;
use crate::solver_base::eliminated;
use crate::solver_base::lemma_eliminated_shrink;
use crate::solver_base::lemma_num_resolved_bounds;
use crate::solver_base::lemma_num_resolved_complete;
use crate::solver_base::lemma_num_resolved_empty;
use crate::solver_base::lemma_num_resolved_incomplete;
use crate::solver_base::lemma_num_resolved_update;
use crate::solver_base::masks_shrink;
use crate::solver_base::masks_wf;
use crate::solver_base::num_resolved_below;
use crate::solver_base::queue_wf;
use crate::solver_base::resolved_cleared;
use crate::sudoku::Sudoku;
use crate::sudoku::grid_complete;
use crate::sudoku::grid_consistent;
use crate::sudoku::grid_extends;
use crate::sudoku::resolved;
use crate::sudoku::value_at;
use crate::work_queue::BitMaskWorkQueue;
use crate::work_queue::WorkQueue;

verus! {

/// Marker for the scalar full-loop elimination backend.
#[derive(Clone, Copy, PartialEq, Eq, Structural, Debug)]
pub struct SolverFullLoopImpl;

impl Default for SolverFullLoopImpl {
    fn default() -> (r: Self)
        ensures
            r == SolverFullLoopImpl,
    {
        SolverFullLoopImpl
    }
}

/// One solve in progress: the candidate masks, the resolved-value grid,
/// the pending queue, and the running count of resolved cells.
pub struct SolverFullLoop {
    sudoku: Sudoku,
    content: Vec<u16>,
    work_queue: BitMaskWorkQueue,
    filled_pos: u8,
}

impl SolverFullLoop {
    /// The resolved-value grid, as contracts see it.
    pub closed spec fn grid(&self) -> Seq<Option<SudokuValue>> {
        self.sudoku@
    }

    /// The candidate masks, as contracts see them.
    pub closed spec fn masks(&self) -> Seq<u16> {
        self.content@
    }

    /// The pending-queue bits, as contracts see them.
    pub closed spec fn queue_bits(&self) -> u128 {
        self.work_queue.0
    }

    /// The count of resolved cells, as contracts see it.
    pub closed spec fn filled(&self) -> int {
        self.filled_pos as int
    }

    /// Resolve `idx` to `value`: record the digit, clear the cell's mask
    /// and pending bit, and run one elimination sweep over its peers.
    fn set_value(&mut self, value: SudokuValue, idx: FlatIndex)
        requires
            old(self).inv(),
            mask_bit(old(self).masks()[idx@], value@),
        ensures
            final(self).inv(),
            set_value_post(*old(self), *final(self), idx@, value@),
            final(self).grid() == old(self).grid().update(idx@, Some(value)),
            masks_shrink(final(self).masks(), old(self).masks()),
            grid_extends(final(self).grid(), old(self).grid()),
    {
        let ghost v = value@;
        let ghost c0 = self.content@;
        let ghost g0 = self.sudoku@;
        let ghost q0 = self.work_queue.0;
        proof {
            // the cell must be unresolved: a resolved cell's mask is zero
            if resolved(g0, idx@) {
                lemma_u16_zero_mask(v as u16);
            }
        }
        let i_us = idx.as_idx();
        self.content[i_us] = 0;
        self.sudoku.set_i(idx, value);
        self.work_queue.remove(idx);
        proof {
            lemma_num_resolved_update(g0, idx@, value, 81);
            lemma_num_resolved_bounds(self.sudoku@, 81);
        }
        self.filled_pos = self.filled_pos + 1;
        let ghost c_mid = self.content@;
        check_set1(&mut self.content, idx, value, &mut self.work_queue);
        proof {
            let g1 = self.sudoku@;
            let cf = self.content@;
            let qf = self.work_queue.0;
            // the final mask of each cell, relative to the pre-call state
            assert forall|j: int|
                #![trigger cf[j]]
                0 <= j < 81 implies cf[j] == (if j == idx@ {
                0u16
            } else if is_peer(idx@, j) {
                elim_mask(c0[j], v)
            } else {
                c0[j]
            }) by {
                if j == idx@ {
                    assert(!is_peer(idx@, j));
                    assert(c_mid[j] == 0);
                } else {
                    assert(c_mid[j] == c0[j]);
                }
            }
            // candidate masks only shrink
            assert forall|j: int, d: int|
                0 <= j < 81 && #[trigger] mask_bit(cf[j], d) implies mask_bit(c0[j], d) by {
                if j == idx@ {
                    lemma_u16_zero_mask(d as u16);
                } else if is_peer(idx@, j) {
                    lemma_u16_elim_bit(c0[j], v as u16, d as u16);
                }
            }
            // a resolved cell's mask stays cleared
            assert forall|t: int|
                #![trigger g1[t]]
                0 <= t < 81 && resolved(g1, t) implies cf[t] == 0 by {
                if t != idx@ {
                    assert(resolved(g0, t));
                    assert(c0[t] == 0);
                    if is_peer(idx@, t) {
                        lemma_u16_zero_and(!digit_mask(v));
                    }
                }
            }
            // every resolved digit is still eliminated from its peers
            assert forall|i2: int, j2: int| 0 <= i2 < 81 && 0 <= j2 < 81 implies #[trigger]
                cell_eliminated(cf, g1, i2, j2) by {
                if resolved(g1, i2) && is_peer(i2, j2) {
                    let w = value_at(g1, i2);
                    if 0 <= w < 9 {
                        if i2 == idx@ {
                            if mask_bit(cf[j2], w) {
                                assert(j2 != idx@);
                                lemma_u16_elim_bit(c0[j2], v as u16, w as u16);
                            }
                        } else {
                            assert(resolved(g0, i2));
                            assert(value_at(g0, i2) == w);
                            assert(cell_eliminated(c0, g0, i2, j2));
                            if mask_bit(cf[j2], w) {
                                if j2 == idx@ {
                                    lemma_u16_zero_mask(w as u16);
                                } else if is_peer(idx@, j2) {
                                    lemma_u16_elim_bit(c0[j2], v as u16, w as u16);
                                }
                            }
                        }
                    }
                }
            }
            // the new digit conflicts with no resolved peer
            assert forall|i2: int, j2: int|
                #![trigger is_peer(i2, j2), value_at(g1, i2), value_at(g1, j2)]
                is_peer(i2, j2) && resolved(g1, i2) && resolved(g1, j2) implies value_at(g1, i2)
                != value_at(g1, j2) by {
                if i2 == idx@ {
                    assert(resolved(g0, j2));
                    assert(cell_eliminated(c0, g0, j2, idx@));
                    assert(value_at(g0, j2) == value_at(g1, j2));
                } else if j2 == idx@ {
                    assert(resolved(g0, i2));
                    assert(cell_eliminated(c0, g0, i2, idx@));
                    assert(value_at(g0, i2) == value_at(g1, i2));
                } else {
                    assert(value_at(g0, i2) == value_at(g1, i2));
                    assert(value_at(g0, j2) == value_at(g1, j2));
                }
            }
            // queue bits still stand for unresolved cells
            assert forall|b: int| #[trigger] idx_bit(qf, b) implies 0 <= b < 81 && !resolved(
                g1,
                b,
            ) by {
                if idx_bit(q0, b) && b != idx@ {
                } else {
                    assert(is_peer(idx@, b) && mask_bit(c0[b], v));
                    if c0[b] == 0 {
                        lemma_u16_zero_mask(v as u16);
                    }
                    assert(!resolved(g0, b));
                }
            }
        }
    }

    /// Seed one given: fails (leaving the board untouched) exactly when the
    /// digit is no longer a candidate of the cell.
    pub fn force_set_index(&mut self, i: FlatIndex, val: SudokuValue) -> (r: Result<(), ()>)
        requires
            old(self).inv(),
        ensures
            final(self).inv(),
            r is Err <==> !mask_bit(old(self).masks()[i@], val@),
            r is Err ==> same_state(*old(self), *final(self)),
            r is Ok ==> set_value_post(*old(self), *final(self), i@, val@),
            r is Ok ==> final(self).grid() == old(self).grid().update(i@, Some(val)),
            masks_shrink(final(self).masks(), old(self).masks()),
            grid_extends(final(self).grid(), old(self).grid()),
    {
        let vm = val.as_mask_0based();
        let m = self.content[i.as_idx()];
        proof {
            lemma_u16_test_mask(m, val@ as u16);
        }
        if m & vm == 0 {
            return Err(());
        }
        self.set_value(val, i);
        Ok(())
    }

    /// Resolve a cell popped from the queue to its lowest remaining
    /// candidate; fails (leaving the board untouched) exactly when the
    /// cell's mask is empty, the sign of a contradictory board.
    pub fn process_index(&mut self, i: FlatIndex) -> (r: Result<(), ()>)
        requires
            old(self).inv(),
            !resolved(old(self).grid(), i@),
        ensures
            final(self).inv(),
            r is Err <==> old(self).masks()[i@] == 0,
            r is Err ==> same_state(*old(self), *final(self)),
            r is Ok ==> set_value_post(
                *old(self),
                *final(self),
                i@,
                lowest_digit(old(self).masks()[i@]),
            ),
            r is Ok ==> final(self).grid() == old(self).grid().update(
                i@,
                Some(value_from_digit(lowest_digit(old(self).masks()[i@]))),
            ),
            masks_shrink(final(self).masks(), old(self).masks()),
            grid_extends(final(self).grid(), old(self).grid()),
    {
        let ix = i.as_idx();
        let val_set = self.content[ix];
        if val_set == 0 {
            return Err(());
        }
        let d = lowest_set_digit(val_set);
        let value = match SudokuValue::new_0based(d) {
            Some(value) => value,
            None => {
                proof {
                    assert(false);
                }
                return Err(());
            },
        };
        self.set_value(value, i);
        Ok(())
    }

    /// The solver invariant makes the observable state a well-formed
    /// driver state.
    pub proof fn lemma_drive_wf(&self)
        requires
            self.inv(),
        ensures
            drive_wf(self.masks(), self.grid(), pending_of(self.queue_bits())),
    {
        assert forall|b: int|
            #[trigger] pending_of(self.queue_bits()).contains(b) implies 0 <= b < 81 && !resolved(
            self.grid(),
            b,
        ) by {
            assert(idx_bit(self.queue_bits(), b));
        }
    }

    /// Drain the pending queue, resolving each popped cell, until the
    /// queue is empty. Returns `false` only when a popped cell had no
    /// candidate left, the mark of a contradictory board; either way the
    /// outcome is the one the driver function `drive` prescribes.
    pub fn propagate(&mut self) -> (ok: bool)
        requires
            old(self).inv(),
        ensures
            final(self).inv(),
            grid_extends(final(self).grid(), old(self).grid()),
            masks_shrink(final(self).masks(), old(self).masks()),
            final(self).filled() >= old(self).filled(),
            ok ==> forall|b: int| 0 <= b < 81 ==> !idx_bit(final(self).queue_bits(), b),
            ok ==> (final(self).filled() > old(self).filled() || (forall|b: int|
                0 <= b < 81 ==> !idx_bit(old(self).queue_bits(), b))),
            !ok ==> !grid_complete(final(self).grid()),
            (forall|b: int| 0 <= b < 81 ==> !idx_bit(old(self).queue_bits(), b)) ==> (ok
                && same_state(*old(self), *final(self))),
            ok ==> drive(final(self).masks(), final(self).grid(), pending_of(final(self).queue_bits()))
                == drive(old(self).masks(), old(self).grid(), pending_of(old(self).queue_bits())),
            !ok ==> final(self).grid() == drive(
                old(self).masks(),
                old(self).grid(),
                pending_of(old(self).queue_bits()),
            ),
            !ok ==> exists|j: int|
                0 <= j < 81 && !resolved(final(self).grid(), j) && final(self).masks()[j] == 0,
    {
        loop
            invariant
                old(self).inv(),
                self.inv(),
                grid_extends(self.grid(), old(self).grid()),
                masks_shrink(self.masks(), old(self).masks()),
                self.filled() >= old(self).filled(),
                self.filled() > old(self).filled() || self.queue_bits() == old(self).queue_bits(),
                (forall|b: int| 0 <= b < 81 ==> !idx_bit(old(self).queue_bits(), b))
                    ==> same_state(*old(self), *self),
                drive(self.masks(), self.grid(), pending_of(self.queue_bits())) == drive(
                    old(self).masks(),
                    old(self).grid(),
                    pending_of(old(self).queue_bits()),
                ),
            decreases 81 - self.filled(),
        {
            proof {
                lemma_num_resolved_bounds(self.grid(), 81);
            }
            let ghost pre = *self;
            match self.work_queue.pop() {
                None => {
                    return true;
                },
                Some(i) => {
                    let ghost c_before = self.masks();
                    let ghost g_before = self.grid();
                    proof {
                        // a pending bit stands for an unresolved cell
                        assert(!resolved(self.grid(), i@));
                        // the queue pops its lowest pending cell
                        pre.lemma_drive_wf();
                        lemma_min_pending(pending_of(pre.queue_bits()), 0);
                        assert(pending_of(pre.queue_bits()).contains(i@));
                        assert(min_pending(pending_of(pre.queue_bits()), 0) == i@);
                    }
                    if self.process_index(i).is_err() {
                        proof {
                            assert(!resolved(self.grid(), i@));
                            // an exhausted lowest cell is where the driver stops
                            assert(drive(pre.masks(), pre.grid(), pending_of(pre.queue_bits()))
                                == pre.grid());
                        }
                        return false;
                    }
                    proof {
                        lemma_num_resolved_bounds(self.grid(), 81);
                        // the exec step equals one driver step on the
                        // pre-pop state
                        let v = lowest_digit(pre.masks()[i@]);
                        assert(pre.masks()[i@] != 0);
                        assert(self.masks() =~= masks_after_set(pre.masks(), i@, v));
                        assert(pending_of(self.queue_bits()) =~= pending_after_set(
                            pre.masks(),
                            pending_of(pre.queue_bits()),
                            i@,
                            v,
                        )) by {
                            assert forall|b: int|
                                pending_of(self.queue_bits()).contains(b)
                                    <==> pending_after_set(
                                    pre.masks(),
                                    pending_of(pre.queue_bits()),
                                    i@,
                                    v,
                                ).contains(b) by {
                                assert(idx_bit(self.queue_bits(), b) <==> (b != i@ && (idx_bit(
                                    pre.queue_bits(),
                                    b,
                                ) || (is_peer(i@, b) && mask_bit(pre.masks()[b], v)
                                    && mask_is_singleton(elim_mask(pre.masks()[b], v))))));
                            }
                        }
                        assert(self.grid() == pre.grid().update(i@, Some(value_from_digit(v))));
                        assert(drive(pre.masks(), pre.grid(), pending_of(pre.queue_bits()))
                            == drive(
                            self.masks(),
                            self.grid(),
                            pending_of(self.queue_bits()),
                        ));
                        // shrink and extension compose across the step
                        assert forall|j: int, d: int|
                            0 <= j < 81 && #[trigger] mask_bit(self.masks()[j], d) implies
                            mask_bit(old(self).masks()[j], d) by {
                            assert(mask_bit(c_before[j], d));
                        }
                        assert forall|j: int|
                            #![trigger self.grid()[j]]
                            0 <= j < 81 && resolved(old(self).grid(), j) implies self.grid()[j]
                            == old(self).grid()[j] by {
                            assert(g_before[j] == old(self).grid()[j]);
                        }
                    }
                },
            }
        }
    }
}

/// The lowest digit still set in a nonzero candidate mask.
fn lowest_set_digit(m: u16) -> (r: u8)
    requires
        0 < m < 512,
    ensures
        r < 9,
        r as int == lowest_digit(m),
        mask_bit(m, r as int),
{
    proof {
        lemma_u16_nonzero_has_digit(m);
    }
    let mut d: u8 = 0;
    while d < 8
        invariant
            d < 9,
            0 < m < 512,
            forall|t: int| 0 <= t < d ==> !mask_bit(m, t),
        decreases 8 - d,
    {
        proof {
            lemma_u16_test_mask(m, d as u16);
        }
        if m & (1u16 << d) != 0 {
            return d;
        }
        d = d + 1;
    }
    proof {
        lemma_u16_nonzero_has_digit(m);
    }
    8
}

/// The pending set a queue's bits stand for.
pub open spec fn pending_of(q: u128) -> Set<int> {
    Set::new(|b: int| idx_bit(q, b))
}

/// The lowest pending cell at or above `b`; 81 when none is pending.
pub open spec fn min_pending(pending: Set<int>, b: int) -> int
    decreases 81 - b,
{
    if b < 0 || b >= 81 {
        81
    } else if pending.contains(b) {
        b
    } else {
        min_pending(pending, b + 1)
    }
}

pub proof fn lemma_min_pending(pending: Set<int>, b: int)
    requires
        0 <= b <= 81,
    ensures
        b <= min_pending(pending, b) <= 81,
        min_pending(pending, b) < 81 ==> pending.contains(min_pending(pending, b)),
        forall|x: int| b <= x < min_pending(pending, b) ==> !pending.contains(x),
    decreases 81 - b,
{
    if b < 81 && !pending.contains(b) {
        lemma_min_pending(pending, b + 1);
    }
}

/// The candidate masks after cell `i` is resolved to digit `v`.
pub open spec fn masks_after_set(c: Seq<u16>, i: int, v: int) -> Seq<u16> {
    Seq::new(
        81,
        |j: int|
            if j == i {
                0u16
            } else if is_peer(i, j) {
                elim_mask(c[j], v)
            } else {
                c[j]
            },
    )
}

/// The pending set after cell `i` is resolved to digit `v`: the cell
/// leaves, and the peers whose mask changed to a single candidate enter.
pub open spec fn pending_after_set(c: Seq<u16>, pending: Set<int>, i: int, v: int) -> Set<int> {
    Set::new(
        |b: int|
            b != i && (pending.contains(b) || (0 <= b < 81 && is_peer(i, b) && mask_bit(c[b], v)
                && mask_is_singleton(elim_mask(c[b], v)))),
    )
}

/// The candidate masks after one hidden-single quadrant pass.
pub open spec fn masks_after_seek(c: Seq<u16>) -> Seq<u16> {
    Seq::new(81, |j: int| seek_cell_result(c, j))
}

/// The pending set after one hidden-single quadrant pass.
pub open spec fn pending_after_seek(c: Seq<u16>, pending: Set<int>) -> Set<int> {
    Set::new(|b: int| pending.contains(b) || (0 <= b < 81 && seek_hit(c, b)))
}

/// A well-formed driver state: masks in shape, resolved cells cleared,
/// and pending entries naming unresolved board cells.
pub open spec fn drive_wf(c: Seq<u16>, g: Seq<Option<SudokuValue>>, pending: Set<int>) -> bool {
    &&& masks_wf(c)
    &&& g.len() == 81
    &&& resolved_cleared(c, g)
    &&& forall|b: int| #[trigger] pending.contains(b) ==> 0 <= b < 81 && !resolved(g, b)
}

/// One resolution step keeps the driver state well formed and resolves
/// one more cell.
pub proof fn lemma_set_step_wf(c: Seq<u16>, g: Seq<Option<SudokuValue>>, pending: Set<int>, b: int)
    requires
        drive_wf(c, g, pending),
        min_pending(pending, 0) == b,
        b < 81,
        c[b] != 0,
    ensures
        0 <= b < 81,
        !resolved(g, b),
        0 <= lowest_digit(c[b]) < 9,
        drive_wf(
            masks_after_set(c, b, lowest_digit(c[b])),
            g.update(b, Some(value_from_digit(lowest_digit(c[b])))),
            pending_after_set(c, pending, b, lowest_digit(c[b])),
        ),
        num_resolved_below(g.update(b, Some(value_from_digit(lowest_digit(c[b])))), 81)
            == num_resolved_below(g, 81) + 1,
        num_resolved_below(g.update(b, Some(value_from_digit(lowest_digit(c[b])))), 81) <= 81,
        num_resolved_below(g, 81) >= 0,
{
    lemma_min_pending(pending, 0);
    assert(c[b] < 512);
    lemma_u16_nonzero_has_digit(c[b]);
    let v = lowest_digit(c[b]);
    lemma_value_from_digit(v);
    let g2 = g.update(b, Some(value_from_digit(v)));
    lemma_num_resolved_update(g, b, value_from_digit(v), 81);
    lemma_num_resolved_bounds(g2, 81);
    lemma_num_resolved_bounds(g, 81);
    assert forall|j: int| 0 <= j < 81 implies masks_after_set(c, b, v)[j] < 512 by {
        lemma_u16_elim_bound(c[j], v as u16);
    }
    assert forall|t: int|
        #![trigger g2[t]]
        0 <= t < 81 && resolved(g2, t) implies masks_after_set(c, b, v)[t] == 0 by {
        if t != b && is_peer(b, t) {
            lemma_u16_zero_and(!digit_mask(v));
        }
    }
    assert forall|x: int|
        #[trigger] pending_after_set(c, pending, b, v).contains(x) implies 0 <= x < 81 && !resolved(
        g2,
        x,
    ) by {
        if !pending.contains(x) {
            if c[x] == 0 {
                lemma_u16_zero_mask(v as u16);
            }
        }
    }
}

/// The deterministic propagation driver, as a function: resolve the lowest
/// pending cell to its lowest candidate and cascade, stop on an exhausted
/// mask or a complete board, and when the queue runs dry either take the
/// hidden-single pass or stop stuck. Returns the final grid; the solve
/// succeeded exactly when that grid is complete.
pub open spec fn drive(c: Seq<u16>, g: Seq<Option<SudokuValue>>, pending: Set<int>) -> Seq<
    Option<SudokuValue>,
>
    decreases
            81 - num_resolved_below(g, 81),
            (if min_pending(pending, 0) < 81 {
                0int
            } else {
                1int
            }),
        when drive_wf(c, g, pending)
{
    let b = min_pending(pending, 0);
    if b < 81 {
        if c[b] == 0 {
            g
        } else {
            proof {
                lemma_set_step_wf(c, g, pending, b);
            }
            drive(
                masks_after_set(c, b, lowest_digit(c[b])),
                g.update(b, Some(value_from_digit(lowest_digit(c[b])))),
                pending_after_set(c, pending, b, lowest_digit(c[b])),
            )
        }
    } else if num_resolved_below(g, 81) == 81 {
        g
    } else if exists|j: int| 0 <= j < 81 && seek_hit(c, j) {
        proof {
            let j = choose|j: int| 0 <= j < 81 && seek_hit(c, j);
            lemma_min_le_pending(pending_after_seek(c, pending), j);
            lemma_min_pending(pending, 0);
            // the pass only shrinks masks, so the state stays well formed
            assert forall|t: int| 0 <= t < 81 implies masks_after_seek(c)[t] < 512 by {
                lemma_u16_and_bound(c[t], exactly_one_mask(c, quad_of(t)));
            }
            assert forall|t: int|
                #![trigger g[t]]
                0 <= t < 81 && resolved(g, t) implies masks_after_seek(c)[t] == 0 by {
                if seek_hit(c, t) {
                    lemma_u16_zero_and(exactly_one_mask(c, quad_of(t)));
                }
            }
            assert forall|x: int|
                #[trigger] pending_after_seek(c, pending).contains(x) implies 0 <= x < 81
                && !resolved(g, x) by {
                if !pending.contains(x) {
                    if c[x] == 0 {
                        lemma_u16_zero_and(exactly_one_mask(c, quad_of(x)));
                    }
                }
            }
        }
        drive(masks_after_seek(c), g, pending_after_seek(c, pending))
    } else {
        g
    }
}

/// The propagation-only driver: the same resolution loop as `drive`, but
/// stopping, rather than searching quadrants, when the queue runs dry.
pub open spec fn drive_plain(c: Seq<u16>, g: Seq<Option<SudokuValue>>, pending: Set<int>) -> Seq<
    Option<SudokuValue>,
>
    decreases 81 - num_resolved_below(g, 81),
        when drive_wf(c, g, pending)
{
    let b = min_pending(pending, 0);
    if b < 81 {
        if c[b] == 0 {
            g
        } else {
            proof {
                lemma_set_step_wf(c, g, pending, b);
            }
            drive_plain(
                masks_after_set(c, b, lowest_digit(c[b])),
                g.update(b, Some(value_from_digit(lowest_digit(c[b])))),
                pending_after_set(c, pending, b, lowest_digit(c[b])),
            )
        }
    } else {
        g
    }
}

/// A puzzle that direct elimination alone completes never needs the
/// hidden-single search: the full driver takes exactly the same steps as
/// the propagation-only driver, and the search contributes nothing.
pub proof fn lemma_plain_complete_drive(c: Seq<u16>, g: Seq<Option<SudokuValue>>, pending: Set<int>)
    requires
        drive_wf(c, g, pending),
        grid_complete(drive_plain(c, g, pending)),
    ensures
        drive(c, g, pending) == drive_plain(c, g, pending),
    decreases 81 - num_resolved_below(g, 81),
{
    lemma_min_pending(pending, 0);
    let b = min_pending(pending, 0);
    if b < 81 {
        if c[b] == 0 {
            // the plain driver would stop here with cell `b` unresolved
            assert(!resolved(g, b));
        } else {
            lemma_set_step_wf(c, g, pending, b);
            lemma_plain_complete_drive(
                masks_after_set(c, b, lowest_digit(c[b])),
                g.update(b, Some(value_from_digit(lowest_digit(c[b])))),
                pending_after_set(c, pending, b, lowest_digit(c[b])),
            );
        }
    } else {
        // queue empty and the plain result is this very grid: complete,
        // so the full driver stops here too
        lemma_num_resolved_incomplete(g, 81);
    }
}

/// A pending member bounds the minimum from above.
pub proof fn lemma_min_le_pending(pending: Set<int>, x: int)
    requires
        0 <= x < 81,
        pending.contains(x),
    ensures
        min_pending(pending, 0) <= x,
{
    lemma_min_pending(pending, 0);
}

/// Two solver states with the same observable contents.
pub open spec fn same_state(a: SolverFullLoop, b: SolverFullLoop) -> bool {
    &&& a.grid() == b.grid()
    &&& a.masks() == b.masks()
    &&& a.queue_bits() == b.queue_bits()
    &&& a.filled() == b.filled()
}

/// How one resolution step transforms the solver state: cell `idx` is
/// recorded with digit `v` and its mask cleared, digit `v` leaves the mask
/// of every peer, and the queue drops `idx` and gains exactly the peers
/// whose mask changed to a single candidate.
pub open spec fn set_value_post(pre: SolverFullLoop, post: SolverFullLoop, idx: int, v: int) -> bool {
    &&& post.grid().len() == pre.grid().len()
    &&& resolved(post.grid(), idx)
    &&& value_at(post.grid(), idx) == v
    &&& forall|j: int| #![trigger post.grid()[j]] 0 <= j < 81 && j != idx ==> post.grid()[j] == pre.grid()[j]
    &&& forall|j: int|
        #![trigger post.masks()[j]]
        0 <= j < 81 ==> post.masks()[j] == (if j == idx {
            0u16
        } else if is_peer(idx, j) {
            elim_mask(pre.masks()[j], v)
        } else {
            pre.masks()[j]
        })
    &&& forall|b: int|
        #![trigger idx_bit(post.queue_bits(), b)]
        idx_bit(post.queue_bits(), b) <==> (b != idx && (idx_bit(pre.queue_bits(), b) || (is_peer(
            idx,
            b,
        ) && mask_bit(pre.masks()[b], v) && mask_is_singleton(elim_mask(pre.masks()[b], v)))))
    &&& post.filled() == pre.filled() + 1
}

/// One elimination sweep, the library's single elimination primitive:
/// clears `value` from the mask of every peer of `i` and enqueues exactly
/// the peers whose mask both changed and ended up with a single candidate.
pub fn check_set1(
    content: &mut Vec<u16>,
    i: FlatIndex,
    value: SudokuValue,
    work_q: &mut BitMaskWorkQueue,
)
    requires
        masks_wf(old(content)@),
    ensures
        masks_wf(final(content)@),
        masks_shrink(final(content)@, old(content)@),
        final(content)@ == eliminate_result(old(content)@, i@, value@),
        forall|j: int|
            #![trigger final(content)@[j]]
            0 <= j < 81 ==> final(content)@[j] == (if is_peer(i@, j) {
                elim_mask(old(content)@[j], value@)
            } else {
                old(content)@[j]
            }),
        forall|b: int|
            #![trigger idx_bit(final(work_q).0, b)]
            idx_bit(final(work_q).0, b) <==> (idx_bit(old(work_q).0, b) || (is_peer(i@, b)
                && mask_bit(old(content)@[b], value@) && mask_is_singleton(
                elim_mask(old(content)@[b], value@),
            ))),
{
    let rem_mask: u16 = !value.as_mask_0based();
    let ghost v = value@;
    let active: u128 = generate_mask(i);
    let ghost c0 = content@;
    let ghost q0 = work_q.0;
    let mut j: u8 = 0;
    while j < 81
        invariant
            j <= 81,
            0 <= v < 9,
            masks_wf(c0),
            masks_wf(content@),
            rem_mask == !digit_mask(v),
            forall|b: int| #![trigger idx_bit(active, b)] idx_bit(active, b) <==> is_peer(i@, b),
            forall|t: int|
                #![trigger content@[t]]
                0 <= t < 81 ==> content@[t] == (if t < j && is_peer(i@, t) {
                    elim_mask(c0[t], v)
                } else {
                    c0[t]
                }),
            forall|b: int|
                #![trigger idx_bit(work_q.0, b)]
                idx_bit(work_q.0, b) <==> (idx_bit(q0, b) || (b < j && is_peer(i@, b) && mask_bit(
                    c0[b],
                    v,
                ) && mask_is_singleton(elim_mask(c0[b], v)))),
        decreases 81 - j,
    {
        proof {
            lemma_u128_test_bit(active, j as u128);
        }
        if (active >> (j as u128)) & 1 == 1 {
            let jx = j as usize;
            let m = content[jx];
            let nm = m & rem_mask;
            proof {
                assert(m == c0[j as int]);
                assert(nm == elim_mask(c0[j as int], v));
                lemma_u16_elim_bound(m, v as u16);
                lemma_u16_elim_unchanged(m, v as u16);
            }
            if nm != m {
                content[jx] = nm;
                proof {
                    if nm == 0 && mask_is_singleton(nm) {
                        let d = choose|d: int| 0 <= d < 9 && nm == digit_mask(d);
                        lemma_u16_digit_mask(d as u16, 0);
                    }
                    if nm != 0 {
                        lemma_u16_singleton_test(nm, (nm - 1) as u16);
                    }
                }
                if nm != 0 && (nm & (nm - 1)) == 0 {
                    work_q.push(FlatIndex::checked_new(j));
                }
            }
        }
        j = j + 1;
    }
    proof {
        assert(final(content)@ =~= eliminate_result(c0, i@, v));
        assert forall|i2: int, d: int|
            0 <= i2 < 81 && #[trigger] mask_bit(final(content)@[i2], d) implies mask_bit(
            c0[i2],
            d,
        ) by {
            if is_peer(i@, i2) {
                lemma_u16_elim_bit(c0[i2], v as u16, d as u16);
            }
        }
    }
}


/// Digits present in at least one of the first `k` cells of quadrant `q`.
pub open spec fn seek_l1(c: Seq<u16>, q: int, k: int) -> u16
    decreases k,
{
    if k <= 0 {
        0u16
    } else {
        seek_l1(c, q, k - 1) | c[quad_cell(q, k - 1)]
    }
}

/// Digits present in at least two of the first `k` cells of quadrant `q`.
pub open spec fn seek_l2(c: Seq<u16>, q: int, k: int) -> u16
    decreases k,
{
    if k <= 0 {
        0u16
    } else {
        seek_l2(c, q, k - 1) | (seek_l1(c, q, k - 1) & c[quad_cell(q, k - 1)])
    }
}

/// Digits placeable in exactly one cell of quadrant `q`: present at least
/// once but not at least twice.
pub open spec fn exactly_one_mask(c: Seq<u16>, q: int) -> u16 {
    seek_l1(c, q, 9) & !seek_l2(c, q, 9)
}

/// Whether the hidden-single pass rewrites cell `j`.
pub open spec fn seek_hit(c: Seq<u16>, j: int) -> bool {
    c[j] & exactly_one_mask(c, quad_of(j)) != 0
}

/// The mask of cell `j` after the hidden-single pass.
pub open spec fn seek_cell_result(c: Seq<u16>, j: int) -> u16 {
    if seek_hit(c, j) {
        c[j] & exactly_one_mask(c, quad_of(j))
    } else {
        c[j]
    }
}

/// In how many of the first `k` cells of quadrant `q` digit `d` is still
/// a candidate.
pub open spec fn quad_digit_count(c: Seq<u16>, q: int, d: int, k: int) -> int
    decreases k,
{
    if k <= 0 {
        0int
    } else {
        quad_digit_count(c, q, d, k - 1) + (if mask_bit(c[quad_cell(q, k - 1)], d) {
            1int
        } else {
            0int
        })
    }
}

pub proof fn lemma_quad_digit_count_bounds(c: Seq<u16>, q: int, d: int, k: int)
    ensures
        0 <= quad_digit_count(c, q, d, k) <= (if k <= 0 {
            0int
        } else {
            k
        }),
    decreases k,
{
    if k > 0 {
        lemma_quad_digit_count_bounds(c, q, d, k - 1);
    }
}

proof fn lemma_seek_accum(c: Seq<u16>, q: int, d: int, k: int)
    requires
        0 <= d < 9,
        0 <= k <= 9,
    ensures
        mask_bit(seek_l1(c, q, k), d) <==> quad_digit_count(c, q, d, k) >= 1,
        mask_bit(seek_l2(c, q, k), d) <==> quad_digit_count(c, q, d, k) >= 2,
    decreases k,
{
    if k == 0 {
        lemma_u16_zero_mask(d as u16);
    } else {
        lemma_seek_accum(c, q, d, k - 1);
        lemma_quad_digit_count_bounds(c, q, d, k - 1);
        let m = c[quad_cell(q, k - 1)];
        lemma_u16_or_bit(seek_l1(c, q, k - 1), m, d as u16);
        lemma_u16_and_bit(seek_l1(c, q, k - 1), m, d as u16);
        lemma_u16_or_bit(seek_l2(c, q, k - 1), seek_l1(c, q, k - 1) & m, d as u16);
    }
}

/// What the accumulated `exactly_one_mask` means: digit `d` is in it
/// exactly when `d` is still a candidate in precisely one cell of the
/// quadrant.
pub proof fn lemma_exactly_one_mask(c: Seq<u16>, q: int, d: int)
    requires
        0 <= d < 9,
    ensures
        mask_bit(exactly_one_mask(c, q), d) <==> quad_digit_count(c, q, d, 9) == 1,
{
    lemma_seek_accum(c, q, d, 9);
    lemma_quad_digit_count_bounds(c, q, d, 9);
    lemma_u16_andnot_bit(seek_l1(c, q, 9), seek_l2(c, q, 9), d as u16);
}

/// Two distinct cells of a quadrant that both hold digit `d` put the
/// quadrant's count of `d` at two or more.
pub proof fn lemma_quad_count_at_least_two(c: Seq<u16>, q: int, d: int, k1: int, k2: int)
    requires
        0 <= k1 < 9,
        0 <= k2 < 9,
        k1 != k2,
        mask_bit(c[quad_cell(q, k1)], d),
        mask_bit(c[quad_cell(q, k2)], d),
    ensures
        quad_digit_count(c, q, d, 9) >= 2,
{
    lemma_quad_count_partial(c, q, d, 9, k1, k2);
}

proof fn lemma_quad_count_partial(c: Seq<u16>, q: int, d: int, k: int, k1: int, k2: int)
    requires
        0 <= k <= 9,
        0 <= k1 < 9,
        0 <= k2 < 9,
        k1 != k2,
        mask_bit(c[quad_cell(q, k1)], d),
        mask_bit(c[quad_cell(q, k2)], d),
    ensures
        quad_digit_count(c, q, d, k) >= (if k1 < k {
            1int
        } else {
            0int
        }) + (if k2 < k {
            1int
        } else {
            0int
        }),
    decreases k,
{
    if k > 0 {
        lemma_quad_count_partial(c, q, d, k - 1, k1, k2);
        lemma_quad_digit_count_bounds(c, q, d, k - 1);
    }
}

/// A digit absent from every cell of a quadrant counts zero there.
pub proof fn lemma_quad_count_zero(c: Seq<u16>, q: int, d: int, k: int)
    requires
        0 <= k <= 9,
        forall|t: int| 0 <= t < k ==> !mask_bit(c[#[trigger] quad_cell(q, t)], d),
    ensures
        quad_digit_count(c, q, d, k) == 0,
    decreases k,
{
    if k > 0 {
        lemma_quad_count_zero(c, q, d, k - 1);
    }
}

/// On a board of untouched cells, where every digit is still possible
/// everywhere, the hidden-single search has nothing to find: every digit
/// of a quadrant is possible in all nine of its cells.
pub proof fn lemma_full_masks_no_hidden_single(c: Seq<u16>)
    requires
        c.len() == 81,
        forall|i: int| 0 <= i < 81 ==> c[i] == 0x1FFu16,
    ensures
        forall|j: int| 0 <= j < 81 ==> !seek_hit(c, j),
{
    assert((0u16 | 0x1FFu16) == 0x1FFu16 && (0x1FFu16 | 0x1FFu16) == 0x1FFu16 && (0u16 & 0x1FFu16)
        == 0u16 && (0x1FFu16 & 0x1FFu16) == 0x1FFu16 && (0u16 | 0u16) == 0u16 && (0x1FFu16
        & !0x1FFu16) == 0u16 && (0x1FFu16 & 0u16) == 0u16) by (bit_vector);
    assert forall|q: int| 0 <= q < 9 implies exactly_one_mask(c, q) == 0 by {
        lemma_full_masks_accum(c, q, 9);
    }
    assert forall|j: int| 0 <= j < 81 implies !seek_hit(c, j) by {
        lemma_cell_in_quad(j);
        assert(exactly_one_mask(c, quad_of(j)) == 0);
        assert((0x1FFu16 & 0u16) == 0u16) by (bit_vector);
    }
}

proof fn lemma_full_masks_accum(c: Seq<u16>, q: int, k: int)
    requires
        c.len() == 81,
        forall|i: int| 0 <= i < 81 ==> c[i] == 0x1FFu16,
        0 <= q < 9,
        0 <= k <= 9,
    ensures
        seek_l1(c, q, k) == (if k == 0 {
            0u16
        } else {
            0x1FFu16
        }),
        seek_l2(c, q, k) == (if k <= 1 {
            0u16
        } else {
            0x1FFu16
        }),
    decreases k,
{
    assert((0u16 | 0x1FFu16) == 0x1FFu16 && (0x1FFu16 | 0x1FFu16) == 0x1FFu16 && (0u16 & 0x1FFu16)
        == 0u16 && (0x1FFu16 & 0x1FFu16) == 0x1FFu16 && (0u16 | 0u16) == 0u16) by (bit_vector);
    if k > 0 {
        lemma_full_masks_accum(c, q, k - 1);
        lemma_quad_cell(q, k - 1);
    }
}

/// The hidden-single quadrant pass. For each quadrant it accumulates the
/// digits seen at least once (`l1`) and at least twice (`l2`), takes the
/// digits seen exactly once, and collapses every cell whose mask meets
/// that set, enqueueing it. Returns whether any cell was enqueued.
pub fn seek_quad_single_value(board: &mut Vec<u16>, work_q: &mut BitMaskWorkQueue) -> (progressed:
    bool)
    requires
        masks_wf(old(board)@),
    ensures
        masks_wf(final(board)@),
        masks_shrink(final(board)@, old(board)@),
        forall|j: int|
            #![trigger final(board)@[j]]
            0 <= j < 81 ==> final(board)@[j] == seek_cell_result(old(board)@, j),
        forall|b: int|
            #![trigger idx_bit(final(work_q).0, b)]
            idx_bit(final(work_q).0, b) <==> (idx_bit(old(work_q).0, b) || (0 <= b < 81
                && seek_hit(old(board)@, b))),
        progressed <==> exists|j: int| 0 <= j < 81 && seek_hit(old(board)@, j),
{
    let ghost c0 = board@;
    let ghost q0 = work_q.0;
    let mut progressed = false;
    let mut q: u8 = 0;
    while q < 9
        invariant
            q <= 9,
            masks_wf(c0),
            masks_wf(board@),
            forall|j: int|
                #![trigger board@[j]]
                0 <= j < 81 ==> board@[j] == (if quad_of(j) < q {
                    seek_cell_result(c0, j)
                } else {
                    c0[j]
                }),
            forall|b: int|
                #![trigger idx_bit(work_q.0, b)]
                idx_bit(work_q.0, b) <==> (idx_bit(q0, b) || (0 <= b < 81 && quad_of(b) < q
                    && seek_hit(c0, b))),
            progressed <==> exists|j: int| 0 <= j < 81 && quad_of(j) < q && seek_hit(c0, j),
        decreases 9 - q,
    {
        let base = (q / 3) * 27 + (q % 3) * 3;
        let mut l1: u16 = 0;
        let mut l2: u16 = 0;
        let mut k: u8 = 0;
        while k < 9
            invariant
                k <= 9,
                q < 9,
                base == (q / 3) * 27 + (q % 3) * 3,
                masks_wf(c0),
                masks_wf(board@),
                forall|j: int|
                    #![trigger board@[j]]
                    0 <= j < 81 ==> board@[j] == (if quad_of(j) < q {
                        seek_cell_result(c0, j)
                    } else {
                        c0[j]
                    }),
                l1 == seek_l1(c0, q as int, k as int),
                l2 == seek_l2(c0, q as int, k as int),
            decreases 9 - k,
        {
            proof {
                lemma_quad_cell(q as int, k as int);
            }
            let cell = base + (k / 3) * 9 + (k % 3);
            proof {
                assert(cell as int == quad_cell(q as int, k as int));
            }
            let m = board[cell as usize];
            proof {
                assert(m == c0[cell as int]);
            }
            l2 = l2 | (l1 & m);
            l1 = l1 | m;
            k = k + 1;
        }
        let e1 = l1 & !l2;
        proof {
            assert(e1 == exactly_one_mask(c0, q as int));
        }
        let mut k: u8 = 0;
        while k < 9
            invariant
                k <= 9,
                q < 9,
                base == (q / 3) * 27 + (q % 3) * 3,
                e1 == exactly_one_mask(c0, q as int),
                masks_wf(c0),
                masks_wf(board@),
                forall|j: int|
                    #![trigger board@[j]]
                    0 <= j < 81 ==> board@[j] == (if quad_of(j) < q || (quad_of(j) == q
                        && pos_in_quad(j) < k) {
                        seek_cell_result(c0, j)
                    } else {
                        c0[j]
                    }),
                forall|b: int|
                    #![trigger idx_bit(work_q.0, b)]
                    idx_bit(work_q.0, b) <==> (idx_bit(q0, b) || (0 <= b < 81 && (quad_of(b) < q
                        || (quad_of(b) == q && pos_in_quad(b) < k)) && seek_hit(c0, b))),
                progressed <==> exists|j: int|
                    0 <= j < 81 && (quad_of(j) < q || (quad_of(j) == q && pos_in_quad(j) < k))
                        && seek_hit(c0, j),
            decreases 9 - k,
        {
            proof {
                lemma_quad_cell(q as int, k as int);
            }
            let cell = base + (k / 3) * 9 + (k % 3);
            proof {
                assert(cell as int == quad_cell(q as int, k as int));
                assert(board@[cell as int] == c0[cell as int]);
            }
            let m = board[cell as usize];
            let m2 = m & e1;
            proof {
                lemma_u16_and_bound(m, e1);
            }
            if m2 != 0 {
                board[cell as usize] = m2;
                work_q.push(FlatIndex::checked_new(cell));
                progressed = true;
            }
            k = k + 1;
            proof {
                assert forall|j: int|
                    0 <= j < 81 && (quad_of(j) == q && pos_in_quad(j) < k) && j != cell implies (
                quad_of(j) == q && pos_in_quad(j) < k - 1) by {
                    if pos_in_quad(j) == k - 1 {
                        lemma_cell_in_quad(j);
                    }
                }
            }
        }
        q = q + 1;
        proof {
            assert forall|j: int| 0 <= j < 81 && quad_of(j) == q - 1 implies pos_in_quad(j)
                < 9 by {
                lemma_cell_in_quad(j);
            }
        }
    }
    proof {
        assert forall|j: int| 0 <= j < 81 implies quad_of(j) < 9 by {
            lemma_cell_in_quad(j);
        }
        assert forall|j: int, d: int|
            0 <= j < 81 && #[trigger] mask_bit(final(board)@[j], d) implies mask_bit(
            c0[j],
            d,
        ) by {
            if seek_hit(c0, j) {
                lemma_u16_and_bit(c0[j], exactly_one_mask(c0, quad_of(j)), d as u16);
            }
        }
    }
    progressed
}

impl GeneralSudokuSolver for SolverFullLoop {
    /// The solver invariant: masks are well formed, resolved cells are
    /// cleared and fully eliminated from their peers, the grid never holds
    /// two equal digits among peers, queue bits stand for unresolved cells,
    /// and `filled_pos` counts the resolved cells.
    open spec fn inv(&self) -> bool {
        &&& masks_wf(self.masks())
        &&& self.grid().len() == 81
        &&& resolved_cleared(self.masks(), self.grid())
        &&& eliminated(self.masks(), self.grid())
        &&& grid_consistent(self.grid())
        &&& queue_wf(self.queue_bits(), self.grid())
        &&& self.filled() == num_resolved_below(self.grid(), 81)
    }

    /// A fresh solve: nothing resolved, every digit possible everywhere,
    /// nothing pending.
    fn new() -> (r: Self)
        ensures
            forall|i: int| 0 <= i < 81 ==> !resolved(r.grid(), i),
            forall|i: int| 0 <= i < 81 ==> r.masks()[i] == 0x1FFu16,
            r.queue_bits() == 0,
            r.filled() == 0,
    {
        let r = SolverFullLoop {
            sudoku: Sudoku::new(),
            content: vec![0x1FFu16;81],
            work_queue: BitMaskWorkQueue(0),
            filled_pos: 0,
        };
        proof {
            assert forall|b: int| !idx_bit(0u128, b) by {
                if 0 <= b < 128 {
                    lemma_u128_zero_bit(b as u128);
                }
            }
            lemma_num_resolved_empty(r.sudoku@, 81);
            assert forall|i: int, j: int| 0 <= i < 81 && 0 <= j < 81 implies #[trigger]
                cell_eliminated(r.content@, r.sudoku@, i, j) by {
                assert(!resolved(r.sudoku@, i));
            }
        }
        r
    }

    /// Seed one given: a cell already holding a digit is rejected before
    /// any mutation, a digit no longer possible at the cell likewise, and
    /// an accepted given is resolved with its full elimination cascade.
    fn give_val(&mut self, lc: FlatIndex, v: SudokuValue) -> (r: Result<(), GiveValError>)
        ensures
            resolved(old(self).grid(), lc@) ==> r == Err::<(), GiveValError>(
                GiveValError::PositionAlreadySet,
            ),
            !resolved(old(self).grid(), lc@) && !mask_bit(old(self).masks()[lc@], v@) ==> r
                == Err::<(), GiveValError>(GiveValError::ValueDoesNotFitThere),
            r is Err ==> same_state(*old(self), *final(self)),
            r is Ok <==> (!resolved(old(self).grid(), lc@) && mask_bit(
                old(self).masks()[lc@],
                v@,
            )),
            r is Ok ==> set_value_post(*old(self), *final(self), lc@, v@),
            r is Ok ==> final(self).grid() == old(self).grid().update(lc@, Some(v)),
            masks_shrink(final(self).masks(), old(self).masks()),
            grid_extends(final(self).grid(), old(self).grid()),
    {
        if self.sudoku.get_flat(lc).is_some() {
            return Err(GiveValError::PositionAlreadySet);
        }
        match self.force_set_index(lc, v) {
            Ok(()) => Ok(()),
            Err(()) => Err(GiveValError::ValueDoesNotFitThere),
        }
    }

    fn into_current_solved_state(self) -> (r: Sudoku)
        ensures
            r@ == self.grid(),
    {
        self.sudoku
    }

    /// The driver: drain the queue, and when the board is still incomplete
    /// run the hidden-single quadrant search; stop as complete (`Ok`), or
    /// stuck (`Err`) when the search enqueues nothing or a contradiction
    /// surfaces while draining. The returned grid is exactly `drive` of
    /// the starting state, so the outcome is the propagation fixpoint and
    /// is a function of that state: `Ok` exactly when the fixpoint is a
    /// complete board.
    fn run(self) -> (r: Result<Sudoku, Sudoku>)
        ensures
            r matches Ok(s) ==> s@.len() == 81 && grid_complete(s@) && grid_consistent(s@)
                && grid_extends(s@, self.grid()),
            r matches Err(s) ==> s@.len() == 81 && !grid_complete(s@) && grid_consistent(s@)
                && grid_extends(s@, self.grid()),
            (forall|b: int| 0 <= b < 81 ==> !idx_bit(self.queue_bits(), b)) && grid_complete(
                self.grid(),
            ) ==> (r matches Ok(s) && s@ == self.grid()),
            (forall|b: int| 0 <= b < 81 ==> !idx_bit(self.queue_bits(), b)) && !grid_complete(
                self.grid(),
            ) && (forall|j: int| 0 <= j < 81 ==> !seek_hit(self.masks(), j)) ==> (r matches Err(s)
                && s@ == self.grid()),
            r matches Ok(s) ==> s@ == drive(
                self.masks(),
                self.grid(),
                pending_of(self.queue_bits()),
            ),
            r matches Err(s) ==> s@ == drive(
                self.masks(),
                self.grid(),
                pending_of(self.queue_bits()),
            ),
    {
        let mut me = self;
        loop
            invariant
                me.inv(),
                grid_extends(me.grid(), self.grid()),
                (forall|b: int| 0 <= b < 81 ==> !idx_bit(self.queue_bits(), b)) && (
                grid_complete(self.grid()) || (forall|j: int|
                    0 <= j < 81 ==> !seek_hit(self.masks(), j))) ==> same_state(self, me),
                drive(me.masks(), me.grid(), pending_of(me.queue_bits())) == drive(
                    self.masks(),
                    self.grid(),
                    pending_of(self.queue_bits()),
                ),
            decreases
                    81 - me.filled(),
                    (if exists|b: int| 0 <= b < 81 && idx_bit(me.queue_bits(), b) {
                        0int
                    } else {
                        1int
                    }),
        {
            let ghost filled0 = me.filled();
            let ghost q_head = me.queue_bits();
            let ghost g_head = me.grid();
            let ok = me.propagate();
            proof {
                assert forall|j: int|
                    #![trigger me.grid()[j]]
                    0 <= j < 81 && resolved(self.grid(), j) implies me.grid()[j]
                    == self.grid()[j] by {
                    assert(g_head[j] == self.grid()[j]);
                }
            }
            if !ok {
                return Err(me.into_current_solved_state());
            }
            proof {
                if grid_complete(me.grid()) {
                    lemma_num_resolved_incomplete(me.grid(), 81);
                }
            }
            proof {
                // after a clean drain nothing is pending
                assert forall|b: int|
                    !#[trigger] pending_of(me.queue_bits()).contains(b) by {
                    if idx_bit(me.queue_bits(), b) {
                        assert(0 <= b < 81);
                    }
                }
                lemma_min_pending(pending_of(me.queue_bits()), 0);
                me.lemma_drive_wf();
            }
            if me.filled_pos >= 81 {
                proof {
                    lemma_num_resolved_bounds(me.grid(), 81);
                    lemma_num_resolved_complete(me.grid(), 81);
                    // the driver stops on a complete board
                    assert(drive(me.masks(), me.grid(), pending_of(me.queue_bits()))
                        == me.grid());
                }
                return Ok(me.into_current_solved_state());
            }
            let ghost c_mid = me.masks();
            let ghost g_mid = me.grid();
            let ghost q_mid = me.queue_bits();
            let ghost p_mid = pending_of(me.queue_bits());
            let ghost filled_mid = me.filled();
            let progressed = seek_quad_single_value(&mut me.content, &mut me.work_queue);
            proof {
                // the search shrinks masks and touches neither grid nor count,
                // so the solver invariant survives it
                lemma_eliminated_shrink(c_mid, me.masks(), me.grid());
                assert forall|t: int|
                    #![trigger me.grid()[t]]
                    0 <= t < 81 && resolved(me.grid(), t) implies me.masks()[t] == 0 by {
                    assert(c_mid[t] == 0);
                    if seek_hit(c_mid, t) {
                        lemma_u16_zero_and(exactly_one_mask(c_mid, quad_of(t)));
                    }
                    assert(me.masks()[t] == seek_cell_result(c_mid, t));
                }
                assert forall|b: int| #[trigger] idx_bit(me.queue_bits(), b) implies 0 <= b < 81
                    && !resolved(me.grid(), b) by {
                    if !idx_bit(q_head, b) {
                        assert(seek_hit(c_mid, b));
                        if c_mid[b] == 0 {
                            lemma_u16_zero_and(exactly_one_mask(c_mid, quad_of(b)));
                        }
                    }
                }
            }
            if !progressed {
                proof {
                    if grid_complete(me.grid()) {
                        lemma_num_resolved_incomplete(me.grid(), 81);
                    }
                    // a stalled fixpoint: nothing pending, no hidden single
                    assert(drive(c_mid, g_mid, p_mid) == g_mid);
                }
                return Err(me.into_current_solved_state());
            }
            proof {
                let j = choose|j: int| 0 <= j < 81 && seek_hit(c_mid, j);
                assert(idx_bit(me.queue_bits(), j));
                // the exec pass equals one driver search step
                if grid_complete(g_mid) {
                    lemma_num_resolved_incomplete(g_mid, 81);
                }
                assert(me.masks() =~= masks_after_seek(c_mid));
                assert(pending_of(me.queue_bits()) =~= pending_after_seek(c_mid, p_mid)) by {
                    assert forall|b: int|
                        pending_of(me.queue_bits()).contains(b) <==> pending_after_seek(
                        c_mid,
                        p_mid,
                    ).contains(b) by {
                        assert(idx_bit(me.queue_bits(), b) <==> (idx_bit(q_mid, b) || (0 <= b
                            < 81 && seek_hit(c_mid, b))));
                    }
                }
                assert(drive(c_mid, g_mid, p_mid) == drive(
                    me.masks(),
                    me.grid(),
                    pending_of(me.queue_bits()),
                ));
            }
        }
    }
}

} // verus!
