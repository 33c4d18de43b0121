//! Rows that continue into the lanes beside them.
//!
//! On a tiled plane a row of one tile has a lane to its left and a lane to
//! its right. The cell left of its first cell is the last cell of the left
//! lane, the cell right of its last cell is the first cell of the right
//! lane. A wide row is the triple `(left, mid, right)`; its cells are counted
//! from `-1` to `width()`.

use crate::int_lib::{lemma_zero_lane, lemma_zero_lane_dead, zero_lane, Int, Lane};
use crate::life::{
    count, lemma_block_rule, lemma_next_row_unique, majority, next_cell, parity, survives,
};
use crate::tile::{
    cint_full_add, cint_next_state_from_partials, is_next_from_partials, partial_count,
};
use vstd::prelude::*;
use vstd::std_specs::ops::BitAndSpec;

verus! {

/// Cell `i` of the wide row `w`, for `i` from `-1` to `width()`.
pub open spec fn wide_bit<T: Lane>(w: (T, T, T), i: int) -> bool {
    if i == -1 {
        w.0.bit(T::width() - 1)
    } else if i == T::width() {
        w.2.bit(0)
    } else {
        w.1.bit(i)
    }
}

/// Number of live cells of the wide row in the columns `i - 1`, `i` and `i + 1`.
pub open spec fn wide_around<T: Lane>(w: (T, T, T), i: int) -> nat {
    count(wide_bit(w, i - 1)) + count(wide_bit(w, i)) + count(wide_bit(w, i + 1))
}

/// Number of live cells among the eight neighbours of cell `i` of `mid`.
pub open spec fn wide_neighbours<T: Lane>(
    above: (T, T, T),
    mid: (T, T, T),
    below: (T, T, T),
    i: int,
) -> nat {
    wide_around(above, i) + count(wide_bit(mid, i - 1)) + count(wide_bit(mid, i + 1))
        + wide_around(below, i)
}

/// State of cell `i` of the middle lane of `mid` in the next generation.
pub open spec fn wide_next_cell<T: Lane>(
    above: (T, T, T),
    mid: (T, T, T),
    below: (T, T, T),
    i: int,
) -> bool {
    survives(mid.1.bit(i), wide_neighbours(above, mid, below, i))
}

/// Whether `next` is the lane that follows the middle lane of `mid`.
pub open spec fn is_wide_next_row<T: Lane>(
    above: (T, T, T),
    mid: (T, T, T),
    below: (T, T, T),
    next: T,
) -> bool {
    forall|i: int|
        0 <= i < T::width() ==> #[trigger] next.bit(i) == wide_next_cell(above, mid, below, i)
}

/// The lane that follows the middle lane of `mid`.
pub open spec fn wide_next_row<T: Lane>(above: (T, T, T), mid: (T, T, T), below: (T, T, T)) -> T {
    choose|next: T| is_wide_next_row(above, mid, below, next)
}

/// Only one lane follows: whatever meets `is_wide_next_row` is `wide_next_row`.
pub proof fn lemma_wide_next_row_unique<T: Lane>(
    above: (T, T, T),
    mid: (T, T, T),
    below: (T, T, T),
    next: T,
)
    requires
        is_wide_next_row(above, mid, below, next),
    ensures
        next == wide_next_row(above, mid, below),
{
    let chosen = wide_next_row(above, mid, below);
    assert(is_wide_next_row(above, mid, below, chosen));
    assert forall|i: int| 0 <= i < T::width() implies next.bit(i) == chosen.bit(i) by {
        assert(next.bit(i) == wide_next_cell(above, mid, below, i));
        assert(chosen.bit(i) == wide_next_cell(above, mid, below, i));
    };
    T::lemma_same_cells(next, chosen);
}

/// With dead lanes on both sides a wide row is a plain row: the lane that
/// follows is the row that follows.
pub proof fn lemma_wide_with_dead_sides<T: Lane>(above: T, mid: T, below: T, next: T)
    requires
        is_wide_next_row(
            (zero_lane::<T>(), above, zero_lane::<T>()),
            (zero_lane::<T>(), mid, zero_lane::<T>()),
            (zero_lane::<T>(), below, zero_lane::<T>()),
            next,
        ),
    ensures
        next == crate::life::next_row(above, mid, below),
{
    T::lemma_laws();
    lemma_zero_lane_dead::<T>();
    let z = zero_lane::<T>();
    assert forall|i: int| 0 <= i < T::width() implies #[trigger] next.bit(i) == next_cell(
        above,
        mid,
        below,
        i,
    ) by {
        assert(next.bit(i) == wide_next_cell((z, above, z), (z, mid, z), (z, below, z), i));
    };
    lemma_next_row_unique(above, mid, below, next);
}

/// Whether `p` is the partial sum of the wide row `w`: at every cell of the
/// middle lane, the two digits of a full adder fed with the cell and the
/// cells left and right of it.
pub open spec fn is_wide_row_sum<T: Lane>(w: (T, T, T), p: (T, T)) -> bool {
    forall|i: int|
        #![trigger p.0.bit(i)]
        #![trigger p.1.bit(i)]
        0 <= i < T::width() ==> p.0.bit(i) == parity(
            wide_bit(w, i - 1),
            wide_bit(w, i),
            wide_bit(w, i + 1),
        ) && p.1.bit(i) == majority(wide_bit(w, i - 1), wide_bit(w, i), wide_bit(w, i + 1))
}

/// The lane whose first cell alone is alive, and the lane whose last cell
/// alone is alive.
pub fn edge_masks<T: Int>() -> (r: (T, T))
    ensures
        forall|i: int| #[trigger] r.0.bit(i) == (i == 0),
        forall|i: int| #[trigger] r.1.bit(i) == (i == T::width() - 1),
{
    proof {
        T::lemma_laws();
    }
    let ones = !T::zero();
    let first = !ones.sll();
    let last = !ones.srl();
    (first, last)
}

/// The partial sum of a wide row: the middle lane folded with its two
/// shifts, the cell that each shift leaves vacant taken from the lane beside.
pub fn wide_row_sum<T: Int>(left: T, mid: T, right: T) -> (p: (T, T))
    ensures
        is_wide_row_sum((left, mid, right), p),
{
    proof {
        T::lemma_laws();
    }
    let zero = T::zero();
    let (first, last) = edge_masks::<T>();
    let from_left = if (left & last) != zero {
        first
    } else {
        zero
    };
    let from_right = if (right & first) != zero {
        last
    } else {
        zero
    };
    proof {
        lemma_zero_lane(zero);
        if left.bit(T::width() - 1) {
            assert(left.bitand_spec(last).bit(T::width() - 1));
            assert(!zero.bit(T::width() - 1));
        } else {
            assert forall|i: int| !#[trigger] left.bitand_spec(last).bit(i) by {};
            lemma_zero_lane(left.bitand_spec(last));
        }
        if right.bit(0) {
            assert(right.bitand_spec(first).bit(0));
            assert(!zero.bit(0));
        } else {
            assert forall|i: int| !#[trigger] right.bitand_spec(first).bit(i) by {};
            lemma_zero_lane(right.bitand_spec(first));
        }
        assert(forall|i: int| #[trigger]
            from_left.bit(i) == (i == 0 && left.bit(T::width() - 1)));
        assert(forall|i: int| #[trigger]
            from_right.bit(i) == (i == T::width() - 1 && right.bit(0)));
    }
    let p = cint_full_add(mid.sll() | from_left, mid, mid.srl() | from_right);
    p
}

/// The partial sum of a wide row counts, at every cell of the middle lane,
/// the live cells in that column and the two beside it.
pub proof fn lemma_wide_row_sum_counts<T: Lane>(w: (T, T, T), p: (T, T), i: int)
    requires
        is_wide_row_sum(w, p),
        0 <= i < T::width(),
    ensures
        partial_count(p, i) == wide_around(w, i),
{
    assert(p.0.bit(i) == parity(wide_bit(w, i - 1), wide_bit(w, i), wide_bit(w, i + 1)));
}

/// The partial sums of three wide rows add up to the rule of the automaton:
/// combining them gives the lane that follows the middle one.
pub proof fn lemma_wide_partials_give_next_row<T: Lane>(
    above: (T, T, T),
    mid: (T, T, T),
    below: (T, T, T),
    sum_above: (T, T),
    sum_mid: (T, T),
    sum_below: (T, T),
    next: T,
)
    requires
        is_wide_row_sum(above, sum_above),
        is_wide_row_sum(mid, sum_mid),
        is_wide_row_sum(below, sum_below),
        is_next_from_partials(mid.1, sum_above, sum_mid, sum_below, next),
    ensures
        is_wide_next_row(above, mid, below, next),
        next == wide_next_row(above, mid, below),
{
    assert forall|i: int| 0 <= i < T::width() implies #[trigger] next.bit(i) == wide_next_cell(
        above,
        mid,
        below,
        i,
    ) by {
        lemma_wide_row_sum_counts(above, sum_above, i);
        lemma_wide_row_sum_counts(mid, sum_mid, i);
        lemma_wide_row_sum_counts(below, sum_below, i);
        lemma_block_rule(mid.1.bit(i), wide_neighbours(above, mid, below, i));
    };
    lemma_wide_next_row_unique(above, mid, below, next);
}

/// The row transition on a tiled plane: the next generation of the middle
/// lane of `mid`, whose neighbours are the cells of the three wide rows.
pub fn wide_next_state<T: Int>(above: (T, T, T), mid: (T, T, T), below: (T, T, T)) -> (r: T)
    ensures
        is_wide_next_row(above, mid, below, r),
        r == wide_next_row(above, mid, below),
{
    let sum_above = wide_row_sum(above.0, above.1, above.2);
    let sum_mid = wide_row_sum(mid.0, mid.1, mid.2);
    let sum_below = wide_row_sum(below.0, below.1, below.2);
    let r = cint_next_state_from_partials(mid.1, sum_above, sum_mid, sum_below);
    proof {
        lemma_wide_partials_give_next_row(above, mid, below, sum_above, sum_mid, sum_below, r);
    }
    r
}

} // verus!
