//! The rule of the automaton, stated cell by cell.
//!
//! A cell has eight neighbours: the cells left and right of it in its own
//! row, and the three cells nearest to it in the row above and in the row
//! below. A live cell stays alive with two or three live neighbours, a dead
//! cell comes alive with exactly three. Columns outside a lane hold dead
//! cells.

use crate::int_lib::{lemma_zero_lane_dead, zero_lane, Lane};
use vstd::prelude::*;

verus! {

/// 1 for a live cell, 0 for a dead one.
pub open spec fn count(alive: bool) -> nat {
    if alive {
        1
    } else {
        0
    }
}

/// Sum digit of a one-bit full adder: whether an odd number of the inputs is set.
pub open spec fn parity(x: bool, y: bool, z: bool) -> bool {
    (x != y) != z
}

/// Carry digit of a one-bit full adder: whether at least two of the inputs are set.
pub open spec fn majority(x: bool, y: bool, z: bool) -> bool {
    (x && y) || ((x != y) && z)
}

/// Number of live cells of `row` in the columns `i - 1`, `i` and `i + 1`.
pub open spec fn live_around<T: Lane>(row: T, i: int) -> nat {
    count(row.bit(i - 1)) + count(row.bit(i)) + count(row.bit(i + 1))
}

/// Number of live cells among the eight neighbours of cell `i` of `mid`.
pub open spec fn live_neighbours<T: Lane>(above: T, mid: T, below: T, i: int) -> nat {
    live_around(above, i) + count(mid.bit(i - 1)) + count(mid.bit(i + 1)) + live_around(below, i)
}

/// The rule: what becomes of a cell that is `alive` and has `neighbours` live neighbours.
pub open spec fn survives(alive: bool, neighbours: nat) -> bool {
    neighbours == 3 || (alive && neighbours == 2)
}

/// The same rule over the whole three-by-three block, the cell itself
/// counted in: alive next with three live cells in the block, or with four
/// when the cell is one of them.
pub open spec fn survives_in_block(alive: bool, block: nat) -> bool {
    block == 3 || (alive && block == 4)
}

/// State of cell `i` of `mid` in the next generation.
pub open spec fn next_cell<T: Lane>(above: T, mid: T, below: T, i: int) -> bool {
    survives(mid.bit(i), live_neighbours(above, mid, below, i))
}

/// Whether `next` is the row that follows `mid`, between `above` and `below`.
pub open spec fn is_next_row<T: Lane>(above: T, mid: T, below: T, next: T) -> bool {
    forall|i: int| 0 <= i < T::width() ==> #[trigger] next.bit(i) == next_cell(above, mid, below, i)
}

/// The row that follows `mid`, between `above` and `below`.
pub open spec fn next_row<T: Lane>(above: T, mid: T, below: T) -> T {
    choose|next: T| is_next_row(above, mid, below, next)
}

/// Only one row follows `mid`: whatever meets `is_next_row` is `next_row`.
pub proof fn lemma_next_row_unique<T: Lane>(above: T, mid: T, below: T, next: T)
    requires
        is_next_row(above, mid, below, next),
    ensures
        next == next_row(above, mid, below),
{
    let chosen = next_row(above, mid, below);
    assert(is_next_row(above, mid, below, chosen));
    assert forall|i: int| 0 <= i < T::width() implies next.bit(i) == chosen.bit(i) by {
        assert(next.bit(i) == next_cell(above, mid, below, i));
        assert(chosen.bit(i) == next_cell(above, mid, below, i));
    };
    T::lemma_same_cells(next, chosen);
}

/// Counting the cell itself changes nothing: the rule over the block is the
/// rule over the eight neighbours.
pub proof fn lemma_block_rule(alive: bool, neighbours: nat)
    ensures
        survives_in_block(alive, neighbours + count(alive)) == survives(alive, neighbours),
{
}

/// The rule, case by case, for the cell `i` of a row and the row `next`
/// that follows it: a dead cell with exactly three live neighbours comes
/// alive, a live cell with two or three stays alive, and with any other
/// number of live neighbours the cell is dead afterwards.
pub proof fn lemma_rule_by_cases<T: Lane>(above: T, mid: T, below: T, next: T, i: int)
    requires
        is_next_row(above, mid, below, next),
        0 <= i < T::width(),
    ensures
        !mid.bit(i) && live_neighbours(above, mid, below, i) == 3 ==> next.bit(i),
        mid.bit(i) && (live_neighbours(above, mid, below, i) == 2 || live_neighbours(
            above,
            mid,
            below,
            i,
        ) == 3) ==> next.bit(i),
        live_neighbours(above, mid, below, i) < 2 || live_neighbours(above, mid, below, i) > 3
            ==> !next.bit(i),
        !mid.bit(i) && live_neighbours(above, mid, below, i) == 2 ==> !next.bit(i),
{
    assert(next.bit(i) == next_cell(above, mid, below, i));
}

/// A live cell with nothing around it dies: a row with a single live cell,
/// between two all-dead rows, is followed by the all-dead row.
pub proof fn lemma_lone_cell_dies<T: Lane>(mid: T, k: int)
    requires
        forall|i: int| mid.bit(i) ==> i == k,
    ensures
        next_row(zero_lane::<T>(), mid, zero_lane::<T>()) == zero_lane::<T>(),
{
    let z = zero_lane::<T>();
    lemma_zero_lane_dead::<T>();
    assert forall|i: int| 0 <= i < T::width() implies #[trigger] z.bit(i) == next_cell(
        z,
        mid,
        z,
        i,
    ) by {
        assert(!z.bit(i - 1) && !z.bit(i) && !z.bit(i + 1));
        assert(!(mid.bit(i - 1) && mid.bit(i + 1)));
    };
    lemma_next_row_unique(z, mid, z, z);
}

} // verus!
