//! The streaming pipeline one row at a time.
//!
//! A [`RowWindow`] holds the last two rows it was fed, with their partial
//! sums. It starts with a row that stands above the board, a dead row
//! unless said otherwise. Every row after the first completes a window of
//! three and gives the next state of the row before it; a closing row
//! gives the next state of the last. So a board of any length passes
//! through in a single pass and in constant space, and as many rows come
//! out as went in.

use crate::int_lib::{lemma_zero_lane, zero_lane, Int, Lane};
use crate::life::next_row;
use crate::tile::{
    cint_next_state_from_partials, full_add_inner, is_row_sum, lemma_partials_give_next_row,
    lemma_streamed_bordered, next_rows, next_state_line_simple, streamed,
};
use vstd::prelude::*;

verus! {

/// `rows` below the row `above`.
pub open spec fn headed<T>(above: T, rows: Seq<T>) -> Seq<T> {
    seq![above] + rows
}

/// The sliding window of three rows, as far as it is filled.
pub struct RowWindow<T: Int> {
    head: Ghost<T>,
    fed: Ghost<Seq<T>>,
    filled: bool,
    above: (T, (T, T)),
    mid: (T, (T, T)),
}

impl<T: Int> View for RowWindow<T> {
    type V = Seq<T>;

    /// The rows of the board fed so far, in order.
    closed spec fn view(&self) -> Seq<T> {
        self.fed@
    }
}

impl<T: Int> RowWindow<T> {
    /// The row that stands above the first row of the board.
    pub closed spec fn row_above(&self) -> T {
        self.head@
    }

    /// The window holds the last two of the rows it has seen, the row
    /// above the board counted in, each with its partial sum.
    pub closed spec fn wf(&self) -> bool {
        let seen = headed(self.head@, self.fed@);
        let n = self.fed@.len() as int;
        &&& self.filled == (n >= 1)
        &&& n >= 1 ==> self.mid.0 == seen[n] && is_row_sum(self.mid.0, self.mid.1)
        &&& self.above.0 == if n >= 1 {
            seen[n - 1]
        } else {
            seen[0]
        }
        &&& is_row_sum(self.above.0, self.above.1)
    }

    /// The window before the first row of a board with dead cells above it.
    pub fn new() -> (r: Self)
        ensures
            r.wf(),
            r@ == Seq::<T>::empty(),
            r.row_above() == zero_lane::<T>(),
    {
        let z = T::zero();
        proof {
            lemma_zero_lane(z);
        }
        Self::seeded(z)
    }

    /// The window before the first row of a board that has the row `above`
    /// above it.
    pub fn seeded(above: T) -> (r: Self)
        ensures
            r.wf(),
            r@ == Seq::<T>::empty(),
            r.row_above() == above,
    {
        let seed = (above, full_add_inner(above));
        RowWindow {
            head: Ghost(above),
            fed: Ghost(Seq::empty()),
            filled: false,
            above: seed,
            mid: seed,
        }
    }

    /// Feeds one more row of the board. From the second row on this gives
    /// the next state of the row fed before it: what the pipeline has put
    /// out so far grows by exactly that row.
    pub fn push(&mut self, row: T) -> (next: Option<T>)
        requires
            old(self).wf(),
        ensures
            final(self).wf(),
            final(self)@ == old(self)@.push(row),
            final(self).row_above() == old(self).row_above(),
            next == if old(self)@.len() >= 1 {
                let seen = headed(old(self).row_above(), old(self)@);
                Some(next_row(seen[seen.len() - 2], seen[seen.len() - 1], row))
            } else {
                None
            },
            streamed(headed(final(self).row_above(), final(self)@)) == match next {
                Some(r) => streamed(headed(old(self).row_above(), old(self)@)).push(r),
                None => streamed(headed(old(self).row_above(), old(self)@)),
            },
    {
        let below = (row, full_add_inner(row));
        let next = self.combine(below);
        if self.filled {
            self.above = self.mid;
        }
        self.mid = below;
        self.filled = true;
        proof {
            self.fed@ = self.fed@.push(row);
            assert(headed(self.head@, self.fed@) =~= headed(old(self).head@, old(self).fed@).push(
                row,
            ));
        }
        next
    }

    /// The next state of the last row fed, if `below` is the row below it.
    /// Where no row was fed yet, there is none.
    pub fn close(&self, below: T) -> (last: Option<T>)
        requires
            self.wf(),
        ensures
            last == if self@.len() >= 1 {
                let seen = headed(self.row_above(), self@);
                Some(next_row(seen[seen.len() - 2], seen[seen.len() - 1], below))
            } else {
                None
            },
            streamed(headed(self.row_above(), self@).push(below)) == match last {
                Some(r) => streamed(headed(self.row_above(), self@)).push(r),
                None => streamed(headed(self.row_above(), self@)),
            },
    {
        self.combine((below, full_add_inner(below)))
    }

    /// The next state of the last row fed, from the row below it and that
    /// row's partial sum.
    fn combine(&self, below: (T, (T, T))) -> (last: Option<T>)
        requires
            self.wf(),
            is_row_sum(below.0, below.1),
        ensures
            last == if self@.len() >= 1 {
                let seen = headed(self.row_above(), self@);
                Some(next_row(seen[seen.len() - 2], seen[seen.len() - 1], below.0))
            } else {
                None
            },
            streamed(headed(self.row_above(), self@).push(below.0)) == match last {
                Some(r) => streamed(headed(self.row_above(), self@)).push(r),
                None => streamed(headed(self.row_above(), self@)),
            },
    {
        let ghost seen = headed(self.head@, self.fed@);
        if self.filled {
            let r = cint_next_state_from_partials(self.mid.0, self.above.1, self.mid.1, below.1);
            proof {
                lemma_partials_give_next_row(
                    self.above.0,
                    self.mid.0,
                    below.0,
                    self.above.1,
                    self.mid.1,
                    below.1,
                    r,
                );
                assert(streamed(seen.push(below.0)) =~= streamed(seen).push(r));
            }
            Some(r)
        } else {
            proof {
                assert(streamed(seen.push(below.0)) =~= streamed(seen));
            }
            None
        }
    }

    /// The next state of the last row fed, with dead cells below the
    /// board. With dead cells above it too, this completes the next
    /// generation of the board.
    pub fn finish(&self) -> (last: Option<T>)
        requires
            self.wf(),
        ensures
            last == if self@.len() >= 1 {
                let seen = headed(self.row_above(), self@);
                Some(next_row(seen[seen.len() - 2], seen[seen.len() - 1], zero_lane::<T>()))
            } else {
                None
            },
            self.row_above() == zero_lane::<T>() ==> next_rows(self@) == match last {
                Some(r) => streamed(headed(self.row_above(), self@)).push(r),
                None => streamed(headed(self.row_above(), self@)),
            },
    {
        let z = T::zero();
        proof {
            lemma_zero_lane(z);
            lemma_streamed_bordered(self@);
            assert(headed(zero_lane::<T>(), self@).push(z) =~= crate::tile::bordered(self@));
        }
        self.close(z)
    }
}

/// Row `k` of a board whose first row follows its last: `k` may be one
/// less than the first index or one more than the last.
pub open spec fn ring_row<T>(rows: Seq<T>, k: int) -> T {
    if k < 0 {
        rows[k + rows.len()]
    } else if k >= rows.len() {
        rows[k - rows.len()]
    } else {
        rows[k]
    }
}

/// The next generation of a board of rows that wraps around: the row above
/// the first is the last, the row below the last is the first.
pub open spec fn next_rows_on_ring<T: Lane>(rows: Seq<T>) -> Seq<T> {
    Seq::new(
        rows.len(),
        |k: int| next_row(ring_row(rows, k - 1), rows[k], ring_row(rows, k + 1)),
    )
}

/// `rows` between its last row and its first.
pub open spec fn ringed<T>(rows: Seq<T>) -> Seq<T> {
    seq![rows.last()] + rows + seq![rows.first()]
}

/// Sliding the window over a board set between its last row and its first
/// gives the next generation of the board that wraps around.
pub proof fn lemma_streamed_ringed<T: Lane>(rows: Seq<T>)
    requires
        rows.len() > 0,
    ensures
        streamed(ringed(rows)) == next_rows_on_ring(rows),
{
    let b = ringed(rows);
    assert(b.len() == rows.len() + 2);
    assert forall|k: int| 0 <= k < rows.len() implies streamed(b)[k] == next_rows_on_ring(
        rows,
    )[k] by {
        assert(b[k] == ring_row(rows, k - 1));
        assert(b[k + 1] == rows[k]);
        assert(b[k + 2] == ring_row(rows, k + 1));
    };
    assert(streamed(b) =~= next_rows_on_ring(rows));
}

/// The wrapped board after `n` generations, each taken row by row.
pub open spec fn ring_generations<T: Lane>(rows: Seq<T>, n: nat) -> Seq<T>
    decreases n,
{
    if n == 0 {
        rows
    } else {
        next_rows_on_ring(ring_generations(rows, (n - 1) as nat))
    }
}

/// The wrapped board after `n` generations, each taken by sliding the
/// window over the board set between its last row and its first.
pub open spec fn streamed_ring_generations<T: Lane>(rows: Seq<T>, n: nat) -> Seq<T>
    decreases n,
{
    if n == 0 {
        rows
    } else {
        streamed(ringed(streamed_ring_generations(rows, (n - 1) as nat)))
    }
}

/// On a board that wraps around, the row-by-row update and the streaming
/// pipeline agree after any number of generations.
pub proof fn lemma_ring_pipeline_equivalence<T: Lane>(rows: Seq<T>, n: nat)
    requires
        rows.len() > 0,
    ensures
        streamed_ring_generations(rows, n) == ring_generations(rows, n),
        ring_generations(rows, n).len() == rows.len(),
    decreases n,
{
    if n > 0 {
        lemma_ring_pipeline_equivalence(rows, (n - 1) as nat);
        lemma_streamed_ringed(ring_generations(rows, (n - 1) as nat));
    }
}

/// One generation of a 64 by 64 board that wraps around from the last row
/// to the first, row by row. Both arrays hold the new generation afterwards.
pub fn update_torus_simple(board: &mut [u64; 64], next_board: &mut [u64; 64])
    ensures
        final(board)@ == next_rows_on_ring(old(board)@),
        final(next_board)@ == final(board)@,
{
    for i in 0..64usize
        invariant
            *board == *old(board),
            forall|j: int| 0 <= j < i ==> #[trigger] next_board@[j] == next_rows_on_ring(board@)[j],
    {
        let n1 = if i > 0 {
            board[i - 1]
        } else {
            board[63]
        };
        let n2 = board[i];
        let n3 = if i + 1 < 64 {
            board[i + 1]
        } else {
            board[0]
        };
        next_board[i] = next_state_line_simple(n1, n2, n3);
    }
    proof {
        assert(next_board@ =~= next_rows_on_ring(board@));
    }
    *board = *next_board;
}

/// One generation of a 64 by 64 board that wraps around, through the
/// streaming pipeline: the window starts with the last row above the
/// board, is fed the board, and is closed with the first row. Both arrays
/// hold the new generation afterwards.
pub fn update_torus_stream(board: &mut [u64; 64], next_board: &mut [u64; 64])
    ensures
        final(board)@ == next_rows_on_ring(old(board)@),
        final(board)@ == streamed(ringed(old(board)@)),
        final(next_board)@ == final(board)@,
{
    proof {
        lemma_streamed_ringed(board@);
    }
    let mut window: RowWindow<u64> = RowWindow::seeded(board[63]);
    for i in 0..64usize
        invariant
            *board == *old(board),
            window.wf(),
            window.row_above() == board@[63],
            window@ == board@.subrange(0, i as int),
            forall|j: int|
                0 <= j < i - 1 ==> #[trigger] next_board@[j] == next_rows_on_ring(board@)[j],
    {
        let next = window.push(board[i]);
        proof {
            assert(window@ =~= board@.subrange(0, i + 1));
        }
        if i > 0 {
            next_board[i - 1] = next.unwrap();
        }
    }
    let last = window.close(board[0]);
    next_board[63] = last.unwrap();
    proof {
        assert(next_board@ =~= next_rows_on_ring(board@));
    }
    *board = *next_board;
}

} // verus!
