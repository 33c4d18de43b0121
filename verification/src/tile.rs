//! Carry-save adders over lanes, and the row transition built from them.
//!
//! The eight-neighbour count of every cell of a row is computed at once:
//! each row is first folded with its own two shifts into a two-digit count
//! per cell, and the three rows' counts are then added up by a second layer
//! of adders. No step looks at a single cell.

use crate::int_lib::{
    lemma_operators_u64, lemma_zero_lane, lemma_zero_lane_dead, lemma_zero_u64, zero_lane, Int,
    Lane,
};
use crate::life::{
    count, is_next_row, lemma_block_rule, lemma_next_row_unique, live_around, live_neighbours,
    majority, next_cell, next_row, parity, survives_in_block,
};
use itertools::Itertools;
use vstd::prelude::*;
use vstd::std_specs::cmp::{PartialEqSpec, PartialEqSpecImpl};

verus! {

/// Whether `sum` and `carry` are, cell by cell, the XOR and the AND of `a` and `b`.
pub open spec fn is_half_sum<T: Lane>(a: T, b: T, sum: T, carry: T) -> bool {
    forall|i: int|
        #![trigger sum.bit(i)]
        #![trigger carry.bit(i)]
        sum.bit(i) == (a.bit(i) != b.bit(i)) && carry.bit(i) == (a.bit(i) && b.bit(i))
}

/// Whether `sum` and `carry` are, cell by cell, the two digits of a full
/// adder fed with `a`, `b` and `c`.
pub open spec fn is_full_sum<T: Lane>(a: T, b: T, c: T, sum: T, carry: T) -> bool {
    forall|i: int|
        #![trigger sum.bit(i)]
        #![trigger carry.bit(i)]
        sum.bit(i) == parity(a.bit(i), b.bit(i), c.bit(i)) && carry.bit(i) == majority(
            a.bit(i),
            b.bit(i),
            c.bit(i),
        )
}

/// The number that a `(sum, carry)` pair holds at cell `i`.
pub open spec fn partial_count<T: Lane>(p: (T, T), i: int) -> nat {
    count(p.0.bit(i)) + 2 * count(p.1.bit(i))
}

/// A half adder counts: at every cell, `sum` and `carry` are the two binary
/// digits of the number of live cells among the two inputs.
pub proof fn lemma_half_sum_counts<T: Lane>(a: T, b: T, sum: T, carry: T, i: int)
    requires
        is_half_sum(a, b, sum, carry),
    ensures
        partial_count((sum, carry), i) == count(a.bit(i)) + count(b.bit(i)),
{
    assert(sum.bit(i) == (a.bit(i) != b.bit(i)));
}

/// A full adder counts: at every cell, `sum` and `carry` are the two binary
/// digits of the number of live cells among the three inputs.
pub proof fn lemma_full_sum_counts<T: Lane>(a: T, b: T, c: T, sum: T, carry: T, i: int)
    requires
        is_full_sum(a, b, c, sum, carry),
    ensures
        partial_count((sum, carry), i) == count(a.bit(i)) + count(b.bit(i)) + count(c.bit(i)),
{
    assert(sum.bit(i) == parity(a.bit(i), b.bit(i), c.bit(i)));
}

/// Whether `p` is the partial sum of `row`: at every cell, the two digits of
/// a full adder fed with the cell and its left and right neighbours.
pub open spec fn is_row_sum<T: Lane>(row: T, p: (T, T)) -> bool {
    forall|i: int|
        #![trigger p.0.bit(i)]
        #![trigger p.1.bit(i)]
        0 <= i < T::width() ==> p.0.bit(i) == parity(row.bit(i - 1), row.bit(i), row.bit(i + 1))
            && p.1.bit(i) == majority(row.bit(i - 1), row.bit(i), row.bit(i + 1))
}

/// The partial sum of `row`.
pub open spec fn row_sum<T: Lane>(row: T) -> (T, T) {
    choose|p: (T, T)| is_row_sum(row, p)
}

/// A row has one partial sum.
pub proof fn lemma_row_sum_unique<T: Lane>(row: T, p: (T, T))
    requires
        is_row_sum(row, p),
    ensures
        p == row_sum(row),
{
    let q = row_sum(row);
    assert(is_row_sum(row, q));
    assert forall|i: int| 0 <= i < T::width() implies p.0.bit(i) == q.0.bit(i) && p.1.bit(i)
        == q.1.bit(i) by {
        assert(p.0.bit(i) == parity(row.bit(i - 1), row.bit(i), row.bit(i + 1)));
        assert(q.0.bit(i) == parity(row.bit(i - 1), row.bit(i), row.bit(i + 1)));
    };
    T::lemma_same_cells(p.0, q.0);
    T::lemma_same_cells(p.1, q.1);
}

/// The partial sum of a row counts, at every cell, the live cells of the row
/// in that column and the two beside it.
pub proof fn lemma_row_sum_counts<T: Lane>(row: T, p: (T, T), i: int)
    requires
        is_row_sum(row, p),
        0 <= i < T::width(),
    ensures
        partial_count(p, i) == live_around(row, i),
{
    assert(p.0.bit(i) == parity(row.bit(i - 1), row.bit(i), row.bit(i + 1)));
}

/// Whether `next` holds, at every cell, the rule applied to `s` and to the
/// number of live cells that the three partial sums add up to.
pub open spec fn is_next_from_partials<T: Lane>(
    s: T,
    sum_above: (T, T),
    sum_mid: (T, T),
    sum_below: (T, T),
    next: T,
) -> bool {
    forall|i: int| #[trigger]
        next.bit(i) == survives_in_block(
            s.bit(i),
            partial_count(sum_above, i) + partial_count(sum_mid, i) + partial_count(sum_below, i),
        )
}

/// Full adder: three inputs in, their sum digit and carry digit out.
#[inline(always)]
pub fn cint_full_add<T: Int>(a: T, b: T, c: T) -> (r: (T, T))
    ensures
        is_full_sum(a, b, c, r.0, r.1),
{
    proof {
        T::lemma_laws();
    }
    let a_xor_b = a ^ b;
    let t0 = a & b;
    let t1 = a_xor_b ^ c;
    let t2 = a_xor_b & c;
    (t1, t2 | t0)
}

/// The next state of row `s`, from the partial sums of the row above, of
/// `s` itself and of the row below.
pub fn cint_next_state_from_partials<T: Int>(
    s: T,
    sum_above: (T, T),
    sum_mid: (T, T),
    sum_below: (T, T),
) -> (r: T)
    ensures
        is_next_from_partials(s, sum_above, sum_mid, sum_below, r),
{
    proof {
        T::lemma_laws();
    }
    let (a, b) = cint_full_add(sum_above.0, sum_mid.0, sum_below.0);
    let (c, d) = cint_full_add(sum_above.1, sum_mid.1, sum_below.1);
    let bxc = b ^ c;
    let r = a & bxc & !d | !a & !bxc & ((b & c) ^ d) & s;
    r
}

/// The partial sum of one row: the row folded with its two shifts.
pub fn full_add_inner<T: Int>(s: T) -> (r: (T, T))
    ensures
        is_row_sum(s, r),
        r == row_sum(s),
{
    let r = cint_full_add(s.sll(), s, s.srl());
    proof {
        T::lemma_laws();
        lemma_row_sum_unique(s, r);
    }
    r
}

/// The row transition with the combining step left open: `f` receives the
/// middle row and the partial sums of the three rows.
pub fn cint_next_state1<T: Int, F: Fn(T, (T, T), (T, T), (T, T)) -> T>(
    n1: T,
    n2: T,
    n3: T,
    f: F,
) -> (r: T)
    requires
        call_requires(f, (n2, row_sum(n1), row_sum(n2), row_sum(n3))),
    ensures
        is_row_sum(n1, row_sum(n1)),
        is_row_sum(n2, row_sum(n2)),
        is_row_sum(n3, row_sum(n3)),
        call_ensures(f, (n2, row_sum(n1), row_sum(n2), row_sum(n3)), r),
{
    f(n2, full_add_inner(n1), full_add_inner(n2), full_add_inner(n3))
}

/// What the partial sums of three rows add up to is the rule of the
/// automaton: combining them gives the row that follows the middle one.
pub proof fn lemma_partials_give_next_row<T: Lane>(
    n1: T,
    n2: T,
    n3: T,
    sum_above: (T, T),
    sum_mid: (T, T),
    sum_below: (T, T),
    next: T,
)
    requires
        is_row_sum(n1, sum_above),
        is_row_sum(n2, sum_mid),
        is_row_sum(n3, sum_below),
        is_next_from_partials(n2, sum_above, sum_mid, sum_below, next),
    ensures
        is_next_row(n1, n2, n3, next),
        next == next_row(n1, n2, n3),
{
    assert forall|i: int| 0 <= i < T::width() implies #[trigger] next.bit(i) == next_cell(
        n1,
        n2,
        n3,
        i,
    ) by {
        lemma_row_sum_counts(n1, sum_above, i);
        lemma_row_sum_counts(n2, sum_mid, i);
        lemma_row_sum_counts(n3, sum_below, i);
        lemma_block_rule(n2.bit(i), live_neighbours(n1, n2, n3, i));
    };
    lemma_next_row_unique(n1, n2, n3, next);
}

/// The row transition: the next generation of row `n2`, which lies between
/// `n1` above and `n3` below.
pub fn cint_next_state<T: Int>(n1: T, n2: T, n3: T) -> (r: T)
    ensures
        is_next_row(n1, n2, n3, r),
        r == next_row(n1, n2, n3),
{
    let r = cint_next_state1(n1, n2, n3, cint_next_state_from_partials);
    proof {
        lemma_partials_give_next_row(n1, n2, n3, row_sum(n1), row_sum(n2), row_sum(n3), r);
    }
    r
}

/// Half adder: `sum = a XOR b`, `carry = a AND b`.
pub fn half_add<T>(a: T, b: T) -> (r: (T, T)) where T: Int
    ensures
        is_half_sum(a, b, r.0, r.1),
{
    proof {
        T::lemma_laws();
    }
    (a ^ b, a & b)
}

/// Full adder, written out plainly: `sum = a XOR b XOR c`, and the carry is
/// set where at least two of the inputs are.
pub fn full_add_reference<T>(a: T, b: T, c: T) -> (r: (T, T)) where T: Int
    ensures
        is_full_sum(a, b, c, r.0, r.1),
{
    proof {
        T::lemma_laws();
    }
    (a ^ b ^ c, (a & b) ^ ((a ^ b) & c))
}

/// The partial sum of one row, by the plain full adder.
pub fn full_add_row_reference<T>(a: T) -> (r: (T, T)) where T: Int
    ensures
        is_row_sum(a, r),
        r == row_sum(a),
{
    let r = full_add_reference(a.sll(), a, a.srl());
    proof {
        T::lemma_laws();
        lemma_row_sum_unique(a, r);
    }
    r
}

/// The row transition on 64-cell rows, by a plain adder network that counts
/// the live cells of each three-by-three block in four binary digits.
pub fn next_state_line_simple(n1: u64, n2: u64, n3: u64) -> (r: u64)
    ensures
        is_next_row(n1, n2, n3, r),
        r == next_row(n1, n2, n3),
{
    let s1 = full_add_row_reference(n1);
    let s2 = full_add_row_reference(n2);
    let s3 = full_add_row_reference(n3);
    let s4 = full_add_reference(s1.0, s2.0, s3.0);

    let s5 = half_add(s1.1, s2.1);
    let s6 = half_add(s3.1, s4.1);
    let s7 = half_add(s5.0, s6.0);
    let s8 = full_add_reference(s5.1, s6.1, s7.1);

    let r1 = s4.0;
    let r2 = s7.0;
    let r3 = s8.0;
    let r4 = s8.1;

    let eq3 = r1 & r2 & (!r3) & (!r4);
    let eq4 = (!r1) & (!r2) & r3 & (!r4);

    let r = eq3 | (eq4 & n2);
    proof {
        lemma_operators_u64();
        assert forall|i: int| 0 <= i < 64 implies #[trigger] r.bit(i) == next_cell(
            n1,
            n2,
            n3,
            i,
        ) by {
            lemma_row_sum_counts(n1, s1, i);
            lemma_row_sum_counts(n2, s2, i);
            lemma_row_sum_counts(n3, s3, i);
            let block = live_around(n1, i) + live_around(n2, i) + live_around(n3, i);
            assert(count(r1.bit(i)) + 2 * count(r2.bit(i)) + 4 * count(r3.bit(i)) + 8 * count(
                r4.bit(i),
            ) == block);
            assert(eq3.bit(i) == (block == 3));
            assert(eq4.bit(i) == (block == 4));
        };
        lemma_next_row_unique(n1, n2, n3, r);
    }
    r
}

/// The rows that follow from a sliding window of three: one row for every
/// three consecutive rows of `rows`, so two rows fewer than `rows` has.
pub open spec fn streamed<T: Lane>(rows: Seq<T>) -> Seq<T> {
    Seq::new(
        if rows.len() >= 2 {
            (rows.len() - 2) as nat
        } else {
            0
        },
        |k: int| next_row(rows[k], rows[k + 1], rows[k + 2]),
    )
}

/// `h` all-dead rows.
pub open spec fn dead_rows<I: Lane>(h: nat) -> Seq<I> {
    Seq::new(h, |k: int| zero_lane::<I>())
}

/// Row `k` of `rows`, or the all-dead row where `rows` has no such row.
pub open spec fn row_or_dead<T: Lane>(rows: Seq<T>, k: int) -> T {
    if 0 <= k < rows.len() {
        rows[k]
    } else {
        zero_lane::<T>()
    }
}

/// The next generation of a board whose rows are `rows`, with dead cells
/// all around it.
pub open spec fn next_rows<T: Lane>(rows: Seq<T>) -> Seq<T> {
    Seq::new(
        rows.len(),
        |k: int| next_row(row_or_dead(rows, k - 1), rows[k], row_or_dead(rows, k + 1)),
    )
}

/// `rows` between two all-dead rows.
pub open spec fn bordered<T: Lane>(rows: Seq<T>) -> Seq<T> {
    seq![zero_lane::<T>()] + rows + seq![zero_lane::<T>()]
}

/// Sliding the window over a board set between two dead rows gives the next
/// generation of the board.
pub proof fn lemma_streamed_bordered<T: Lane>(rows: Seq<T>)
    ensures
        streamed(bordered(rows)) == next_rows(rows),
{
    let b = bordered(rows);
    assert(b.len() == rows.len() + 2);
    assert forall|k: int| 0 <= k < rows.len() implies streamed(b)[k] == next_rows(rows)[k] by {
        assert(b[k] == row_or_dead(rows, k - 1));
        assert(b[k + 1] == rows[k]);
        assert(b[k + 2] == row_or_dead(rows, k + 1));
    };
    assert(streamed(b) =~= next_rows(rows));
}

/// The windows of three consecutive positions among `0..n`, in order, as
/// `itertools::Itertools::tuple_windows` yields them over that range: window
/// `k` is `(k, k + 1, k + 2)`; there are `n - 2` windows, and none for `n < 3`.
#[verifier::external_body]
fn window_positions(n: usize) -> (windows: Vec<(usize, usize, usize)>)
    ensures
        windows@.len() == if n >= 3 {
            n - 2
        } else {
            0
        },
        forall|k: int|
            0 <= k < windows@.len() ==> (#[trigger] windows@[k]).0 == k && windows@[k].1 == k + 1
                && windows@[k].2 == k + 2,
{
    (0..n).tuple_windows().collect()
}

/// The streaming pipeline: the next generation of a board of rows, in one
/// pass. A window of three rows slides over the board; beyond the first
/// row and beyond the last it takes an all-dead row, so that as many rows
/// come out as went in.
pub fn streaming_next_state<T: Int>(rows: &[T]) -> (next: Vec<T>)
    ensures
        next@ == next_rows(rows@),
        next@ == streamed(bordered(rows@)),
{
    let n = rows.len();
    let zero = T::zero();
    let ghost framed = bordered(rows@);
    proof {
        lemma_zero_lane(zero);
        lemma_streamed_bordered(rows@);
        assert(framed.len() == n + 2);
    }
    let mut partials: Vec<(T, (T, T))> = Vec::new();
    partials.push((zero, full_add_inner(zero)));
    for i in 0..n
        invariant
            n == rows@.len(),
            framed == bordered(rows@),
            partials@.len() == i + 1,
            forall|j: int|
                0 <= j <= i ==> (#[trigger] partials@[j]).0 == framed[j] && is_row_sum(
                    framed[j],
                    partials@[j].1,
                ),
    {
        let a = rows[i];
        partials.push((a, full_add_inner(a)));
    }
    partials.push((zero, full_add_inner(zero)));
    let windows = window_positions(partials.len());
    let mut next: Vec<T> = Vec::new();
    for k in 0..windows.len()
        invariant
            n == rows@.len(),
            framed == bordered(rows@),
            partials@.len() == n + 2,
            windows@.len() == n,
            forall|j: int|
                0 <= j < windows@.len() ==> (#[trigger] windows@[j]).0 == j && windows@[j].1 == j
                    + 1 && windows@[j].2 == j + 2,
            forall|j: int|
                0 <= j < n + 2 ==> (#[trigger] partials@[j]).0 == framed[j] && is_row_sum(
                    framed[j],
                    partials@[j].1,
                ),
            next@.len() == k,
            forall|j: int| 0 <= j < k ==> #[trigger] next@[j] == streamed(framed)[j],
    {
        let (above, mid, below) = windows[k];
        let (_, sum_above) = partials[above];
        let (s, sum_mid) = partials[mid];
        let (_, sum_below) = partials[below];
        let r = cint_next_state_from_partials(s, sum_above, sum_mid, sum_below);
        proof {
            lemma_partials_give_next_row(
                framed[k as int],
                s,
                framed[k + 2],
                sum_above,
                sum_mid,
                sum_below,
                r,
            );
        }
        next.push(r);
    }
    proof {
        assert(next@ =~= streamed(framed));
    }
    next
}

/// The board after `n` generations, each taken row by row with dead cells
/// all around the board.
pub open spec fn simple_generations<T: Lane>(rows: Seq<T>, n: nat) -> Seq<T>
    decreases n,
{
    if n == 0 {
        rows
    } else {
        next_rows(simple_generations(rows, (n - 1) as nat))
    }
}

/// The board after `n` generations, each taken by sliding the window over
/// the board set between two dead rows.
pub open spec fn streamed_generations<T: Lane>(rows: Seq<T>, n: nat) -> Seq<T>
    decreases n,
{
    if n == 0 {
        rows
    } else {
        streamed(bordered(streamed_generations(rows, (n - 1) as nat)))
    }
}

/// The row-by-row update and the streaming pipeline agree, generation after
/// generation: from the same board both reach the same board after any
/// number of generations.
pub proof fn lemma_pipeline_equivalence<T: Lane>(rows: Seq<T>, n: nat)
    ensures
        streamed_generations(rows, n) == simple_generations(rows, n),
    decreases n,
{
    if n > 0 {
        lemma_pipeline_equivalence(rows, (n - 1) as nat);
        lemma_streamed_bordered(simple_generations(rows, (n - 1) as nat));
    }
}

/// One generation of a 64 by 64 board, row by row: every row is taken with
/// the row above it and the row below it, a dead row standing in beyond the
/// first and the last. Both arrays hold the new generation afterwards.
pub fn update_board_simple(board: &mut [u64; 64], next_board: &mut [u64; 64])
    ensures
        final(board)@ == next_rows(old(board)@),
        final(next_board)@ == final(board)@,
{
    proof {
        lemma_zero_u64();
    }
    for i in 0..64usize
        invariant
            *board == *old(board),
            0u64 == zero_lane::<u64>(),
            forall|j: int| 0 <= j < i ==> #[trigger] next_board@[j] == next_rows(board@)[j],
    {
        let n1 = if i > 0 {
            board[i - 1]
        } else {
            0
        };
        let n2 = board[i];
        let n3 = if i + 1 < 64 {
            board[i + 1]
        } else {
            0
        };
        next_board[i] = next_state_line_simple(n1, n2, n3);
    }
    proof {
        assert(next_board@ =~= next_rows(board@));
    }
    *board = *next_board;
}

/// One generation of a 64 by 64 board through the streaming pipeline. Both
/// arrays hold the new generation afterwards.
#[inline(never)]
pub fn update_board_stream(board: &mut [u64; 64], next_board: &mut [u64; 64])
    ensures
        final(board)@ == next_rows(old(board)@),
        final(board)@ == streamed(bordered(old(board)@)),
        final(next_board)@ == final(board)@,
{
    let next = streaming_next_state(board.as_slice());
    for i in 0..64usize
        invariant
            next@.len() == 64,
            forall|j: int| 0 <= j < i ==> #[trigger] next_board@[j] == next@[j],
    {
        next_board[i] = next[i];
    }
    proof {
        assert(next_board@ =~= next@);
    }
    *board = *next_board;
}

/// The all-dead row between all-dead rows stays dead.
pub proof fn lemma_dead_row_stays_dead<T: Lane>()
    ensures
        next_row(zero_lane::<T>(), zero_lane::<T>(), zero_lane::<T>()) == zero_lane::<T>(),
{
    let z = zero_lane::<T>();
    lemma_zero_lane_dead::<T>();
    assert forall|i: int| 0 <= i < T::width() implies #[trigger] z.bit(i) == next_cell(
        z,
        z,
        z,
        i,
    ) by {
        assert(!z.bit(i - 1) && !z.bit(i) && !z.bit(i + 1));
    };
    lemma_next_row_unique(z, z, z, z);
}

/// Nothing comes from nothing: the all-dead board stays all dead, and so
/// for any number of generations, by the row-by-row update and by the
/// streaming pipeline alike.
pub proof fn lemma_dead_board_stays_dead<T: Lane>(h: nat, n: nat)
    ensures
        next_rows(dead_rows::<T>(h)) == dead_rows::<T>(h),
        streamed(bordered(dead_rows::<T>(h))) == dead_rows::<T>(h),
        simple_generations(dead_rows::<T>(h), n) == dead_rows::<T>(h),
        streamed_generations(dead_rows::<T>(h), n) == dead_rows::<T>(h),
    decreases n,
{
    lemma_dead_row_stays_dead::<T>();
    assert(next_rows(dead_rows::<T>(h)) =~= dead_rows::<T>(h));
    lemma_streamed_bordered(dead_rows::<T>(h));
    if n > 0 {
        lemma_dead_board_stays_dead::<T>(h, (n - 1) as nat);
    }
    lemma_pipeline_equivalence(dead_rows::<T>(h), n);
}

/// A block of `H` rows of the plane, one lane each.
#[derive(Eq)]
pub struct Tile<const H: usize, I: Int>([I; H]);

impl<const H: usize, I: Int> View for Tile<H, I> {
    type V = Seq<I>;

    /// The rows of the tile, from the first to the last.
    closed spec fn view(&self) -> Seq<I> {
        self.0@
    }
}

impl<const H: usize, I: Int> Clone for Tile<H, I> {
    fn clone(&self) -> (r: Self)
        ensures
            r == *self,
    {
        Tile(self.0)
    }
}

impl<const H: usize, I: Int> PartialEq for Tile<H, I> {
    fn eq(&self, other: &Self) -> (r: bool) {
        proof {
            I::lemma_laws();
        }
        let mut same = true;
        for k in 0..H
            invariant
                I::obeys_eq_spec(),
                forall|a: I, b: I| #[trigger] a.eq_spec(&b) == (a == b),
                same == (forall|j: int| 0 <= j < k ==> self.0@[j] == other.0@[j]),
        {
            same = same && self.0[k] == other.0[k];
        }
        proof {
            assert(same == (self.0@ =~= other.0@));
            if self.0@ == other.0@ {
                assert(self.0 =~= other.0);
            }
        }
        same
    }
}

impl<const H: usize, I: Int> PartialEqSpecImpl for Tile<H, I> {
    open spec fn obeys_eq_spec() -> bool {
        true
    }

    open spec fn eq_spec(&self, other: &Self) -> bool {
        *self == *other
    }
}

impl<const H: usize, I: Int> Tile<H, I> {
    /// A tile has `H` rows.
    pub proof fn lemma_height(self)
        ensures
            self@.len() == H,
    {
    }

    /// The tile with every cell dead.
    pub fn new() -> (r: Self)
        ensures
            r@ == dead_rows::<I>(H as nat),
    {
        let z = I::zero();
        proof {
            lemma_zero_lane(z);
        }
        let r = Tile([z;H]);
        proof {
            assert(r@ =~= dead_rows::<I>(H as nat));
        }
        r
    }

    /// The tile with the given rows.
    pub fn from_rows(rows: [I; H]) -> (r: Self)
        ensures
            r@ == rows@,
    {
        Tile(rows)
    }

    /// The rows of the tile.
    pub fn rows(&self) -> (r: &[I; H])
        ensures
            r@ == self@,
    {
        &self.0
    }

    /// Row `r` of the tile.
    pub fn row(&self, r: usize) -> (row: I)
        requires
            r < H,
        ensures
            row == self@[r as int],
    {
        self.0[r]
    }

    /// Whether every cell of the tile is dead.
    pub fn is_zero(&self) -> (r: bool)
        ensures
            r == (self@ == dead_rows::<I>(H as nat)),
    {
        proof {
            I::lemma_laws();
        }
        let z = I::zero();
        proof {
            lemma_zero_lane(z);
        }
        let mut dead = true;
        for k in 0..H
            invariant
                I::obeys_eq_spec(),
                forall|a: I, b: I| #[trigger] a.eq_spec(&b) == (a == b),
                z == zero_lane::<I>(),
                dead == (forall|j: int| 0 <= j < k ==> self.0@[j] == zero_lane::<I>()),
        {
            dead = dead && self.0[k] == z;
        }
        proof {
            assert(dead == (self@ =~= dead_rows::<I>(H as nat)));
        }
        dead
    }
}

/// Two tiles with the same rows are the same tile.
pub proof fn lemma_tile_rows<const H: usize, I: Int>(a: Tile<H, I>, b: Tile<H, I>)
    requires
        a@ == b@,
    ensures
        a == b,
{
    assert(a.0@ == b.0@);
    assert(a.0 =~= b.0);
}

} // verus!
