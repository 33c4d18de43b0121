//! A sparse board without bounds: tiles by coordinate, and the worklists
//! that say which tiles the next generation has to look at.
//!
//! The plane is cut into tiles of `H` rows, one lane wide. Tile `(x, y)` lies
//! right of tile `(x - 1, y)` and below tile `(x, y - 1)`. Only tiles that
//! were written, or that lie next to a live tile, take up memory; everywhere
//! else the plane is dead. Tile coordinates are `i32`: beyond that range the
//! plane stays dead.

use crate::int_lib::{all_dead, lemma_zero_lane, lemma_zero_lane_dead, zero_lane, Int};
use crate::tile::{cint_next_state_from_partials, dead_rows, lemma_tile_rows, Tile};
use crate::wide::{
    is_wide_row_sum, lemma_wide_next_row_unique, lemma_wide_partials_give_next_row, wide_next_cell,
    wide_next_row, wide_row_sum,
};
use std::collections::HashMap;
use vstd::prelude::*;

verus! {

/// Whether `(x, y)` is the coordinate of a tile of the plane.
pub open spec fn in_plane(x: int, y: int) -> bool {
    i32::MIN <= x <= i32::MAX && i32::MIN <= y <= i32::MAX
}

/// Whether `(u, v)` is tile `(x, y)` or one of the eight tiles around it.
pub open spec fn near(x: int, y: int, u: int, v: int) -> bool {
    -1 <= u - x <= 1 && -1 <= v - y <= 1
}

/// The key under which the table files the tile `(x, y)`.
pub closed spec fn key_of(x: int, y: int) -> u64 {
    ((x + 0x8000_0000) * 0x1_0000_0000 + (y + 0x8000_0000)) as u64
}

/// Different tiles of the plane have different keys.
proof fn lemma_key_of_injective(x1: int, y1: int, x2: int, y2: int)
    requires
        in_plane(x1, y1),
        in_plane(x2, y2),
        key_of(x1, y1) == key_of(x2, y2),
    ensures
        x1 == x2,
        y1 == y2,
{
}

/// The key of the tile at `coord`.
fn key(coord: (i32, i32)) -> (k: u64)
    ensures
        k == key_of(coord.0 as int, coord.1 as int),
{
    let x = (coord.0 as i64 + 0x8000_0000) as u64;
    let y = (coord.1 as i64 + 0x8000_0000) as u64;
    x * 0x1_0000_0000 + y
}

/// Appends `(x, y)` to `queue` if it is the coordinate of a tile of the plane.
fn enqueue_in_plane(queue: &mut Vec<(i32, i32)>, x: i64, y: i64)
    requires
        old(queue)@.no_duplicates(),
        forall|c: (i32, i32)| old(queue)@.contains(c) ==> !(c.0 == x && c.1 == y),
    ensures
        final(queue)@.no_duplicates(),
        forall|c: (i32, i32)|
            final(queue)@.contains(c) <==> old(queue)@.contains(c) || (c.0 == x && c.1 == y),
{
    let low = i32::MIN as i64;
    let high = i32::MAX as i64;
    if low <= x && x <= high && low <= y && y <= high {
        let c = (x as i32, y as i32);
        queue.push(c);
        proof {
            let before = old(queue)@;
            let after = queue@;
            assert forall|d: (i32, i32)| after.contains(d) <==> before.contains(d) || d == c by {
                if before.contains(d) {
                    let j = choose|j: int| 0 <= j < before.len() && before[j] == d;
                    assert(after[j] == d);
                }
                if d == c {
                    assert(after[before.len() as int] == d);
                }
            };
            assert forall|i: int, j: int| 0 <= i < j < after.len() implies after[i] != after[j] by {
                if j == before.len() {
                    assert(before.contains(before[i]));
                }
            };
        }
    }
}

/// The coordinates of the tiles around `coord`, as far as the plane reaches.
fn neighbours(coord: (i32, i32)) -> (queue: Vec<(i32, i32)>)
    ensures
        queue@.no_duplicates(),
        forall|c: (i32, i32)|
            queue@.contains(c) <==> near(
                coord.0 as int,
                coord.1 as int,
                c.0 as int,
                c.1 as int,
            ) && c != coord,
{
    let x = coord.0 as i64;
    let y = coord.1 as i64;
    let mut queue: Vec<(i32, i32)> = Vec::new();
    enqueue_in_plane(&mut queue, x - 1, y - 1);
    enqueue_in_plane(&mut queue, x, y - 1);
    enqueue_in_plane(&mut queue, x + 1, y - 1);
    enqueue_in_plane(&mut queue, x - 1, y);
    enqueue_in_plane(&mut queue, x + 1, y);
    enqueue_in_plane(&mut queue, x - 1, y + 1);
    enqueue_in_plane(&mut queue, x, y + 1);
    enqueue_in_plane(&mut queue, x + 1, y + 1);
    queue
}

/// The tile table and the worklists of a sparse board.
pub struct Board<const H: usize, I: Int> {
    tiles: Vec<Tile<H, I>>,
    tile_lut: Vec<(i32, i32)>,
    tile_lut_inv: HashMap<u64, usize>,
    update_list: Vec<usize>,
    next_update_list: Vec<usize>,
    in_update_list: Vec<bool>,
}

impl<const H: usize, I: Int> Board<H, I> {
    /// Number of tiles in the table.
    pub closed spec fn tile_count(&self) -> nat {
        self.tiles@.len()
    }

    /// The rows of the tile with index `index`.
    pub closed spec fn tile_rows(&self, index: int) -> Seq<I> {
        self.tiles@[index]@
    }

    /// The coordinate of the tile with index `index`.
    pub closed spec fn coord(&self, index: int) -> (int, int) {
        (self.tile_lut@[index].0 as int, self.tile_lut@[index].1 as int)
    }

    /// Whether the table holds a tile for `(x, y)`.
    pub closed spec fn allocated(&self, x: int, y: int) -> bool {
        in_plane(x, y) && self.tile_lut_inv@.contains_key(key_of(x, y))
    }

    /// The index of the tile for `(x, y)`, where the table holds one.
    pub closed spec fn index_at(&self, x: int, y: int) -> int {
        self.tile_lut_inv@[key_of(x, y)] as int
    }

    /// The indices of the tiles to recompute in the coming generation.
    pub closed spec fn worklist(&self) -> Seq<usize> {
        self.update_list@
    }

    /// The indices found so far for the generation after the coming one.
    pub closed spec fn next_worklist(&self) -> Seq<usize> {
        self.next_update_list@
    }

    /// The membership flags, one per tile index.
    pub closed spec fn flags(&self) -> Seq<bool> {
        self.in_update_list@
    }

    /// What the table needs besides `table_wf`: that it files tiles under
    /// the keys of their coordinates alone, and that the tile list and the
    /// coordinate list go together.
    pub closed spec fn keys_wf(&self) -> bool {
        &&& self.tile_lut@.len() == self.tiles@.len()
        &&& forall|k: u64| #[trigger]
            self.tile_lut_inv@.contains_key(k) ==> {
                let i = self.tile_lut_inv@[k];
                i < self.tiles@.len() && key_of(self.coord(i as int).0, self.coord(i as int).1)
                    == k
            }
    }

    /// The rows of the plane at tile `(x, y)`: those of the tile that the
    /// table holds for it, and dead rows where it holds none.
    pub open spec fn rows_at(&self, x: int, y: int) -> Seq<I> {
        if self.allocated(x, y) {
            self.tile_rows(self.index_at(x, y))
        } else {
            dead_rows::<I>(H as nat)
        }
    }

    /// Whether the tile at `(x, y)` is to be recomputed in the coming generation.
    pub open spec fn pending(&self, x: int, y: int) -> bool {
        self.allocated(x, y) && self.flags()[self.index_at(x, y)]
    }

    /// The table relates coordinates and indices one to one.
    pub open spec fn table_wf(&self) -> bool {
        &&& self.keys_wf()
        &&& forall|i: int|
            0 <= i < self.tile_count() ==> {
                let c = #[trigger] self.coord(i);
                self.allocated(c.0, c.1) && self.index_at(c.0, c.1) == i
            }
        &&& forall|x: int, y: int| #[trigger]
            self.allocated(x, y) ==> 0 <= self.index_at(x, y) < self.tile_count() && self.coord(
                self.index_at(x, y),
            ) == (x, y)
    }

    /// The flags say exactly which indices `list` holds, and it holds none twice.
    pub open spec fn flags_match(&self, list: Seq<usize>) -> bool {
        &&& self.flags().len() == self.tile_count()
        &&& forall|j: int| 0 <= j < list.len() ==> #[trigger] list[j] < self.tile_count()
        &&& forall|j: int, k: int| 0 <= j < k < list.len() ==> list[j] != list[k]
        &&& forall|i: usize|
            i < self.tile_count() ==> (#[trigger] self.flags()[i as int] <==> list.contains(i))
    }

    /// The table is sound and the flags match the worklist.
    pub open spec fn core_wf(&self) -> bool {
        &&& self.table_wf()
        &&& self.flags_match(self.worklist())
    }

    /// Row `r` of the plane as tile `(x, y)` counts its rows, for `r` from
    /// `-1` to `H`: `-1` is the last row of the tile above, `H` the first row
    /// of the tile below.
    pub open spec fn row_near(&self, x: int, y: int, r: int) -> I {
        if r == -1 {
            self.rows_at(x, y - 1)[H - 1]
        } else if r == H {
            self.rows_at(x, y + 1)[0]
        } else {
            self.rows_at(x, y)[r]
        }
    }

    /// Row `r` of tile `(x, y)` with the lanes left and right of it.
    pub open spec fn wide_row(&self, x: int, y: int, r: int) -> (I, I, I) {
        (self.row_near(x - 1, y, r), self.row_near(x, y, r), self.row_near(x + 1, y, r))
    }

    /// The rows of the plane at tile `(x, y)` in the next generation.
    pub open spec fn next_rows_at(&self, x: int, y: int) -> Seq<I> {
        Seq::new(
            H as nat,
            |r: int|
                wide_next_row(
                    self.wide_row(x, y, r - 1),
                    self.wide_row(x, y, r),
                    self.wide_row(x, y, r + 1),
                ),
        )
    }

    /// Whether the tile `(u, v)` of the plane differs in the next generation
    /// from what it is now.
    pub open spec fn changes_at(&self, u: int, v: int) -> bool {
        in_plane(u, v) && self.next_rows_at(u, v) != self.rows_at(u, v)
    }

    /// Whether the next generation changes tile `(x, y)` or one of the
    /// tiles around it.
    pub open spec fn changes_near(&self, x: int, y: int) -> bool {
        exists|u: int, v: int|
            #![trigger near(u, v, x, y)]
            near(u, v, x, y) && self.changes_at(u, v)
    }

    /// Whether the next generation changes tile `(x, y)` or one of the
    /// tiles around it into a tile with a live cell.
    pub open spec fn grows_near(&self, x: int, y: int) -> bool {
        exists|u: int, v: int|
            #![trigger near(u, v, x, y)]
            near(u, v, x, y) && self.changes_at(u, v) && self.next_rows_at(u, v) != dead_rows::<I>(
                H as nat,
            )
    }

    /// 1 where `(x, y)` is a tile of the plane that the table does not
    /// hold, 0 elsewhere.
    pub open spec fn missing_at(&self, x: int, y: int) -> nat {
        if in_plane(x, y) && !self.allocated(x, y) {
            1
        } else {
            0
        }
    }

    /// How many of the eight tiles around `(x, y)` the plane has and the
    /// table does not hold.
    pub open spec fn missing_around(&self, x: int, y: int) -> nat {
        self.missing_at(x - 1, y - 1) + self.missing_at(x, y - 1) + self.missing_at(x + 1, y - 1)
            + self.missing_at(x - 1, y) + self.missing_at(x + 1, y) + self.missing_at(
            x - 1,
            y + 1,
        ) + self.missing_at(x, y + 1) + self.missing_at(x + 1, y + 1)
    }

    /// How many of the tile `(x, y)` and the eight tiles around it the
    /// plane has and the table does not hold.
    pub open spec fn missing_near(&self, x: int, y: int) -> nat {
        self.missing_at(x, y) + self.missing_around(x, y)
    }

    /// 1 where `(x, y)` is a tile that the table does not hold and that is
    /// no longer in `queue`, 0 elsewhere.
    spec fn added_at(&self, queue: Seq<(i32, i32)>, x: int, y: int) -> nat {
        if in_plane(x, y) && !self.allocated(x, y) && !queue.contains((x as i32, y as i32)) {
            1
        } else {
            0
        }
    }

    /// How many of the eight tiles around `(x, y)` the table does not hold
    /// and `queue` holds no longer.
    spec fn added_around(&self, queue: Seq<(i32, i32)>, x: int, y: int) -> nat {
        self.added_at(queue, x - 1, y - 1) + self.added_at(queue, x, y - 1) + self.added_at(
            queue,
            x + 1,
            y - 1,
        ) + self.added_at(queue, x - 1, y) + self.added_at(queue, x + 1, y) + self.added_at(
            queue,
            x - 1,
            y + 1,
        ) + self.added_at(queue, x, y + 1) + self.added_at(queue, x + 1, y + 1)
    }

    /// Around every tile with a live cell the table holds all the tiles
    /// that the plane has there.
    pub open spec fn haloed(&self) -> bool {
        forall|x: int, y: int, u: int, v: int|
            #![trigger self.rows_at(x, y), self.allocated(u, v)]
            self.rows_at(x, y) != dead_rows::<I>(H as nat) && near(x, y, u, v) && in_plane(u, v)
                ==> self.allocated(u, v)
    }

    /// Every tile of the table that is not on the worklist stays as it is
    /// in the next generation.
    pub open spec fn stable(&self) -> bool {
        forall|x: int, y: int|
            self.allocated(x, y) && !self.pending(x, y) ==> #[trigger] self.next_rows_at(x, y)
                == self.rows_at(x, y)
    }

    /// The invariant of the board between two operations: the table
    /// relates coordinates and indices one to one, the flags say exactly
    /// what the worklist holds, the second worklist is empty, and what is
    /// not on the worklist need not be recomputed.
    pub open spec fn wf(&self) -> bool {
        &&& self.core_wf()
        &&& self.next_worklist().len() == 0
        &&& self.haloed()
        &&& self.stable()
    }

    /// The empty board: no tile in the table, nothing to recompute, the
    /// whole plane dead.
    pub fn new() -> (r: Self)
        ensures
            r.wf(),
            r.tile_count() == 0,
            r.worklist().len() == 0,
            forall|x: int, y: int| !#[trigger] r.allocated(x, y),
    {
        Self {
            tiles: Vec::new(),
            tile_lut: Vec::new(),
            tile_lut_inv: HashMap::new(),
            update_list: Vec::new(),
            next_update_list: Vec::new(),
            in_update_list: Vec::new(),
        }
    }

    /// The index of the tile at `coord`, if the table holds one.
    fn find(&self, coord: (i32, i32)) -> (r: Option<usize>)
        requires
            self.table_wf(),
        ensures
            match r {
                Some(i) => self.allocated(coord.0 as int, coord.1 as int) && self.index_at(
                    coord.0 as int,
                    coord.1 as int,
                ) == i,
                None => !self.allocated(coord.0 as int, coord.1 as int),
            },
    {
        broadcast use vstd::std_specs::hash::group_hash_axioms;

        let k = key(coord);
        match self.tile_lut_inv.get(&k) {
            Some(i) => Some(*i),
            None => None,
        }
    }

    /// The tile at `coord`. Where the table holds none, this is the
    /// all-dead tile.
    pub fn get_tile(&self, coord: (i32, i32)) -> (r: Tile<H, I>)
        requires
            self.wf(),
        ensures
            r@ == self.rows_at(coord.0 as int, coord.1 as int),
    {
        match self.find(coord) {
            Some(i) => self.tiles[i].clone(),
            None => Tile::new(),
        }
    }

    /// Adds an all-dead tile for `coord`, which has none yet, at the next
    /// free index. The plane holds the same cells as before.
    fn allocate(&mut self, coord: (i32, i32)) -> (index: usize)
        requires
            old(self).table_wf(),
            old(self).flags_match(old(self).worklist()),
            !old(self).allocated(coord.0 as int, coord.1 as int),
        ensures
            final(self).table_wf(),
            final(self).flags_match(final(self).worklist()),
            forall|x: int, y: int| final(self).rows_at(x, y) == old(self).rows_at(x, y),
            forall|x: int, y: int| final(self).pending(x, y) == old(self).pending(x, y),
            index == old(self).tile_count(),
            final(self).tile_count() == old(self).tile_count() + 1,
            final(self).coord(index as int) == (coord.0 as int, coord.1 as int),
            final(self).tile_rows(index as int) == dead_rows::<I>(H as nat),
            forall|i: int|
                0 <= i < old(self).tile_count() ==> final(self).tile_rows(i) == old(self).tile_rows(
                    i,
                ) && final(self).coord(i) == old(self).coord(i),
            forall|x: int, y: int|
                final(self).allocated(x, y) <==> old(self).allocated(x, y) || (x == coord.0 && y
                    == coord.1),
            forall|x: int, y: int|
                old(self).allocated(x, y) ==> final(self).index_at(x, y) == old(self).index_at(
                    x,
                    y,
                ),
            final(self).index_at(coord.0 as int, coord.1 as int) == index,
            final(self).worklist() == old(self).worklist(),
            final(self).next_worklist() == old(self).next_worklist(),
            final(self).flags() == old(self).flags().push(false),
    {
        broadcast use vstd::std_specs::hash::group_hash_axioms;

        let index = self.tiles.len();
        let k = key(coord);
        self.tiles.push(Tile::new());
        self.tile_lut.push(coord);
        self.in_update_list.push(false);
        self.tile_lut_inv.insert(k, index);
        proof {
            assert forall|x: int, y: int|
                final(self).allocated(x, y) <==> old(self).allocated(x, y) || (x == coord.0 && y
                    == coord.1) by {
                if in_plane(x, y) && key_of(x, y) == k {
                    lemma_key_of_injective(x, y, coord.0 as int, coord.1 as int);
                }
            };
            assert forall|x: int, y: int| old(self).allocated(x, y) implies final(self).index_at(
                x,
                y,
            ) == old(self).index_at(x, y) by {
                if key_of(x, y) == k {
                    lemma_key_of_injective(x, y, coord.0 as int, coord.1 as int);
                }
            };
            assert forall|i: int| 0 <= i < self.tile_count() implies {
                let c = #[trigger] self.coord(i);
                self.allocated(c.0, c.1) && self.index_at(c.0, c.1) == i
            } by {
                if i < index {
                    let c = old(self).coord(i);
                    assert(old(self).allocated(c.0, c.1));
                }
            };
            assert forall|x: int, y: int| #[trigger] self.allocated(x, y) implies 0
                <= self.index_at(x, y) < self.tile_count() && self.coord(self.index_at(x, y)) == (
                x,
                y,
            ) by {
                if old(self).allocated(x, y) {
                    assert(self.index_at(x, y) == old(self).index_at(x, y));
                }
            };
            let list = self.worklist();
            assert forall|i: usize| i < self.tile_count() implies (#[trigger] self.flags()[i as int]
                <==> list.contains(i)) by {
                if i < index {
                    assert(old(self).flags()[i as int] <==> list.contains(i));
                } else {
                    if list.contains(i) {
                        let j = choose|j: int| 0 <= j < list.len() && list[j] == i;
                        assert(list[j] < old(self).tile_count());
                    }
                }
            };
            assert forall|x: int, y: int| self.rows_at(x, y) == old(self).rows_at(x, y) by {
                if old(self).allocated(x, y) {
                    assert(self.index_at(x, y) == old(self).index_at(x, y));
                }
            };
            assert forall|x: int, y: int| self.pending(x, y) == old(self).pending(x, y) by {
                if old(self).allocated(x, y) {
                    assert(self.index_at(x, y) == old(self).index_at(x, y));
                }
            };
        }
        index
    }

    /// Two boards with the same table hold the same tiles at the same places.
    proof fn lemma_same_table(&self, other: &Self)
        requires
            self.table_wf(),
            self.tiles == other.tiles,
            self.tile_lut == other.tile_lut,
            self.tile_lut_inv == other.tile_lut_inv,
        ensures
            other.table_wf(),
            other.tile_count() == self.tile_count(),
            forall|x: int, y: int|
                other.allocated(x, y) == self.allocated(x, y) && other.index_at(x, y)
                    == self.index_at(x, y) && other.rows_at(x, y) == self.rows_at(x, y),
    {
        assert forall|i: int| 0 <= i < other.tile_count() implies {
            let c = #[trigger] other.coord(i);
            other.allocated(c.0, c.1) && other.index_at(c.0, c.1) == i
        } by {
            let c = self.coord(i);
            assert(self.allocated(c.0, c.1));
        };
        assert forall|x: int, y: int| #[trigger] other.allocated(x, y) implies 0 <= other.index_at(
            x,
            y,
        ) < other.tile_count() && other.coord(other.index_at(x, y)) == (x, y) by {
            assert(self.allocated(x, y));
        };
    }

    /// Puts tile `index` on the worklist, unless it is there already.
    fn schedule(&mut self, index: usize)
        requires
            old(self).table_wf(),
            old(self).flags_match(old(self).worklist()),
            index < old(self).tile_count(),
        ensures
            final(self).table_wf(),
            final(self).flags_match(final(self).worklist()),
            final(self).tile_count() == old(self).tile_count(),
            forall|x: int, y: int|
                final(self).allocated(x, y) == old(self).allocated(x, y) && final(self).index_at(
                    x,
                    y,
                ) == old(self).index_at(x, y) && final(self).rows_at(x, y) == old(self).rows_at(
                    x,
                    y,
                ),
            forall|x: int, y: int|
                final(self).pending(x, y) <==> old(self).pending(x, y) || (old(self).allocated(
                    x,
                    y,
                ) && old(self).index_at(x, y) == index),
            final(self).tiles == old(self).tiles,
            final(self).tile_lut == old(self).tile_lut,
            final(self).tile_lut_inv == old(self).tile_lut_inv,
            final(self).next_update_list == old(self).next_update_list,
            final(self).flags() == old(self).flags().update(index as int, true),
            forall|i: usize|
                final(self).worklist().contains(i) <==> old(self).worklist().contains(i) || i
                    == index,
    {
        if !self.in_update_list[index] {
            self.in_update_list[index] = true;
            self.update_list.push(index);
            proof {
                let before = old(self).worklist();
                let after = self.worklist();
                assert(after == before.push(index));
                assert(!before.contains(index));
                assert forall|i: usize| after.contains(i) <==> before.contains(i) || i
                    == index by {
                    if before.contains(i) {
                        let j = choose|j: int| 0 <= j < before.len() && before[j] == i;
                        assert(after[j] == i);
                    }
                    if i == index {
                        assert(after[before.len() as int] == i);
                    }
                };
                assert forall|j: int, k: int| 0 <= j < k < after.len() implies after[j]
                    != after[k] by {
                    if k == before.len() {
                        assert(before.contains(before[j]));
                    }
                };
                assert forall|i: usize| i < self.tile_count() implies (
                #[trigger] self.flags()[i as int] <==> after.contains(i)) by {
                    assert(old(self).flags()[i as int] <==> before.contains(i));
                };
                old(self).lemma_same_table(self);
            }
        } else {
            proof {
                assert(old(self).worklist().contains(index));
                assert(self.flags() =~= old(self).flags().update(index as int, true));
            }
        }
    }

    /// Puts the rows of `tile` into the tile with index `index`.
    fn write(&mut self, index: usize, tile: &Tile<H, I>)
        requires
            old(self).table_wf(),
            old(self).flags_match(old(self).worklist()),
            index < old(self).tile_count(),
        ensures
            final(self).table_wf(),
            final(self).flags_match(final(self).worklist()),
            final(self).tile_count() == old(self).tile_count(),
            final(self).tile_rows(index as int) == tile@,
            forall|x: int, y: int|
                final(self).allocated(x, y) == old(self).allocated(x, y) && final(self).index_at(
                    x,
                    y,
                ) == old(self).index_at(x, y) && final(self).pending(x, y) == old(self).pending(
                    x,
                    y,
                ),
            forall|x: int, y: int|
                final(self).rows_at(x, y) == if old(self).allocated(x, y) && old(self).index_at(
                    x,
                    y,
                ) == index {
                    tile@
                } else {
                    old(self).rows_at(x, y)
                },
            forall|i: int|
                0 <= i < old(self).tile_count() && i != index ==> final(self).tile_rows(i)
                    == old(self).tile_rows(i),
            final(self).tile_lut == old(self).tile_lut,
            final(self).tile_lut_inv == old(self).tile_lut_inv,
            final(self).update_list == old(self).update_list,
            final(self).next_update_list == old(self).next_update_list,
            final(self).in_update_list == old(self).in_update_list,
    {
        // Overwritten in place: the tile keeps its index and its storage.
        self.tiles[index] = tile.clone();
        proof {
            assert forall|i: int| 0 <= i < self.tile_count() implies {
                let c = #[trigger] self.coord(i);
                self.allocated(c.0, c.1) && self.index_at(c.0, c.1) == i
            } by {
                let c = old(self).coord(i);
                assert(old(self).allocated(c.0, c.1));
            };
        }
    }

    /// The next generation of a tile depends on the tile and on the eight
    /// tiles around it, and on nothing else.
    pub proof fn lemma_next_rows_local(&self, other: &Self, x: int, y: int)
        requires
            forall|u: int, v: int|
                near(x, y, u, v) ==> #[trigger] other.rows_at(u, v) == self.rows_at(u, v),
        ensures
            other.next_rows_at(x, y) == self.next_rows_at(x, y),
    {
        assert forall|r: int| -1 <= r <= H implies #[trigger] other.wide_row(x, y, r)
            == self.wide_row(x, y, r) by {
            assert(other.rows_at(x - 1, y - 1) == self.rows_at(x - 1, y - 1));
            assert(other.rows_at(x, y - 1) == self.rows_at(x, y - 1));
            assert(other.rows_at(x + 1, y - 1) == self.rows_at(x + 1, y - 1));
            assert(other.rows_at(x - 1, y) == self.rows_at(x - 1, y));
            assert(other.rows_at(x, y) == self.rows_at(x, y));
            assert(other.rows_at(x + 1, y) == self.rows_at(x + 1, y));
            assert(other.rows_at(x - 1, y + 1) == self.rows_at(x - 1, y + 1));
            assert(other.rows_at(x, y + 1) == self.rows_at(x, y + 1));
            assert(other.rows_at(x + 1, y + 1) == self.rows_at(x + 1, y + 1));
        };
        assert(other.next_rows_at(x, y) =~= self.next_rows_at(x, y));
    }

    /// Where a tile and the eight tiles around it are dead, the tile is
    /// dead in the next generation too.
    pub proof fn lemma_dead_stays_dead(&self, x: int, y: int)
        requires
            forall|u: int, v: int|
                near(x, y, u, v) ==> #[trigger] self.rows_at(u, v) == dead_rows::<I>(H as nat),
        ensures
            self.next_rows_at(x, y) == dead_rows::<I>(H as nat),
    {
        if H == 0 {
            assert(self.next_rows_at(x, y) =~= dead_rows::<I>(H as nat));
            return ;
        }
        I::lemma_laws();
        let z = zero_lane::<I>();
        assert(all_dead(z)) by {
            lemma_zero_lane_dead::<I>();
        };
        assert forall|r: int| -1 <= r <= H implies #[trigger] self.wide_row(x, y, r) == (
            z,
            z,
            z,
        ) by {
            assert(self.rows_at(x - 1, y - 1) == dead_rows::<I>(H as nat));
            assert(self.rows_at(x, y - 1) == dead_rows::<I>(H as nat));
            assert(self.rows_at(x + 1, y - 1) == dead_rows::<I>(H as nat));
            assert(self.rows_at(x - 1, y) == dead_rows::<I>(H as nat));
            assert(self.rows_at(x, y) == dead_rows::<I>(H as nat));
            assert(self.rows_at(x + 1, y) == dead_rows::<I>(H as nat));
            assert(self.rows_at(x - 1, y + 1) == dead_rows::<I>(H as nat));
            assert(self.rows_at(x, y + 1) == dead_rows::<I>(H as nat));
            assert(self.rows_at(x + 1, y + 1) == dead_rows::<I>(H as nat));
        };
        assert forall|i: int| 0 <= i < I::width() implies #[trigger] z.bit(i) == wide_next_cell(
            (z, z, z),
            (z, z, z),
            (z, z, z),
            i,
        ) by {};
        lemma_wide_next_row_unique((z, z, z), (z, z, z), (z, z, z), z);
        assert(self.next_rows_at(x, y) =~= dead_rows::<I>(H as nat));
    }

    /// Puts the tile at `at` on the worklist. Where the table holds none,
    /// an all-dead tile is added first if `create` says so; else nothing
    /// happens.
    fn visit(&mut self, at: (i32, i32), create: bool)
        requires
            old(self).core_wf(),
        ensures
            final(self).core_wf(),
            final(self).next_worklist() == old(self).next_worklist(),
            final(self).tile_count() == old(self).tile_count() + if create {
                old(self).missing_at(at.0 as int, at.1 as int)
            } else {
                0
            },
            forall|x: int, y: int| final(self).rows_at(x, y) == old(self).rows_at(x, y),
            forall|x: int, y: int|
                final(self).allocated(x, y) <==> old(self).allocated(x, y) || (create && x == at.0
                    && y == at.1),
            forall|x: int, y: int|
                old(self).allocated(x, y) ==> final(self).index_at(x, y) == old(self).index_at(
                    x,
                    y,
                ),
            forall|x: int, y: int|
                final(self).pending(x, y) <==> old(self).pending(x, y) || (final(self).allocated(
                    x,
                    y,
                ) && x == at.0 && y == at.1),
    {
        match self.find(at) {
            Some(index) => {
                self.schedule(index);
            },
            None => {
                if create {
                    let index = self.allocate(at);
                    self.schedule(index);
                }
            },
        }
    }

    /// Puts the rows of `tile` into the tile with index `index`, which is
    /// the tile at `coord`, and puts on the worklist the tile and the tiles
    /// around it. Around a tile with live cells, tiles that are missing
    /// are added first, all dead.
    fn put(&mut self, index: usize, coord: (i32, i32), tile: &Tile<H, I>, live: bool)
        requires
            old(self).core_wf(),
            old(self).allocated(coord.0 as int, coord.1 as int),
            old(self).index_at(coord.0 as int, coord.1 as int) == index,
            live == (tile@ != dead_rows::<I>(H as nat)),
        ensures
            final(self).core_wf(),
            final(self).next_worklist() == old(self).next_worklist(),
            final(self).tile_count() == old(self).tile_count() + if live {
                old(self).missing_around(coord.0 as int, coord.1 as int)
            } else {
                0
            },
            forall|x: int, y: int|
                #![trigger final(self).rows_at(x, y)]
                final(self).rows_at(x, y) == if x == coord.0 && y == coord.1 {
                    tile@
                } else {
                    old(self).rows_at(x, y)
                },
            forall|x: int, y: int|
                #![trigger final(self).allocated(x, y)]
                final(self).allocated(x, y) <==> old(self).allocated(x, y) || (in_plane(x, y)
                    && near(coord.0 as int, coord.1 as int, x, y) && live),
            forall|x: int, y: int|
                old(self).allocated(x, y) ==> #[trigger] final(self).index_at(x, y)
                    == old(self).index_at(x, y),
            forall|x: int, y: int|
                #![trigger final(self).pending(x, y)]
                final(self).pending(x, y) <==> old(self).pending(x, y) || (final(self).allocated(
                    x,
                    y,
                ) && near(coord.0 as int, coord.1 as int, x, y)),
    {
        self.write(index, tile);
        self.schedule(index);
        let ghost written = *self;
        let mut queue = neighbours(coord);
        while queue.len() > 0
            invariant
                self.core_wf(),
                self.next_worklist() == old(self).next_worklist(),
                written.core_wf(),
                written.tile_count() == old(self).tile_count(),
                queue@.no_duplicates(),
                self.tile_count() == written.tile_count() + if live {
                    written.added_around(queue@, coord.0 as int, coord.1 as int)
                } else {
                    0
                },
                forall|c: (i32, i32)| #[trigger]
                    queue@.contains(c) ==> (self.allocated(c.0 as int, c.1 as int)
                        <==> written.allocated(c.0 as int, c.1 as int)),
                forall|x: int, y: int| #[trigger]
                    written.allocated(x, y) <==> old(self).allocated(x, y),
                forall|x: int, y: int|
                    old(self).allocated(x, y) ==> #[trigger] written.index_at(x, y)
                        == old(self).index_at(x, y),
                forall|x: int, y: int| #[trigger]
                    written.pending(x, y) <==> old(self).pending(x, y) || (x == coord.0 && y
                        == coord.1),
                forall|x: int, y: int| #[trigger]
                    written.rows_at(x, y) == if x == coord.0 && y == coord.1 {
                        tile@
                    } else {
                        old(self).rows_at(x, y)
                    },
                forall|c: (i32, i32)| #[trigger]
                    queue@.contains(c) ==> near(
                        coord.0 as int,
                        coord.1 as int,
                        c.0 as int,
                        c.1 as int,
                    ) && c != coord,
                forall|x: int, y: int| #[trigger] self.rows_at(x, y) == written.rows_at(x, y),
                forall|x: int, y: int| #[trigger]
                    written.allocated(x, y) ==> self.allocated(x, y) && self.index_at(x, y)
                        == written.index_at(x, y),
                forall|x: int, y: int| #[trigger]
                    self.allocated(x, y) ==> written.allocated(x, y) || (live && near(
                        coord.0 as int,
                        coord.1 as int,
                        x,
                        y,
                    )),
                forall|x: int, y: int| #[trigger] written.pending(x, y) ==> self.pending(x, y),
                forall|x: int, y: int| #[trigger]
                    self.pending(x, y) ==> written.pending(x, y) || (near(
                        coord.0 as int,
                        coord.1 as int,
                        x,
                        y,
                    ) && !(x == coord.0 && y == coord.1)),
                forall|c: (i32, i32)|
                    near(coord.0 as int, coord.1 as int, c.0 as int, c.1 as int) && c != coord
                        && !#[trigger] queue@.contains(c) ==> (live ==> self.allocated(
                        c.0 as int,
                        c.1 as int,
                    )) && (self.allocated(c.0 as int, c.1 as int) ==> self.pending(
                        c.0 as int,
                        c.1 as int,
                    )),
            decreases queue.len(),
        {
            let ghost waiting = queue@;
            let next = queue.pop().unwrap();
            proof {
                assert(waiting[waiting.len() - 1] == next);
                assert(waiting.contains(next));
                assert forall|c: (i32, i32)|
                    waiting.contains(c) && c != next implies #[trigger] queue@.contains(c) by {
                    let j = choose|j: int| 0 <= j < waiting.len() && waiting[j] == c;
                    assert(queue@[j] == c);
                };
                assert forall|c: (i32, i32)| #[trigger] queue@.contains(c) implies waiting.contains(
                    c,
                ) by {
                    let j = choose|j: int| 0 <= j < queue@.len() && queue@[j] == c;
                    assert(waiting[j] == c);
                };
            }
            self.visit(next, live);
        }
        proof {
            assert forall|x: int, y: int|
                in_plane(x, y) && near(coord.0 as int, coord.1 as int, x, y) && !(x == coord.0 && y
                    == coord.1) implies (live ==> #[trigger] self.allocated(x, y)) && (
            self.allocated(x, y) ==> self.pending(x, y)) by {
                let c = (x as i32, y as i32);
                assert(!queue@.contains(c));
            };
            assert forall|x: int, y: int|
                self.rows_at(x, y) == if x == coord.0 && y == coord.1 {
                    tile@
                } else {
                    old(self).rows_at(x, y)
                } by {
                assert(self.rows_at(x, y) == written.rows_at(x, y));
            };
            assert forall|x: int, y: int|
                self.allocated(x, y) <==> old(self).allocated(x, y) || (in_plane(x, y) && near(
                    coord.0 as int,
                    coord.1 as int,
                    x,
                    y,
                ) && live) by {
                assert(written.allocated(x, y) ==> self.allocated(x, y));
            };
            assert forall|x: int, y: int|
                self.pending(x, y) <==> old(self).pending(x, y) || (self.allocated(x, y) && near(
                    coord.0 as int,
                    coord.1 as int,
                    x,
                    y,
                )) by {
                assert(written.pending(x, y) ==> self.pending(x, y));
                assert(written.allocated(x, y) ==> self.allocated(x, y));
            };
            assert forall|x: int, y: int|
                old(self).allocated(x, y) implies #[trigger] self.index_at(
                x,
                y,
            ) == old(self).index_at(x, y) by {
                assert(written.allocated(x, y));
            };
        }
    }

    /// After a change at tile `(cx, cy)` alone, with the tile and all the
    /// tiles of the table around it put on the worklist and, where the
    /// tile now has live cells, all the tiles around it in the table: what
    /// is not on the worklist still need not be recomputed.
    proof fn lemma_put_keeps_settled(&self, after: &Self, cx: int, cy: int)
        requires
            self.haloed(),
            self.stable(),
            forall|x: int, y: int|
                !(x == cx && y == cy) ==> #[trigger] after.rows_at(x, y) == self.rows_at(x, y),
            forall|x: int, y: int| self.allocated(x, y) ==> #[trigger] after.allocated(x, y),
            forall|x: int, y: int|
                after.rows_at(cx, cy) != dead_rows::<I>(H as nat) && in_plane(x, y) && near(
                    cx,
                    cy,
                    x,
                    y,
                ) ==> #[trigger] after.allocated(x, y),
            forall|x: int, y: int|
                #![trigger after.pending(x, y)]
                after.pending(x, y) <==> self.pending(x, y) || (after.allocated(x, y) && near(
                    cx,
                    cy,
                    x,
                    y,
                )),
            forall|x: int, y: int|
                after.allocated(x, y) && !self.allocated(x, y) ==> near(cx, cy, x, y),
        ensures
            after.haloed(),
            after.stable(),
    {
        assert forall|x: int, y: int, u: int, v: int|
            after.rows_at(x, y) != dead_rows::<I>(H as nat) && near(x, y, u, v) && in_plane(
                u,
                v,
            ) implies after.allocated(u, v) by {
            if !(x == cx && y == cy) {
                assert(self.rows_at(x, y) != dead_rows::<I>(H as nat));
                assert(self.allocated(u, v));
            }
        };
        assert forall|x: int, y: int| after.allocated(x, y) && !after.pending(x, y) implies
            #[trigger] after.next_rows_at(x, y) == after.rows_at(x, y) by {
            assert(!near(cx, cy, x, y));
            assert(self.allocated(x, y) && !self.pending(x, y));
            assert forall|u: int, v: int| near(x, y, u, v) implies #[trigger] after.rows_at(u, v)
                == self.rows_at(u, v) by {};
            self.lemma_next_rows_local(after, x, y);
            assert(self.next_rows_at(x, y) == self.rows_at(x, y));
        };
    }

    /// Writes `tile` at `coord`, over the tile that is there or as a new
    /// tile, and puts on the worklist what the coming generation has to
    /// recompute on that account: the tile itself and the tiles around it.
    /// Around a tile with live cells, tiles that are missing are added,
    /// all dead; writing a dead tile where the table holds none changes
    /// nothing.
    pub fn set_tile(&mut self, tile: &Tile<H, I>, coord: (i32, i32))
        requires
            old(self).wf(),
        ensures
            final(self).wf(),
            forall|x: int, y: int|
                #![trigger final(self).rows_at(x, y)]
                final(self).rows_at(x, y) == if x == coord.0 && y == coord.1 {
                    tile@
                } else {
                    old(self).rows_at(x, y)
                },
            forall|x: int, y: int|
                #![trigger final(self).allocated(x, y)]
                #![trigger old(self).allocated(x, y)]
                final(self).allocated(x, y) <==> old(self).allocated(x, y) || (in_plane(x, y)
                    && near(coord.0 as int, coord.1 as int, x, y) && tile@ != dead_rows::<I>(
                    H as nat,
                )),
            final(self).tile_count() == old(self).tile_count() + if tile@ != dead_rows::<I>(
                H as nat,
            ) {
                old(self).missing_near(coord.0 as int, coord.1 as int)
            } else {
                0
            },
            forall|x: int, y: int|
                #![trigger final(self).index_at(x, y)]
                old(self).allocated(x, y) ==> final(self).index_at(x, y) == old(self).index_at(
                    x,
                    y,
                ),
            !old(self).allocated(coord.0 as int, coord.1 as int) && tile@ != dead_rows::<I>(
                H as nat,
            ) ==> final(self).index_at(coord.0 as int, coord.1 as int) == old(self).tile_count(),
            forall|x: int, y: int|
                #![trigger final(self).pending(x, y)]
                final(self).pending(x, y) <==> old(self).pending(x, y) || (final(self).allocated(
                    x,
                    y,
                ) && near(coord.0 as int, coord.1 as int, x, y) && (old(self).allocated(
                    coord.0 as int,
                    coord.1 as int,
                ) || tile@ != dead_rows::<I>(H as nat))),
    {
        let live = !tile.is_zero();
        let index = match self.find(coord) {
            Some(existing) => existing,
            None => {
                if !live {
                    return ;
                }
                self.allocate(coord)
            },
        };
        let ghost placed = *self;
        self.put(index, coord, tile, live);
        proof {
            let cx = coord.0 as int;
            let cy = coord.1 as int;
            assert forall|x: int, y: int| #[trigger]
                placed.rows_at(x, y) == old(self).rows_at(x, y) by {};
            assert forall|x: int, y: int|
                self.rows_at(x, y) == if x == coord.0 && y == coord.1 {
                    tile@
                } else {
                    old(self).rows_at(x, y)
                } by {
                assert(placed.rows_at(x, y) == old(self).rows_at(x, y));
            };
            assert forall|x: int, y: int|
                self.allocated(x, y) <==> old(self).allocated(x, y) || (in_plane(x, y) && near(
                    cx,
                    cy,
                    x,
                    y,
                ) && live) by {
                assert(placed.allocated(x, y) <==> old(self).allocated(x, y) || (x == cx && y
                    == cy));
            };
            assert forall|x: int, y: int| old(self).allocated(x, y) implies self.index_at(x, y)
                == old(self).index_at(x, y) by {
                assert(placed.allocated(x, y));
                assert(placed.index_at(x, y) == old(self).index_at(x, y));
            };
            assert forall|x: int, y: int|
                self.pending(x, y) <==> old(self).pending(x, y) || (self.allocated(x, y) && near(
                    cx,
                    cy,
                    x,
                    y,
                )) by {
                assert(placed.pending(x, y) == old(self).pending(x, y));
            };
            old(self).lemma_put_keeps_settled(self, cx, cy);
        }
    }

    /// The rows of the tile with the given index; dead rows where there is
    /// no tile.
    spec fn rows_of(&self, index: Option<usize>) -> Seq<I> {
        match index {
            Some(i) => self.tile_rows(i as int),
            None => dead_rows::<I>(H as nat),
        }
    }

    /// Every tile of the table has `H` rows.
    proof fn lemma_heights(&self)
        ensures
            forall|i: int| 0 <= i < self.tile_count() ==> (#[trigger] self.tile_rows(i)).len() == H,
    {
        assert forall|i: int| 0 <= i < self.tile_count() implies (#[trigger] self.tile_rows(
            i,
        )).len() == H by {
            self.tiles@[i].lemma_height();
        };
    }

    /// The index of the tile `dx` columns and `dy` rows of tiles away from
    /// `coord`, if the table holds one.
    fn find_beside(&self, coord: (i32, i32), dx: i64, dy: i64) -> (r: Option<usize>)
        requires
            self.table_wf(),
            -1 <= dx <= 1,
            -1 <= dy <= 1,
        ensures
            match r {
                Some(i) => self.allocated(coord.0 + dx, coord.1 + dy) && self.index_at(
                    coord.0 + dx,
                    coord.1 + dy,
                ) == i,
                None => !self.allocated(coord.0 + dx, coord.1 + dy),
            },
    {
        let x = coord.0 as i64 + dx;
        let y = coord.1 as i64 + dy;
        let low = i32::MIN as i64;
        let high = i32::MAX as i64;
        if low <= x && x <= high && low <= y && y <= high {
            self.find((x as i32, y as i32))
        } else {
            None
        }
    }

    /// Row `r` of the tile with the given index; a dead row where there is
    /// no tile.
    fn row_of(&self, index: Option<usize>, r: usize) -> (row: I)
        requires
            r < H,
            index matches Some(i) ==> i < self.tile_count(),
        ensures
            row == match index {
                Some(i) => self.tile_rows(i as int)[r as int],
                None => zero_lane::<I>(),
            },
    {
        match index {
            Some(i) => self.tiles[i].row(r),
            None => {
                let z = I::zero();
                proof {
                    lemma_zero_lane(z);
                }
                z
            },
        }
    }

    /// The partial sum of row `r` of tile `mid`, which continues into the
    /// tiles `left` and `right`.
    fn row_sum_of(
        &self,
        left: Option<usize>,
        mid: Option<usize>,
        right: Option<usize>,
        r: usize,
    ) -> (p: (I, I))
        requires
            r < H,
            left matches Some(i) ==> i < self.tile_count(),
            mid matches Some(i) ==> i < self.tile_count(),
            right matches Some(i) ==> i < self.tile_count(),
        ensures
            is_wide_row_sum(
                (
                    match left {
                        Some(i) => self.tile_rows(i as int)[r as int],
                        None => zero_lane::<I>(),
                    },
                    match mid {
                        Some(i) => self.tile_rows(i as int)[r as int],
                        None => zero_lane::<I>(),
                    },
                    match right {
                        Some(i) => self.tile_rows(i as int)[r as int],
                        None => zero_lane::<I>(),
                    },
                ),
                p,
            ),
    {
        wide_row_sum(self.row_of(left, r), self.row_of(mid, r), self.row_of(right, r))
    }

    /// The next generation of the tile with index `index`, from its own
    /// rows and from the rows and columns that the eight tiles around it
    /// turn toward it.
    fn next_tile(&self, index: usize) -> (r: Tile<H, I>)
        requires
            self.table_wf(),
            index < self.tile_count(),
        ensures
            r@ == self.next_rows_at(self.coord(index as int).0, self.coord(index as int).1),
    {
        let coord = self.tile_lut[index];
        let ghost x = coord.0 as int;
        let ghost y = coord.1 as int;
        proof {
            assert(self.coord(index as int) == (x, y));
            assert(self.allocated(x, y) && self.index_at(x, y) == index);
        }
        if H == 0 {
            let r = Tile::new();
            proof {
                assert(r@ =~= self.next_rows_at(x, y));
            }
            return r;
        }
        let up_left = self.find_beside(coord, -1, -1);
        let up = self.find_beside(coord, 0, -1);
        let up_right = self.find_beside(coord, 1, -1);
        let left = self.find_beside(coord, -1, 0);
        let this = Some(index);
        let right = self.find_beside(coord, 1, 0);
        let down_left = self.find_beside(coord, -1, 1);
        let down = self.find_beside(coord, 0, 1);
        let down_right = self.find_beside(coord, 1, 1);
        proof {
            assert(self.allocated(x - 1, y - 1) ==> 0 <= self.index_at(x - 1, y - 1)
                < self.tile_count());
            assert(self.allocated(x, y - 1) ==> 0 <= self.index_at(x, y - 1) < self.tile_count());
            assert(self.allocated(x + 1, y - 1) ==> 0 <= self.index_at(x + 1, y - 1)
                < self.tile_count());
            assert(self.allocated(x - 1, y) ==> 0 <= self.index_at(x - 1, y) < self.tile_count());
            assert(self.allocated(x + 1, y) ==> 0 <= self.index_at(x + 1, y) < self.tile_count());
            assert(self.allocated(x - 1, y + 1) ==> 0 <= self.index_at(x - 1, y + 1)
                < self.tile_count());
            assert(self.allocated(x, y + 1) ==> 0 <= self.index_at(x, y + 1) < self.tile_count());
            assert(self.allocated(x + 1, y + 1) ==> 0 <= self.index_at(x + 1, y + 1)
                < self.tile_count());
            self.lemma_heights();
        }
        let zero = I::zero();
        let mut rows = [zero;H];
        let mut above = self.row_sum_of(up_left, up, up_right, H - 1);
        let mut mid = self.row_sum_of(left, this, right, 0);
        for k in 0..H
            invariant
                H > 0,
                self.table_wf(),
                index < self.tile_count(),
                self.allocated(x, y) && self.index_at(x, y) == index,
                this == Some(index),
                left matches Some(i) ==> i < self.tile_count(),
                right matches Some(i) ==> i < self.tile_count(),
                down_left matches Some(i) ==> i < self.tile_count(),
                down matches Some(i) ==> i < self.tile_count(),
                down_right matches Some(i) ==> i < self.tile_count(),
                self.rows_at(x - 1, y) == self.rows_of(left),
                self.rows_at(x + 1, y) == self.rows_of(right),
                self.rows_at(x - 1, y + 1) == self.rows_of(down_left),
                self.rows_at(x, y + 1) == self.rows_of(down),
                self.rows_at(x + 1, y + 1) == self.rows_of(down_right),
                is_wide_row_sum(self.wide_row(x, y, k - 1), above),
                is_wide_row_sum(self.wide_row(x, y, k as int), mid),
                forall|j: int|
                    0 <= j < k ==> #[trigger] rows@[j] == wide_next_row(
                        self.wide_row(x, y, j - 1),
                        self.wide_row(x, y, j),
                        self.wide_row(x, y, j + 1),
                    ),
        {
            let below = if k + 1 < H {
                self.row_sum_of(left, this, right, k + 1)
            } else {
                self.row_sum_of(down_left, down, down_right, 0)
            };
            let s = self.tiles[index].row(k);
            let next = cint_next_state_from_partials(s, above, mid, below);
            proof {
                self.lemma_heights();
                lemma_wide_partials_give_next_row(
                    self.wide_row(x, y, k - 1),
                    self.wide_row(x, y, k as int),
                    self.wide_row(x, y, k + 1),
                    above,
                    mid,
                    below,
                    next,
                );
            }
            rows[k] = next;
            above = mid;
            mid = below;
        }
        let r = Tile::from_rows(rows);
        proof {
            assert(r@ =~= self.next_rows_at(x, y));
        }
        r
    }

    /// The next generation of every tile on the worklist, in the order of
    /// the worklist.
    fn compute(&self) -> (fresh: Vec<Tile<H, I>>)
        requires
            self.core_wf(),
        ensures
            fresh@.len() == self.worklist().len(),
            forall|k: int|
                0 <= k < fresh@.len() ==> (#[trigger] fresh@[k])@ == self.next_rows_at(
                    self.coord(self.worklist()[k] as int).0,
                    self.coord(self.worklist()[k] as int).1,
                ),
    {
        let mut fresh: Vec<Tile<H, I>> = Vec::new();
        let n = self.update_list.len();
        for k in 0..n
            invariant
                self.core_wf(),
                n == self.worklist().len(),
                fresh@.len() == k,
                forall|j: int|
                    0 <= j < k ==> (#[trigger] fresh@[j])@ == self.next_rows_at(
                        self.coord(self.worklist()[j] as int).0,
                        self.coord(self.worklist()[j] as int).1,
                    ),
        {
            let index = self.update_list[k];
            fresh.push(self.next_tile(index));
        }
        fresh
    }

    /// Moves the worklist over to the second list, which is empty, and
    /// clears the flags of what it holds: the worklist is empty afterwards
    /// and no flag is set.
    fn take_worklist(&mut self)
        requires
            old(self).core_wf(),
            old(self).next_worklist().len() == 0,
        ensures
            final(self).core_wf(),
            final(self).tiles == old(self).tiles,
            final(self).tile_lut == old(self).tile_lut,
            final(self).tile_lut_inv == old(self).tile_lut_inv,
            final(self).next_worklist() == old(self).worklist(),
            final(self).worklist().len() == 0,
    {
        core::mem::swap(&mut self.update_list, &mut self.next_update_list);
        let n = self.next_update_list.len();
        let ghost work = self.next_update_list@;
        for k in 0..n
            invariant
                n == work.len(),
                self.next_update_list@ == work,
                self.update_list@.len() == 0,
                self.tiles == old(self).tiles,
                self.tile_lut == old(self).tile_lut,
                self.tile_lut_inv == old(self).tile_lut_inv,
                self.in_update_list@.len() == self.tiles@.len(),
                forall|j: int| 0 <= j < work.len() ==> #[trigger] work[j] < self.tiles@.len(),
                forall|i: usize|
                    i < self.tiles@.len() && #[trigger] self.in_update_list@[i as int]
                        ==> exists|j: int| k <= j < work.len() && work[j] == i,
        {
            let index = self.next_update_list[k];
            self.in_update_list[index] = false;
            proof {
                assert forall|i: usize|
                    i < self.tiles@.len() && #[trigger] self.in_update_list@[i as int]
                    implies exists|
                    j: int,
                |
                    k + 1 <= j < work.len() && work[j] == i by {
                    let j = choose|j: int| k <= j < work.len() && work[j] == i;
                    assert(j != k);
                };
            }
        }
        proof {
            old(self).lemma_same_table(self);
            let list = self.worklist();
            assert forall|i: usize| i < self.tile_count() implies (#[trigger] self.flags()[i as int]
                <==> list.contains(i)) by {};
        }
    }

    /// Around every tile that differs from what `before` holds there, the
    /// tiles of the table are on the worklist, the tile itself among them.
    spec fn changes_are_pending(&self, before: &Self) -> bool {
        forall|u: int, v: int, x: int, y: int|
            #![trigger near(u, v, x, y), self.allocated(x, y), before.rows_at(u, v)]
            near(u, v, x, y) && self.rows_at(u, v) != before.rows_at(u, v) && self.allocated(x, y)
                ==> self.pending(x, y)
    }

    /// Around every tile that differs from what `before` holds there and
    /// has a live cell, the table holds all the tiles of the plane.
    spec fn changes_are_haloed(&self, before: &Self) -> bool {
        forall|u: int, v: int, x: int, y: int|
            #![trigger near(u, v, x, y), self.allocated(x, y), before.rows_at(u, v)]
            near(u, v, x, y) && self.rows_at(u, v) != before.rows_at(u, v) && self.rows_at(u, v)
                != dead_rows::<I>(H as nat) && in_plane(x, y) ==> self.allocated(x, y)
    }

    /// Whatever is on the worklist lies at or next to a tile that differs
    /// from what `before` holds there.
    spec fn pending_have_cause(&self, before: &Self) -> bool {
        forall|x: int, y: int|
            #![trigger self.pending(x, y)]
            self.pending(x, y) ==> exists|u: int, v: int|
                #![trigger near(u, v, x, y)]
                near(u, v, x, y) && self.rows_at(u, v) != before.rows_at(u, v)
    }

    /// Whatever tile the table holds and `before` lacks lies next to a tile
    /// that differs from what `before` holds there and has a live cell.
    spec fn new_tiles_have_cause(&self, before: &Self) -> bool {
        forall|x: int, y: int|
            #![trigger self.allocated(x, y)]
            self.allocated(x, y) && !before.allocated(x, y) ==> exists|u: int, v: int|
                #![trigger near(u, v, x, y)]
                near(u, v, x, y) && self.rows_at(u, v) != before.rows_at(u, v) && self.rows_at(
                    u,
                    v,
                ) != dead_rows::<I>(H as nat)
    }

    /// Puts the recomputed tiles in `fresh` in the place of the tiles that
    /// the second list names, one by one. A tile that comes out as it was
    /// is left alone. For one that changed, the tile and the tiles around
    /// it go on the worklist of the following generation.
    fn commit(&mut self, fresh: &Vec<Tile<H, I>>)
        requires
            old(self).core_wf(),
            old(self).worklist().len() == 0,
            fresh@.len() == old(self).next_worklist().len(),
            forall|k: int|
                0 <= k < fresh@.len() ==> #[trigger] old(self).next_worklist()[k]
                    < old(self).tile_count(),
            forall|k: int|
                0 <= k < fresh@.len() ==> (#[trigger] fresh@[k])@ == old(self).next_rows_at(
                    old(self).coord(old(self).next_worklist()[k] as int).0,
                    old(self).coord(old(self).next_worklist()[k] as int).1,
                ),
        ensures
            final(self).core_wf(),
            final(self).next_worklist() == old(self).next_worklist(),
            forall|x: int, y: int|
                old(self).allocated(x, y) ==> #[trigger] final(self).allocated(x, y)
                    && final(self).index_at(x, y) == old(self).index_at(x, y),
            forall|x: int, y: int|
                #![trigger final(self).rows_at(x, y)]
                final(self).rows_at(x, y) == if old(self).allocated(x, y)
                    && old(self).next_worklist().contains(old(self).index_at(x, y) as usize) {
                    old(self).next_rows_at(x, y)
                } else {
                    old(self).rows_at(x, y)
                },
            forall|x: int, y: int|
                #![trigger final(self).pending(x, y)]
                final(self).allocated(x, y) && !old(self).allocated(x, y) ==> final(self).pending(
                    x,
                    y,
                ),
            final(self).changes_are_pending(old(self)),
            final(self).changes_are_haloed(old(self)),
            final(self).pending_have_cause(old(self)),
            final(self).new_tiles_have_cause(old(self)),
            final(self).tile_count() >= old(self).tile_count(),
    {
        let n = fresh.len();
        let ghost work = self.next_update_list@;
        let ghost mut done: Set<usize> = Set::empty();
        for k in 0..n
            invariant
                n == fresh@.len(),
                n == work.len(),
                old(self).core_wf(),
                old(self).next_worklist() == work,
                forall|j: int| 0 <= j < n ==> #[trigger] work[j] < old(self).tile_count(),
                forall|j: int|
                    0 <= j < n ==> (#[trigger] fresh@[j])@ == old(self).next_rows_at(
                        old(self).coord(work[j] as int).0,
                        old(self).coord(work[j] as int).1,
                    ),
                self.core_wf(),
                self.next_worklist() == work,
                forall|j: int| 0 <= j < k ==> done.contains(#[trigger] work[j]),
                forall|i: usize| #[trigger] done.contains(i) ==> work.contains(i),
                forall|x: int, y: int|
                    old(self).allocated(x, y) ==> #[trigger] self.allocated(x, y)
                        && self.index_at(x, y) == old(self).index_at(x, y),
                forall|x: int, y: int|
                    #![trigger self.rows_at(x, y)]
                    self.rows_at(x, y) == if old(self).allocated(x, y) && done.contains(
                        old(self).index_at(x, y) as usize,
                    ) {
                        old(self).next_rows_at(x, y)
                    } else {
                        old(self).rows_at(x, y)
                    },
                forall|x: int, y: int|
                    #![trigger self.pending(x, y)]
                    self.allocated(x, y) && !old(self).allocated(x, y) ==> self.pending(x, y),
                self.changes_are_pending(old(self)),
                self.changes_are_haloed(old(self)),
                self.pending_have_cause(old(self)),
                self.new_tiles_have_cause(old(self)),
                self.tile_count() >= old(self).tile_count(),
        {
            let index = self.next_update_list[k];
            proof {
                assert(index == work[k as int]);
                let c = old(self).coord(index as int);
                assert(old(self).allocated(c.0, c.1) && old(self).index_at(c.0, c.1) == index);
                assert(self.allocated(c.0, c.1));
                assert(self.index_at(c.0, c.1) == index);
                assert(self.coord(index as int) == c);
            }
            let coord = self.tile_lut[index];
            let ghost cx = coord.0 as int;
            let ghost cy = coord.1 as int;
            let ghost prior = *self;
            proof {
                assert(old(self).coord(index as int) == (cx, cy));
                assert(old(self).allocated(cx, cy) && old(self).index_at(cx, cy) == index);
                assert(fresh@[k as int]@ == old(self).next_rows_at(cx, cy));
                assert(work.contains(index));
                fresh@[k as int].lemma_height();
                self.lemma_heights();
            }
            let changed = fresh[k] != self.tiles[index];
            proof {
                if fresh@[k as int]@ == self.tile_rows(index as int) {
                    lemma_tile_rows(fresh@[k as int], self.tiles@[index as int]);
                }
                assert(changed == (fresh@[k as int]@ != self.rows_at(cx, cy)));
            }
            if changed {
                let live = !fresh[k].is_zero();
                self.put(index, coord, &fresh[k], live);
            }
            proof {
                done = done.insert(index);
                assert forall|x: int, y: int|
                    #![trigger self.rows_at(x, y)]
                    self.rows_at(x, y) == if old(self).allocated(x, y) && done.contains(
                        old(self).index_at(x, y) as usize,
                    ) {
                        old(self).next_rows_at(x, y)
                    } else {
                        old(self).rows_at(x, y)
                    } by {
                    if old(self).allocated(x, y) && old(self).index_at(x, y) == index {
                        assert(old(self).coord(index as int) == (x, y));
                    }
                    assert(prior.rows_at(x, y) == if x == cx && y == cy {
                        prior.rows_at(cx, cy)
                    } else {
                        prior.rows_at(x, y)
                    });
                };
                assert forall|x: int, y: int|
                    old(self).allocated(x, y) implies #[trigger] self.allocated(
                    x,
                    y,
                ) && self.index_at(x, y) == old(self).index_at(x, y) by {
                    assert(prior.allocated(x, y));
                };
                assert forall|x: int, y: int|
                    #![trigger self.pending(x, y)]
                    self.allocated(x, y) && !old(self).allocated(x, y) implies self.pending(
                        x,
                        y,
                    ) by {
                    if prior.allocated(x, y) {
                        assert(prior.pending(x, y));
                    }
                };
                assert forall|u: int, v: int, x: int, y: int|
                    #![trigger near(u, v, x, y), self.allocated(x, y), old(self).rows_at(u, v)]
                    near(u, v, x, y) && self.rows_at(u, v) != old(self).rows_at(u, v)
                        && self.allocated(x, y) implies self.pending(x, y) by {
                    if changed && u == cx && v == cy {
                    } else {
                        assert(self.rows_at(u, v) == prior.rows_at(u, v));
                        if prior.allocated(x, y) {
                            assert(prior.pending(x, y));
                        }
                    }
                };
                assert forall|u: int, v: int, x: int, y: int|
                    #![trigger near(u, v, x, y), self.allocated(x, y), old(self).rows_at(u, v)]
                    near(u, v, x, y) && self.rows_at(u, v) != old(self).rows_at(u, v)
                        && self.rows_at(u, v) != dead_rows::<I>(H as nat) && in_plane(
                        x,
                        y,
                    ) implies self.allocated(x, y) by {
                    if changed && u == cx && v == cy {
                    } else {
                        assert(self.rows_at(u, v) == prior.rows_at(u, v));
                        assert(prior.allocated(x, y));
                    }
                };
                assert forall|x: int, y: int|
                    #![trigger self.pending(x, y)]
                    self.pending(x, y) implies exists|u: int, v: int|
                    #![trigger near(u, v, x, y)]
                    near(u, v, x, y) && self.rows_at(u, v) != old(self).rows_at(u, v) by {
                    if prior.pending(x, y) {
                        let (u, v) = choose|u: int, v: int|
                            #![trigger near(u, v, x, y)]
                            near(u, v, x, y) && prior.rows_at(u, v) != old(self).rows_at(u, v);
                        assert(near(u, v, x, y) && self.rows_at(u, v) != old(self).rows_at(u, v));
                    } else {
                        assert(changed);
                        assert(near(cx, cy, x, y) && self.rows_at(cx, cy) != old(self).rows_at(
                            cx,
                            cy,
                        ));
                    }
                };
                assert forall|x: int, y: int|
                    #![trigger self.allocated(x, y)]
                    self.allocated(x, y) && !old(self).allocated(x, y) implies exists|
                        u: int,
                        v: int,
                    |
                    #![trigger near(u, v, x, y)]
                    near(u, v, x, y) && self.rows_at(u, v) != old(self).rows_at(u, v)
                        && self.rows_at(u, v) != dead_rows::<I>(H as nat) by {
                    if prior.allocated(x, y) {
                        let (u, v) = choose|u: int, v: int|
                            #![trigger near(u, v, x, y)]
                            near(u, v, x, y) && prior.rows_at(u, v) != old(self).rows_at(u, v)
                                && prior.rows_at(u, v) != dead_rows::<I>(H as nat);
                        assert(near(u, v, x, y) && self.rows_at(u, v) != old(self).rows_at(u, v)
                            && self.rows_at(u, v) != dead_rows::<I>(H as nat));
                    } else {
                        assert(changed);
                        assert(near(cx, cy, x, y) && self.rows_at(cx, cy) != old(self).rows_at(
                            cx,
                            cy,
                        ) && self.rows_at(cx, cy) != dead_rows::<I>(H as nat));
                    }
                };
            }
        }
        proof {
            assert forall|x: int, y: int|
                #![trigger self.rows_at(x, y)]
                self.rows_at(x, y) == if old(self).allocated(x, y) && work.contains(
                    old(self).index_at(x, y) as usize,
                ) {
                    old(self).next_rows_at(x, y)
                } else {
                    old(self).rows_at(x, y)
                } by {
                let i = old(self).index_at(x, y) as usize;
                if old(self).allocated(x, y) && work.contains(i) {
                    let j = choose|j: int| 0 <= j < work.len() && work[j] == i;
                    assert(done.contains(work[j]));
                }
            };
        }
    }

    /// One generation: every tile on the worklist is recomputed from its
    /// own rows and from what the eight tiles around it turn toward it, all
    /// of them as they were before. What comes out on the worklist is what
    /// the following generation has to recompute: the tiles that changed
    /// and the tiles around them. The plane as a whole moves on by one
    /// generation.
    pub fn step(&mut self)
        requires
            old(self).wf(),
        ensures
            final(self).wf(),
            forall|x: int, y: int|
                #![trigger final(self).rows_at(x, y)]
                in_plane(x, y) ==> final(self).rows_at(x, y) == old(self).next_rows_at(x, y),
            forall|x: int, y: int|
                #![trigger final(self).index_at(x, y)]
                old(self).allocated(x, y) ==> final(self).index_at(x, y) == old(self).index_at(
                    x,
                    y,
                ),
            forall|x: int, y: int|
                #![trigger final(self).allocated(x, y)]
                #![trigger old(self).allocated(x, y)]
                final(self).allocated(x, y) <==> old(self).allocated(x, y) || (in_plane(x, y)
                    && old(self).grows_near(x, y)),
            forall|x: int, y: int|
                #![trigger final(self).pending(x, y)]
                final(self).pending(x, y) <==> final(self).allocated(x, y) && old(
                    self,
                ).changes_near(x, y),
            final(self).tile_count() >= old(self).tile_count(),
    {
        let fresh = self.compute();
        self.take_worklist();
        let ghost taken = *self;
        proof {
            old(self).lemma_same_table(&taken);
            assert forall|x: int, y: int| #[trigger]
                taken.next_rows_at(x, y) == old(self).next_rows_at(x, y) by {
                old(self).lemma_next_rows_local(&taken, x, y);
            };
            assert forall|k: int| 0 <= k < fresh@.len() implies (#[trigger] fresh@[k])@
                == taken.next_rows_at(
                taken.coord(taken.next_worklist()[k] as int).0,
                taken.coord(taken.next_worklist()[k] as int).1,
            ) by {
                assert(taken.coord(taken.next_worklist()[k] as int) == old(self).coord(
                    old(self).worklist()[k] as int,
                ));
            };
        }
        self.commit(&fresh);
        let ghost committed = *self;
        self.next_update_list.clear();
        proof {
            committed.lemma_same_table(self);
            let work = old(self).worklist();
            assert forall|x: int, y: int| #[trigger]
                self.pending(x, y) == committed.pending(x, y) by {};
            assert forall|x: int, y: int| in_plane(x, y) implies #[trigger] self.rows_at(x, y)
                == old(self).next_rows_at(x, y) by {
                assert(self.rows_at(x, y) == committed.rows_at(x, y));
                if old(self).allocated(x, y) {
                    let i = old(self).index_at(x, y) as usize;
                    assert(old(self).flags()[i as int] <==> work.contains(i));
                    if !work.contains(i) {
                        assert(!old(self).pending(x, y));
                        assert(old(self).next_rows_at(x, y) == old(self).rows_at(x, y));
                    }
                } else {
                    assert forall|u: int, v: int| near(x, y, u, v) implies #[trigger] old(
                        self,
                    ).rows_at(u, v) == dead_rows::<I>(H as nat) by {
                        if old(self).rows_at(u, v) != dead_rows::<I>(H as nat) {
                            assert(near(u, v, x, y));
                            assert(old(self).allocated(x, y));
                        }
                    };
                    old(self).lemma_dead_stays_dead(x, y);
                }
            };
            assert forall|x: int, y: int, u: int, v: int|
                self.rows_at(x, y) != dead_rows::<I>(H as nat) && near(x, y, u, v) && in_plane(
                    u,
                    v,
                ) implies self.allocated(u, v) by {
                assert(self.rows_at(x, y) == committed.rows_at(x, y));
                if committed.rows_at(x, y) != taken.rows_at(x, y) {
                    assert(near(x, y, u, v));
                    assert(committed.allocated(u, v) == self.allocated(u, v));
                    assert(committed.allocated(u, v));
                } else {
                    assert(old(self).rows_at(x, y) != dead_rows::<I>(H as nat));
                    assert(old(self).allocated(u, v));
                    assert(taken.allocated(u, v));
                }
            };
            assert forall|x: int, y: int| self.allocated(x, y) && !self.pending(x, y) implies
                #[trigger] self.next_rows_at(x, y) == self.rows_at(x, y) by {
                assert(committed.allocated(x, y) && !committed.pending(x, y));
                assert(taken.allocated(x, y));
                assert forall|u: int, v: int| near(x, y, u, v) implies #[trigger] self.rows_at(u, v)
                    == old(self).rows_at(u, v) by {
                    assert(self.rows_at(u, v) == committed.rows_at(u, v));
                    if committed.rows_at(u, v) != taken.rows_at(u, v) {
                        assert(near(u, v, x, y));
                    }
                };
                old(self).lemma_next_rows_local(self, x, y);
            };
            assert forall|u: int, v: int|
                #![trigger self.rows_at(u, v)]
                self.rows_at(u, v) != taken.rows_at(u, v) implies old(self).changes_at(u, v) by {
                assert(self.rows_at(u, v) == committed.rows_at(u, v));
                assert(taken.allocated(u, v));
            };
            assert forall|x: int, y: int|
                self.allocated(x, y) <==> old(self).allocated(x, y) || (in_plane(x, y) && old(
                    self,
                ).grows_near(x, y)) by {
                assert(self.allocated(x, y) == committed.allocated(x, y));
                if committed.allocated(x, y) && !taken.allocated(x, y) {
                    let (u, v) = choose|u: int, v: int|
                        #![trigger near(u, v, x, y)]
                        near(u, v, x, y) && committed.rows_at(u, v) != taken.rows_at(u, v)
                            && committed.rows_at(u, v) != dead_rows::<I>(H as nat);
                    assert(self.rows_at(u, v) == committed.rows_at(u, v));
                    assert(near(u, v, x, y) && old(self).changes_at(u, v) && old(
                        self,
                    ).next_rows_at(u, v) != dead_rows::<I>(H as nat));
                }
                if in_plane(x, y) && old(self).grows_near(x, y) {
                    let (u, v) = choose|u: int, v: int|
                        #![trigger near(u, v, x, y)]
                        near(u, v, x, y) && old(self).changes_at(u, v) && old(self).next_rows_at(
                            u,
                            v,
                        ) != dead_rows::<I>(H as nat);
                    assert(self.rows_at(u, v) == committed.rows_at(u, v));
                    assert(committed.rows_at(u, v) != taken.rows_at(u, v));
                    assert(committed.allocated(x, y));
                }
            };
            assert forall|x: int, y: int|
                self.pending(x, y) <==> self.allocated(x, y) && old(self).changes_near(x, y) by {
                if committed.pending(x, y) {
                    let (u, v) = choose|u: int, v: int|
                        #![trigger near(u, v, x, y)]
                        near(u, v, x, y) && committed.rows_at(u, v) != taken.rows_at(u, v);
                    assert(self.rows_at(u, v) == committed.rows_at(u, v));
                    assert(near(u, v, x, y) && old(self).changes_at(u, v));
                }
                if self.allocated(x, y) && old(self).changes_near(x, y) {
                    let (u, v) = choose|u: int, v: int|
                        #![trigger near(u, v, x, y)]
                        near(u, v, x, y) && old(self).changes_at(u, v);
                    assert(self.rows_at(u, v) == committed.rows_at(u, v));
                    assert(committed.rows_at(u, v) != taken.rows_at(u, v));
                    assert(committed.allocated(x, y));
                    assert(committed.pending(x, y));
                }
            };
        }
    }

    /// Number of tiles that the table holds.
    pub fn tiles_len(&self) -> (n: usize)
        ensures
            n == self.tile_count(),
    {
        self.tiles.len()
    }

    /// Whether the table holds a tile for `coord`.
    pub fn is_allocated(&self, coord: (i32, i32)) -> (r: bool)
        requires
            self.wf(),
        ensures
            r == self.allocated(coord.0 as int, coord.1 as int),
    {
        self.find(coord).is_some()
    }

    /// Whether the tile at `coord` is on the worklist.
    pub fn is_pending(&self, coord: (i32, i32)) -> (r: bool)
        requires
            self.wf(),
        ensures
            r == self.pending(coord.0 as int, coord.1 as int),
    {
        match self.find(coord) {
            Some(index) => self.in_update_list[index],
            None => false,
        }
    }

    /// Number of tiles on the worklist.
    pub fn pending_len(&self) -> (n: usize)
        ensures
            n == self.worklist().len(),
    {
        self.update_list.len()
    }
}

} // verus!
