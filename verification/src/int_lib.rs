//! Lanes: fixed-width bit containers that pack one cell per bit.
//!
//! The row transition is written once, over the [`Int`] capability set, and
//! runs unchanged on every lane width. A lane is modelled by its cells:
//! `lane.bit(i)` says whether cell `i` is alive, and a lane is nothing more
//! than its cells (two lanes with the same cells are the same lane).

use std::fmt::Debug;
use std::ops::{BitAnd, BitOr, BitXor, Not};
use vstd::prelude::*;
use vstd::std_specs::cmp::PartialEqSpec;
use vstd::std_specs::ops::{BitAndSpec, BitOrSpec, BitXorSpec, NotSpec};

verus! {

/// The model of a lane and the laws of its operators.
///
/// An implementor says how many cells a lane packs and which of them are
/// alive, and proves that AND, OR, XOR, NOT and `==` act on those cells.
pub trait Lane:
    BitXor<Output = Self>
    + BitAnd<Output = Self>
    + Not<Output = Self>
    + BitOr<Output = Self>
    + Copy
    + Clone
    + Debug
    + PartialEq
    + Eq
{
    /// Number of cells that one lane packs.
    spec fn width() -> nat;

    /// Whether cell `i` is alive. Cells outside `0..width()` are dead.
    spec fn bit(self, i: int) -> bool;

    /// The operators act cell by cell, never fail, and `==` compares lanes.
    proof fn lemma_laws()
        ensures
            Self::width() > 0,
            forall|a: Self, i: int| #[trigger] a.bit(i) ==> 0 <= i < Self::width(),
            Self::obeys_eq_spec(),
            forall|a: Self, b: Self| #[trigger] a.eq_spec(&b) == (a == b),
            Self::obeys_bitxor_spec(),
            Self::obeys_bitand_spec(),
            Self::obeys_bitor_spec(),
            Self::obeys_not_spec(),
            forall|a: Self, b: Self| #[trigger] a.bitxor_req(b),
            forall|a: Self, b: Self| #[trigger] a.bitand_req(b),
            forall|a: Self, b: Self| #[trigger] a.bitor_req(b),
            forall|a: Self| #[trigger] a.not_req(),
            forall|a: Self, b: Self, i: int| #[trigger]
                a.bitxor_spec(b).bit(i) == (a.bit(i) != b.bit(i)),
            forall|a: Self, b: Self, i: int| #[trigger]
                a.bitand_spec(b).bit(i) == (a.bit(i) && b.bit(i)),
            forall|a: Self, b: Self, i: int| #[trigger]
                a.bitor_spec(b).bit(i) == (a.bit(i) || b.bit(i)),
            forall|a: Self, i: int| #[trigger]
                a.not_spec().bit(i) == (0 <= i < Self::width() && !a.bit(i)),
    ;

    /// A lane is determined by its cells.
    proof fn lemma_same_cells(a: Self, b: Self)
        requires
            forall|i: int| 0 <= i < Self::width() ==> a.bit(i) == b.bit(i),
        ensures
            a == b,
    ;

}

/// The capability set of a lane: bitwise AND, OR, XOR and NOT through the
/// usual operators, an all-dead lane, and shifts by exactly one cell.
pub trait Int: Lane {
    /// The cells of `self` that are dead in `other`.
    #[inline(always)]
    fn andn(self, other: Self) -> (r: Self)
        ensures
            forall|i: int| #[trigger] r.bit(i) == (self.bit(i) && !other.bit(i)),
    {
        proof {
            Self::lemma_laws();
        }
        self & (!other)
    }

    /// Shift by one cell toward the most significant end: cell `i` takes the
    /// state of cell `i - 1`, cell `0` becomes dead, the last cell is dropped.
    fn sll(self) -> (r: Self)
        ensures
            forall|i: int| #[trigger] r.bit(i) == (i < Self::width() && self.bit(i - 1)),
    ;

    /// Shift by one cell toward the least significant end: cell `i` takes the
    /// state of cell `i + 1`, the last cell becomes dead, cell `0` is dropped.
    fn srl(self) -> (r: Self)
        ensures
            forall|i: int| #[trigger] r.bit(i) == (0 <= i && self.bit(i + 1)),
    ;

    /// The lane with every cell dead.
    fn zero() -> (r: Self)
        ensures
            forall|i: int| !#[trigger] r.bit(i),
    ;

    /// The number of cells in a lane, at run time.
    fn bits() -> (n: usize)
        ensures
            n == Self::width(),
    ;

    /// A board of `BITS` all-dead rows.
    fn board<const BITS: usize>() -> (r: [Self; BITS])
        ensures
            forall|k: int, i: int| 0 <= k < BITS ==> !#[trigger] r[k].bit(i),
    {
        let z = Self::zero();
        [z;BITS]
    }
}

/// Whether every cell of `lane` is dead.
pub open spec fn all_dead<T: Lane>(lane: T) -> bool {
    forall|i: int| !#[trigger] lane.bit(i)
}

/// The lane with every cell dead.
pub open spec fn zero_lane<T: Lane>() -> T {
    choose|lane: T| all_dead(lane)
}

/// The zero lane exists: all its cells are dead.
pub proof fn lemma_zero_lane_dead<T: Lane>()
    ensures
        all_dead(zero_lane::<T>()),
{
    T::lemma_laws();
    let a: T = arbitrary();
    assert(all_dead(a.bitxor_spec(a)));
}

/// A lane whose cells are all dead is the zero lane.
pub proof fn lemma_zero_lane<T: Lane>(lane: T)
    requires
        all_dead(lane),
    ensures
        lane == zero_lane::<T>(),
{
    T::lemma_laws();
    let z = zero_lane::<T>();
    T::lemma_same_cells(lane, z);
}

/// How the operators and shifts of `u8` act on the cell at position `k`.
proof fn lemma_cell_ops_u8(a: u8, b: u8, k: u8)
    by (bit_vector)
    requires
        k < 8,
    ensures
        (((a ^ b) >> k) & 1 == 1) == (((a >> k) & 1 == 1) != ((b >> k) & 1 == 1)),
        (((a & b) >> k) & 1 == 1) == (((a >> k) & 1 == 1) && ((b >> k) & 1 == 1)),
        (((a | b) >> k) & 1 == 1) == (((a >> k) & 1 == 1) || ((b >> k) & 1 == 1)),
        (((!a) >> k) & 1 == 1) == !((a >> k) & 1 == 1),
        (((a << 1u8) >> k) & 1 == 1) == (k > 0 && (a >> ((k - 1) as u8)) & 1 == 1),
        (((a >> 1u8) >> k) & 1 == 1) == (k < 7 && (a >> ((k + 1) as u8)) & 1 == 1),
        (0u8 >> k) & 1 == 0,
{
}

/// The operators of `u8` act cell by cell.
pub proof fn lemma_operators_u8()
    ensures
        forall|a: u8, b: u8, i: int| #[trigger] (a ^ b).bit(i) == (a.bit(i) != b.bit(i)),
        forall|a: u8, b: u8, i: int| #[trigger] (a & b).bit(i) == (a.bit(i) && b.bit(i)),
        forall|a: u8, b: u8, i: int| #[trigger] (a | b).bit(i) == (a.bit(i) || b.bit(i)),
        forall|a: u8, i: int| #[trigger] (!a).bit(i) == (0 <= i < 8 && !a.bit(i)),
{
    assert forall|a: u8, b: u8, i: int| #[trigger]
        (a ^ b).bit(i) == (a.bit(i) != b.bit(i)) by {
        if 0 <= i < 8 {
            lemma_cell_ops_u8(a, b, i as u8);
        }
    };
    assert forall|a: u8, b: u8, i: int| #[trigger]
        (a & b).bit(i) == (a.bit(i) && b.bit(i)) by {
        if 0 <= i < 8 {
            lemma_cell_ops_u8(a, b, i as u8);
        }
    };
    assert forall|a: u8, b: u8, i: int| #[trigger]
        (a | b).bit(i) == (a.bit(i) || b.bit(i)) by {
        if 0 <= i < 8 {
            lemma_cell_ops_u8(a, b, i as u8);
        }
    };
    assert forall|a: u8, i: int| #[trigger] (!a).bit(i) == (0 <= i < 8 && !a.bit(i)) by {
        if 0 <= i < 8 {
            lemma_cell_ops_u8(a, a, i as u8);
        }
    };
}

/// The number 0 is the all-dead `u8` lane.
pub proof fn lemma_zero_u8()
    ensures
        all_dead(0u8),
        0u8 == zero_lane::<u8>(),
{
    assert forall|i: int| !#[trigger] 0u8.bit(i) by {
        if 0 <= i < 8 {
            lemma_cell_ops_u8(0, 0, i as u8);
        }
    };
    lemma_zero_lane(0u8);
}

/// If the lowest `k` cells of `a` and `b` agree, the two agree once the
/// other cells are shifted out.
proof fn lemma_low_cells_u8(a: u8, b: u8, k: nat)
    requires
        1 <= k <= 8,
        forall|i: int| 0 <= i < k ==> a.bit(i) == b.bit(i),
    ensures
        a << ((8 - k) as u8) == b << ((8 - k) as u8),
        k == 8 ==> a == b,
    decreases k,
{
    if k == 1 {
        assert(a.bit(0) == b.bit(0));
        assert(((a >> 0u8) & 1 == 1) == ((b >> 0u8) & 1 == 1) ==> a << 7u8 == b << 7u8)
            by (bit_vector);
    } else {
        lemma_low_cells_u8(a, b, (k - 1) as nat);
        let s = (8 - k) as u8;
        let t = (k - 1) as u8;
        assert(a.bit(k - 1) == b.bit(k - 1));
        assert(a << s == b << s && (s == 0 ==> a == b)) by (bit_vector)
            requires
                s < 7,
                t == 7 - s,
                a << ((s + 1) as u8) == b << ((s + 1) as u8),
                ((a >> t) & 1 == 1) == ((b >> t) & 1 == 1),
        ;
    }
}

impl Lane for u8 {
    open spec fn width() -> nat {
        8
    }

    open spec fn bit(self, i: int) -> bool {
        0 <= i < 8 && (self >> (i as u8)) & 1 == 1
    }

    proof fn lemma_laws() {
        lemma_operators_u8();
    }

    proof fn lemma_same_cells(a: Self, b: Self) {
        lemma_low_cells_u8(a, b, 8);
    }
}

impl Int for u8 {
    fn sll(self) -> (r: Self) {
        let r = self << 1;
        assert forall|i: int| #[trigger] r.bit(i) == (i < 8 && self.bit(i - 1)) by {
            if 0 <= i < 8 {
                lemma_cell_ops_u8(self, self, i as u8);
            }
        };
        r
    }

    fn srl(self) -> (r: Self) {
        let r = self >> 1;
        assert forall|i: int| #[trigger] r.bit(i) == (0 <= i && self.bit(i + 1)) by {
            if 0 <= i < 8 {
                lemma_cell_ops_u8(self, self, i as u8);
            }
        };
        r
    }

    fn zero() -> (r: Self) {
        proof {
            lemma_zero_u8();
        }
        0
    }

    fn bits() -> (n: usize) {
        8
    }
}

/// How the operators and shifts of `u16` act on the cell at position `k`.
proof fn lemma_cell_ops_u16(a: u16, b: u16, k: u16)
    by (bit_vector)
    requires
        k < 16,
    ensures
        (((a ^ b) >> k) & 1 == 1) == (((a >> k) & 1 == 1) != ((b >> k) & 1 == 1)),
        (((a & b) >> k) & 1 == 1) == (((a >> k) & 1 == 1) && ((b >> k) & 1 == 1)),
        (((a | b) >> k) & 1 == 1) == (((a >> k) & 1 == 1) || ((b >> k) & 1 == 1)),
        (((!a) >> k) & 1 == 1) == !((a >> k) & 1 == 1),
        (((a << 1u16) >> k) & 1 == 1) == (k > 0 && (a >> ((k - 1) as u16)) & 1 == 1),
        (((a >> 1u16) >> k) & 1 == 1) == (k < 15 && (a >> ((k + 1) as u16)) & 1 == 1),
        (0u16 >> k) & 1 == 0,
{
}

/// The operators of `u16` act cell by cell.
pub proof fn lemma_operators_u16()
    ensures
        forall|a: u16, b: u16, i: int| #[trigger] (a ^ b).bit(i) == (a.bit(i) != b.bit(i)),
        forall|a: u16, b: u16, i: int| #[trigger] (a & b).bit(i) == (a.bit(i) && b.bit(i)),
        forall|a: u16, b: u16, i: int| #[trigger] (a | b).bit(i) == (a.bit(i) || b.bit(i)),
        forall|a: u16, i: int| #[trigger] (!a).bit(i) == (0 <= i < 16 && !a.bit(i)),
{
    assert forall|a: u16, b: u16, i: int| #[trigger]
        (a ^ b).bit(i) == (a.bit(i) != b.bit(i)) by {
        if 0 <= i < 16 {
            lemma_cell_ops_u16(a, b, i as u16);
        }
    };
    assert forall|a: u16, b: u16, i: int| #[trigger]
        (a & b).bit(i) == (a.bit(i) && b.bit(i)) by {
        if 0 <= i < 16 {
            lemma_cell_ops_u16(a, b, i as u16);
        }
    };
    assert forall|a: u16, b: u16, i: int| #[trigger]
        (a | b).bit(i) == (a.bit(i) || b.bit(i)) by {
        if 0 <= i < 16 {
            lemma_cell_ops_u16(a, b, i as u16);
        }
    };
    assert forall|a: u16, i: int| #[trigger] (!a).bit(i) == (0 <= i < 16 && !a.bit(i)) by {
        if 0 <= i < 16 {
            lemma_cell_ops_u16(a, a, i as u16);
        }
    };
}

/// The number 0 is the all-dead `u16` lane.
pub proof fn lemma_zero_u16()
    ensures
        all_dead(0u16),
        0u16 == zero_lane::<u16>(),
{
    assert forall|i: int| !#[trigger] 0u16.bit(i) by {
        if 0 <= i < 16 {
            lemma_cell_ops_u16(0, 0, i as u16);
        }
    };
    lemma_zero_lane(0u16);
}

/// If the lowest `k` cells of `a` and `b` agree, the two agree once the
/// other cells are shifted out.
proof fn lemma_low_cells_u16(a: u16, b: u16, k: nat)
    requires
        1 <= k <= 16,
        forall|i: int| 0 <= i < k ==> a.bit(i) == b.bit(i),
    ensures
        a << ((16 - k) as u16) == b << ((16 - k) as u16),
        k == 16 ==> a == b,
    decreases k,
{
    if k == 1 {
        assert(a.bit(0) == b.bit(0));
        assert(((a >> 0u16) & 1 == 1) == ((b >> 0u16) & 1 == 1) ==> a << 15u16 == b << 15u16)
            by (bit_vector);
    } else {
        lemma_low_cells_u16(a, b, (k - 1) as nat);
        let s = (16 - k) as u16;
        let t = (k - 1) as u16;
        assert(a.bit(k - 1) == b.bit(k - 1));
        assert(a << s == b << s && (s == 0 ==> a == b)) by (bit_vector)
            requires
                s < 15,
                t == 15 - s,
                a << ((s + 1) as u16) == b << ((s + 1) as u16),
                ((a >> t) & 1 == 1) == ((b >> t) & 1 == 1),
        ;
    }
}

impl Lane for u16 {
    open spec fn width() -> nat {
        16
    }

    open spec fn bit(self, i: int) -> bool {
        0 <= i < 16 && (self >> (i as u16)) & 1 == 1
    }

    proof fn lemma_laws() {
        lemma_operators_u16();
    }

    proof fn lemma_same_cells(a: Self, b: Self) {
        lemma_low_cells_u16(a, b, 16);
    }
}

impl Int for u16 {
    fn sll(self) -> (r: Self) {
        let r = self << 1;
        assert forall|i: int| #[trigger] r.bit(i) == (i < 16 && self.bit(i - 1)) by {
            if 0 <= i < 16 {
                lemma_cell_ops_u16(self, self, i as u16);
            }
        };
        r
    }

    fn srl(self) -> (r: Self) {
        let r = self >> 1;
        assert forall|i: int| #[trigger] r.bit(i) == (0 <= i && self.bit(i + 1)) by {
            if 0 <= i < 16 {
                lemma_cell_ops_u16(self, self, i as u16);
            }
        };
        r
    }

    fn zero() -> (r: Self) {
        proof {
            lemma_zero_u16();
        }
        0
    }

    fn bits() -> (n: usize) {
        16
    }
}

/// How the operators and shifts of `u32` act on the cell at position `k`.
proof fn lemma_cell_ops_u32(a: u32, b: u32, k: u32)
    by (bit_vector)
    requires
        k < 32,
    ensures
        (((a ^ b) >> k) & 1 == 1) == (((a >> k) & 1 == 1) != ((b >> k) & 1 == 1)),
        (((a & b) >> k) & 1 == 1) == (((a >> k) & 1 == 1) && ((b >> k) & 1 == 1)),
        (((a | b) >> k) & 1 == 1) == (((a >> k) & 1 == 1) || ((b >> k) & 1 == 1)),
        (((!a) >> k) & 1 == 1) == !((a >> k) & 1 == 1),
        (((a << 1u32) >> k) & 1 == 1) == (k > 0 && (a >> ((k - 1) as u32)) & 1 == 1),
        (((a >> 1u32) >> k) & 1 == 1) == (k < 31 && (a >> ((k + 1) as u32)) & 1 == 1),
        (0u32 >> k) & 1 == 0,
{
}

/// The operators of `u32` act cell by cell.
pub proof fn lemma_operators_u32()
    ensures
        forall|a: u32, b: u32, i: int| #[trigger] (a ^ b).bit(i) == (a.bit(i) != b.bit(i)),
        forall|a: u32, b: u32, i: int| #[trigger] (a & b).bit(i) == (a.bit(i) && b.bit(i)),
        forall|a: u32, b: u32, i: int| #[trigger] (a | b).bit(i) == (a.bit(i) || b.bit(i)),
        forall|a: u32, i: int| #[trigger] (!a).bit(i) == (0 <= i < 32 && !a.bit(i)),
{
    assert forall|a: u32, b: u32, i: int| #[trigger]
        (a ^ b).bit(i) == (a.bit(i) != b.bit(i)) by {
        if 0 <= i < 32 {
            lemma_cell_ops_u32(a, b, i as u32);
        }
    };
    assert forall|a: u32, b: u32, i: int| #[trigger]
        (a & b).bit(i) == (a.bit(i) && b.bit(i)) by {
        if 0 <= i < 32 {
            lemma_cell_ops_u32(a, b, i as u32);
        }
    };
    assert forall|a: u32, b: u32, i: int| #[trigger]
        (a | b).bit(i) == (a.bit(i) || b.bit(i)) by {
        if 0 <= i < 32 {
            lemma_cell_ops_u32(a, b, i as u32);
        }
    };
    assert forall|a: u32, i: int| #[trigger] (!a).bit(i) == (0 <= i < 32 && !a.bit(i)) by {
        if 0 <= i < 32 {
            lemma_cell_ops_u32(a, a, i as u32);
        }
    };
}

/// The number 0 is the all-dead `u32` lane.
pub proof fn lemma_zero_u32()
    ensures
        all_dead(0u32),
        0u32 == zero_lane::<u32>(),
{
    assert forall|i: int| !#[trigger] 0u32.bit(i) by {
        if 0 <= i < 32 {
            lemma_cell_ops_u32(0, 0, i as u32);
        }
    };
    lemma_zero_lane(0u32);
}

/// If the lowest `k` cells of `a` and `b` agree, the two agree once the
/// other cells are shifted out.
proof fn lemma_low_cells_u32(a: u32, b: u32, k: nat)
    requires
        1 <= k <= 32,
        forall|i: int| 0 <= i < k ==> a.bit(i) == b.bit(i),
    ensures
        a << ((32 - k) as u32) == b << ((32 - k) as u32),
        k == 32 ==> a == b,
    decreases k,
{
    if k == 1 {
        assert(a.bit(0) == b.bit(0));
        assert(((a >> 0u32) & 1 == 1) == ((b >> 0u32) & 1 == 1) ==> a << 31u32 == b << 31u32)
            by (bit_vector);
    } else {
        lemma_low_cells_u32(a, b, (k - 1) as nat);
        let s = (32 - k) as u32;
        let t = (k - 1) as u32;
        assert(a.bit(k - 1) == b.bit(k - 1));
        assert(a << s == b << s && (s == 0 ==> a == b)) by (bit_vector)
            requires
                s < 31,
                t == 31 - s,
                a << ((s + 1) as u32) == b << ((s + 1) as u32),
                ((a >> t) & 1 == 1) == ((b >> t) & 1 == 1),
        ;
    }
}

impl Lane for u32 {
    open spec fn width() -> nat {
        32
    }

    open spec fn bit(self, i: int) -> bool {
        0 <= i < 32 && (self >> (i as u32)) & 1 == 1
    }

    proof fn lemma_laws() {
        lemma_operators_u32();
    }

    proof fn lemma_same_cells(a: Self, b: Self) {
        lemma_low_cells_u32(a, b, 32);
    }
}

impl Int for u32 {
    fn sll(self) -> (r: Self) {
        let r = self << 1;
        assert forall|i: int| #[trigger] r.bit(i) == (i < 32 && self.bit(i - 1)) by {
            if 0 <= i < 32 {
                lemma_cell_ops_u32(self, self, i as u32);
            }
        };
        r
    }

    fn srl(self) -> (r: Self) {
        let r = self >> 1;
        assert forall|i: int| #[trigger] r.bit(i) == (0 <= i && self.bit(i + 1)) by {
            if 0 <= i < 32 {
                lemma_cell_ops_u32(self, self, i as u32);
            }
        };
        r
    }

    fn zero() -> (r: Self) {
        proof {
            lemma_zero_u32();
        }
        0
    }

    fn bits() -> (n: usize) {
        32
    }
}

/// How the operators and shifts of `u64` act on the cell at position `k`.
proof fn lemma_cell_ops_u64(a: u64, b: u64, k: u64)
    by (bit_vector)
    requires
        k < 64,
    ensures
        (((a ^ b) >> k) & 1 == 1) == (((a >> k) & 1 == 1) != ((b >> k) & 1 == 1)),
        (((a & b) >> k) & 1 == 1) == (((a >> k) & 1 == 1) && ((b >> k) & 1 == 1)),
        (((a | b) >> k) & 1 == 1) == (((a >> k) & 1 == 1) || ((b >> k) & 1 == 1)),
        (((!a) >> k) & 1 == 1) == !((a >> k) & 1 == 1),
        (((a << 1u64) >> k) & 1 == 1) == (k > 0 && (a >> ((k - 1) as u64)) & 1 == 1),
        (((a >> 1u64) >> k) & 1 == 1) == (k < 63 && (a >> ((k + 1) as u64)) & 1 == 1),
        (0u64 >> k) & 1 == 0,
{
}

/// The operators of `u64` act cell by cell.
pub proof fn lemma_operators_u64()
    ensures
        forall|a: u64, b: u64, i: int| #[trigger] (a ^ b).bit(i) == (a.bit(i) != b.bit(i)),
        forall|a: u64, b: u64, i: int| #[trigger] (a & b).bit(i) == (a.bit(i) && b.bit(i)),
        forall|a: u64, b: u64, i: int| #[trigger] (a | b).bit(i) == (a.bit(i) || b.bit(i)),
        forall|a: u64, i: int| #[trigger] (!a).bit(i) == (0 <= i < 64 && !a.bit(i)),
{
    assert forall|a: u64, b: u64, i: int| #[trigger]
        (a ^ b).bit(i) == (a.bit(i) != b.bit(i)) by {
        if 0 <= i < 64 {
            lemma_cell_ops_u64(a, b, i as u64);
        }
    };
    assert forall|a: u64, b: u64, i: int| #[trigger]
        (a & b).bit(i) == (a.bit(i) && b.bit(i)) by {
        if 0 <= i < 64 {
            lemma_cell_ops_u64(a, b, i as u64);
        }
    };
    assert forall|a: u64, b: u64, i: int| #[trigger]
        (a | b).bit(i) == (a.bit(i) || b.bit(i)) by {
        if 0 <= i < 64 {
            lemma_cell_ops_u64(a, b, i as u64);
        }
    };
    assert forall|a: u64, i: int| #[trigger] (!a).bit(i) == (0 <= i < 64 && !a.bit(i)) by {
        if 0 <= i < 64 {
            lemma_cell_ops_u64(a, a, i as u64);
        }
    };
}

/// The number 0 is the all-dead `u64` lane.
pub proof fn lemma_zero_u64()
    ensures
        all_dead(0u64),
        0u64 == zero_lane::<u64>(),
{
    assert forall|i: int| !#[trigger] 0u64.bit(i) by {
        if 0 <= i < 64 {
            lemma_cell_ops_u64(0, 0, i as u64);
        }
    };
    lemma_zero_lane(0u64);
}

/// If the lowest `k` cells of `a` and `b` agree, the two agree once the
/// other cells are shifted out.
proof fn lemma_low_cells_u64(a: u64, b: u64, k: nat)
    requires
        1 <= k <= 64,
        forall|i: int| 0 <= i < k ==> a.bit(i) == b.bit(i),
    ensures
        a << ((64 - k) as u64) == b << ((64 - k) as u64),
        k == 64 ==> a == b,
    decreases k,
{
    if k == 1 {
        assert(a.bit(0) == b.bit(0));
        assert(((a >> 0u64) & 1 == 1) == ((b >> 0u64) & 1 == 1) ==> a << 63u64 == b << 63u64)
            by (bit_vector);
    } else {
        lemma_low_cells_u64(a, b, (k - 1) as nat);
        let s = (64 - k) as u64;
        let t = (k - 1) as u64;
        assert(a.bit(k - 1) == b.bit(k - 1));
        assert(a << s == b << s && (s == 0 ==> a == b)) by (bit_vector)
            requires
                s < 63,
                t == 63 - s,
                a << ((s + 1) as u64) == b << ((s + 1) as u64),
                ((a >> t) & 1 == 1) == ((b >> t) & 1 == 1),
        ;
    }
}

impl Lane for u64 {
    open spec fn width() -> nat {
        64
    }

    open spec fn bit(self, i: int) -> bool {
        0 <= i < 64 && (self >> (i as u64)) & 1 == 1
    }

    proof fn lemma_laws() {
        lemma_operators_u64();
    }

    proof fn lemma_same_cells(a: Self, b: Self) {
        lemma_low_cells_u64(a, b, 64);
    }
}

impl Int for u64 {
    fn sll(self) -> (r: Self) {
        let r = self << 1;
        assert forall|i: int| #[trigger] r.bit(i) == (i < 64 && self.bit(i - 1)) by {
            if 0 <= i < 64 {
                lemma_cell_ops_u64(self, self, i as u64);
            }
        };
        r
    }

    fn srl(self) -> (r: Self) {
        let r = self >> 1;
        assert forall|i: int| #[trigger] r.bit(i) == (0 <= i && self.bit(i + 1)) by {
            if 0 <= i < 64 {
                lemma_cell_ops_u64(self, self, i as u64);
            }
        };
        r
    }

    fn zero() -> (r: Self) {
        proof {
            lemma_zero_u64();
        }
        0
    }

    fn bits() -> (n: usize) {
        64
    }
}

/// How the operators and shifts of `u128` act on the cell at position `k`.
proof fn lemma_cell_ops_u128(a: u128, b: u128, k: u128)
    by (bit_vector)
    requires
        k < 128,
    ensures
        (((a ^ b) >> k) & 1 == 1) == (((a >> k) & 1 == 1) != ((b >> k) & 1 == 1)),
        (((a & b) >> k) & 1 == 1) == (((a >> k) & 1 == 1) && ((b >> k) & 1 == 1)),
        (((a | b) >> k) & 1 == 1) == (((a >> k) & 1 == 1) || ((b >> k) & 1 == 1)),
        (((!a) >> k) & 1 == 1) == !((a >> k) & 1 == 1),
        (((a << 1u128) >> k) & 1 == 1) == (k > 0 && (a >> ((k - 1) as u128)) & 1 == 1),
        (((a >> 1u128) >> k) & 1 == 1) == (k < 127 && (a >> ((k + 1) as u128)) & 1 == 1),
        (0u128 >> k) & 1 == 0,
{
}

/// The operators of `u128` act cell by cell.
pub proof fn lemma_operators_u128()
    ensures
        forall|a: u128, b: u128, i: int| #[trigger] (a ^ b).bit(i) == (a.bit(i) != b.bit(i)),
        forall|a: u128, b: u128, i: int| #[trigger] (a & b).bit(i) == (a.bit(i) && b.bit(i)),
        forall|a: u128, b: u128, i: int| #[trigger] (a | b).bit(i) == (a.bit(i) || b.bit(i)),
        forall|a: u128, i: int| #[trigger] (!a).bit(i) == (0 <= i < 128 && !a.bit(i)),
{
    assert forall|a: u128, b: u128, i: int| #[trigger]
        (a ^ b).bit(i) == (a.bit(i) != b.bit(i)) by {
        if 0 <= i < 128 {
            lemma_cell_ops_u128(a, b, i as u128);
        }
    };
    assert forall|a: u128, b: u128, i: int| #[trigger]
        (a & b).bit(i) == (a.bit(i) && b.bit(i)) by {
        if 0 <= i < 128 {
            lemma_cell_ops_u128(a, b, i as u128);
        }
    };
    assert forall|a: u128, b: u128, i: int| #[trigger]
        (a | b).bit(i) == (a.bit(i) || b.bit(i)) by {
        if 0 <= i < 128 {
            lemma_cell_ops_u128(a, b, i as u128);
        }
    };
    assert forall|a: u128, i: int| #[trigger] (!a).bit(i) == (0 <= i < 128 && !a.bit(i)) by {
        if 0 <= i < 128 {
            lemma_cell_ops_u128(a, a, i as u128);
        }
    };
}

/// The number 0 is the all-dead `u128` lane.
pub proof fn lemma_zero_u128()
    ensures
        all_dead(0u128),
        0u128 == zero_lane::<u128>(),
{
    assert forall|i: int| !#[trigger] 0u128.bit(i) by {
        if 0 <= i < 128 {
            lemma_cell_ops_u128(0, 0, i as u128);
        }
    };
    lemma_zero_lane(0u128);
}

/// If the lowest `k` cells of `a` and `b` agree, the two agree once the
/// other cells are shifted out.
#[verifier::rlimit(100)]
proof fn lemma_low_cells_u128(a: u128, b: u128, k: nat)
    requires
        1 <= k <= 128,
        forall|i: int| 0 <= i < k ==> a.bit(i) == b.bit(i),
    ensures
        a << ((128 - k) as u128) == b << ((128 - k) as u128),
        k == 128 ==> a == b,
    decreases k,
{
    if k == 1 {
        assert(a.bit(0) == b.bit(0));
        assert(((a >> 0u128) & 1 == 1) == ((b >> 0u128) & 1 == 1) ==> a << 127u128 == b << 127u128)
            by (bit_vector);
    } else {
        lemma_low_cells_u128(a, b, (k - 1) as nat);
        let s = (128 - k) as u128;
        let t = (k - 1) as u128;
        assert(a.bit(k - 1) == b.bit(k - 1));
        assert(a << s == b << s && (s == 0 ==> a == b)) by (bit_vector)
            requires
                s < 127,
                t == 127 - s,
                a << ((s + 1) as u128) == b << ((s + 1) as u128),
                ((a >> t) & 1 == 1) == ((b >> t) & 1 == 1),
        ;
    }
}

impl Lane for u128 {
    open spec fn width() -> nat {
        128
    }

    open spec fn bit(self, i: int) -> bool {
        0 <= i < 128 && (self >> (i as u128)) & 1 == 1
    }

    proof fn lemma_laws() {
        lemma_operators_u128();
    }

    proof fn lemma_same_cells(a: Self, b: Self) {
        lemma_low_cells_u128(a, b, 128);
    }
}

impl Int for u128 {
    fn sll(self) -> (r: Self) {
        let r = self << 1;
        assert forall|i: int| #[trigger] r.bit(i) == (i < 128 && self.bit(i - 1)) by {
            if 0 <= i < 128 {
                lemma_cell_ops_u128(self, self, i as u128);
            }
        };
        r
    }

    fn srl(self) -> (r: Self) {
        let r = self >> 1;
        assert forall|i: int| #[trigger] r.bit(i) == (0 <= i && self.bit(i + 1)) by {
            if 0 <= i < 128 {
                lemma_cell_ops_u128(self, self, i as u128);
            }
        };
        r
    }

    fn zero() -> (r: Self) {
        proof {
            lemma_zero_u128();
        }
        0
    }

    fn bits() -> (n: usize) {
        128
    }
}

/// How the operators and shifts of `usize` act on the cell at position `k`.
proof fn lemma_cell_ops_usize(a: usize, b: usize, k: usize)
    by (bit_vector)
    requires
        k < usize::BITS,
    ensures
        (((a ^ b) >> k) & 1 == 1) == (((a >> k) & 1 == 1) != ((b >> k) & 1 == 1)),
        (((a & b) >> k) & 1 == 1) == (((a >> k) & 1 == 1) && ((b >> k) & 1 == 1)),
        (((a | b) >> k) & 1 == 1) == (((a >> k) & 1 == 1) || ((b >> k) & 1 == 1)),
        (((!a) >> k) & 1 == 1) == !((a >> k) & 1 == 1),
        (((a << 1usize) >> k) & 1 == 1) == (k > 0 && (a >> ((k - 1) as usize)) & 1 == 1),
        (((a >> 1usize) >> k) & 1 == 1) == (k < usize::BITS - 1 && (a >> ((k + 1) as usize)) & 1
            == 1),
        (0usize >> k) & 1 == 0,
{
}

/// The operators of `usize` act cell by cell.
pub proof fn lemma_operators_usize()
    ensures
        forall|a: usize, b: usize, i: int| #[trigger] (a ^ b).bit(i) == (a.bit(i) != b.bit(i)),
        forall|a: usize, b: usize, i: int| #[trigger] (a & b).bit(i) == (a.bit(i) && b.bit(i)),
        forall|a: usize, b: usize, i: int| #[trigger] (a | b).bit(i) == (a.bit(i) || b.bit(i)),
        forall|a: usize, i: int| #[trigger] (!a).bit(i) == (0 <= i < usize::BITS && !a.bit(i)),
{
    assert forall|a: usize, b: usize, i: int| #[trigger]
        (a ^ b).bit(i) == (a.bit(i) != b.bit(i)) by {
        if 0 <= i < usize::BITS {
            lemma_cell_ops_usize(a, b, i as usize);
        }
    };
    assert forall|a: usize, b: usize, i: int| #[trigger]
        (a & b).bit(i) == (a.bit(i) && b.bit(i)) by {
        if 0 <= i < usize::BITS {
            lemma_cell_ops_usize(a, b, i as usize);
        }
    };
    assert forall|a: usize, b: usize, i: int| #[trigger]
        (a | b).bit(i) == (a.bit(i) || b.bit(i)) by {
        if 0 <= i < usize::BITS {
            lemma_cell_ops_usize(a, b, i as usize);
        }
    };
    assert forall|a: usize, i: int| #[trigger]
        (!a).bit(i) == (0 <= i < usize::BITS && !a.bit(i)) by {
        if 0 <= i < usize::BITS {
            lemma_cell_ops_usize(a, a, i as usize);
        }
    };
}

/// The number 0 is the all-dead `usize` lane.
pub proof fn lemma_zero_usize()
    ensures
        all_dead(0usize),
        0usize == zero_lane::<usize>(),
{
    assert forall|i: int| !#[trigger] 0usize.bit(i) by {
        if 0 <= i < usize::BITS {
            lemma_cell_ops_usize(0, 0, i as usize);
        }
    };
    lemma_zero_lane(0usize);
}

/// If the lowest `k` cells of `a` and `b` agree, the two agree once the
/// other cells are shifted out.
proof fn lemma_low_cells_usize(a: usize, b: usize, k: nat)
    requires
        1 <= k <= usize::BITS,
        forall|i: int| 0 <= i < k ==> a.bit(i) == b.bit(i),
    ensures
        a << ((usize::BITS - k) as usize) == b << ((usize::BITS - k) as usize),
        k == usize::BITS ==> a == b,
    decreases k,
{
    if k == 1 {
        assert(a.bit(0) == b.bit(0));
        assert(((a >> 0usize) & 1 == 1) == ((b >> 0usize) & 1 == 1) ==> a << ((usize::BITS
            - 1) as usize) == b << ((usize::BITS - 1) as usize))
            by (bit_vector);
    } else {
        lemma_low_cells_usize(a, b, (k - 1) as nat);
        let s = (usize::BITS - k) as usize;
        let t = (k - 1) as usize;
        assert(a.bit(k - 1) == b.bit(k - 1));
        assert(a << s == b << s && (s == 0 ==> a == b)) by (bit_vector)
            requires
                s < usize::BITS - 1,
                t == usize::BITS - 1 - s,
                a << ((s + 1) as usize) == b << ((s + 1) as usize),
                ((a >> t) & 1 == 1) == ((b >> t) & 1 == 1),
        ;
    }
}

impl Lane for usize {
    open spec fn width() -> nat {
        usize::BITS as nat
    }

    open spec fn bit(self, i: int) -> bool {
        0 <= i < usize::BITS && (self >> (i as usize)) & 1 == 1
    }

    proof fn lemma_laws() {
        lemma_operators_usize();
    }

    proof fn lemma_same_cells(a: Self, b: Self) {
        lemma_low_cells_usize(a, b, usize::BITS as nat);
    }
}

impl Int for usize {
    fn sll(self) -> (r: Self) {
        let r = self << 1;
        assert forall|i: int| #[trigger] r.bit(i) == (i < usize::BITS && self.bit(i - 1)) by {
            if 0 <= i < usize::BITS {
                lemma_cell_ops_usize(self, self, i as usize);
            }
        };
        r
    }

    fn srl(self) -> (r: Self) {
        let r = self >> 1;
        assert forall|i: int| #[trigger] r.bit(i) == (0 <= i && self.bit(i + 1)) by {
            if 0 <= i < usize::BITS {
                lemma_cell_ops_usize(self, self, i as usize);
            }
        };
        r
    }

    fn zero() -> (r: Self) {
        proof {
            lemma_zero_usize();
        }
        0
    }

    fn bits() -> (n: usize) {
        usize::BITS as usize
    }
}

} // verus!
