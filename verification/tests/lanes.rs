use bit_squares::tile::{cint_next_state, full_add_inner, streaming_next_state};
use bit_squares::wide::{edge_masks, wide_next_state, wide_row_sum};
use bit_squares::{Int, Prng};

/// The next row, cell by cell: `width` cells per row, dead cells beyond.
fn naive_next(above: u128, mid: u128, below: u128, width: u32) -> u128 {
    let cell = |row: u128, i: i64| -> u32 {
        if i < 0 || i >= width as i64 {
            0
        } else {
            ((row >> i) & 1) as u32
        }
    };
    let mut next = 0u128;
    for i in 0..width as i64 {
        let alive = cell(mid, i) == 1;
        let neighbours = cell(above, i - 1)
            + cell(above, i)
            + cell(above, i + 1)
            + cell(mid, i - 1)
            + cell(mid, i + 1)
            + cell(below, i - 1)
            + cell(below, i)
            + cell(below, i + 1);
        if neighbours == 3 || (alive && neighbours == 2) {
            next |= 1 << i;
        }
    }
    next
}

#[test]
fn shifts_move_by_one_cell_and_fill_with_dead_cells() {
    assert_eq!(0b1000_0001u8.sll(), 0b0000_0010);
    assert_eq!(0b1000_0001u8.srl(), 0b0100_0000);
    assert_eq!(0x8000_0000_0000_0001u64.sll(), 2);
    assert_eq!(0x8000_0000_0000_0001u64.srl(), 0x4000_0000_0000_0000);
    assert_eq!(u16::MAX.sll(), 0xfffe);
    assert_eq!(u32::MAX.srl(), 0x7fff_ffff);
    assert_eq!((1u128 << 127).sll(), 0);
    assert_eq!(1u128.srl(), 0);
}

#[test]
fn zero_is_the_dead_lane_of_every_width() {
    assert_eq!(<u8 as Int>::zero(), 0);
    assert_eq!(<u16 as Int>::zero(), 0);
    assert_eq!(<u32 as Int>::zero(), 0);
    assert_eq!(<u64 as Int>::zero(), 0);
    assert_eq!(<u128 as Int>::zero(), 0);
}

#[test]
fn the_machine_word_is_a_lane() {
    let last = usize::BITS - 1;
    assert_eq!(<usize as Int>::bits(), usize::BITS as usize);
    assert_eq!(<usize as Int>::zero(), 0);
    assert_eq!((1usize << last | 1).sll(), 2);
    assert_eq!((1usize << last | 1).srl(), 1 << (last - 1));
    assert_eq!(cint_next_state(0usize, 0b111 << 10, 0), 0b010 << 10);
    assert_eq!(cint_next_state(1usize << last, 1 << last, 1 << last), 0b11 << (last - 1));
}

#[test]
fn bits_is_the_lane_width() {
    assert_eq!(<u8 as Int>::bits(), 8);
    assert_eq!(<u16 as Int>::bits(), 16);
    assert_eq!(<u32 as Int>::bits(), 32);
    assert_eq!(<u64 as Int>::bits(), 64);
    assert_eq!(<u128 as Int>::bits(), 128);
}

#[test]
fn andn_keeps_what_the_other_lane_lacks() {
    assert_eq!(0b1111_0000u8.andn(0b1010_1010), 0b0101_0000);
    assert_eq!(u64::MAX.andn(1), u64::MAX - 1);
    assert_eq!(0u32.andn(7), 0);
}

#[test]
fn board_is_all_dead() {
    let board: [u64; 64] = <u64 as Int>::board::<64>();
    assert_eq!(board, [0u64; 64]);
    let small: [u8; 3] = <u8 as Int>::board::<3>();
    assert_eq!(small, [0u8; 3]);
    let none: [u16; 0] = <u16 as Int>::board::<0>();
    assert_eq!(none.len(), 0);
}

#[test]
fn edge_masks_are_the_first_and_the_last_cell() {
    assert_eq!(edge_masks::<u8>(), (1, 0x80));
    assert_eq!(edge_masks::<u64>(), (1, 1 << 63));
    assert_eq!(edge_masks::<u128>(), (1, 1 << 127));
}

#[test]
fn row_sum_counts_the_cell_and_its_two_neighbours() {
    // cells 0, 1, 2 alive: counts 2, 3, 2, 1 from cell 0 on
    assert_eq!(full_add_inner(0b0111u8), (0b1010, 0b0111));
    assert_eq!(full_add_inner(0u64), (0, 0));
    // the last cell has no right neighbour
    assert_eq!(full_add_inner(0xc0u8), (0x20, 0xc0));
}

#[test]
fn wide_row_sum_takes_the_vacant_cells_from_the_lanes_beside() {
    // the last cell of the left lane is the left neighbour of cell 0
    assert_eq!(wide_row_sum(0x80u8, 0, 0), (1, 0));
    assert_eq!(wide_row_sum(0x7fu8, 0, 0), (0, 0));
    // the first cell of the right lane is the right neighbour of the last cell
    assert_eq!(wide_row_sum(0u8, 0, 1), (0x80, 0));
    assert_eq!(wide_row_sum(0u8, 0, 0xfe), (0, 0));
    assert_eq!(wide_row_sum(0x80u8, 0x01, 0), (0x02, 0x01));
    assert_eq!(wide_row_sum(0u8, 0b0111, 0), full_add_inner(0b0111u8));
}

#[test]
fn wide_next_state_brings_a_cell_to_life_across_the_seam() {
    // three live cells in the last column of the left lanes are the three
    // left neighbours of cell 0
    assert_eq!(wide_next_state((0x80u8, 0, 0), (0x80, 0, 0), (0x80, 0, 0)), 1);
    // one column further left they are out of reach
    assert_eq!(wide_next_state((0x40u8, 0, 0), (0x40, 0, 0), (0x40, 0, 0)), 0);
    // two in the left lane's last column and one in cell 0 above: cell 0 is born
    assert_eq!(wide_next_state((0x80u8, 1, 0), (0x80, 0, 0), (0, 0, 0)), 1);
    // across the right seam
    assert_eq!(wide_next_state((0u8, 0, 1), (0, 0, 1), (0, 0x80, 0)), 0x80);
    // with dead lanes beside it is the plain transition
    assert_eq!(
        wide_next_state((0u8, 0x1c, 0), (0, 0x1c, 0), (0, 0x1c, 0)),
        cint_next_state(0x1cu8, 0x1c, 0x1c)
    );
}

#[test]
fn transition_by_width_agrees_with_the_cell_by_cell_rule() {
    let mut rng = Prng(77);
    for _ in 0..500 {
        let (a, m, b) = (rng.next(), rng.next(), rng.next());
        assert_eq!(
            cint_next_state(a as u8, m as u8, b as u8) as u128,
            naive_next((a as u8) as u128, (m as u8) as u128, (b as u8) as u128, 8)
        );
        assert_eq!(
            cint_next_state(a as u16, m as u16, b as u16) as u128,
            naive_next((a as u16) as u128, (m as u16) as u128, (b as u16) as u128, 16)
        );
        assert_eq!(
            cint_next_state(a as u32, m as u32, b as u32) as u128,
            naive_next((a as u32) as u128, (m as u32) as u128, (b as u32) as u128, 32)
        );
        assert_eq!(
            cint_next_state(a, m, b) as u128,
            naive_next(a as u128, m as u128, b as u128, 64)
        );
        let (a2, m2, b2) = (
            (a as u128) << 64 | rng.next() as u128,
            (m as u128) << 64 | rng.next() as u128,
            (b as u128) << 64 | rng.next() as u128,
        );
        assert_eq!(cint_next_state(a2, m2, b2), naive_next(a2, m2, b2, 128));
    }
}

#[test]
fn streaming_gives_as_many_rows_as_it_is_given() {
    assert_eq!(streaming_next_state::<u64>(&[]), Vec::<u64>::new());
    // one row between two dead rows: only the middle cell of the bar has
    // two neighbours
    assert_eq!(streaming_next_state(&[7u64]), vec![2]);
    assert_eq!(streaming_next_state(&[7u64, 7]), vec![5, 5]);
    assert_eq!(streaming_next_state(&[0u64, 7, 0]), vec![2, 2, 2]);
    // a vertical bar of three turns into a horizontal one
    assert_eq!(
        streaming_next_state(&[0u8, 0b0100, 0b0100, 0b0100, 0]),
        vec![0, 0, 0b1110, 0, 0]
    );
    // the bar in the first and in the last row: dead rows beyond
    assert_eq!(streaming_next_state(&[7u8, 0, 0, 7]), vec![2, 2, 2, 2]);
    let mut rng = Prng(5);
    let rows: Vec<u32> = (0..40).map(|_| rng.next() as u32).collect();
    let next = streaming_next_state(&rows);
    assert_eq!(next.len(), 40);
    for k in 0..40 {
        let above = if k == 0 { 0 } else { rows[k - 1] };
        let below = if k == 39 { 0 } else { rows[k + 1] };
        assert_eq!(
            next[k] as u128,
            naive_next(above as u128, rows[k] as u128, below as u128, 32)
        );
        assert_eq!(next[k], cint_next_state(above, rows[k], below));
    }
}
