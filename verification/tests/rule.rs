use bit_squares::tile::{
    cint_full_add, cint_next_state, cint_next_state1, cint_next_state_from_partials,
    full_add_reference, full_add_row_reference, half_add, next_state_line_simple,
    update_board_simple, update_board_stream,
};
use bit_squares::Prng;

#[test]
fn half_add_is_xor_and_and() {
    assert_eq!(half_add(0b1100u8, 0b1010), (0b0110, 0b1000));
    assert_eq!(half_add(u64::MAX, u64::MAX), (0, u64::MAX));
    assert_eq!(half_add(0u32, 0), (0, 0));
}

#[test]
fn full_add_is_parity_and_majority() {
    // columns, from cell 0 on: 000 100 010 110 001 101 011 111
    let (a, b, c) = (0b1010_1010u8, 0b1100_1100u8, 0b1111_0000u8);
    assert_eq!(full_add_reference(a, b, c), (0b1001_0110, 0b1110_1000));
    assert_eq!(cint_full_add(a, b, c), (0b1001_0110, 0b1110_1000));
    let mut rng = Prng(9);
    for _ in 0..200 {
        let (a, b, c) = (rng.next(), rng.next(), rng.next());
        assert_eq!(cint_full_add(a, b, c), full_add_reference(a, b, c));
        let (sum, carry) = cint_full_add(a, b, c);
        for i in 0..64 {
            let ones = ((a >> i) & 1) + ((b >> i) & 1) + ((c >> i) & 1);
            assert_eq!(((sum >> i) & 1) + 2 * ((carry >> i) & 1), ones);
        }
    }
}

#[test]
fn row_reference_is_the_row_with_its_shifts() {
    assert_eq!(full_add_row_reference(0b0111u8), (0b1010, 0b0111));
    assert_eq!(
        full_add_row_reference(0xf0f0u16),
        full_add_reference(0xf0f0u16 << 1, 0xf0f0, 0xf0f0 >> 1)
    );
}

#[test]
fn partials_of_three_rows_give_the_next_row() {
    let (n1, n2, n3) = (0b0100u8, 0b0100u8, 0b0100u8);
    let next = cint_next_state_from_partials(
        n2,
        full_add_row_reference(n1),
        full_add_row_reference(n2),
        full_add_row_reference(n3),
    );
    assert_eq!(next, 0b1110);
    assert_eq!(cint_next_state1(n1, n2, n3, cint_next_state_from_partials), 0b1110);
    // the combining step is the caller's: here it hands the middle row back
    assert_eq!(cint_next_state1(1u8, 2, 3, |s, _, _, _| s), 2);
    // and here the sum digit of the row above
    assert_eq!(cint_next_state1(0b0111u8, 0, 0, |_, sum_above, _, _| sum_above.0), 0b1010);
}

#[test]
fn a_lone_cell_dies() {
    for k in 0..64 {
        assert_eq!(cint_next_state(0u64, 1 << k, 0), 0);
        assert_eq!(next_state_line_simple(0, 1 << k, 0), 0);
    }
    for k in 0..8 {
        assert_eq!(cint_next_state(0u8, 1 << k, 0), 0);
    }
}

#[test]
fn three_neighbours_bring_a_dead_cell_to_life() {
    // three above
    assert_eq!(cint_next_state(0b0111u64 << 20, 0, 0) >> 20, 0b0010);
    // one on each side and one below
    assert_eq!(cint_next_state(0u64, 0b0101 << 20, 0b0010 << 20) >> 20 & 0b0010, 0b0010);
    // two neighbours are not enough for a dead cell
    assert_eq!(cint_next_state(0b0011u64 << 20, 0, 0), 0);
    // four are too many
    assert_eq!(
        cint_next_state(0b0111u64 << 20, 0b0001 << 20, 0) >> 20 & 0b0010,
        0
    );
}

#[test]
fn two_or_three_neighbours_keep_a_live_cell_alive() {
    let mid = 0b0010u64 << 30;
    // two
    assert_eq!(cint_next_state(0b0001 << 30, mid, 0b0100 << 30) & mid, mid);
    // three
    assert_eq!(cint_next_state(0b0101 << 30, mid, 0b0100 << 30) & mid, mid);
    // one
    assert_eq!(cint_next_state(0b0001 << 30, mid, 0) & mid, 0);
    // four
    assert_eq!(cint_next_state(0b0111 << 30, mid, 0b0100 << 30) & mid, 0);
    // eight
    assert_eq!(
        cint_next_state(0b0111 << 30, 0b0111 << 30, 0b0111 << 30) & mid,
        0
    );
}

#[test]
fn columns_beyond_the_lane_are_dead() {
    // a bar along the first column: its middle cell has two neighbours,
    // and the column left of the lane gives it none
    assert_eq!(cint_next_state(1u64, 1, 1), 0b11);
    assert_eq!(cint_next_state(1u64 << 63, 1 << 63, 1 << 63), 0b11 << 62);
    assert_eq!(cint_next_state(0x81u8, 0x81, 0x81), 0xc3);
    assert_eq!(cint_next_state(0xffu8, 0xff, 0xff), 0);
}

#[test]
fn exact_rows_of_a_blinker() {
    assert_eq!(cint_next_state(0u64, 0b111 << 10, 0), 0x800);
    assert_eq!(cint_next_state(0b010u64 << 10, 0b010 << 10, 0b010 << 10), 0x1c00);
    assert_eq!(next_state_line_simple(0, 0b111 << 10, 0), 0x800);
    assert_eq!(next_state_line_simple(0b010 << 10, 0b010 << 10, 0b010 << 10), 0x1c00);
}

#[test]
fn the_dead_board_stays_dead() {
    let mut a = [0u64; 64];
    let mut a_next = [u64::MAX; 64];
    let mut b = [0u64; 64];
    let mut b_next = [u64::MAX; 64];
    for _ in 0..5 {
        update_board_simple(&mut a, &mut a_next);
        update_board_stream(&mut b, &mut b_next);
        assert_eq!(a, [0u64; 64]);
        assert_eq!(a_next, [0u64; 64]);
        assert_eq!(b, [0u64; 64]);
        assert_eq!(b_next, [0u64; 64]);
    }
    assert_eq!(cint_next_state(0u128, 0, 0), 0);
}

#[test]
fn board_updates_take_dead_rows_beyond_the_first_and_the_last() {
    // a horizontal bar in the first row: only its middle cell has two
    // neighbours, and below it a cell is born
    let mut board = [0u64; 64];
    board[0] = 0b111 << 4;
    board[63] = 0b111 << 40;
    let mut next = [0u64; 64];
    let mut expected = [0u64; 64];
    expected[0] = 0b010 << 4;
    expected[1] = 0b010 << 4;
    expected[62] = 0b010 << 40;
    expected[63] = 0b010 << 40;
    let mut stream_board = board;
    let mut stream_next = [0u64; 64];
    update_board_simple(&mut board, &mut next);
    update_board_stream(&mut stream_board, &mut stream_next);
    assert_eq!(board, expected);
    assert_eq!(next, expected);
    assert_eq!(stream_board, expected);
    assert_eq!(stream_next, expected);
}

#[test]
fn both_board_updates_agree_generation_by_generation() {
    for seed in [1u64, 2, 3, 0xdead_beef] {
        let mut rng = Prng(seed);
        let mut a = [(); 64].map(|_| rng.next());
        let mut a_next = [0u64; 64];
        let mut b = a;
        let mut b_next = [0u64; 64];
        for _ in 0..25 {
            update_board_simple(&mut a, &mut a_next);
            update_board_stream(&mut b, &mut b_next);
            assert_eq!(a, b);
        }
    }
}

#[test]
fn golden_first_draws_of_the_generator() {
    let mut rng = Prng(23849);
    let n1 = rng.next();
    let n2 = rng.next();
    let n3 = rng.next();
    assert_eq!(n1, 25719943215059);
    assert_eq!(n2, 9748917181194931068);
    assert_eq!(n3, 4396652681859003242);
    assert_eq!(cint_next_state(n1, n2, n3), next_state_line_simple(n1, n2, n3));
}
