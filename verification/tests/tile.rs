use bit_squares::tile::{
    cint_next_state, full_add_reference, full_add_row_reference, half_add, next_state_line_simple,
    update_board_simple, update_board_stream,
};
use bit_squares::Prng;
use std::array::from_fn;

fn next_row_without_bitwise(n1: u64, n2: u64, n3: u64) -> u64 {
    let n1: [bool; 64] = from_fn(|i| n1 & (1 << i) != 0);
    let n2: [bool; 64] = from_fn(|i| n2 & (1 << i) != 0);
    let n3: [bool; 64] = from_fn(|i| n3 & (1 << i) != 0);

    let combined = [n1, n2, n3];

    let mut n_next: [bool; 64] = from_fn(|_| false);

    for (i, state) in n2.into_iter().enumerate() {
        let mut sum = 0;
        for (dy, dx) in [
            (2, -1),
            (2, 0),
            (2, 1),
            (1, -1),
            (1, 1),
            (0, -1),
            (0, 0),
            (0, 1),
        ] {
            sum += combined[dy]
                .get((dx + i as i32) as usize)
                .copied()
                .unwrap_or_default() as usize;
        }

        n_next[i] = (state && (sum == 2 || sum == 3)) || (!state && sum == 3);
    }

    n_next
        .into_iter()
        .enumerate()
        .fold(0, |acc, (i, b)| acc | ((b as u64) << i))
}

fn next_state_line_optimized(n1: u64, n2: u64, n3: u64) -> u64 {
    let s1 = full_add_row_reference(n1);
    let s2 = full_add_row_reference(n2);
    let s3 = full_add_row_reference(n3);

    let (r1, s4_1) = full_add_reference(s1.0, s2.0, s3.0);

    let s5 = half_add(s1.1, s2.1);
    let s6 = half_add(s3.1, s4_1);

    let (r2, s7_1) = half_add(s5.0, s6.0);

    let r3 = s5.1 ^ s6.1 ^ s7_1;
    let r4 = !((s5.1 & s6.1) ^ ((s5.1 ^ s6.1) & s7_1));

    (r1 & r2 & !r3 | !r1 & !r2 & r3 & n2) & r4
}

#[test]
fn test_bitwise() {
    let mut rng = Prng(23849);

    for _ in 0..1000 {
        let n1 = rng.next();
        let n2 = rng.next();
        let n3 = rng.next();
        let baseline = next_row_without_bitwise(n1, n2, n3);
        assert_eq!(baseline, next_state_line_simple(n1, n2, n3));
    }
}

#[test]
fn test_bitwise_optim() {
    let mut rng = Prng(23849489348);

    for _ in 0..1000 {
        let n1 = rng.next();
        let n2 = rng.next();
        let n3 = rng.next();
        let baseline = next_row_without_bitwise(n1, n2, n3);
        assert_eq!(baseline, next_state_line_optimized(n1, n2, n3));
        assert_eq!(baseline, cint_next_state(n1, n2, n3));
        assert_eq!(baseline, next_state_line_simple(n1, n2, n3));
    }
}

#[test]
fn test_full_board_update() {
    let seed = 314159265;

    for seed in seed..(seed + 10) {
        let mut rng = Prng(seed);
        let mut a_board = [(); 64].map(|_| rng.next());
        let mut a_next_board = [0.0; 64].map(|_| rng.next());
        let mut b_board = a_board;
        let mut b_next_board = a_next_board;
        for _ in 0..20 {
            update_board_simple(&mut a_board, &mut a_next_board);
            update_board_stream(&mut b_board, &mut b_next_board);
        }
        assert_eq!(a_board, b_board);
    }
}
