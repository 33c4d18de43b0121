use bit_squares::tile::{cint_next_state, streaming_next_state, update_board_simple};
use bit_squares::window::{update_torus_simple, update_torus_stream, RowWindow};
use bit_squares::Prng;

#[test]
fn the_window_gives_the_row_before_the_one_it_is_fed() {
    let mut window: RowWindow<u8> = RowWindow::new();
    assert_eq!(window.finish(), None);
    assert_eq!(window.push(0), None);
    // closed here, the board is one dead row
    assert_eq!(window.finish(), Some(0));
    assert_eq!(window.push(0b0111), Some(0b0010));
    // the bar turns upright: one cell in its own row, one above, one below
    assert_eq!(window.close(0), Some(0b0010));
    assert_eq!(window.finish(), Some(0b0010));
    assert_eq!(window.push(0), Some(0b0010));
    assert_eq!(window.push(0), Some(0b0010));
    assert_eq!(window.push(0), Some(0));
    assert_eq!(window.finish(), Some(0));
}

#[test]
fn the_window_starts_below_a_dead_row_unless_seeded() {
    let mut dead_above: RowWindow<u8> = RowWindow::new();
    assert_eq!(dead_above.push(0), None);
    assert_eq!(dead_above.finish(), Some(0));
    let mut bar_above = RowWindow::seeded(0b0111u8);
    assert_eq!(bar_above.push(0), None);
    assert_eq!(bar_above.finish(), Some(0b0010));
    assert_eq!(bar_above.close(0b0111), Some(0));
    assert_eq!(bar_above.close(0b0100), Some(0b0100));
}

#[test]
fn the_window_gives_row_by_row_what_the_pipeline_gives_at_once() {
    let mut rng = Prng(2024);
    for n in [0usize, 1, 2, 3, 100] {
        let rows: Vec<u64> = (0..n).map(|_| rng.next()).collect();
        let mut window = RowWindow::new();
        let mut out = Vec::new();
        for (k, row) in rows.iter().enumerate() {
            let next = window.push(*row);
            assert_eq!(next.is_some(), k >= 1);
            if let Some(next) = next {
                let above = if k >= 2 { rows[k - 2] } else { 0 };
                assert_eq!(next, cint_next_state(above, rows[k - 1], rows[k]));
                out.push(next);
            }
        }
        let last = window.finish();
        assert_eq!(last.is_some(), n >= 1);
        out.extend(last);
        assert_eq!(out.len(), n);
        assert_eq!(out, streaming_next_state(&rows));
    }
}

#[test]
fn the_pipeline_is_the_row_by_row_update() {
    let mut rng = Prng(7);
    let mut board = [(); 64].map(|_| rng.next());
    let mut next_board = [0u64; 64];
    for _ in 0..10 {
        let streamed = streaming_next_state(&board);
        update_board_simple(&mut board, &mut next_board);
        assert_eq!(streamed, board.to_vec());
    }
}

fn naive_torus_step(board: &[u64; 64]) -> [u64; 64] {
    let mut next = [0u64; 64];
    for y in 0..64 {
        for x in 0..64i64 {
            let mut n = 0;
            for dy in [63, 0, 1] {
                for dx in [-1i64, 0, 1] {
                    if (dy, dx) == (0, 0) || x + dx < 0 || x + dx > 63 {
                        continue;
                    }
                    n += (board[(y + dy) % 64] >> (x + dx)) & 1;
                }
            }
            let alive = (board[y] >> x) & 1 == 1;
            if n == 3 || (alive && n == 2) {
                next[y] |= 1 << x;
            }
        }
    }
    next
}

#[test]
fn on_the_torus_the_last_row_is_above_the_first() {
    // a bar in the last row: a cell is born in the first row and in the
    // row before the last
    let mut board = [0u64; 64];
    board[63] = 0b111 << 8;
    let mut next = [0u64; 64];
    update_torus_simple(&mut board, &mut next);
    let mut expected = [0u64; 64];
    expected[62] = 0b010 << 8;
    expected[63] = 0b010 << 8;
    expected[0] = 0b010 << 8;
    assert_eq!(board, expected);
    assert_eq!(next, expected);
    // without the wrap the first row stays dead
    let mut flat = [0u64; 64];
    flat[63] = 0b111 << 8;
    update_board_simple(&mut flat, &mut next);
    assert_eq!(flat[0], 0);
}

#[test]
fn torus_row_by_row_and_torus_pipeline_agree_for_twenty_generations() {
    for seed in 314159265u64..314159275 {
        let mut rng = Prng(seed);
        let mut a = [(); 64].map(|_| rng.next());
        let mut a_next = [0u64; 64];
        let mut b = a;
        let mut b_next = [(); 64].map(|_| rng.next());
        let mut reference = a;
        for _ in 0..20 {
            update_torus_simple(&mut a, &mut a_next);
            update_torus_stream(&mut b, &mut b_next);
            reference = naive_torus_step(&reference);
            assert_eq!(a, b);
            assert_eq!(b, b_next);
            assert_eq!(a, reference);
        }
    }
}
