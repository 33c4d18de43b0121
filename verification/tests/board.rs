use bit_squares::board::Board;
use bit_squares::{Prng, Tile};
use std::collections::HashMap;

const H: usize = 8;

/// A plane of cells by the rule, cell by cell; the reference for the board.
fn naive_step(live: &HashMap<(i64, i64), bool>) -> HashMap<(i64, i64), bool> {
    let mut counts: HashMap<(i64, i64), u32> = HashMap::new();
    for (&(x, y), _) in live.iter() {
        for dy in -1..=1 {
            for dx in -1..=1 {
                if dx != 0 || dy != 0 {
                    *counts.entry((x + dx, y + dy)).or_insert(0) += 1;
                }
            }
        }
    }
    let mut next = HashMap::new();
    for (&cell, &n) in counts.iter() {
        if n == 3 || (n == 2 && live.contains_key(&cell)) {
            next.insert(cell, true);
        }
    }
    next
}

fn cells_of(board: &Board<H, u8>, from: i32, to: i32) -> HashMap<(i64, i64), bool> {
    let mut live = HashMap::new();
    for ty in from..=to {
        for tx in from..=to {
            let tile = board.get_tile((tx, ty));
            for r in 0..H {
                for i in 0..8 {
                    if (tile.row(r) >> i) & 1 == 1 {
                        let x = tx as i64 * 8 + i as i64;
                        let y = ty as i64 * H as i64 + r as i64;
                        live.insert((x, y), true);
                    }
                }
            }
        }
    }
    live
}

fn glider() -> Tile<H, u8> {
    Tile::from_rows([0, 0, 0b0010_0000, 0b0100_0000, 0b0111_0000, 0, 0, 0])
}

#[test]
fn the_new_board_is_dead_everywhere() {
    let board: Board<H, u8> = Board::new();
    assert_eq!(board.tiles_len(), 0);
    assert_eq!(board.pending_len(), 0);
    assert!(board.get_tile((0, 0)).is_zero());
    assert!(board.get_tile((i32::MAX, i32::MIN)).is_zero());
    assert!(!board.is_allocated((0, 0)));
    assert!(!board.is_pending((0, 0)));
}

#[test]
fn a_lookup_without_a_tile_gives_the_dead_tile() {
    let mut board: Board<H, u8> = Board::new();
    board.set_tile(&glider(), (3, -4));
    assert!(board.get_tile((30, 40)).is_zero());
    assert!(board.get_tile((5, -4)).is_zero());
    assert!(!board.is_allocated((5, -4)));
    assert!(board.get_tile((3, -4)) == glider());
}

#[test]
fn set_tile_keeps_the_last_value_written() {
    let mut board: Board<H, u8> = Board::new();
    let a = Tile::from_rows([1, 2, 3, 4, 5, 6, 7, 8]);
    let b = Tile::from_rows([8, 7, 6, 5, 4, 3, 2, 1]);
    board.set_tile(&a, (0, 0));
    board.set_tile(&b, (1, 0));
    assert!(board.get_tile((0, 0)) == a);
    assert!(board.get_tile((1, 0)) == b);
    board.set_tile(&b, (0, 0));
    assert!(board.get_tile((0, 0)) == b);
    assert!(board.get_tile((1, 0)) == b);
    board.set_tile(&Tile::new(), (1, 0));
    assert!(board.get_tile((1, 0)).is_zero());
    assert!(board.is_allocated((1, 0)));
    assert!(board.get_tile((0, 0)) == b);
    let mut rng = Prng(42);
    let mut written: HashMap<(i32, i32), [u8; H]> = HashMap::new();
    for _ in 0..200 {
        let coord = ((rng.next() % 5) as i32 - 2, (rng.next() % 5) as i32 - 2);
        let rows = [(); H].map(|_| if rng.next() % 4 == 0 { 0 } else { rng.next() as u8 });
        board.set_tile(&Tile::from_rows(rows), coord);
        written.insert(coord, rows);
        for (at, rows) in written.iter() {
            assert_eq!(board.get_tile(*at).rows(), rows);
        }
    }
}

#[test]
fn set_tile_adds_a_tile_at_the_next_free_index_and_the_tiles_around_it() {
    let mut board: Board<H, u8> = Board::new();
    board.set_tile(&glider(), (0, 0));
    // the tile and its eight neighbours
    assert_eq!(board.tiles_len(), 9);
    assert_eq!(board.pending_len(), 9);
    for y in -1..=1 {
        for x in -1..=1 {
            assert!(board.is_allocated((x, y)));
            assert!(board.is_pending((x, y)));
        }
    }
    assert!(!board.is_allocated((2, 0)));
    assert!(!board.is_pending((2, 0)));
    // beside it: three tiles more, nothing twice on the worklist
    board.set_tile(&glider(), (1, 0));
    assert_eq!(board.tiles_len(), 12);
    assert_eq!(board.pending_len(), 12);
    // over a tile that is there: updated in place
    board.set_tile(&glider(), (0, 0));
    assert_eq!(board.tiles_len(), 12);
    assert_eq!(board.pending_len(), 12);
}

#[test]
fn a_dead_tile_where_there_is_none_changes_nothing() {
    let mut board: Board<H, u8> = Board::new();
    board.set_tile(&Tile::new(), (7, 7));
    assert_eq!(board.tiles_len(), 0);
    assert_eq!(board.pending_len(), 0);
    assert!(!board.is_allocated((7, 7)));
}

#[test]
fn a_dead_tile_over_a_tile_adds_no_tiles() {
    let mut board: Board<H, u8> = Board::new();
    board.set_tile(&glider(), (0, 0));
    board.step();
    board.step();
    let before = board.tiles_len();
    board.set_tile(&Tile::new(), (0, 0));
    assert_eq!(board.tiles_len(), before);
    assert!(board.is_pending((0, 0)));
    assert!(board.is_pending((1, 1)));
    assert!(board.get_tile((0, 0)).is_zero());
}

#[test]
fn the_plane_ends_at_the_last_coordinate() {
    let mut board: Board<H, u8> = Board::new();
    board.set_tile(&glider(), (i32::MAX, i32::MAX));
    // of the eight neighbours only three lie on the plane
    assert_eq!(board.tiles_len(), 4);
    assert!(board.is_allocated((i32::MAX - 1, i32::MAX - 1)));
    board.set_tile(&glider(), (i32::MIN, i32::MIN));
    assert_eq!(board.tiles_len(), 8);
    for _ in 0..40 {
        board.step();
    }
    assert!(board.get_tile((i32::MAX - 1, i32::MAX)).is_zero());
}

#[test]
fn step_on_the_empty_board_does_nothing() {
    let mut board: Board<H, u8> = Board::new();
    board.step();
    assert_eq!(board.tiles_len(), 0);
    assert_eq!(board.pending_len(), 0);
}

#[test]
fn a_still_life_leaves_the_worklist() {
    // a block: two by two, stable
    let mut board: Board<H, u8> = Board::new();
    let block = Tile::from_rows([0, 0, 0b0001_1000, 0b0001_1000, 0, 0, 0, 0]);
    board.set_tile(&block, (0, 0));
    assert_eq!(board.pending_len(), 9);
    board.step();
    assert!(board.get_tile((0, 0)) == block);
    assert_eq!(board.pending_len(), 0);
    board.step();
    assert!(board.get_tile((0, 0)) == block);
    assert_eq!(board.tiles_len(), 9);
}

#[test]
fn a_blinker_keeps_its_tile_and_the_tiles_around_it_on_the_worklist() {
    let mut board: Board<H, u8> = Board::new();
    let flat = Tile::from_rows([0, 0, 0, 0b0011_1000, 0, 0, 0, 0]);
    let upright = Tile::from_rows([0, 0, 0b0001_0000, 0b0001_0000, 0b0001_0000, 0, 0, 0]);
    board.set_tile(&flat, (0, 0));
    for _ in 0..6 {
        board.step();
        assert!(board.get_tile((0, 0)) == upright);
        assert!(board.is_pending((0, 0)));
        assert_eq!(board.pending_len(), 9);
        board.step();
        assert!(board.get_tile((0, 0)) == flat);
    }
    assert_eq!(board.tiles_len(), 9);
}

#[test]
fn a_blinker_across_the_seam_of_two_tiles() {
    // cells 7 of tile (0, 0) and 0, 1 of tile (1, 0), all in row 3
    let mut board: Board<H, u8> = Board::new();
    board.set_tile(&Tile::from_rows([0, 0, 0, 0x80, 0, 0, 0, 0]), (0, 0));
    board.set_tile(&Tile::from_rows([0, 0, 0, 0x03, 0, 0, 0, 0]), (1, 0));
    board.step();
    assert!(board.get_tile((0, 0)).is_zero());
    assert!(board.get_tile((1, 0)) == Tile::from_rows([0, 0, 1, 1, 1, 0, 0, 0]));
    board.step();
    assert!(board.get_tile((0, 0)) == Tile::from_rows([0, 0, 0, 0x80, 0, 0, 0, 0]));
    assert!(board.get_tile((1, 0)) == Tile::from_rows([0, 0, 0, 0x03, 0, 0, 0, 0]));
}

#[test]
fn a_blinker_across_the_seam_of_two_rows_of_tiles() {
    // upright, cell 2: last row of tile (0, 0), rows 0 and 1 of tile (0, 1)
    let mut board: Board<H, u8> = Board::new();
    board.set_tile(&Tile::from_rows([0, 0, 0, 0, 0, 0, 0, 4]), (0, 0));
    board.set_tile(&Tile::from_rows([4, 4, 0, 0, 0, 0, 0, 0]), (0, 1));
    board.step();
    assert!(board.get_tile((0, 0)).is_zero());
    assert!(board.get_tile((0, 1)) == Tile::from_rows([0b1110, 0, 0, 0, 0, 0, 0, 0]));
    board.step();
    assert!(board.get_tile((0, 0)) == Tile::from_rows([0, 0, 0, 0, 0, 0, 0, 4]));
}

#[test]
fn a_birth_across_the_corner_of_four_tiles() {
    // three cells around the corner, one in each of three tiles: the
    // fourth tile gets the cell that is born, and so do the three
    let mut board: Board<H, u8> = Board::new();
    board.set_tile(&Tile::from_rows([0, 0, 0, 0, 0, 0, 0, 0x80]), (0, 0));
    board.set_tile(&Tile::from_rows([0, 0, 0, 0, 0, 0, 0, 0x01]), (1, 0));
    board.set_tile(&Tile::from_rows([0x80, 0, 0, 0, 0, 0, 0, 0]), (0, 1));
    board.step();
    // a block of four around the corner
    assert!(board.get_tile((0, 0)) == Tile::from_rows([0, 0, 0, 0, 0, 0, 0, 0x80]));
    assert!(board.get_tile((1, 0)) == Tile::from_rows([0, 0, 0, 0, 0, 0, 0, 0x01]));
    assert!(board.get_tile((0, 1)) == Tile::from_rows([0x80, 0, 0, 0, 0, 0, 0, 0]));
    assert!(board.get_tile((1, 1)) == Tile::from_rows([0x01, 0, 0, 0, 0, 0, 0, 0]));
    board.step();
    assert!(board.get_tile((1, 1)) == Tile::from_rows([0x01, 0, 0, 0, 0, 0, 0, 0]));
    assert_eq!(board.pending_len(), 0);
}

#[test]
fn a_glider_travels_from_tile_to_tile() {
    let mut board: Board<H, u8> = Board::new();
    board.set_tile(&glider(), (0, 0));
    let mut reference = cells_of(&board, -3, 3);
    assert_eq!(reference.len(), 5);
    for generation in 0..60 {
        board.step();
        reference = naive_step(&reference);
        assert_eq!(cells_of(&board, -4, 4), reference, "generation {}", generation);
        assert_eq!(reference.len(), 5);
    }
    // it has left the tile it started in
    assert!(board.get_tile((0, 0)).is_zero());
}

#[test]
fn a_random_soup_follows_the_rule_on_the_whole_plane() {
    for seed in [11u64, 12, 13] {
        let mut rng = Prng(seed);
        let mut board: Board<H, u8> = Board::new();
        for y in -1..=1 {
            for x in -1..=1 {
                let rows = [(); H].map(|_| (rng.next() & rng.next()) as u8);
                board.set_tile(&Tile::from_rows(rows), (x, y));
            }
        }
        let mut reference = cells_of(&board, -2, 2);
        for generation in 0..30 {
            board.step();
            reference = naive_step(&reference);
            let cells = cells_of(&board, -6, 6);
            assert_eq!(cells, reference, "seed {} generation {}", seed, generation);
        }
    }
}

#[test]
fn writing_between_generations_keeps_the_plane_right() {
    let mut rng = Prng(99);
    let mut board: Board<H, u8> = Board::new();
    board.set_tile(&glider(), (0, 0));
    for generation in 0..20 {
        let coord = ((rng.next() % 3) as i32 - 1, (rng.next() % 3) as i32 - 1);
        let rows = [(); H].map(|_| (rng.next() & rng.next() & rng.next()) as u8);
        board.set_tile(&Tile::from_rows(rows), coord);
        let reference = naive_step(&cells_of(&board, -8, 8));
        board.step();
        assert_eq!(cells_of(&board, -8, 8), reference, "generation {}", generation);
    }
}

#[test]
fn wide_lanes_and_tall_tiles() {
    let mut board: Board<3, u64> = Board::new();
    // a glider in 64-cell lanes, three rows to a tile
    board.set_tile(&Tile::from_rows([0b010 << 60, 0b100 << 60, 0b111 << 60]), (0, 0));
    let mut live = 0;
    for _ in 0..16 {
        board.step();
    }
    for y in -3..=3 {
        for x in -3..=3 {
            let tile = board.get_tile((x, y));
            for r in 0..3 {
                live += tile.row(r).count_ones();
            }
        }
    }
    assert_eq!(live, 5);
    assert!(board.get_tile((0, 0)).is_zero());
}
