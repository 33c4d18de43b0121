use bit_squares::Tile;

#[test]
fn the_new_tile_is_zero() {
    let tile: Tile<4, u64> = Tile::new();
    assert!(tile.is_zero());
    assert_eq!(tile.rows(), &[0u64; 4]);
    let small: Tile<0, u8> = Tile::new();
    assert!(small.is_zero());
}

#[test]
fn a_tile_with_one_live_cell_is_not_zero() {
    for r in 0..4 {
        let mut rows = [0u16; 4];
        rows[r] = 1 << (3 * r);
        let tile = Tile::from_rows(rows);
        assert!(!tile.is_zero());
        assert_eq!(tile.row(r), 1 << (3 * r));
        assert_eq!(tile.rows(), &rows);
    }
}

#[test]
fn tiles_are_equal_when_their_rows_are() {
    let a = Tile::from_rows([1u8, 2, 3]);
    let b = Tile::from_rows([1u8, 2, 3]);
    let c = Tile::from_rows([1u8, 2, 4]);
    assert!(a == b);
    assert!(a != c);
    assert!(a.clone() == a);
    assert!(Tile::<3, u8>::new() == Tile::from_rows([0, 0, 0]));
}
