//! Conway's Game of Life on bit-packed rows.
//!
//! A row of cells is one lane: a machine word with one cell per bit. The
//! next generation of a row is computed for all its cells at once, by
//! carry-save adders made of bitwise operations, and is proved to be what
//! the rule of the automaton gives cell by cell. On top of the row
//! transition stand a streaming pipeline over boards of rows and a sparse
//! board of tiles that recomputes only where something changed.

pub mod board;
pub mod int_lib;
pub mod life;
pub mod prng;
pub mod tile;
pub mod ui;
pub mod wide;
pub mod window;

pub use board::Board;
pub use int_lib::Int;
pub use int_lib::Lane;
pub use prng::Prng;
pub use tile::streaming_next_state;
pub use tile::Tile;
pub use ui::render_bits;
