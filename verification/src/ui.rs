//! A board as text: two rows of cells to one line of half-block glyphs.

use crate::int_lib::Lane;
use vstd::prelude::*;

verus! {

/// The glyph for a column whose upper cell is `top` and whose lower cell is
/// `bottom`: blank, upper half block, lower half block or full block.
pub open spec fn glyph(top: bool, bottom: bool) -> char {
    if top && bottom {
        '\u{2588}'
    } else if top {
        '\u{2580}'
    } else if bottom {
        '\u{2584}'
    } else {
        ' '
    }
}

/// One line of text for the rows `top` and `bottom`: 64 glyphs, from cell 0
/// on, and a line feed.
pub open spec fn rendered_line(top: u64, bottom: u64) -> Seq<char> {
    Seq::new(64, |j: int| glyph(top.bit(j), bottom.bit(j))).push('\n')
}

/// Two line feeds, then the lines for the first `n` pairs of rows.
pub open spec fn rendered_lines(rows: Seq<u64>, n: nat) -> Seq<char>
    decreases n,
{
    if n == 0 {
        seq!['\n', '\n']
    } else {
        rendered_lines(rows, (n - 1) as nat) + rendered_line(
            rows[2 * (n - 1)],
            rows[2 * (n - 1) + 1],
        )
    }
}

/// The text for a board: two line feeds, then one line for every two rows.
/// A last row without a partner is left out.
pub open spec fn rendered(rows: Seq<u64>) -> Seq<char> {
    rendered_lines(rows, rows.len() / 2)
}

/// `String::push` appends one character to the string.
pub assume_specification[ String::push ](s: &mut String, ch: char)
    ensures
        final(s)@ == old(s)@.push(ch),
;

/// The glyph for one column.
fn glyph_of(top: bool, bottom: bool) -> (c: char)
    ensures
        c == glyph(top, bottom),
{
    match (top, bottom) {
        (false, false) => ' ',
        (true, false) => '\u{2580}',
        (false, true) => '\u{2584}',
        (true, true) => '\u{2588}',
    }
}

/// Renders a board of 64-cell rows as text, two rows to a line.
pub fn render_bits<const LEN: usize>(arr: &[u64; LEN]) -> (buffer: String)
    ensures
        buffer@ == rendered(arr@),
{
    let mut buffer = String::new();
    buffer.push('\n');
    buffer.push('\n');
    proof {
        assert(buffer@ =~= rendered_lines(arr@, 0));
    }
    for i in 0..LEN / 2
        invariant
            buffer@ == rendered_lines(arr@, i as nat),
    {
        let top = arr[i * 2];
        let bottom = arr[i * 2 + 1];
        let ghost line_start = buffer@;
        for j in 0..64u64
            invariant
                buffer@ == line_start + Seq::new(
                    j as nat,
                    |k: int| glyph(top.bit(k), bottom.bit(k)),
                ),
        {
            let c = glyph_of((top >> j) & 1 != 0, (bottom >> j) & 1 != 0);
            proof {
                assert(((top >> j) & 1 != 0) == ((top >> j) & 1 == 1)) by (bit_vector);
                assert(((bottom >> j) & 1 != 0) == ((bottom >> j) & 1 == 1)) by (bit_vector);
            }
            buffer.push(c);
            proof {
                assert(buffer@ =~= line_start + Seq::new(
                    (j + 1) as nat,
                    |k: int| glyph(top.bit(k), bottom.bit(k)),
                ));
            }
        }
        buffer.push('\n');
        proof {
            assert(buffer@ =~= rendered_lines(arr@, i as nat) + rendered_line(top, bottom));
        }
    }
    buffer
}

} // verus!
