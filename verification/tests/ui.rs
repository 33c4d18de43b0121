use bit_squares::render_bits;

#[test]
fn render_packs_two_rows_into_one_line_of_glyphs() {
    // column 0: both dead, 1: top only, 2: bottom only, 3: both
    let text = render_bits(&[0b1010u64, 0b1100]);
    let expected: String = format!("\n\n {}{}{}{}\n", '▀', '▄', '█', " ".repeat(60));
    assert_eq!(text, expected);
}

#[test]
fn render_starts_with_two_empty_lines() {
    assert_eq!(render_bits::<0>(&[]), "\n\n");
    // a row without a partner is left out
    assert_eq!(render_bits(&[u64::MAX]), "\n\n");
}

#[test]
fn render_gives_one_line_per_pair_of_rows() {
    let text = render_bits(&[u64::MAX, u64::MAX, 0, 0, u64::MAX, 0, 1 << 63, 1]);
    let lines: Vec<&str> = text.split('\n').collect();
    assert_eq!(lines.len(), 7);
    assert_eq!(lines[0], "");
    assert_eq!(lines[1], "");
    assert_eq!(lines[2], "█".repeat(64));
    assert_eq!(lines[3], " ".repeat(64));
    assert_eq!(lines[4], "▀".repeat(64));
    assert_eq!(lines[5], format!("▄{}▀", " ".repeat(62)));
    assert_eq!(lines[6], "");
    assert_eq!(text.chars().count(), 2 + 4 * 65);
}
