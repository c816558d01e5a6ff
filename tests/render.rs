use r2048::{cell_text, Board, BoardError, TileStyle};

#[test]
fn cell_text_is_centred_in_nine_columns() {
    assert_eq!(cell_text(0), "         ");
    assert_eq!(cell_text(2), "    2    ");
    assert_eq!(cell_text(16), "   16    ");
    assert_eq!(cell_text(128), "   128   ");
    assert_eq!(cell_text(2048), "  2048   ");
    assert_eq!(cell_text(123456789), "123456789");
    assert_eq!(cell_text(1234567890), "1234567890");
    assert_eq!(cell_text(usize::MAX), usize::MAX.to_string());
}

#[test]
fn cell_text_matches_std_formatting() {
    for v in [1usize, 4, 8, 32, 64, 256, 512, 1024, 4096, 65536, 1 << 20] {
        assert_eq!(cell_text(v), format!("{:^9}", v));
    }
}

#[test]
fn render_draws_score_and_grid() {
    let b = Board {
        values: vec![
            2, 0, 0, 0,
            0, 16, 0, 0,
            0, 0, 0, 0,
            0, 0, 0, 2048,
        ],
        score: 36,
    };
    let pieces = b.render();
    let text: String = pieces.iter().map(|(t, _)| t.as_str()).collect();
    let sep = "+---------+---------+---------+---------+\n";
    let spacer = "|         |         |         |         |\n";
    let blank = "         ";
    let expected = format!(
        "Score: 36\n\
         {sep}{spacer}|    2    |{blank}|{blank}|{blank}|\n{spacer}\
         {sep}{spacer}|{blank}|   16    |{blank}|{blank}|\n{spacer}\
         {sep}{spacer}|{blank}|{blank}|{blank}|{blank}|\n{spacer}\
         {sep}{spacer}|{blank}|{blank}|{blank}|  2048   |\n{spacer}\
         {sep}"
    );
    assert_eq!(text, expected);
    assert_eq!(pieces.len(), 1 + 4 * 12 + 1);
    assert_eq!(pieces[4], ("    2    ".to_string(), TileStyle::Bright));
    assert_eq!(pieces[1 + 12 + 5].1, TileStyle::Red);
    assert_eq!(pieces[1 + 36 + 9].1, TileStyle::Green);
    assert!(pieces.iter().filter(|(t, _)| t.contains('|') || t.contains('+')).all(|(_, s)| *s == TileStyle::Plain));
}

#[test]
fn add_tile_at_fills_the_picked_empty_cell() {
    let mut b = Board {
        values: vec![2, 0, 4, 0, 2, 2, 2, 2, 2, 2, 2, 2, 2, 2, 2, 0],
        score: 3,
    };
    assert_eq!(b.add_tile_at(1, 10), Ok(()));
    assert_eq!(b.values[3], 4);
    assert_eq!(b.add_tile_at(1, 5), Ok(()));
    assert_eq!(b.values[15], 2);
    assert_eq!(b.add_tile_at(0, 1), Ok(()));
    assert_eq!(b.values[1], 2);
    assert_eq!(b.add_tile_at(0, 1), Err(BoardError::NoSpaceForTile));
    assert_eq!(b.score, 3);
}
