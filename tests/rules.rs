use r2048::{push_zeros, score_row, tile_style, transpose, Board, BoardError, TileStyle};

fn stuck_board() -> Board {
    Board {
        values: vec![
            2, 4, 2, 4,
            4, 2, 4, 2,
            2, 4, 2, 4,
            4, 2, 4, 2,
        ],
        score: 7,
    }
}

#[test]
fn compaction_keeps_tiles_in_order() {
    let row = [0, 8, 0, 2];
    let out = push_zeros(&row);
    assert_eq!(out, vec![8, 2, 0, 0]);
    assert_eq!(out.len(), row.len());
    assert_eq!(out.iter().filter(|v| **v == 0).count(), 2);
}

#[test]
fn compaction_of_full_row_is_identity() {
    assert_eq!(push_zeros(&[2, 4, 8, 16]), vec![2, 4, 8, 16]);
}

#[test]
fn reducing_a_settled_row_changes_nothing() {
    assert_eq!(score_row(&[2, 4, 8, 0]), (vec![2, 4, 8, 0], 0));
    assert_eq!(score_row(&[16, 8, 16, 8]), (vec![16, 8, 16, 8], 0));
    assert_eq!(score_row(&[0, 0, 0, 0]), (vec![0, 0, 0, 0], 0));
}

#[test]
fn merged_tiles_do_not_merge_again() {
    assert_eq!(score_row(&[2, 2, 2, 2]), (vec![4, 4, 0, 0], 8));
    assert_eq!(score_row(&[4, 2, 2, 0]), (vec![4, 4, 0, 0], 4));
}

#[test]
fn transposing_twice_gives_the_grid_back() {
    let grid: Vec<usize> = (0..16).map(|k| k * 3 + 1).collect();
    let once = transpose(&grid);
    assert_ne!(once, grid);
    assert_eq!(once[1], grid[4]);
    assert_eq!(transpose(&once), grid);
}

#[test]
fn right_shift_mirrors_left_shift() {
    let rows = [[2, 2, 4, 0], [0, 4, 4, 4], [8, 0, 8, 2], [2, 4, 8, 16]];
    let mut right = Board { values: rows.concat(), score: 0 };
    right.shift_right().unwrap();
    let mirrored: Vec<usize> = rows.iter().flat_map(|r| r.iter().rev().copied()).collect();
    let mut left = Board { values: mirrored, score: 0 };
    left.shift_left().unwrap();
    let back: Vec<usize> = left.values.chunks(4).flat_map(|r| r.iter().rev().copied()).collect();
    assert_eq!(right.values, back);
    assert_eq!(right.score, left.score);
    assert_eq!(right.score, 4 + 8 + 16);
}

#[test]
fn score_adds_up_across_shifts() {
    let mut b = Board {
        values: vec![
            2, 2, 0, 0,
            2, 2, 0, 0,
            0, 0, 0, 0,
            0, 0, 0, 0,
        ],
        score: 10,
    };
    b.shift_left().unwrap();
    assert_eq!(b.score, 10 + 4 + 4);
    assert_eq!(b.values[..8], [4, 0, 0, 0, 4, 0, 0, 0]);
    b.shift_up().unwrap();
    assert_eq!(b.score, 18 + 8);
    assert_eq!(b.values[..8], [8, 0, 0, 0, 0, 0, 0, 0]);
    b.shift_right().unwrap();
    assert_eq!(b.score, 26);
    assert_eq!(b.values[..4], [0, 0, 0, 8]);
    b.shift_down().unwrap();
    assert_eq!(b.score, 26);
    assert_eq!(b.values[12..], [0, 0, 0, 8]);
}

#[test]
fn stuck_board_does_not_move() {
    for shift in [Board::shift_left, Board::shift_right, Board::shift_up, Board::shift_down] {
        let mut b = stuck_board();
        shift(&mut b).unwrap();
        assert_eq!(b.values, stuck_board().values);
        assert_eq!(b.score, 7);
    }
}

#[test]
fn full_board_has_no_space_for_tile() {
    let mut b = stuck_board();
    assert_eq!(b.add_random_tile(), Err(BoardError::NoSpaceForTile));
    assert_eq!(b.values, stuck_board().values);
    assert!(b.empty_cells().is_empty());
}

#[test]
fn random_tile_fills_the_only_empty_cell() {
    for _ in 0..20 {
        let mut b = stuck_board();
        b.values[9] = 0;
        assert_eq!(b.add_random_tile(), Ok(()));
        assert!(b.values[9] == 2 || b.values[9] == 4);
        let mut rest = b.values.clone();
        rest[9] = 4;
        assert_eq!(rest, stuck_board().values);
        assert_eq!(b.score, 7);
    }
}

#[test]
fn random_tile_never_overwrites_a_tile() {
    for _ in 0..20 {
        let mut b = Board::new();
        let before = b.values.clone();
        b.add_random_tile().unwrap();
        let changed: Vec<usize> = (0..16).filter(|&k| b.values[k] != before[k]).collect();
        assert_eq!(changed.len(), 1);
        assert_eq!(before[changed[0]], 0);
        assert!([2, 4].contains(&b.values[changed[0]]));
    }
}

#[test]
fn new_board_has_score_zero_and_two_seeds() {
    let b = Board::new();
    assert_eq!(b.score, 0);
    assert_eq!(b.values.len(), 16);
    assert_eq!(b.values.iter().filter(|v| **v == 0).count(), 14);
}

#[test]
fn empty_cells_lists_zero_indices() {
    let b = Board {
        values: vec![2, 0, 0, 4, 0, 2, 2, 2, 2, 2, 2, 2, 2, 2, 2, 0],
        score: 0,
    };
    assert_eq!(b.empty_cells(), vec![1, 2, 4, 15]);
}

#[test]
fn placing_a_tile_uses_the_roll() {
    let mut b = Board { values: vec![0; 16], score: 0 };
    b.place_tile(5, 10);
    b.place_tile(6, 1);
    b.place_tile(7, 9);
    assert_eq!(b.values[5], 4);
    assert_eq!(b.values[6], 2);
    assert_eq!(b.values[7], 2);
    assert_eq!(r2048::board::tile_for_roll(10), 4);
    assert_eq!(r2048::board::tile_for_roll(3), 2);
}

#[test]
fn headroom_check_detects_overflow() {
    let b = new_board_with_score(0);
    assert!(b.check_headroom());
    let b = new_board_with_score(usize::MAX - 4);
    assert!(b.check_headroom());
    let b = new_board_with_score(usize::MAX - 3);
    assert!(!b.check_headroom());
}

fn new_board_with_score(score: usize) -> Board {
    let mut values = vec![0; 16];
    values[0] = 2;
    values[15] = 2;
    Board { values, score }
}

#[test]
fn tile_styles_follow_the_table() {
    assert_eq!(tile_style(0), TileStyle::Plain);
    assert_eq!(tile_style(2), TileStyle::Bright);
    assert_eq!(tile_style(4), TileStyle::Plain);
    assert_eq!(tile_style(8), TileStyle::Magenta);
    assert_eq!(tile_style(64), TileStyle::OnRed);
    assert_eq!(tile_style(2048), TileStyle::Green);
    assert_eq!(tile_style(4096), TileStyle::OnGreen);
}

#[test]
fn stuck_board_shifts_even_at_the_largest_score() {
    for shift in [Board::shift_left, Board::shift_right, Board::shift_up, Board::shift_down] {
        let mut b = stuck_board();
        b.score = usize::MAX;
        shift(&mut b).unwrap();
        assert_eq!(b.values, stuck_board().values);
        assert_eq!(b.score, usize::MAX);
    }
}

#[test]
fn settled_row_with_huge_values_is_unchanged() {
    let big = 1usize << (usize::BITS - 1);
    assert_eq!(score_row(&[big, big / 2, big, 0]), (vec![big, big / 2, big, 0], 0));
}
