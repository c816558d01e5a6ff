use r2048::{transpose, push_zeros, score_row, Board};

fn new_test_board() -> Board {
    Board {
        values: vec![
            8, 8, 0, 2,
            8, 2, 8, 0,
            2, 0, 2, 0,
            2, 4, 4, 0,
        ],
        score: 0,
    }
}

#[test]
fn board_should_shift_left() {
    let mut b = new_test_board();
    b.shift_left().unwrap();
    assert_eq!(b.values, &[
        16, 2, 0, 0,
        8, 2, 8, 0,
        4, 0, 0, 0,
        2, 8, 0, 0,
    ]);
    assert_eq!(b.score, 28);
}

#[test]
fn board_should_shift_right() {
    let mut b = new_test_board();
    b.shift_right().unwrap();
    assert_eq!(b.values, &[
        0, 0, 16, 2,
        0, 8, 2, 8,
        0, 0, 0, 4,
        0, 0, 2, 8,
    ]);
    assert_eq!(b.score, 28);
}

#[test]
fn board_should_shift_up() {
    let mut b = new_test_board();
    b.shift_up().unwrap();
    assert_eq!(b.values, &[
        16, 8, 8, 2,
        4,  2, 2, 0,
        0,  4, 4, 0,
        0,  0, 0, 0,
    ]);
    assert_eq!(b.score, 20);
}

#[test]
fn board_should_shift_down() {
    let mut b = new_test_board();
    b.shift_down().unwrap();
    assert_eq!(b.values, &[
        0,  0, 0, 0,
        0,  8, 8, 0,
        16, 2, 2, 0,
        4,  4, 4, 2,
    ]);
    assert_eq!(b.score, 20);
}

#[test]
fn should_transpose() {
    assert_eq!(
        transpose(&[
            2, 1, 2, 3,
            4, 1, 2, 3,
            8, 1, 2, 3,
            2, 1, 2, 3,
        ]), &[
            2, 4, 8, 2,
            1, 1, 1, 1,
            2, 2, 2, 2,
            3, 3, 3, 3,
        ]);
}

#[test]
fn new_board_should_have_2_tiles_with_values() {
    let b = Board::new();
    assert_eq!(b.values.iter().filter(|v| [2, 4].contains(v)).count(), 2);
}

#[test]
fn should_push_zeros() {
    assert_eq!(push_zeros(&[0, 0, 0, 0]), &[0, 0, 0, 0]);
    assert_eq!(push_zeros(&[2, 0, 2, 0]), &[2, 2, 0, 0]);
    assert_eq!(push_zeros(&[0, 2, 4, 2]), &[2, 4, 2, 0]);
    assert_eq!(push_zeros(&[0, 0, 7, 0]), &[7, 0, 0, 0]);
}

#[test]
fn should_score_row() {
    assert_eq!(score_row(&[2, 0, 0, 4]), (vec![2, 4, 0, 0], 0));
    assert_eq!(score_row(&[2, 0, 2, 0]), (vec![4, 0, 0, 0], 4));
    assert_eq!(score_row(&[2, 2, 2, 0]), (vec![4, 2, 0, 0], 4));
    assert_eq!(score_row(&[2, 2, 4, 4]), (vec![4, 8, 0, 0], 12));
    assert_eq!(score_row(&[4, 4, 32, 8]), (vec![8, 32, 8, 0], 8));
    assert_eq!(score_row(&[0, 256, 256, 8]), (vec![512, 8, 0, 0], 512));
}
