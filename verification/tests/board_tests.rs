use caro::board::{check_winner, is_board_full, new_board};
use caro::types::SymbolXO;

fn board_with(size: usize, cells: &[(usize, usize, i8)]) -> Vec<Vec<i8>> {
    let mut b = new_board(size);
    for &(x, y, v) in cells {
        b[y][x] = v;
    }
    b
}

#[test]
fn new_board_is_square_and_empty() {
    let b = new_board(15);
    assert_eq!(b.len(), 15);
    for row in &b {
        assert_eq!(row.len(), 15);
        assert!(row.iter().all(|&c| c == 0));
    }
    assert_eq!(new_board(0).len(), 0);
}

#[test]
fn five_in_a_row_horizontally_wins_for_x() {
    let b = board_with(15, &[(3, 7, 1), (4, 7, 1), (5, 7, 1), (6, 7, 1), (7, 7, 1)]);
    assert_eq!(check_winner(&b, 7, 7), Some(SymbolXO::X));
    assert_eq!(check_winner(&b, 3, 7), Some(SymbolXO::X));
    assert_eq!(check_winner(&b, 5, 7), Some(SymbolXO::X));
}

#[test]
fn four_in_a_row_does_not_win() {
    let b = board_with(15, &[(3, 7, 1), (4, 7, 1), (5, 7, 1), (6, 7, 1)]);
    assert_eq!(check_winner(&b, 6, 7), None);
}

#[test]
fn a_gap_breaks_the_line() {
    let b = board_with(15, &[(0, 0, 1), (1, 0, 1), (3, 0, 1), (4, 0, 1), (5, 0, 1)]);
    assert_eq!(check_winner(&b, 1, 0), None);
    assert_eq!(check_winner(&b, 3, 0), None);
}

#[test]
fn vertical_line_of_o_wins_for_o() {
    let b = board_with(15, &[(2, 10, -1), (2, 11, -1), (2, 12, -1), (2, 13, -1), (2, 14, -1)]);
    assert_eq!(check_winner(&b, 2, 12), Some(SymbolXO::O));
}

#[test]
fn falling_diagonal_wins() {
    let b = board_with(15, &[(0, 0, 1), (1, 1, 1), (2, 2, 1), (3, 3, 1), (4, 4, 1)]);
    assert_eq!(check_winner(&b, 2, 2), Some(SymbolXO::X));
}

#[test]
fn rising_diagonal_wins() {
    let b = board_with(15, &[(10, 4, -1), (11, 3, -1), (12, 2, -1), (13, 1, -1), (14, 0, -1)]);
    assert_eq!(check_winner(&b, 14, 0), Some(SymbolXO::O));
    assert_eq!(check_winner(&b, 10, 4), Some(SymbolXO::O));
}

#[test]
fn six_in_a_row_also_wins() {
    let b = board_with(
        15,
        &[(0, 5, 1), (1, 5, 1), (2, 5, 1), (3, 5, 1), (4, 5, 1), (5, 5, 1)],
    );
    assert_eq!(check_winner(&b, 0, 5), Some(SymbolXO::X));
}

#[test]
fn mixed_marks_do_not_win() {
    let b = board_with(15, &[(0, 0, 1), (1, 0, 1), (2, 0, -1), (3, 0, 1), (4, 0, 1)]);
    assert_eq!(check_winner(&b, 0, 0), None);
}

#[test]
fn empty_cell_has_no_winner() {
    let b = board_with(15, &[(0, 0, 1), (1, 0, 1), (2, 0, 1), (3, 0, 1), (4, 0, 1)]);
    assert_eq!(check_winner(&b, 7, 7), None);
}

#[test]
fn line_along_the_edge_stops_at_the_border() {
    let b = board_with(5, &[(0, 4, 1), (1, 4, 1), (2, 4, 1), (3, 4, 1), (4, 4, 1)]);
    assert_eq!(check_winner(&b, 4, 4), Some(SymbolXO::X));
}

#[test]
fn full_board_detection() {
    let mut b = new_board(2);
    assert!(!is_board_full(&b, 2));
    b[0][0] = 1;
    b[0][1] = -1;
    b[1][0] = -1;
    assert!(!is_board_full(&b, 2));
    b[1][1] = 1;
    assert!(is_board_full(&b, 2));
    assert!(is_board_full(&new_board(0), 0));
}

#[test]
fn full_board_reads_only_the_size_square() {
    let b = vec![vec![1, -1, 0, 0], vec![-1, 1, 0], vec![0, 0, 0]];
    assert!(is_board_full(&b, 2));
    assert!(!is_board_full(&b, 3));
    assert!(is_board_full(&b, 0));
}
