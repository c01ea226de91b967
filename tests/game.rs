use fourai::game::{Board, Spot};
use fourai::helpers::parse_column;

#[test]
fn forward_diagonal_1() {
    let mut board = Board::new();
    assert_eq!((true, None), board.insert_top(3, Spot::RED));
    assert_eq!((true, None), board.insert_top(2, Spot::YELLOW));
    assert_eq!((true, None), board.insert_top(2, Spot::RED));
    assert_eq!((true, None), board.insert_top(2, Spot::YELLOW));
    assert_eq!((true, None), board.insert_top(3, Spot::RED));
    assert_eq!((true, None), board.insert_top(3, Spot::RED));
    assert_eq!((true, None), board.insert_top(3, Spot::YELLOW));
    assert_eq!((true, None), board.insert_top(4, Spot::RED));
    assert_eq!((true, None), board.insert_top(4, Spot::RED));
    assert_eq!((true, None), board.insert_top(4, Spot::RED));
    assert_eq!((true, Some(Spot::RED)), board.insert_top(4, Spot::RED));
}

#[test]
fn forward_diagonal_2() {
    let mut board = Board::new();
    assert_eq!((true, None), board.insert_top(0, Spot::RED));
    assert_eq!((true, None), board.insert_top(0, Spot::RED));
    assert_eq!((true, None), board.insert_top(1, Spot::RED));
    assert_eq!((true, None), board.insert_top(1, Spot::YELLOW));
    assert_eq!((true, None), board.insert_top(1, Spot::RED));
    assert_eq!((true, None), board.insert_top(2, Spot::RED));
    assert_eq!((true, None), board.insert_top(2, Spot::RED));
    assert_eq!((true, None), board.insert_top(2, Spot::RED));
    assert_eq!((true, None), board.insert_top(2, Spot::YELLOW));
    assert_eq!((true, None), board.insert_top(3, Spot::YELLOW));
    assert_eq!((true, None), board.insert_top(3, Spot::RED));
    assert_eq!((true, None), board.insert_top(3, Spot::RED));
    assert_eq!((true, None), board.insert_top(3, Spot::RED));
    assert_eq!((true, None), board.insert_top(3, Spot::YELLOW));

    assert_eq!((true, None), board.insert_top(0, Spot::YELLOW));
    assert_eq!((true, None), board.insert_top(1, Spot::YELLOW));
    assert_eq!((true, None), board.insert_top(2, Spot::YELLOW));
    assert_eq!(
        (true, Some(Spot::YELLOW)),
        board.insert_top(3, Spot::YELLOW)
    );
}

#[test]
fn forward_diagonal_3() {
    let mut board = Board::new();
    assert_eq!((true, None), board.insert_top(1, Spot::RED));
    assert_eq!((true, None), board.insert_top(2, Spot::RED));
    assert_eq!((true, None), board.insert_top(2, Spot::RED));
    assert_eq!((true, None), board.insert_top(3, Spot::RED));
    assert_eq!((true, None), board.insert_top(3, Spot::RED));
    assert_eq!((true, None), board.insert_top(3, Spot::RED));
    assert_eq!((true, None), board.insert_top(0, Spot::YELLOW));
    assert_eq!((true, None), board.insert_top(1, Spot::YELLOW));
    assert_eq!((true, None), board.insert_top(2, Spot::YELLOW));
    assert_eq!(
        (true, Some(Spot::YELLOW)),
        board.insert_top(3, Spot::YELLOW)
    );
}

#[test]
fn backward_diagonal_1() {
    let mut board = Board::new();
    assert_eq!((true, None), board.insert_top(5, Spot::RED));
    assert_eq!((true, None), board.insert_top(4, Spot::RED));
    assert_eq!((true, None), board.insert_top(4, Spot::RED));
    assert_eq!((true, None), board.insert_top(3, Spot::RED));
    assert_eq!((true, None), board.insert_top(3, Spot::RED));
    assert_eq!((true, None), board.insert_top(3, Spot::RED));
    assert_eq!((true, None), board.insert_top(6, Spot::YELLOW));
    assert_eq!((true, None), board.insert_top(5, Spot::YELLOW));
    assert_eq!((true, None), board.insert_top(4, Spot::YELLOW));
    assert_eq!(
        (true, Some(Spot::YELLOW)),
        board.insert_top(3, Spot::YELLOW)
    );
}

#[test]
fn edgecase_1() {
    let mut board = Board::new();

    assert_eq!((true, None), board.insert_top(6, Spot::RED));
    assert_eq!((true, None), board.insert_top(6, Spot::YELLOW));
    assert_eq!((true, None), board.insert_top(6, Spot::RED));
    assert_eq!((true, None), board.insert_top(6, Spot::YELLOW));
    assert_eq!((true, None), board.insert_top(5, Spot::RED));
    assert_eq!((true, None), board.insert_top(5, Spot::YELLOW));
    assert_eq!((true, None), board.insert_top(5, Spot::RED));
    assert_eq!((true, None), board.insert_top(5, Spot::YELLOW));
    assert_eq!((true, None), board.insert_top(5, Spot::RED));
    assert_eq!((true, None), board.insert_top(5, Spot::YELLOW));
    assert_eq!((true, None), board.insert_top(4, Spot::RED));
    assert_eq!((true, None), board.insert_top(4, Spot::YELLOW));
    assert_eq!((true, None), board.insert_top(4, Spot::RED));
    assert_eq!((true, None), board.insert_top(4, Spot::YELLOW));
    assert_eq!((true, None), board.insert_top(4, Spot::RED));
    assert_eq!((true, None), board.insert_top(4, Spot::YELLOW));

    assert_eq!((true, None), board.insert_top(0, Spot::RED));
    assert_eq!((true, None), board.insert_top(0, Spot::YELLOW));
    assert_eq!((true, None), board.insert_top(0, Spot::RED));
    assert_eq!((true, None), board.insert_top(0, Spot::YELLOW));
    assert_eq!((true, None), board.insert_top(0, Spot::RED));
}

#[test]
fn backward_diagonal_2() {
    let mut board = Board::new();
    assert_eq!((true, None), board.insert_top(4, Spot::RED));
    assert_eq!((true, None), board.insert_top(3, Spot::RED));
    assert_eq!((true, None), board.insert_top(3, Spot::RED));
    assert_eq!((true, None), board.insert_top(2, Spot::RED));
    assert_eq!((true, None), board.insert_top(2, Spot::RED));
    assert_eq!((true, None), board.insert_top(2, Spot::RED));
    assert_eq!((true, None), board.insert_top(5, Spot::YELLOW));
    assert_eq!((true, None), board.insert_top(4, Spot::YELLOW));
    assert_eq!((true, None), board.insert_top(3, Spot::YELLOW));
    assert_eq!(
        (true, Some(Spot::YELLOW)),
        board.insert_top(2, Spot::YELLOW)
    );
}

#[test]
fn backward_diagonal_3() {
    let mut board = Board::new();
    assert_eq!((true, None), board.insert_top(6, Spot::RED));
    assert_eq!((true, None), board.insert_top(6, Spot::RED));
    assert_eq!((true, None), board.insert_top(5, Spot::YELLOW));
    assert_eq!((true, None), board.insert_top(5, Spot::YELLOW));
    assert_eq!((true, None), board.insert_top(5, Spot::RED));
    assert_eq!((true, None), board.insert_top(4, Spot::RED));
    assert_eq!((true, None), board.insert_top(4, Spot::YELLOW));
    assert_eq!((true, None), board.insert_top(4, Spot::RED));
    assert_eq!((true, None), board.insert_top(4, Spot::YELLOW));
    assert_eq!((true, None), board.insert_top(3, Spot::RED));
    assert_eq!((true, None), board.insert_top(3, Spot::YELLOW));
    assert_eq!((true, None), board.insert_top(3, Spot::RED));
    assert_eq!((true, None), board.insert_top(3, Spot::RED));
    assert_eq!((true, None), board.insert_top(3, Spot::RED));
    assert_eq!((true, None), board.insert_top(3, Spot::YELLOW));
    assert_eq!((true, None), board.insert_top(4, Spot::YELLOW));
    assert_eq!((true, None), board.insert_top(5, Spot::YELLOW));
    assert_eq!(
        (true, Some(Spot::YELLOW)),
        board.insert_top(6, Spot::YELLOW)
    );
}

#[test]
fn vertical_1() {
    let mut board = Board::new();
    assert_eq!((true, None), board.insert_top(0, Spot::RED));
    assert_eq!((true, None), board.insert_top(0, Spot::RED));
    assert_eq!((true, None), board.insert_top(0, Spot::RED));
    assert_eq!((true, Some(Spot::RED)), board.insert_top(0, Spot::RED));
}

#[test]
fn vertical_2() {
    let mut board = Board::new();
    assert_eq!((true, None), board.insert_top(0, Spot::RED));
    assert_eq!((true, None), board.insert_top(0, Spot::YELLOW));
    assert_eq!((true, None), board.insert_top(0, Spot::RED));
    assert_eq!((true, None), board.insert_top(0, Spot::RED));
}

#[test]
fn vertical_3() {
    let mut board = Board::new();
    assert_eq!((true, None), board.insert_top(0, Spot::YELLOW));
    assert_eq!((true, None), board.insert_top(0, Spot::RED));
    assert_eq!((true, None), board.insert_top(0, Spot::RED));
    assert_eq!((true, None), board.insert_top(0, Spot::RED));
    assert_eq!((true, Some(Spot::RED)), board.insert_top(0, Spot::RED));
}

#[test]
fn horizontal_1() {
    let mut board = Board::new();
    assert_eq!((true, None), board.insert_top(0, Spot::RED));
    assert_eq!((true, None), board.insert_top(1, Spot::YELLOW));
    assert_eq!((true, None), board.insert_top(2, Spot::RED));
    assert_eq!((true, None), board.insert_top(3, Spot::RED));
}

#[test]
fn horizontal_2() {
    let mut board = Board::new();
    assert_eq!((true, None), board.insert_top(0, Spot::RED));
    assert_eq!((true, None), board.insert_top(1, Spot::RED));
    assert_eq!((true, None), board.insert_top(2, Spot::RED));
    assert_eq!((true, Some(Spot::RED)), board.insert_top(3, Spot::RED));
}

#[test]
fn horizontal_3() {
    let mut board = Board::new();
    assert_eq!((true, None), board.insert_top(0, Spot::RED));
    assert_eq!((true, None), board.insert_top(1, Spot::YELLOW));
    assert_eq!((true, None), board.insert_top(2, Spot::RED));
    assert_eq!((true, None), board.insert_top(3, Spot::YELLOW));
    assert_eq!((true, None), board.insert_top(0, Spot::RED));
    assert_eq!((true, None), board.insert_top(1, Spot::RED));
    assert_eq!((true, None), board.insert_top(2, Spot::RED));
    assert_eq!((true, Some(Spot::RED)), board.insert_top(3, Spot::RED));
}

#[test]
fn overflow_test() {
    let mut board = Board::new();
    assert_eq!((true, None), board.insert_top(0, Spot::RED));
    assert_eq!((true, None), board.insert_top(0, Spot::YELLOW));
    assert_eq!((true, None), board.insert_top(0, Spot::RED));
    assert_eq!((true, None), board.insert_top(0, Spot::RED));
    assert_eq!((true, None), board.insert_top(0, Spot::YELLOW));
    assert_eq!((true, None), board.insert_top(0, Spot::RED));
    assert_eq!((false, None), board.insert_top(0, Spot::YELLOW));
}

#[test]
fn scenario_vertical_win_in_column_three() {
    let mut board = Board::new();
    assert_eq!((true, None), board.insert_top(3, Spot::RED));
    assert_eq!((true, None), board.insert_top(3, Spot::RED));
    assert_eq!((true, None), board.insert_top(3, Spot::RED));
    assert_eq!((true, Some(Spot::RED)), board.insert_top(3, Spot::RED));
}

#[test]
fn bottom_row_four_is_a_win() {
    // Four RED pieces side by side on the bottom row lie on one line through
    // the last one placed, so the fourth insertion wins.
    let mut board = Board::new();
    assert_eq!((true, None), board.insert_top(0, Spot::RED));
    assert_eq!((true, None), board.insert_top(1, Spot::RED));
    assert_eq!((true, None), board.insert_top(2, Spot::RED));
    assert_eq!((true, Some(Spot::RED)), board.insert_top(3, Spot::RED));
}

#[test]
fn scattered_pieces_are_no_win() {
    let mut board = Board::new();
    assert_eq!((true, None), board.insert_top(0, Spot::RED));
    assert_eq!((true, None), board.insert_top(2, Spot::RED));
    assert_eq!((true, None), board.insert_top(4, Spot::RED));
    assert_eq!((true, None), board.insert_top(6, Spot::RED));
    assert_eq!((true, None), board.insert_top(1, Spot::YELLOW));
    assert_eq!((true, None), board.insert_top(1, Spot::RED));
    assert_eq!((true, None), board.insert_top(1, Spot::RED));
    assert_eq!((true, None), board.insert_top(1, Spot::RED));
}

#[test]
fn five_in_a_row_is_a_win() {
    let mut board = Board::new();
    assert_eq!((true, None), board.insert_top(0, Spot::RED));
    assert_eq!((true, None), board.insert_top(1, Spot::RED));
    assert_eq!((true, None), board.insert_top(3, Spot::RED));
    assert_eq!((true, None), board.insert_top(4, Spot::RED));
    assert_eq!((true, Some(Spot::RED)), board.insert_top(2, Spot::RED));
}

#[test]
fn full_column_leaves_board_unchanged() {
    let mut board = Board::new();
    for i in 0..6 {
        let spot = if i % 2 == 0 { Spot::RED } else { Spot::YELLOW };
        assert_eq!((true, None), board.insert_top(5, spot));
    }
    let before = board.encode();
    let moves = board.moves();
    assert_eq!((false, None), board.insert_top(5, Spot::RED));
    assert_eq!(before, board.encode());
    assert_eq!(moves, board.moves());
    assert_eq!(6, board.moves());
}

#[test]
fn draw_on_the_last_cell_only() {
    let columns = ["RRYYRR", "RRYYRR", "RRYYRR", "YYRRYY", "RRYYRR", "RRYYRR", "RRYYRR"];
    let mut board = Board::new();
    let mut count = 0;
    for (c, pattern) in columns.iter().enumerate() {
        for ch in pattern.chars() {
            let spot = if ch == 'R' { Spot::RED } else { Spot::YELLOW };
            count += 1;
            let result = board.insert_top(c, spot);
            if count == 42 {
                assert_eq!((true, Some(Spot::EMPTY)), result);
            } else {
                assert_eq!((true, None), result);
            }
        }
    }
    assert_eq!(42, board.moves());
    assert_eq!((false, None), board.insert_top(0, Spot::RED));
}

#[test]
fn encode_lists_columns_from_the_top() {
    let mut board = Board::new();
    assert_eq!(vec![0i8; 42], board.encode());
    board.insert_top(2, Spot::RED);
    board.insert_top(2, Spot::YELLOW);
    let e = board.encode();
    assert_eq!(42, e.len());
    assert_eq!(1, e[6 * 2 + 5]);
    assert_eq!(-1, e[6 * 2 + 4]);
    assert_eq!(2, e.iter().filter(|x| **x != 0).count());
}

#[test]
fn spot_representation_and_opponent() {
    assert_eq!(1, Spot::RED.into_rep());
    assert_eq!(-1, Spot::YELLOW.into_rep());
    assert_eq!(0, Spot::EMPTY.into_rep());
    assert_eq!(Spot::YELLOW, Spot::RED.opponent());
    assert_eq!(Spot::RED, Spot::YELLOW.opponent());
    assert_eq!("\x1b[1m\x1b[31mRED\x1b[0m", Spot::RED.display());
    assert_eq!("", Spot::EMPTY.display());
}

#[test]
fn preferred_column_skips_full_ones() {
    let mut board = Board::new();
    for _ in 0..6 {
        board.insert_top(6, Spot::YELLOW);
    }
    let order = vec![6, 2, 0, 1, 3, 4, 5];
    assert_eq!(Some((2, None)), board.insert_preferred(&order, Spot::RED));
    assert_eq!(7, board.moves());
    assert_eq!(None, board.insert_preferred(&vec![6], Spot::RED));
    assert_eq!(7, board.moves());
}

#[test]
fn preferred_column_reports_the_win() {
    let mut board = Board::new();
    for _ in 0..3 {
        board.insert_top(4, Spot::RED);
    }
    let order = vec![4, 0];
    assert_eq!(Some((4, Some(Spot::RED))), board.insert_preferred(&order, Spot::RED));
}

#[test]
fn typed_columns() {
    assert_eq!(Some(0), parse_column("1\n"));
    assert_eq!(Some(6), parse_column("7\r\n"));
    assert_eq!(Some(3), parse_column("+4"));
    assert_eq!(None, parse_column("8\n"));
    assert_eq!(None, parse_column("0"));
    assert_eq!(None, parse_column("x\n"));
    assert_eq!(None, parse_column(""));
}
