use minimax::connect_four::{ConnectFour, Player};
use minimax::search::Evaluable;

fn position_after(moves: &[usize]) -> ConnectFour {
    let mut board = ConnectFour::new();
    for &col in moves {
        assert!(board.play_move(col));
    }
    board
}

#[test]
fn new_board_is_empty_with_red_to_move() {
    let board = ConnectFour::new();
    assert_eq!(board.turn, Player::Red);
    for row in board.state.iter() {
        for cell in row.iter() {
            assert_eq!(*cell, Player::Empty);
        }
    }
    assert_eq!(board.get_winner(), Player::Empty);
    assert!(!board.is_filled());
    assert!(!board.is_terminal_state());
    assert_eq!(board.evaluate(), 0);
}

#[test]
fn pieces_fall_to_the_bottom_and_turns_alternate() {
    let mut board = ConnectFour::new();
    assert!(board.play_move(2));
    assert_eq!(board.state[5][2], Player::Red);
    assert_eq!(board.turn, Player::Black);
    assert!(board.play_move(2));
    assert_eq!(board.state[4][2], Player::Black);
    assert_eq!(board.turn, Player::Red);
}

#[test]
fn full_column_is_refused() {
    let mut board = position_after(&[4, 4, 4, 4, 4, 4]);
    assert_eq!(board.state[0][4], Player::Black);
    let before = board.state;
    assert!(!board.play_move(4));
    assert!(board.state == before);
    assert_eq!(board.turn, Player::Red);
}

#[test]
fn column_out_of_range_is_refused() {
    let mut board = ConnectFour::new();
    assert!(!board.play_move(7));
    assert!(!board.play_move(100));
    assert_eq!(board.turn, Player::Red);
}

#[test]
fn vertical_win() {
    let board = position_after(&[0, 1, 0, 1, 0, 1, 0]);
    assert_eq!(board.get_winner(), Player::Red);
    assert!(board.is_terminal_state());
    assert_eq!(board.evaluate(), 1);
}

#[test]
fn horizontal_win_for_black() {
    let board = position_after(&[0, 3, 0, 4, 1, 5, 0, 6]);
    assert_eq!(board.get_winner(), Player::Black);
    assert_eq!(board.evaluate(), -1);
}

#[test]
fn diagonal_win() {
    // Red climbs from (5,0) to (2,3).
    let board = position_after(&[0, 1, 1, 2, 2, 3, 2, 3, 3, 6, 3]);
    assert_eq!(board.get_winner(), Player::Red);
}

#[test]
fn other_diagonal_win() {
    // Red climbs from (5,6) to (2,3).
    let board = position_after(&[6, 5, 5, 4, 4, 3, 4, 3, 3, 0, 3]);
    assert_eq!(board.get_winner(), Player::Red);
}

#[test]
fn three_in_a_row_is_no_win() {
    let board = position_after(&[0, 6, 1, 6, 2]);
    assert_eq!(board.get_winner(), Player::Empty);
    assert_eq!(board.evaluate(), 0);
}

#[test]
fn filled_board_is_terminal() {
    // Fill every cell, whoever wins on the way.
    let order = [0, 1, 2, 3, 4, 5, 6];
    let mut board = ConnectFour::new();
    let mut filled = 0;
    for pass in 0..6 {
        for &c in order.iter() {
            let col = if pass % 2 == 0 { c } else { (c + 2) % 7 };
            if board.play_move(col) {
                filled += 1;
            }
        }
    }
    while filled < 42 {
        for c in 0..7 {
            if board.play_move(c) {
                filled += 1;
            }
        }
    }
    assert!(board.is_filled());
    assert!(board.is_terminal_state());
    assert!(board.get_children().is_empty());
}

#[test]
fn children_are_one_per_open_column_in_order() {
    let board = position_after(&[4, 4, 4, 4, 4, 4]);
    let children = board.get_children();
    assert_eq!(children.len(), 6);
    let cols = [0, 1, 2, 3, 5, 6];
    for (child, &col) in children.iter().zip(cols.iter()) {
        let mut expected = ConnectFour::new_from_existing(&board);
        assert!(expected.play_move(col));
        assert!(child.state == expected.state);
        assert_eq!(child.turn, Player::Black);
    }
    assert_eq!(ConnectFour::new().get_children().len(), 7);
}

#[test]
fn evaluation_bounds() {
    assert_eq!(ConnectFour::get_min_evaluation(), -1);
    assert_eq!(ConnectFour::get_max_evaluation(), 1);
}

#[test]
fn copy_is_equal() {
    let board = position_after(&[1, 2, 3]);
    let copy = ConnectFour::new_from_existing(&board);
    assert!(copy.state == board.state);
    assert_eq!(copy.turn, board.turn);
}

#[test]
fn cell_symbols() {
    assert_eq!(Player::Red.symbol(), 'R');
    assert_eq!(Player::Black.symbol(), 'B');
    assert_eq!(Player::Empty.symbol(), '+');
}
