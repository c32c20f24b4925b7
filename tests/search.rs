use minimax::connect_four::{ConnectFour, Player};
use minimax::search::{Evaluable, Minimax, Player as Role};

fn board_after(moves: &[usize]) -> ConnectFour {
    let mut board = ConnectFour::new();
    for &col in moves {
        assert!(board.play_move(col));
    }
    board
}

fn mirrored(moves: &[usize]) -> Vec<usize> {
    moves.iter().map(|&c| 6 - c).collect()
}

fn minimax_value(board: &ConnectFour, depth: u16, role: Role) -> i64 {
    let mut node = Minimax::new(ConnectFour::new_from_existing(board));
    node.minimax(depth, role);
    node.get_positional_estimate().unwrap()
}

fn alpha_beta_value(board: &ConnectFour, depth: u16, role: Role) -> i64 {
    let mut node = Minimax::new(ConnectFour::new_from_existing(board));
    node.alpha_beta(depth, role);
    node.get_positional_estimate().unwrap()
}

const POSITIONS: [&[usize]; 5] = [
    &[],
    &[3, 3, 2],
    &[0, 1, 0, 1, 0, 2],
    &[3, 4, 3, 4, 2, 5, 6],
    &[0, 0, 1, 1, 2, 6, 6, 5],
];

#[test]
fn terminal_state_keeps_its_evaluation() {
    // Red wins with four in column 0.
    let won = board_after(&[0, 1, 0, 1, 0, 1, 0]);
    assert_eq!(won.get_winner(), Player::Red);
    for depth in 0..4u16 {
        for role in [Role::MAXIMIZING, Role::MINIMIZING] {
            let mut node = Minimax::new(ConnectFour::new_from_existing(&won));
            let result = node.minimax(depth, role);
            assert!(result.node.is_none());
            assert_eq!(node.get_positional_estimate(), Some(won.evaluate()));
            assert_eq!(node.get_positional_estimate(), Some(1));

            let mut node = Minimax::new(ConnectFour::new_from_existing(&won));
            assert!(node.alpha_beta(depth, role).is_none());
            assert_eq!(node.get_positional_estimate(), Some(1));
        }
    }
}

#[test]
fn depth_zero_gives_static_evaluation() {
    let board = board_after(&[3, 3, 2]);
    assert!(!board.is_terminal_state());
    for role in [Role::MAXIMIZING, Role::MINIMIZING] {
        let mut node = Minimax::new(ConnectFour::new_from_existing(&board));
        let result = node.minimax(0, role);
        assert!(result.node.is_none());
        assert_eq!(node.get_positional_estimate(), Some(board.evaluate()));
        assert_eq!(node.get_positional_estimate(), Some(0));

        let mut node = Minimax::new(ConnectFour::new_from_existing(&board));
        assert!(node.alpha_beta(0, role).is_none());
        assert_eq!(node.get_positional_estimate(), Some(0));
    }
}

#[test]
fn alpha_beta_agrees_with_minimax() {
    for moves in POSITIONS {
        let board = board_after(moves);
        for depth in 0..4u16 {
            for role in [Role::MAXIMIZING, Role::MINIMIZING] {
                assert_eq!(
                    alpha_beta_value(&board, depth, role),
                    minimax_value(&board, depth, role)
                );
            }
        }
    }
}

#[test]
fn alpha_beta_child_has_the_root_value() {
    let board = board_after(&[0, 0, 1, 1, 2, 6, 6, 5]);
    let mut node = Minimax::new(ConnectFour::new_from_existing(&board));
    let child = node.alpha_beta(3, Role::MAXIMIZING).unwrap();
    let root = node.get_positional_estimate().unwrap();
    assert_eq!(child.get_positional_estimate(), Some(root));
    assert_eq!(minimax_value(&child.info, 2, Role::MINIMIZING), root);
}

#[test]
fn search_is_deterministic() {
    let board = board_after(&[3, 4, 3, 4, 2, 5, 6]);
    for role in [Role::MAXIMIZING, Role::MINIMIZING] {
        let mut first = Minimax::new(ConnectFour::new_from_existing(&board));
        let mut second = Minimax::new(ConnectFour::new_from_existing(&board));
        let r1 = first.minimax(3, role).node.unwrap();
        let r2 = second.minimax(3, role).node.unwrap();
        assert_eq!(first.get_positional_estimate(), second.get_positional_estimate());
        assert!(r1.info.state == r2.info.state && r1.info.turn == r2.info.turn);
        assert_eq!(r1.get_positional_estimate(), r2.get_positional_estimate());

        let mut first = Minimax::new(ConnectFour::new_from_existing(&board));
        let mut second = Minimax::new(ConnectFour::new_from_existing(&board));
        let c1 = first.alpha_beta(3, role).unwrap();
        let c2 = second.alpha_beta(3, role).unwrap();
        assert_eq!(first.get_positional_estimate(), second.get_positional_estimate());
        assert!(c1.info.state == c2.info.state && c1.info.turn == c2.info.turn);
    }
}

#[test]
fn winning_move_is_found() {
    // Red has three in column 0 with the fourth cell open, Red to move.
    let board = board_after(&[0, 1, 0, 1, 0, 2]);
    let mut expected = ConnectFour::new_from_existing(&board);
    assert!(expected.play_move(0));
    for depth in 1..4u16 {
        let mut node = Minimax::new(ConnectFour::new_from_existing(&board));
        let child = node.alpha_beta(depth, Role::MAXIMIZING).unwrap();
        assert_eq!(node.get_positional_estimate(), Some(ConnectFour::get_max_evaluation()));
        assert_eq!(child.info.get_winner(), Player::Red);
        assert!(child.info.state == expected.state);

        let mut node = Minimax::new(ConnectFour::new_from_existing(&board));
        let child = node.minimax(depth, Role::MAXIMIZING).node.unwrap();
        assert_eq!(node.get_positional_estimate(), Some(1));
        assert!(child.info.state == expected.state);
    }
}

#[test]
fn mirrored_board_has_the_same_value() {
    for moves in POSITIONS {
        let board = board_after(moves);
        let mirror = board_after(&mirrored(moves));
        for depth in 0..4u16 {
            for role in [Role::MAXIMIZING, Role::MINIMIZING] {
                assert_eq!(
                    minimax_value(&board, depth, role),
                    minimax_value(&mirror, depth, role)
                );
                assert_eq!(
                    alpha_beta_value(&board, depth, role),
                    alpha_beta_value(&mirror, depth, role)
                );
            }
        }
    }
}

#[test]
fn values_stay_within_bounds() {
    for moves in POSITIONS {
        let board = board_after(moves);
        for depth in 0..4u16 {
            for role in [Role::MAXIMIZING, Role::MINIMIZING] {
                for v in [minimax_value(&board, depth, role), alpha_beta_value(&board, depth, role)] {
                    assert!(ConnectFour::get_min_evaluation() <= v);
                    assert!(v <= ConnectFour::get_max_evaluation());
                }
            }
        }
    }
}

#[test]
fn minimax_counters_follow_depth() {
    let board = board_after(&[3, 3, 2]);
    for depth in 0..4u16 {
        let mut node = Minimax::new(ConnectFour::new_from_existing(&board));
        let result = node.minimax(depth, Role::MINIMIZING);
        assert_eq!(result.get_distance_to_terminal_node(), depth);
        assert_eq!(result.get_terminal_distance_to_zero_depth(), 0);
        assert_eq!(result.node.is_some(), depth > 0);
    }
}

#[test]
fn minimax_keeps_first_of_equal_children() {
    // On the empty board every move is worth 0 at depth 1: the first column
    // is kept.
    let board = ConnectFour::new();
    let mut node = Minimax::new(ConnectFour::new_from_existing(&board));
    let child = node.minimax(1, Role::MAXIMIZING).node.unwrap();
    let mut expected = ConnectFour::new();
    assert!(expected.play_move(0));
    assert!(child.info.state == expected.state);
    assert_eq!(node.get_positional_estimate(), Some(0));
}

#[test]
fn minimizing_side_blocks_or_wins() {
    // Black has three in column 6 and is to move: Black wins there.
    let board = board_after(&[0, 6, 1, 6, 3, 6, 0]);
    assert_eq!(board.turn, Player::Black);
    let mut node = Minimax::new(ConnectFour::new_from_existing(&board));
    let child = node.alpha_beta(2, Role::MINIMIZING).unwrap();
    assert_eq!(node.get_positional_estimate(), Some(-1));
    assert_eq!(child.info.get_winner(), Player::Black);
}

#[test]
fn get_info_gives_mutable_access() {
    let mut node = Minimax::new(ConnectFour::new());
    assert!(node.get_info().play_move(3));
    assert_eq!(node.info.state[5][3], Player::Red);
    assert_eq!(node.get_positional_estimate(), None);
}
