use othello::board::{Board, Disk, Move, Player};
use othello::rules::get_valid_moves;

#[test]
fn opponent_of_each_colour() {
    assert_eq!(Player::new(Disk::Black, true).oppo(), Disk::White);
    assert_eq!(Player::new(Disk::White, false).oppo(), Disk::Black);
}

#[test]
fn player_keeps_what_it_was_made_with() {
    let p = Player::new(Disk::White, true);
    assert_eq!(p.color, Disk::White);
    assert!(p.bot);
    let q = Player::new(Disk::Black, false);
    assert_eq!(q.color, Disk::Black);
    assert!(!q.bot);
}

#[test]
fn placeholder_move() {
    let mv = Move::new();
    assert_eq!(mv.mv_int, 0);
    assert_eq!(mv.flips, vec![vec![0]]);
}

#[test]
fn a_cloned_move_holds_the_same_cells() {
    let mv = Move { mv_int: 12, flips: vec![vec![13, 14], vec![], vec![20, 28, 36]] };
    let copy = mv.clone();
    assert_eq!(copy.mv_int, 12);
    assert_eq!(copy.flips, mv.flips);
}

#[test]
fn execute_move_paints_target_and_lines() {
    let mut board = Board::start();
    let mv = Move { mv_int: 19, flips: vec![vec![27]] };
    board.execute_move(&mv, Player::new(Disk::Black, true));
    let mut expected = Board::start();
    expected.field[19] = Disk::Black;
    expected.field[27] = Disk::Black;
    assert_eq!(board, expected);
}

#[test]
fn execute_move_with_several_lines() {
    let mut board = Board { field: [Disk::Empty; 64] };
    for cell in [1, 8, 9] {
        board.field[cell] = Disk::White;
    }
    for cell in [2, 16, 18] {
        board.field[cell] = Disk::Black;
    }
    let mv = Move { mv_int: 0, flips: vec![vec![1], vec![8], vec![9]] };
    board.execute_move(&mv, Player::new(Disk::Black, true));
    for cell in [0, 1, 2, 8, 9, 16, 18] {
        assert_eq!(board.field[cell], Disk::Black);
    }
    assert_eq!(board.score(), (7, 0));
}

#[test]
fn execute_move_does_not_check_legality() {
    let mut board = Board::start();
    board.execute_move(&Move::new(), Player::new(Disk::White, true));
    assert_eq!(board.field[0], Disk::White);
    assert_eq!(board.score(), (2, 3));
}

#[test]
fn equal_boards_stay_equal_under_one_move() {
    let mut a = Board::start();
    let mut b = Board::start();
    let black = Player::new(Disk::Black, true);
    let moves = get_valid_moves(&a, black);
    for mv in &moves {
        let mut x = a;
        let mut y = b;
        x.execute_move(mv, black);
        y.execute_move(mv, black);
        assert_eq!(x, y);
    }
    a.execute_move(&moves[2], black);
    b.execute_move(&moves[2], black);
    assert_eq!(a, b);
}

#[test]
fn playing_a_move_again_changes_nothing() {
    let mut board = Board::start();
    let black = Player::new(Disk::Black, true);
    let moves = get_valid_moves(&board, black);
    board.execute_move(&moves[1], black);
    let once = board;
    board.execute_move(&moves[1], black);
    assert_eq!(board, once);
}

#[test]
fn tally_after_each_opening_move() {
    let start = Board::start();
    let black = Player::new(Disk::Black, true);
    for mv in get_valid_moves(&start, black) {
        let mut board = start;
        board.execute_move(&mv, black);
        assert_eq!(board.score(), (4, 1));
    }
}

#[test]
fn tally_follows_the_number_of_flipped_disks() {
    let mut board = Board::start();
    let mut player = Player::new(Disk::Black, true);
    for _ in 0..40 {
        let moves = get_valid_moves(&board, player);
        if moves.is_empty() {
            player = Player::new(player.oppo(), true);
            continue;
        }
        let mv = &moves[moves.len() / 2];
        let flipped: usize = mv.flips.iter().map(|l| l.len()).sum();
        let (black, white) = board.score();
        board.execute_move(mv, player);
        let expected = if player.color == Disk::Black {
            (black + 1 + flipped, white - flipped)
        } else {
            (black - flipped, white + 1 + flipped)
        };
        assert_eq!(board.score(), expected);
        player = Player::new(player.oppo(), true);
    }
}

#[test]
fn score_counts_black_then_white() {
    let mut board = Board { field: [Disk::Empty; 64] };
    assert_eq!(board.score(), (0, 0));
    board.field[5] = Disk::Black;
    board.field[6] = Disk::Black;
    board.field[63] = Disk::White;
    assert_eq!(board.score(), (2, 1));
    let full = Board { field: [Disk::Black; 64] };
    assert_eq!(full.score(), (64, 0));
}
