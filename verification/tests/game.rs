use othello::board::{Board, Disk, Player};
use othello::game::{bot_turn, play_choice};
use othello::rules::get_valid_moves;
use othello::settings::{Settings, TieBreak};

fn print(board: &Board) {
    println!("   a b c d e f g h");
    for row in 0..8 {
        println!("{} [{}]", row + 1, board.row_text(row));
    }
    println!();
}

#[test]
fn botfight() {
    // Setup
    let settings = Settings::new(2, 1, 100, 1000, TieBreak::CoinFlip).unwrap();
    let mut finished = (false, false);
    let mut board = Board::start();

    // Check for bots and create players
    let white = Player::new(Disk::Black, true);
    let black = Player::new(Disk::White, true);

    // Start print
    println!("Start:");
    print(&board);

    // Game loop
    loop {
        // Player 1 turn
        if black.bot {
            finished.0 = bot_turn(&mut board, black, &settings);
        } else {
            unreachable!();
        }

        // Check if either player made a move
        if finished.0 && finished.1 {
            println!("No more valid moves.\n\n\t::END::\n");
            break;
        }

        // Player 2 turn
        if white.bot {
            finished.1 = bot_turn(&mut board, white, &settings);
        } else {
            unreachable!();
        }

        // Check if either player made a move
        if finished.0 && finished.1 {
            println!("No more valid moves.\n\n\t::END::\n");
            break;
        }
    }
    let final_score = board.score();
    println!("Final score (black-white): {}-{}", final_score.0, final_score.1);
    assert!(final_score.0 + final_score.1 <= 64);
    assert!(get_valid_moves(&board, black).is_empty());
    assert!(get_valid_moves(&board, white).is_empty());
}

fn play_out(settings: &Settings) -> (Vec<usize>, (usize, usize)) {
    let mut board = Board::start();
    let mut player = Player::new(Disk::Black, true);
    let mut passes = 0;
    let mut cells = Vec::new();
    while passes < 2 {
        let before = board;
        if bot_turn(&mut board, player, settings) {
            assert_eq!(board, before);
            passes += 1;
        } else {
            passes = 0;
            let played: Vec<usize> = (0..64)
                .filter(|c| before.field[*c] == Disk::Empty && board.field[*c] != Disk::Empty)
                .collect();
            assert_eq!(played.len(), 1);
            assert_eq!(board.field[played[0]], player.color);
            cells.push(played[0]);
        }
        player = Player::new(player.oppo(), true);
    }
    (cells, board.score())
}

#[test]
fn a_whole_game_two_plies_deep() {
    let settings = Settings::new(2, 1, 100, 1000, TieBreak::FirstSeen).unwrap();
    let (cells, score) = play_out(&settings);
    assert_eq!(
        cells,
        vec![
            19, 18, 17, 9, 44, 45, 46, 54, 26, 34, 41, 11, 20, 29, 12, 5, 4, 3, 2, 52, 43, 51, 38,
            31, 6, 10, 59, 42, 60, 30, 50, 1, 22, 40, 37, 14, 47, 58, 32, 33, 21, 13, 39, 55, 25,
            24, 16, 57, 49, 61, 23, 15, 53, 7, 48, 0, 8, 56, 63, 62
        ]
    );
    assert_eq!(score, (16, 48));
}

#[test]
fn a_whole_game_one_ply_deep() {
    let settings = Settings::new(1, 0, 100, 1000, TieBreak::FirstSeen).unwrap();
    let (cells, score) = play_out(&settings);
    assert_eq!(
        cells,
        vec![
            19, 18, 17, 9, 37, 45, 53, 54, 26, 61, 63, 47, 10, 29, 30, 1, 20, 34, 44, 21, 22, 13,
            12, 8, 33, 23, 11, 32, 2, 3, 4, 5, 0, 16, 24, 25, 40, 6, 14, 7, 15, 38, 31, 39, 46, 62,
            55, 60, 52, 43, 59, 51, 50, 57, 42, 49, 58, 41, 56, 48
        ]
    );
    assert_eq!(score, (32, 32));
}

#[test]
fn a_whole_game_three_plies_deep() {
    let settings = Settings::new(3, 2, 100, 1000, TieBreak::FirstSeen).unwrap();
    let (cells, score) = play_out(&settings);
    assert_eq!(
        cells,
        vec![
            19, 18, 44, 45, 17, 43, 51, 50, 49, 11, 3, 57, 54, 48, 42, 29, 37, 59, 60, 61, 30, 52,
            58, 41, 40, 32, 33, 34, 24, 16, 53, 20, 10, 21, 12, 4, 46, 39, 13, 5, 56, 26, 8, 2, 62,
            25, 9, 38, 31, 22, 15, 23, 47, 55, 14, 7, 6, 1, 0
        ]
    );
    assert_eq!(score, (34, 29));
}

#[test]
fn a_bot_without_a_move_passes() {
    let settings = Settings::new(2, 1, 100, 1000, TieBreak::FirstSeen).unwrap();
    let mut board = Board { field: [Disk::Empty; 64] };
    board.field[0] = Disk::Black;
    assert!(bot_turn(&mut board, Player::new(Disk::White, true), &settings));
    assert_eq!(board.score(), (1, 0));
}

#[test]
fn a_bot_with_a_move_plays_it() {
    let settings = Settings::new(2, 1, 100, 1000, TieBreak::CoinFlip).unwrap();
    let mut board = Board { field: [Disk::Empty; 64] };
    board.field[0] = Disk::Black;
    board.field[1] = Disk::White;
    assert!(!bot_turn(&mut board, Player::new(Disk::Black, true), &settings));
    assert_eq!(board.score(), (3, 0));
    assert_eq!(board.field[2], Disk::Black);
}

#[test]
fn an_answer_that_names_a_legal_cell_is_played() {
    let mut board = Board::start();
    let black = Player::new(Disk::Black, false);
    let moves = get_valid_moves(&board, black);
    assert!(play_choice(&mut board, &moves, "c4", black));
    let mut expected = Board::start();
    expected.field[26] = Disk::Black;
    expected.field[27] = Disk::Black;
    assert_eq!(board, expected);
}

#[test]
fn an_answer_that_names_no_legal_cell_is_refused() {
    let black = Player::new(Disk::Black, false);
    let moves = get_valid_moves(&Board::start(), black);
    for answer in ["a1", "d4", "", "c", "c4 ", "C4", "4c", "c44", "d9", "i1"] {
        let mut board = Board::start();
        assert!(!play_choice(&mut board, &moves, answer, black));
        assert_eq!(board, Board::start());
    }
}
