use othello::board::{Board, Disk, Move, Player};
use othello::rules::{check_neighbours, get_flips, get_valid_moves};

fn board_from(rows: [&str; 8]) -> Board {
    let mut field = [Disk::Empty; 64];
    for (r, row) in rows.iter().enumerate() {
        for (c, ch) in row.chars().enumerate() {
            field[r * 8 + c] = match ch {
                'B' => Disk::Black,
                'W' => Disk::White,
                _ => Disk::Empty,
            };
        }
    }
    Board { field }
}

fn cells_of(moves: &Vec<Move>) -> Vec<usize> {
    moves.iter().map(|m| m.mv_int).collect()
}

#[test]
fn start_has_two_disks_of_each_colour() {
    let board = Board::start();
    assert_eq!(board.score(), (2, 2));
    assert_eq!(board.field[27], Disk::White);
    assert_eq!(board.field[36], Disk::White);
    assert_eq!(board.field[28], Disk::Black);
    assert_eq!(board.field[35], Disk::Black);
    let empty = board.field.iter().filter(|d| **d == Disk::Empty).count();
    assert_eq!(empty, 60);
}

#[test]
fn black_opens_with_four_moves() {
    let board = Board::start();
    let moves = get_valid_moves(&board, Player::new(Disk::Black, true));
    assert_eq!(cells_of(&moves), vec![19, 26, 37, 44]);
    assert_eq!(moves[0].flips, vec![vec![27]]);
    assert_eq!(moves[1].flips, vec![vec![27]]);
    assert_eq!(moves[2].flips, vec![vec![36]]);
    assert_eq!(moves[3].flips, vec![vec![36]]);
}

#[test]
fn white_opens_with_four_moves() {
    let board = Board::start();
    let moves = get_valid_moves(&board, Player::new(Disk::White, false));
    assert_eq!(cells_of(&moves), vec![20, 29, 34, 43]);
    for mv in &moves {
        assert_eq!(mv.flips.len(), 1);
        assert_eq!(mv.flips[0].len(), 1);
    }
}

#[test]
fn moves_land_on_empty_cells_and_capture() {
    let board = board_from([
        "........",
        ".W......",
        ".BWB....",
        "...WB...",
        "...BB...",
        "....B...",
        "........",
        "........",
    ]);
    for color in [Disk::Black, Disk::White] {
        let moves = get_valid_moves(&board, Player::new(color, true));
        assert!(!moves.is_empty());
        let mut last: Option<usize> = None;
        for mv in &moves {
            assert_eq!(board.field[mv.mv_int], Disk::Empty);
            assert!(!mv.flips.is_empty());
            for line in &mv.flips {
                assert!(!line.is_empty());
                for cell in line {
                    assert_ne!(board.field[*cell], Disk::Empty);
                    assert_ne!(board.field[*cell], color);
                }
            }
            if let Some(before) = last {
                assert!(before < mv.mv_int);
            }
            last = Some(mv.mv_int);
        }
    }
}

#[test]
fn white_moves_in_a_middle_game() {
    let board = board_from([
        "........",
        ".W......",
        ".BWB....",
        "...WB...",
        "...BB...",
        "....B...",
        "........",
        "........",
    ]);
    let moves = get_valid_moves(&board, Player::new(Disk::White, true));
    assert_eq!(cells_of(&moves), vec![11, 16, 20, 25, 29, 43, 45]);
    assert_eq!(moves[0].flips, vec![vec![19]]);
    assert_eq!(moves[1].flips, vec![vec![17]]);
    assert_eq!(moves[4].flips, vec![vec![28]]);
    assert_eq!(moves[6].flips, vec![vec![36]]);
}

#[test]
fn lines_follow_the_order_of_the_directions() {
    let board = board_from([
        ".WB.....",
        "WW......",
        "B.B.....",
        "........",
        "........",
        "........",
        "........",
        "........",
    ]);
    let moves = get_valid_moves(&board, Player::new(Disk::Black, true));
    assert_eq!(moves.len(), 1);
    assert_eq!(moves[0].mv_int, 0);
    assert_eq!(moves[0].flips, vec![vec![1], vec![8], vec![9]]);
}

#[test]
fn a_long_run_is_one_line() {
    let board = board_from([
        ".WWWWWB.",
        "........",
        "........",
        "........",
        "........",
        "........",
        "........",
        "........",
    ]);
    let moves = get_valid_moves(&board, Player::new(Disk::Black, true));
    assert_eq!(moves.len(), 1);
    assert_eq!(moves[0].mv_int, 0);
    assert_eq!(moves[0].flips, vec![vec![1, 2, 3, 4, 5]]);
}

#[test]
fn a_run_does_not_wrap_to_the_next_row() {
    // East of cell 6 lies a white disk on 7; the black disk on 8 starts the
    // next row and closes nothing.
    let board = board_from([
        ".......W",
        "B.......",
        "........",
        "........",
        "........",
        "........",
        "........",
        "........",
    ]);
    let black = Player::new(Disk::Black, true);
    assert!(get_valid_moves(&board, black).is_empty());
    assert_eq!(check_neighbours(&board, 6, black), vec![7]);
    assert!(get_flips(&board, &vec![7], 6, black).is_empty());
}

#[test]
fn a_run_does_not_wrap_to_the_previous_row() {
    let board = board_from([
        ".......B",
        "W.......",
        "........",
        "........",
        "........",
        "........",
        "........",
        "........",
    ]);
    let black = Player::new(Disk::Black, true);
    assert!(get_valid_moves(&board, black).is_empty());
    assert_eq!(check_neighbours(&board, 9, black), vec![8]);
    assert!(get_flips(&board, &vec![8], 9, black).is_empty());
}

#[test]
fn a_run_that_meets_an_empty_cell_or_the_edge_captures_nothing() {
    let board = board_from([
        "........",
        "........",
        "..WW.B..",
        "........",
        "........",
        "........",
        "......WW",
        "........",
    ]);
    let black = Player::new(Disk::Black, true);
    assert!(get_valid_moves(&board, black).is_empty());
    assert!(get_flips(&board, &vec![18], 17, black).is_empty());
    assert!(get_flips(&board, &vec![54], 53, black).is_empty());
}

#[test]
fn neighbours_stop_at_the_edges() {
    let mut field = [Disk::White; 64];
    field[0] = Disk::Empty;
    field[7] = Disk::Empty;
    field[56] = Disk::Empty;
    field[63] = Disk::Empty;
    field[24] = Disk::Empty;
    field[31] = Disk::Empty;
    field[27] = Disk::Empty;
    field[54] = Disk::Empty;
    let board = Board { field };
    let black = Player::new(Disk::Black, true);
    assert_eq!(check_neighbours(&board, 0, black), vec![1, 8, 9]);
    assert_eq!(check_neighbours(&board, 7, black), vec![6, 15, 14]);
    assert_eq!(check_neighbours(&board, 56, black), vec![57, 48, 49]);
    assert_eq!(check_neighbours(&board, 63, black), vec![62, 55]);
    assert_eq!(check_neighbours(&board, 24, black), vec![25, 16, 17, 32, 33]);
    assert_eq!(check_neighbours(&board, 31, black), vec![30, 23, 22, 39, 38]);
    assert_eq!(check_neighbours(&board, 27, black), vec![26, 28, 19, 20, 18, 35, 34, 36]);
    assert_eq!(check_neighbours(&board, 54, black), vec![53, 55, 46, 47, 45, 62, 61]);
}

#[test]
fn neighbours_hold_opponent_disks_only() {
    let board = Board::start();
    let black = Player::new(Disk::Black, true);
    let white = Player::new(Disk::White, true);
    assert_eq!(check_neighbours(&board, 19, black), vec![27]);
    assert_eq!(check_neighbours(&board, 19, white), vec![28]);
    assert_eq!(check_neighbours(&board, 0, black), Vec::<usize>::new());
    assert_eq!(check_neighbours(&board, 27, black), vec![36]);
}

#[test]
fn flips_skip_targets_that_are_no_neighbours() {
    let board = Board::start();
    let black = Player::new(Disk::Black, true);
    assert_eq!(get_flips(&board, &vec![27], 19, black), vec![vec![27]]);
    assert!(get_flips(&board, &vec![36], 19, black).is_empty());
    assert!(get_flips(&board, &vec![19], 19, black).is_empty());
    assert!(get_flips(&board, &vec![64, 700], 19, black).is_empty());
    assert_eq!(get_flips(&board, &vec![36, 27, 27], 19, black), vec![vec![27], vec![27]]);
    assert!(get_flips(&board, &vec![], 19, black).is_empty());
}

#[test]
fn flips_toward_a_neighbour_that_is_not_the_opponent() {
    let board = Board::start();
    let black = Player::new(Disk::Black, true);
    // Cell 28 holds a black disk, cell 21 is empty: nothing to capture.
    assert!(get_flips(&board, &vec![28], 20, black).is_empty());
    assert!(get_flips(&board, &vec![21], 20, black).is_empty());
}

#[test]
fn no_move_on_an_empty_or_a_full_board() {
    let empty = Board { field: [Disk::Empty; 64] };
    let full = Board { field: [Disk::White; 64] };
    for color in [Disk::Black, Disk::White] {
        assert!(get_valid_moves(&empty, Player::new(color, true)).is_empty());
        assert!(get_valid_moves(&full, Player::new(color, true)).is_empty());
    }
}
