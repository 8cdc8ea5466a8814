use othello::board::{Board, Disk, Move};
use othello::text::{find_move, is_yes, names_cell, position_name};

#[test]
fn rows_of_the_opening_position() {
    let board = Board::start();
    assert_eq!(board.row_text(0), ". . . . . . . . ");
    assert_eq!(board.row_text(3), ". . . o * . . . ");
    assert_eq!(board.row_text(4), ". . . * o . . . ");
    assert_eq!(board.row_text(7), ". . . . . . . . ");
}

#[test]
fn a_row_of_each_symbol() {
    let mut board = Board { field: [Disk::Empty; 64] };
    for col in 0..8 {
        board.field[16 + col] = if col % 2 == 0 { Disk::Black } else { Disk::White };
    }
    board.field[63] = Disk::White;
    assert_eq!(board.row_text(2), "* o * o * o * o ");
    assert_eq!(board.row_text(7), ". . . . . . . o ");
}

#[test]
fn cells_are_named_by_column_and_row() {
    assert_eq!(position_name(0), "a1");
    assert_eq!(position_name(7), "h1");
    assert_eq!(position_name(8), "a2");
    assert_eq!(position_name(19), "d3");
    assert_eq!(position_name(26), "c4");
    assert_eq!(position_name(37), "f5");
    assert_eq!(position_name(44), "e6");
    assert_eq!(position_name(56), "a8");
    assert_eq!(position_name(63), "h8");
    let names: Vec<String> = (0..64).map(position_name).collect();
    for (cell, name) in names.iter().enumerate() {
        let letters = ['a', 'b', 'c', 'd', 'e', 'f', 'g', 'h'];
        assert_eq!(*name, format!("{}{}", letters[cell % 8], cell / 8 + 1));
    }
}

#[test]
fn a_text_names_one_cell() {
    for cell in 0..64 {
        for other in 0..64 {
            assert_eq!(names_cell(&position_name(other), cell), cell == other);
        }
    }
    assert!(!names_cell("", 0));
    assert!(!names_cell("a", 0));
    assert!(!names_cell("a1 ", 0));
    assert!(!names_cell("A1", 0));
    assert!(!names_cell("1a", 0));
}

#[test]
fn the_first_move_with_the_name_is_found() {
    let moves = vec![
        Move { mv_int: 19, flips: vec![vec![27]] },
        Move { mv_int: 26, flips: vec![vec![27]] },
        Move { mv_int: 19, flips: vec![vec![20]] },
        Move { mv_int: 63, flips: vec![vec![62]] },
    ];
    assert_eq!(find_move(&moves, "d3"), Some(0));
    assert_eq!(find_move(&moves, "c4"), Some(1));
    assert_eq!(find_move(&moves, "h8"), Some(3));
    assert_eq!(find_move(&moves, "a1"), None);
    assert_eq!(find_move(&moves, "d33"), None);
    assert_eq!(find_move(&moves, ""), None);
    assert_eq!(find_move(&Vec::new(), "d3"), None);
}

#[test]
fn yes_and_y_mean_yes() {
    assert!(is_yes("yes"));
    assert!(is_yes("y"));
    let others =
        ["", "n", "no", "Y", "Yes", "YES", "ye", "yess", "yes ", " y", "yea", "xes", "yEs", "yeS"];
    for answer in others {
        assert!(!is_yes(answer));
    }
}
