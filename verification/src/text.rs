//! The words of the game: how a board row and a cell are written, and how an
//! answer is read.

use vstd::prelude::*;
use vstd::string::*;
use crate::board::{Board, Disk, Move};

verus! {

/// The character that stands for what a cell holds.
pub open spec fn symbol(disk: Disk) -> char {
    match disk {
        Disk::White => 'o',
        Disk::Black => '*',
        Disk::Empty => '.',
    }
}

/// Row `row` of the board as text: for each of its eight cells the symbol and
/// a space.
pub open spec fn row_symbols(cells: Seq<Disk>, row: int) -> Seq<char> {
    Seq::new(
        16,
        |k: int|
            if k % 2 == 0 {
                symbol(cells[row * 8 + k / 2])
            } else {
                ' '
            },
    )
}

/// The letter of a column, `a` to `h`.
pub open spec fn column_letter(col: int) -> char {
    if col == 0 {
        'a'
    } else if col == 1 {
        'b'
    } else if col == 2 {
        'c'
    } else if col == 3 {
        'd'
    } else if col == 4 {
        'e'
    } else if col == 5 {
        'f'
    } else if col == 6 {
        'g'
    } else {
        'h'
    }
}

/// The digit of a row, `1` for the top row to `8`.
pub open spec fn row_digit(row: int) -> char {
    if row == 0 {
        '1'
    } else if row == 1 {
        '2'
    } else if row == 2 {
        '3'
    } else if row == 3 {
        '4'
    } else if row == 4 {
        '5'
    } else if row == 5 {
        '6'
    } else if row == 6 {
        '7'
    } else {
        '8'
    }
}

/// The name of a cell: column letter, then row digit.
pub open spec fn cell_name(cell: int) -> Seq<char> {
    seq![column_letter(cell % 8), row_digit(cell / 8)]
}

fn column_char(col: usize) -> (letter: char)
    requires
        col < 8,
    ensures
        letter == column_letter(col as int),
{
    match col {
        0 => 'a',
        1 => 'b',
        2 => 'c',
        3 => 'd',
        4 => 'e',
        5 => 'f',
        6 => 'g',
        _ => 'h',
    }
}

fn row_char(row: usize) -> (digit: char)
    requires
        row < 8,
    ensures
        digit == row_digit(row as int),
{
    match row {
        0 => '1',
        1 => '2',
        2 => '3',
        3 => '4',
        4 => '5',
        5 => '6',
        6 => '7',
        _ => '8',
    }
}

impl Board {
    /// The text of one row of the board.
    pub fn row_text(&self, row: usize) -> (text: String)
        requires
            row < 8,
        ensures
            text@ == row_symbols(self@, row as int),
    {
        let mut text = String::new();
        let mut col: usize = 0;
        while col < 8
            invariant
                col <= 8,
                row < 8,
                text@.len() == 2 * col,
                forall|k: int| 0 <= k < 2 * col ==> text@[k] == row_symbols(self@, row as int)[k],
            decreases 8 - col,
        {
            proof {
                reveal_strlit("o ");
                reveal_strlit("* ");
                reveal_strlit(". ");
            }
            match self.field[row * 8 + col] {
                Disk::White => text.append("o "),
                Disk::Black => text.append("* "),
                Disk::Empty => text.append(". "),
            }
            col += 1;
        }
        assert(text@ =~= row_symbols(self@, row as int));
        text
    }
}

/// The name under which a player picks the cell, `a1` to `h8`.
pub fn position_name(cell: usize) -> (name: String)
    requires
        cell < 64,
    ensures
        name@ == cell_name(cell as int),
{
    let mut name = String::new();
    proof {
        reveal_strlit("a");
        reveal_strlit("b");
        reveal_strlit("c");
        reveal_strlit("d");
        reveal_strlit("e");
        reveal_strlit("f");
        reveal_strlit("g");
        reveal_strlit("h");
        reveal_strlit("1");
        reveal_strlit("2");
        reveal_strlit("3");
        reveal_strlit("4");
        reveal_strlit("5");
        reveal_strlit("6");
        reveal_strlit("7");
        reveal_strlit("8");
    }
    match cell % 8 {
        0 => name.append("a"),
        1 => name.append("b"),
        2 => name.append("c"),
        3 => name.append("d"),
        4 => name.append("e"),
        5 => name.append("f"),
        6 => name.append("g"),
        _ => name.append("h"),
    }
    match cell / 8 {
        0 => name.append("1"),
        1 => name.append("2"),
        2 => name.append("3"),
        3 => name.append("4"),
        4 => name.append("5"),
        5 => name.append("6"),
        6 => name.append("7"),
        _ => name.append("8"),
    }
    assert(name@ =~= cell_name(cell as int));
    name
}

/// Whether `text` names the cell `cell`.
pub fn names_cell(text: &str, cell: usize) -> (same: bool)
    requires
        cell < 64,
    ensures
        same == (text@ == cell_name(cell as int)),
{
    if text.unicode_len() != 2 {
        return false;
    }
    let same = text.get_char(0) == column_char(cell % 8) && text.get_char(1) == row_char(cell / 8);
    proof {
        if same {
            assert(text@ =~= cell_name(cell as int));
        }
    }
    same
}

/// The first of `moves` whose cell `input` names, if there is one.
pub fn find_move(moves: &Vec<Move>, input: &str) -> (found: Option<usize>)
    requires
        forall|i: int| 0 <= i < moves@.len() ==> (#[trigger] moves@[i]).mv_int < 64,
    ensures
        match found {
            Some(i) => {
                &&& i < moves@.len()
                &&& input@ == cell_name(moves@[i as int].mv_int as int)
                &&& forall|j: int|
                    0 <= j < i ==> input@ != cell_name((#[trigger] moves@[j]).mv_int as int)
            },
            None => forall|j: int|
                0 <= j < moves@.len() ==> input@ != cell_name((#[trigger] moves@[j]).mv_int as int),
        },
{
    let mut i: usize = 0;
    while i < moves.len()
        invariant
            i <= moves@.len(),
            forall|k: int| 0 <= k < moves@.len() ==> (#[trigger] moves@[k]).mv_int < 64,
            forall|j: int| 0 <= j < i ==> input@ != cell_name((#[trigger] moves@[j]).mv_int as int),
        decreases moves@.len() - i,
    {
        if names_cell(input, moves[i].mv_int) {
            return Some(i);
        }
        i += 1;
    }
    None
}

/// Whether an answer means yes: `yes` and `y` do, nothing else does.
pub fn is_yes(answer: &str) -> (yes: bool)
    ensures
        yes == (answer@ == seq!['y', 'e', 's'] || answer@ == seq!['y']),
{
    let len = answer.unicode_len();
    if len == 1 {
        let yes = answer.get_char(0) == 'y';
        proof {
            if yes {
                assert(answer@ =~= seq!['y']);
            }
        }
        yes
    } else if len == 3 {
        let yes = answer.get_char(0) == 'y' && answer.get_char(1) == 'e' && answer.get_char(2) == 's';
        proof {
            if yes {
                assert(answer@ =~= seq!['y', 'e', 's']);
            }
        }
        yes
    } else {
        false
    }
}

} // verus!
