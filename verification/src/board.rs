//! Cells, players, moves and the 64-cell board, with placement and counting.

use vstd::prelude::*;

verus! {

/// What a cell holds.
#[derive(Clone, Copy, Debug, PartialEq, Eq, Structural)]
pub enum Disk {
    Black,
    White,
    Empty,
}

/// The colour that plays against `color`. Only a disk colour has an opponent;
/// on `Empty` the function is the identity and carries no meaning.
pub open spec fn opponent(color: Disk) -> Disk {
    match color {
        Disk::Black => Disk::White,
        Disk::White => Disk::Black,
        Disk::Empty => Disk::Empty,
    }
}

/// One side of the game: its colour and whether the search plays for it.
#[derive(Clone, Copy, Debug)]
pub struct Player {
    pub color: Disk,
    pub bot: bool,
}

impl Player {
    /// A player always has a disk colour.
    pub open spec fn wf(&self) -> bool {
        self.color != Disk::Empty
    }

    /// The player of `color`, played by the search if `bot` is set.
    pub fn new(color: Disk, bot: bool) -> (player: Player)
        requires
            color != Disk::Empty,
        ensures
            player.color == color,
            player.bot == bot,
            player.wf(),
    {
        Player { color, bot }
    }

    /// The colour of the other side.
    pub fn oppo(&self) -> (other: Disk)
        requires
            self.wf(),
        ensures
            other == opponent(self.color),
            other != Disk::Empty,
            other != self.color,
    {
        match self.color {
            Disk::Black => Disk::White,
            _ => Disk::Black,
        }
    }
}

/// A candidate action: the cell that receives the new disk and, for each
/// direction that captures, the run of cells that change colour.
#[derive(Debug)]
pub struct Move {
    pub mv_int: usize,
    pub flips: Vec<Vec<usize>>,
}

/// The mathematical content of a [`Move`].
pub struct MoveView {
    pub cell: usize,
    pub lines: Seq<Seq<usize>>,
}

impl MoveView {
    /// Every cell the move names lies on the board.
    pub open spec fn in_range(self) -> bool {
        &&& self.cell < 64
        &&& forall|l: int, k: int|
            0 <= l < self.lines.len() && 0 <= k < self.lines[l].len() ==> #[trigger] self.lines[l][k]
                < 64
    }

    /// Cell `i` is the target of the move or lies on one of its flip lines.
    pub open spec fn covers(self, i: int) -> bool {
        i == self.cell || exists|l: int, k: int|
            0 <= l < self.lines.len() && 0 <= k < self.lines[l].len() && #[trigger] self.lines[l][k]
                == i
    }

    /// Number of cells on the first `n` flip lines.
    pub open spec fn flipped_upto(self, n: int) -> int
        decreases n,
    {
        if n <= 0 {
            0
        } else {
            self.flipped_upto(n - 1) + self.lines[n - 1].len()
        }
    }

    /// Number of disks that change colour when the move is played.
    pub open spec fn flipped(self) -> int {
        self.flipped_upto(self.lines.len() as int)
    }
}

/// The flip lines held by a vector of vectors, as sequences.
pub open spec fn lines_of(flips: Seq<Vec<usize>>) -> Seq<Seq<usize>> {
    Seq::new(flips.len(), |l: int| flips[l]@)
}

impl View for Move {
    type V = MoveView;

    open spec fn view(&self) -> MoveView {
        MoveView { cell: self.mv_int, lines: lines_of(self.flips@) }
    }
}

impl Clone for Move {
    fn clone(&self) -> (copy: Move)
        ensures
            copy@ == self@,
    {
        let mut flips: Vec<Vec<usize>> = Vec::new();
        let mut l: usize = 0;
        while l < self.flips.len()
            invariant
                l <= self.flips.len(),
                flips.len() == l,
                forall|j: int| 0 <= j < l ==> flips[j]@ == self.flips[j]@,
            decreases self.flips.len() - l,
        {
            let line = &self.flips[l];
            let mut copy_line: Vec<usize> = Vec::new();
            let mut k: usize = 0;
            while k < line.len()
                invariant
                    k <= line.len(),
                    copy_line.len() == k,
                    forall|j: int| 0 <= j < k ==> copy_line[j] == line[j],
                decreases line.len() - k,
            {
                copy_line.push(line[k]);
                k += 1;
            }
            assert(copy_line@ =~= line@);
            flips.push(copy_line);
            l += 1;
        }
        assert(lines_of(flips@) =~= lines_of(self.flips@));
        Move { mv_int: self.mv_int, flips }
    }
}

impl Move {
    /// The placeholder move: cell 0 with the single flip line `[0]`.
    pub fn new() -> (mv: Move)
        ensures
            mv@.cell == 0,
            mv@.lines == seq![seq![0usize]],
    {
        let mut line: Vec<usize> = Vec::new();
        line.push(0);
        let mut flips: Vec<Vec<usize>> = Vec::new();
        flips.push(line);
        assert(lines_of(flips@) =~~= seq![seq![0usize]]);
        Move { mv_int: 0, flips }
    }
}

/// The grid: 64 cells in row-major order, cell `row * 8 + col`.
#[derive(Clone, Copy, Debug, PartialEq, Eq)]
pub struct Board {
    pub field: [Disk; 64],
}

impl View for Board {
    type V = Seq<Disk>;

    open spec fn view(&self) -> Seq<Disk> {
        self.field@
    }
}

/// The opening position: two disks of each colour on the four centre cells,
/// like colours on a diagonal.
pub open spec fn start_cells() -> Seq<Disk> {
    Seq::new(
        64,
        |i: int|
            if i == 27 || i == 36 {
                Disk::White
            } else if i == 28 || i == 35 {
                Disk::Black
            } else {
                Disk::Empty
            },
    )
}

/// Number of cells among the first `n` of `cells` that hold `disk`.
pub open spec fn disks_upto(cells: Seq<Disk>, disk: Disk, n: int) -> int
    decreases n,
{
    if n <= 0 {
        0
    } else {
        disks_upto(cells, disk, n - 1) + if cells[n - 1] == disk {
            1int
        } else {
            0int
        }
    }
}

/// Number of cells of `cells` that hold `disk`.
pub open spec fn disks(cells: Seq<Disk>, disk: Disk) -> int {
    disks_upto(cells, disk, cells.len() as int)
}

/// The cells after `mv` is played by `color`: the target and every cell on a
/// flip line take the colour, all others keep what they hold.
pub open spec fn placed(cells: Seq<Disk>, mv: MoveView, color: Disk) -> Seq<Disk> {
    Seq::new(cells.len(), |i: int| if mv.covers(i) { color } else { cells[i] })
}

/// Cell `i` is the target of `mv`, lies on one of its first `l` flip lines, or
/// is among the first `k` cells of line `l`.
pub open spec fn covered_before(mv: MoveView, l: int, k: int, i: int) -> bool {
    i == mv.cell || exists|a: int, b: int|
        0 <= a < mv.lines.len() && 0 <= b < mv.lines[a].len() && (a < l || (a == l && b < k))
            && #[trigger] mv.lines[a][b] == i
}

impl Board {
    /// The board before the first move.
    pub fn start() -> (board: Board)
        ensures
            board@ == start_cells(),
    {
        let mut field = [Disk::Empty;64];
        field[27] = Disk::White;
        field[36] = Disk::White;
        field[28] = Disk::Black;
        field[35] = Disk::Black;
        assert(field@ =~= start_cells());
        Board { field }
    }

    /// Plays `move_` for `player`: the target cell and every cell on every
    /// flip line take the player's colour. Legality is not checked.
    pub fn execute_move(&mut self, move_: &Move, player: Player)
        requires
            move_@.in_range(),
        ensures
            final(self)@ == placed(old(self)@, move_@, player.color),
    {
        let ghost before = self@;
        let ghost mv = move_@;
        let color = player.color;
        self.field[move_.mv_int] = color;
        let mut l: usize = 0;
        while l < move_.flips.len()
            invariant
                l <= move_.flips.len(),
                mv == move_@,
                mv.in_range(),
                before.len() == 64,
                self@.len() == 64,
                forall|i: int|
                    0 <= i < 64 ==> self@[i] == if covered_before(mv, l as int, 0, i) {
                        color
                    } else {
                        before[i]
                    },
            decreases move_.flips.len() - l,
        {
            let line = &move_.flips[l];
            assert(line@ == mv.lines[l as int]);
            let mut k: usize = 0;
            while k < line.len()
                invariant
                    l < move_.flips.len(),
                    k <= line.len(),
                    line@ == mv.lines[l as int],
                    mv == move_@,
                    mv.in_range(),
                    before.len() == 64,
                    self@.len() == 64,
                    forall|i: int|
                        0 <= i < 64 ==> self@[i] == if covered_before(mv, l as int, k as int, i) {
                            color
                        } else {
                            before[i]
                        },
                decreases line.len() - k,
            {
                let cell = line[k];
                assert(cell == mv.lines[l as int][k as int]);
                let ghost prior = self@;
                self.field[cell] = color;
                assert forall|i: int| 0 <= i < 64 implies self@[i] == if covered_before(
                    mv,
                    l as int,
                    k as int + 1,
                    i,
                ) {
                    color
                } else {
                    before[i]
                } by {
                    if i == cell {
                        assert(covered_before(mv, l as int, k as int + 1, i));
                    } else {
                        assert(self@[i] == prior[i]);
                        assert(covered_before(mv, l as int, k as int + 1, i) == covered_before(
                            mv,
                            l as int,
                            k as int,
                            i,
                        ));
                    }
                }
                k += 1;
            }
            assert forall|i: int| 0 <= i < 64 implies covered_before(mv, l as int, k as int, i)
                == covered_before(mv, l as int + 1, 0, i) by {}
            l += 1;
        }
        assert forall|i: int| 0 <= i < 64 implies covered_before(mv, l as int, 0, i) == mv.covers(
            i,
        ) by {}
        assert(self@ =~= placed(before, mv, color));
    }

    /// Counts the disks of each colour: `(black, white)`.
    pub fn score(&self) -> (tally: (usize, usize))
        ensures
            tally.0 == disks(self@, Disk::Black),
            tally.1 == disks(self@, Disk::White),
            tally.0 + tally.1 <= 64,
    {
        let mut black: usize = 0;
        let mut white: usize = 0;
        let mut i: usize = 0;
        while i < 64
            invariant
                i <= 64,
                self@.len() == 64,
                black == disks_upto(self@, Disk::Black, i as int),
                white == disks_upto(self@, Disk::White, i as int),
                black + white <= i,
            decreases 64 - i,
        {
            match self.field[i] {
                Disk::Black => {
                    black += 1;
                },
                Disk::White => {
                    white += 1;
                },
                Disk::Empty => {},
            }
            i += 1;
        }
        (black, white)
    }
}

} // verus!
