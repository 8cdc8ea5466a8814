//! Move generation: which cells a side may play, and which disks each play
//! captures.

use vstd::prelude::*;
use crate::board::{opponent, Board, Disk, Move, MoveView, Player, lines_of};

verus! {

/// Displacement after `n` steps along an axis whose step is the sign of `d`.
pub open spec fn shift(d: int, n: int) -> int {
    if d > 0 {
        n
    } else if d < 0 {
        -n
    } else {
        0
    }
}

/// The cell `n` steps from `p` in direction `(dr, dc)` is on the board: the
/// walk has left neither a row nor a column.
pub open spec fn ray_inside(p: int, dr: int, dc: int, n: int) -> bool {
    0 <= p / 8 + shift(dr, n) < 8 && 0 <= p % 8 + shift(dc, n) < 8
}

/// Index of the cell `n` steps from `p` in direction `(dr, dc)`.
pub open spec fn ray_cell(p: int, dr: int, dc: int, n: int) -> int {
    (p / 8 + shift(dr, n)) * 8 + (p % 8 + shift(dc, n))
}

/// Row step of the `k`-th compass direction. The order is west, east, north,
/// north-east, north-west, south, south-west, south-east.
pub open spec fn dir_row(k: int) -> int {
    if k == 0 || k == 1 {
        0
    } else if k == 2 || k == 3 || k == 4 {
        -1
    } else {
        1
    }
}

/// Column step of the `k`-th compass direction.
pub open spec fn dir_col(k: int) -> int {
    if k == 0 || k == 4 || k == 6 {
        -1
    } else if k == 1 || k == 3 || k == 7 {
        1
    } else {
        0
    }
}

/// Number of consecutive opponent disks met from step `n` on, walking from
/// `p` in direction `(dr, dc)`.
pub open spec fn run_from(cells: Seq<Disk>, p: int, dr: int, dc: int, color: Disk, n: int) -> int
    decreases 8 - n,
{
    if 1 <= n < 8 && ray_inside(p, dr, dc, n) && cells[ray_cell(p, dr, dc, n)] == opponent(color) {
        1 + run_from(cells, p, dr, dc, color, n + 1)
    } else {
        0
    }
}

/// Length of the unbroken run of opponent disks that starts next to `p`.
pub open spec fn run(cells: Seq<Disk>, p: int, dr: int, dc: int, color: Disk) -> int {
    run_from(cells, p, dr, dc, color, 1)
}

/// A disk of `color` on `p` captures in direction `(dr, dc)`: the run of
/// opponent disks is not empty and ends at a disk of `color`.
pub open spec fn captures(cells: Seq<Disk>, p: int, dr: int, dc: int, color: Disk) -> bool {
    let n = run(cells, p, dr, dc, color);
    n >= 1 && ray_inside(p, dr, dc, n + 1) && cells[ray_cell(p, dr, dc, n + 1)] == color
}

/// The run of opponent disks next to `p` in direction `(dr, dc)`, nearest
/// first.
pub open spec fn flip_line(cells: Seq<Disk>, p: int, dr: int, dc: int, color: Disk) -> Seq<usize> {
    Seq::new(run(cells, p, dr, dc, color) as nat, |k: int| ray_cell(p, dr, dc, k + 1) as usize)
}

/// The neighbour of `p` in the `k`-th direction is on the board and holds an
/// opponent disk.
pub open spec fn touches(cells: Seq<Disk>, p: int, k: int, color: Disk) -> bool {
    ray_inside(p, dir_row(k), dir_col(k), 1) && cells[ray_cell(p, dir_row(k), dir_col(k), 1)]
        == opponent(color)
}

/// The opponent-held neighbours of `p` among the first `k` directions.
pub open spec fn neighbours_upto(cells: Seq<Disk>, p: int, color: Disk, k: int) -> Seq<usize>
    decreases k,
{
    if k <= 0 {
        Seq::empty()
    } else {
        let rest = neighbours_upto(cells, p, color, k - 1);
        if touches(cells, p, k - 1, color) {
            rest.push(ray_cell(p, dir_row(k - 1), dir_col(k - 1), 1) as usize)
        } else {
            rest
        }
    }
}

/// The neighbours of `p` that hold an opponent disk, in direction order.
pub open spec fn opponent_neighbours(cells: Seq<Disk>, p: int, color: Disk) -> Seq<usize> {
    neighbours_upto(cells, p, color, 8)
}

/// `t` is one of the up to eight cells around `p`.
pub open spec fn adjacent(p: int, t: int) -> bool {
    &&& 0 <= t < 64
    &&& t != p
    &&& -1 <= t / 8 - p / 8 <= 1
    &&& -1 <= t % 8 - p % 8 <= 1
}

/// The flip lines of a disk of `color` on `p` toward the first `n` of
/// `targets`. A target that is no neighbour of `p`, or toward which nothing
/// is captured, contributes no line.
pub open spec fn lines_toward(
    cells: Seq<Disk>,
    p: int,
    targets: Seq<usize>,
    color: Disk,
    n: int,
) -> Seq<Seq<usize>>
    decreases n,
{
    if n <= 0 {
        Seq::empty()
    } else {
        let rest = lines_toward(cells, p, targets, color, n - 1);
        let t = targets[n - 1] as int;
        if adjacent(p, t) && captures(cells, p, t / 8 - p / 8, t % 8 - p % 8, color) {
            rest.push(flip_line(cells, p, t / 8 - p / 8, t % 8 - p % 8, color))
        } else {
            rest
        }
    }
}

/// The flip lines of a disk of `color` on `p` in the first `k` directions.
pub open spec fn lines_upto(cells: Seq<Disk>, p: int, color: Disk, k: int) -> Seq<Seq<usize>>
    decreases k,
{
    if k <= 0 {
        Seq::empty()
    } else {
        let rest = lines_upto(cells, p, color, k - 1);
        if captures(cells, p, dir_row(k - 1), dir_col(k - 1), color) {
            rest.push(flip_line(cells, p, dir_row(k - 1), dir_col(k - 1), color))
        } else {
            rest
        }
    }
}

/// All flip lines of a disk of `color` on `p`: one per capturing direction,
/// in direction order.
pub open spec fn flip_lines(cells: Seq<Disk>, p: int, color: Disk) -> Seq<Seq<usize>> {
    lines_upto(cells, p, color, 8)
}

/// `color` may play on `p`: the cell is empty and some direction captures.
pub open spec fn is_legal(cells: Seq<Disk>, p: int, color: Disk) -> bool {
    cells[p] == Disk::Empty && flip_lines(cells, p, color).len() > 0
}

/// The legal moves of `color` on the first `n` cells, by increasing cell.
pub open spec fn legal_moves_upto(cells: Seq<Disk>, color: Disk, n: int) -> Seq<MoveView>
    decreases n,
{
    if n <= 0 {
        Seq::empty()
    } else {
        let rest = legal_moves_upto(cells, color, n - 1);
        if is_legal(cells, n - 1, color) {
            rest.push(MoveView { cell: (n - 1) as usize, lines: flip_lines(cells, n - 1, color) })
        } else {
            rest
        }
    }
}

/// Every legal move of `color`, by increasing cell.
pub open spec fn legal_moves(cells: Seq<Disk>, color: Disk) -> Seq<MoveView> {
    legal_moves_upto(cells, color, 64)
}

/// The contents of a vector of moves.
pub open spec fn views(moves: Seq<Move>) -> Seq<MoveView> {
    Seq::new(moves.len(), |i: int| moves[i]@)
}

/// Row and column step of the `k`-th direction.
fn direction(k: usize) -> (d: (i8, i8))
    requires
        k < 8,
    ensures
        d.0 == dir_row(k as int),
        d.1 == dir_col(k as int),
        -1 <= d.0 <= 1,
        -1 <= d.1 <= 1,
        d.0 != 0 || d.1 != 0,
{
    match k {
        0 => (0, -1),
        1 => (0, 1),
        2 => (-1, 0),
        3 => (-1, 1),
        4 => (-1, -1),
        5 => (1, 0),
        6 => (1, -1),
        _ => (1, 1),
    }
}

/// Walks from `position` in direction `(dr, dc)` and hands out the run of
/// opponent disks if a disk of the player's colour closes it.
fn walk(board: &Board, position: usize, dr: i8, dc: i8, player: Player) -> (line: Option<
    Vec<usize>,
>)
    requires
        position < 64,
        -1 <= dr <= 1,
        -1 <= dc <= 1,
        dr != 0 || dc != 0,
        player.wf(),
    ensures
        line is Some == captures(board@, position as int, dr as int, dc as int, player.color),
        line matches Some(v) ==> v@ == flip_line(
            board@,
            position as int,
            dr as int,
            dc as int,
            player.color,
        ),
{
    let own = player.color;
    let other = player.oppo();
    let ghost p = position as int;
    let ghost cells = board@;
    let mut row: i8 = (position / 8) as i8 + dr;
    let mut col: i8 = (position % 8) as i8 + dc;
    let mut line: Vec<usize> = Vec::new();
    let mut n: usize = 1;
    loop
        invariant
            1 <= n <= 8,
            position < 64,
            -1 <= dr <= 1,
            -1 <= dc <= 1,
            dr != 0 || dc != 0,
            p == position as int,
            cells == board@,
            cells.len() == 64,
            own == player.color,
            other == opponent(own),
            own != Disk::Empty,
            row == p / 8 + shift(dr as int, n as int),
            col == p % 8 + shift(dc as int, n as int),
            line@.len() == n - 1,
            forall|k: int| 0 <= k < n - 1 ==> line@[k] == ray_cell(p, dr as int, dc as int, k + 1),
            run(cells, p, dr as int, dc as int, own) == n - 1 + run_from(
                cells,
                p,
                dr as int,
                dc as int,
                own,
                n as int,
            ),
        decreases 8 - n,
    {
        if row < 0 || row > 7 || col < 0 || col > 7 {
            return None;
        }
        assert(n < 8);
        let cell = (row as usize) * 8 + (col as usize);
        assert(cell == ray_cell(p, dr as int, dc as int, n as int));
        let disk = board.field[cell];
        if disk == other {
            line.push(cell);
            row = row + dr;
            col = col + dc;
            n = n + 1;
        } else if disk == own && n > 1 {
            assert(line@ =~= flip_line(cells, p, dr as int, dc as int, own));
            return Some(line);
        } else {
            return None;
        }
    }
}

/// The neighbours of `pos` that hold a disk of the player's opponent, in
/// direction order; the board's edges are not crossed.
pub fn check_neighbours(board: &Board, pos: usize, player: Player) -> (neighbours: Vec<usize>)
    requires
        pos < 64,
        player.wf(),
    ensures
        neighbours@ == opponent_neighbours(board@, pos as int, player.color),
{
    let other = player.oppo();
    let mut neighbours: Vec<usize> = Vec::new();
    let mut k: usize = 0;
    while k < 8
        invariant
            k <= 8,
            pos < 64,
            other == opponent(player.color),
            neighbours@ == neighbours_upto(board@, pos as int, player.color, k as int),
        decreases 8 - k,
    {
        let (dr, dc) = direction(k);
        let row: i8 = (pos / 8) as i8 + dr;
        let col: i8 = (pos % 8) as i8 + dc;
        if 0 <= row && row <= 7 && 0 <= col && col <= 7 {
            let cell = (row as usize) * 8 + (col as usize);
            if board.field[cell] == other {
                neighbours.push(cell);
            }
        }
        k += 1;
    }
    neighbours
}

/// For each of `targets` in turn, the run of opponent disks that a disk of
/// the player's colour on `position` captures toward it, if any.
pub fn get_flips(board: &Board, targets: &Vec<usize>, position: usize, player: Player) -> (flips:
    Vec<Vec<usize>>)
    requires
        position < 64,
        player.wf(),
    ensures
        lines_of(flips@) == lines_toward(
            board@,
            position as int,
            targets@,
            player.color,
            targets@.len() as int,
        ),
{
    let mut flips: Vec<Vec<usize>> = Vec::new();
    let mut i: usize = 0;
    while i < targets.len()
        invariant
            i <= targets.len(),
            position < 64,
            player.wf(),
            lines_of(flips@) == lines_toward(
                board@,
                position as int,
                targets@,
                player.color,
                i as int,
            ),
        decreases targets.len() - i,
    {
        let t = targets[i];
        let ghost before = lines_of(flips@);
        if t < 64 && t != position {
            let dr: i8 = (t / 8) as i8 - (position / 8) as i8;
            let dc: i8 = (t % 8) as i8 - (position % 8) as i8;
            if -1 <= dr && dr <= 1 && -1 <= dc && dc <= 1 {
                match walk(board, position, dr, dc, player) {
                    Some(line) => {
                        flips.push(line);
                        assert(lines_of(flips@) =~= before.push(line@));
                    },
                    None => {},
                }
            }
        }
        i += 1;
    }
    flips
}

/// `lines_toward` reads only the first `n` targets.
proof fn lemma_lines_toward_prefix(
    cells: Seq<Disk>,
    p: int,
    s1: Seq<usize>,
    s2: Seq<usize>,
    color: Disk,
    n: int,
)
    requires
        n <= s1.len(),
        n <= s2.len(),
        forall|i: int| 0 <= i < n ==> s1[i] == s2[i],
    ensures
        lines_toward(cells, p, s1, color, n) == lines_toward(cells, p, s2, color, n),
    decreases n,
{
    if n > 0 {
        lemma_lines_toward_prefix(cells, p, s1, s2, color, n - 1);
    }
}

/// Walking toward the opponent-held neighbours finds the flip lines of every
/// direction: a direction whose neighbour is not an opponent disk captures
/// nothing.
pub proof fn lemma_lines_toward_neighbours(cells: Seq<Disk>, p: int, color: Disk, k: int)
    requires
        0 <= p < 64,
        0 <= k <= 8,
    ensures
        lines_toward(
            cells,
            p,
            neighbours_upto(cells, p, color, k),
            color,
            neighbours_upto(cells, p, color, k).len() as int,
        ) == lines_upto(cells, p, color, k),
    decreases k,
{
    if k > 0 {
        lemma_lines_toward_neighbours(cells, p, color, k - 1);
        let before = neighbours_upto(cells, p, color, k - 1);
        let dr = dir_row(k - 1);
        let dc = dir_col(k - 1);
        if touches(cells, p, k - 1, color) {
            let t = ray_cell(p, dr, dc, 1);
            let now = before.push(t as usize);
            assert(now == neighbours_upto(cells, p, color, k));
            lemma_lines_toward_prefix(cells, p, now, before, color, before.len() as int);
            assert(t / 8 - p / 8 == dr);
            assert(t % 8 - p % 8 == dc);
            assert(adjacent(p, t));
            assert(now[now.len() - 1] as int == t);
        } else {
            assert(run(cells, p, dr, dc, color) == 0);
        }
    }
}

/// The cells of a run are on the board and hold opponent disks, and the run
/// stops inside the board's eight rows and columns.
pub proof fn lemma_run_cells(cells: Seq<Disk>, p: int, dr: int, dc: int, color: Disk, n: int)
    requires
        1 <= n,
    ensures
        0 <= run_from(cells, p, dr, dc, color, n),
        run_from(cells, p, dr, dc, color, n) > 0 ==> n + run_from(cells, p, dr, dc, color, n) <= 8,
        forall|k: int|
            n <= k < n + run_from(cells, p, dr, dc, color, n) ==> ray_inside(p, dr, dc, k)
                && 0 <= #[trigger] ray_cell(p, dr, dc, k) < 64 && cells[ray_cell(p, dr, dc, k)]
                == opponent(color),
    decreases 8 - n,
{
    if 1 <= n < 8 && ray_inside(p, dr, dc, n) && cells[ray_cell(p, dr, dc, n)] == opponent(color) {
        lemma_run_cells(cells, p, dr, dc, color, n + 1);
    }
}

/// `line` is what a disk of `color` on `p` captures in the `j`-th direction.
pub open spec fn is_capture(cells: Seq<Disk>, p: int, color: Disk, j: int, line: Seq<usize>) -> bool {
    &&& 0 <= j < 8
    &&& captures(cells, p, dir_row(j), dir_col(j), color)
    &&& line == flip_line(cells, p, dir_row(j), dir_col(j), color)
}

/// The `l`-th flip line found in the first `k` directions is the capture of
/// a direction whose index is at least `l`.
pub open spec fn line_has_source(cells: Seq<Disk>, p: int, color: Disk, k: int, l: int) -> bool {
    exists|j: int|
        l <= j < k && #[trigger] is_capture(cells, p, color, j, lines_upto(cells, p, color, k)[l])
}

/// Every flip line is the run of a capturing direction, the lines follow the
/// order of the directions, and no line is empty.
pub proof fn lemma_lines_upto_runs(cells: Seq<Disk>, p: int, color: Disk, k: int)
    requires
        0 <= k <= 8,
    ensures
        lines_upto(cells, p, color, k).len() <= k,
        forall|l: int|
            0 <= l < lines_upto(cells, p, color, k).len() ==> (#[trigger] lines_upto(
                cells,
                p,
                color,
                k,
            )[l]).len() >= 1,
        forall|l: int|
            0 <= l < lines_upto(cells, p, color, k).len() ==> #[trigger] line_has_source(
                cells,
                p,
                color,
                k,
                l,
            ),
    decreases k,
{
    if k > 0 {
        lemma_lines_upto_runs(cells, p, color, k - 1);
        let rest = lines_upto(cells, p, color, k - 1);
        let now = lines_upto(cells, p, color, k);
        assert forall|l: int| 0 <= l < now.len() implies #[trigger] line_has_source(
            cells,
            p,
            color,
            k,
            l,
        ) by {
            if l < rest.len() {
                assert(line_has_source(cells, p, color, k - 1, l));
                let j = choose|j: int|
                    l <= j < k - 1 && #[trigger] is_capture(cells, p, color, j, rest[l]);
                assert(is_capture(cells, p, color, j, now[l]));
            } else {
                assert(is_capture(cells, p, color, k - 1, now[l]));
            }
        }
    }
}

/// The flip lines of a cell of the board name cells of the board, and each
/// of those cells holds an opponent disk.
pub proof fn lemma_flip_lines_cells(cells: Seq<Disk>, p: int, color: Disk)
    requires
        0 <= p < 64,
    ensures
        (MoveView { cell: p as usize, lines: flip_lines(cells, p, color) }).in_range(),
        forall|l: int, k: int|
            0 <= l < flip_lines(cells, p, color).len() && 0 <= k < flip_lines(cells, p, color)[l].len()
                ==> cells[#[trigger] flip_lines(cells, p, color)[l][k] as int] == opponent(color),
{
    let lines = flip_lines(cells, p, color);
    lemma_lines_upto_runs(cells, p, color, 8);
    assert forall|l: int, k: int| 0 <= l < lines.len() && 0 <= k < lines[l].len() implies
        #[trigger] lines[l][k] < 64 && cells[lines[l][k] as int] == opponent(color) by {
        assert(line_has_source(cells, p, color, 8, l));
        let j = choose|j: int| l <= j < 8 && #[trigger] is_capture(cells, p, color, j, lines[l]);
        lemma_run_cells(cells, p, dir_row(j), dir_col(j), color, 1);
        assert(0 <= ray_cell(p, dir_row(j), dir_col(j), k + 1) < 64);
    }
}

/// The moves listed for the first `n` cells are the legal ones, each with all
/// its flip lines, by strictly increasing cell.
pub proof fn lemma_legal_moves_upto(cells: Seq<Disk>, color: Disk, n: int)
    requires
        0 <= n <= 64,
    ensures
        legal_moves_upto(cells, color, n).len() <= n,
        forall|i: int|
            0 <= i < legal_moves_upto(cells, color, n).len() ==> {
                let mv = #[trigger] legal_moves_upto(cells, color, n)[i];
                &&& mv.cell < n
                &&& is_legal(cells, mv.cell as int, color)
                &&& mv.lines == flip_lines(cells, mv.cell as int, color)
            },
        forall|i: int, j: int|
            0 <= i < j < legal_moves_upto(cells, color, n).len() ==> (#[trigger] legal_moves_upto(
                cells,
                color,
                n,
            )[i]).cell < (#[trigger] legal_moves_upto(cells, color, n)[j]).cell,
        forall|c: int|
            0 <= c < n && is_legal(cells, c, color) ==> exists|i: int|
                0 <= i < legal_moves_upto(cells, color, n).len() && (#[trigger] legal_moves_upto(
                    cells,
                    color,
                    n,
                )[i]).cell == c,
    decreases n,
{
    if n > 0 {
        lemma_legal_moves_upto(cells, color, n - 1);
        let rest = legal_moves_upto(cells, color, n - 1);
        let now = legal_moves_upto(cells, color, n);
        assert forall|c: int| 0 <= c < n && is_legal(cells, c, color) implies exists|i: int|
            0 <= i < now.len() && (#[trigger] now[i]).cell == c by {
            if c < n - 1 {
                let i = choose|i: int| 0 <= i < rest.len() && (#[trigger] rest[i]).cell == c;
                assert(now[i].cell == c);
            } else {
                assert(now[now.len() - 1].cell == c);
            }
        }
    }
}

/// The legal moves of `player`, by increasing cell: every empty cell from
/// which at least one direction captures, with one flip line per capturing
/// direction.
pub fn get_valid_moves(board: &Board, player: Player) -> (moves: Vec<Move>)
    requires
        player.wf(),
    ensures
        views(moves@) == legal_moves(board@, player.color),
        moves@.len() <= 64,
        forall|i: int|
            0 <= i < moves@.len() ==> {
                let mv = #[trigger] moves@[i]@;
                &&& mv.in_range()
                &&& board@[mv.cell as int] == Disk::Empty
                &&& mv.lines.len() >= 1
                &&& forall|l: int| 0 <= l < mv.lines.len() ==> (#[trigger] mv.lines[l]).len() >= 1
                &&& forall|l: int, k: int|
                    0 <= l < mv.lines.len() && 0 <= k < mv.lines[l].len() ==> board@[(
                    #[trigger] mv.lines[l][k]) as int] == opponent(player.color)
            },
{
    let mut moves: Vec<Move> = Vec::new();
    let mut i: usize = 0;
    while i < 64
        invariant
            i <= 64,
            player.wf(),
            board@.len() == 64,
            views(moves@) == legal_moves_upto(board@, player.color, i as int),
        decreases 64 - i,
    {
        let ghost before = views(moves@);
        if board.field[i] == Disk::Empty {
            let neighbours = check_neighbours(board, i, player);
            if neighbours.len() > 0 {
                let flips = get_flips(board, &neighbours, i, player);
                proof {
                    lemma_lines_toward_neighbours(board@, i as int, player.color, 8);
                }
                if flips.len() > 0 {
                    let mv = Move { mv_int: i, flips };
                    moves.push(mv);
                    assert(views(moves@) =~= before.push(mv@));
                }
            } else {
                proof {
                    lemma_lines_toward_neighbours(board@, i as int, player.color, 8);
                }
            }
        }
        i += 1;
    }
    proof {
        lemma_legal_moves_upto(board@, player.color, 64);
        assert forall|i: int| 0 <= i < moves@.len() implies {
            let mv = #[trigger] moves@[i]@;
            &&& mv.in_range()
            &&& board@[mv.cell as int] == Disk::Empty
            &&& mv.lines.len() >= 1
            &&& forall|l: int| 0 <= l < mv.lines.len() ==> (#[trigger] mv.lines[l]).len() >= 1
            &&& forall|l: int, k: int|
                0 <= l < mv.lines.len() && 0 <= k < mv.lines[l].len() ==> board@[(
                #[trigger] mv.lines[l][k]) as int] == opponent(player.color)
        } by {
            let mv = moves@[i]@;
            assert(mv == views(moves@)[i]);
            assert(mv == legal_moves_upto(board@, player.color, 64)[i]);
            lemma_lines_upto_runs(board@, mv.cell as int, player.color, 8);
            lemma_flip_lines_cells(board@, mv.cell as int, player.color);
        }
    }
    moves
}

} // verus!
