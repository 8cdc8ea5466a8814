//! What holds of the rules and of the search, whatever the position.

use vstd::prelude::*;
use crate::board::{disks, disks_upto, opponent, placed, start_cells, Disk, MoveView};
use crate::bot::forest;
use crate::rules::{
    captures, dir_col, dir_row, flip_line, flip_lines, is_legal, legal_moves,
    lemma_legal_moves_upto, lemma_run_cells, lines_upto, ray_cell, ray_inside, run, run_from,
    shift,
};
use crate::settings::Settings;

verus! {

/// Replacing what one cell holds changes the count of a disk by what left and
/// what came.
proof fn lemma_disks_update(cells: Seq<Disk>, i: int, d: Disk, x: Disk, n: int)
    requires
        0 <= i < cells.len(),
        0 <= n <= cells.len(),
    ensures
        disks_upto(cells.update(i, d), x, n) == disks_upto(cells, x, n) + if i < n {
            (if d == x {
                1int
            } else {
                0int
            }) - (if cells[i] == x {
                1int
            } else {
                0int
            })
        } else {
            0int
        },
    decreases n,
{
    if n > 0 {
        lemma_disks_update(cells, i, d, x, n - 1);
    }
}

/// A disk that no cell holds is counted zero times.
proof fn lemma_disks_absent(cells: Seq<Disk>, x: Disk, n: int)
    requires
        0 <= n <= cells.len(),
        forall|i: int| 0 <= i < n ==> cells[i] != x,
    ensures
        disks_upto(cells, x, n) == 0,
    decreases n,
{
    if n > 0 {
        lemma_disks_absent(cells, x, n - 1);
    }
}

/// The opening position holds two disks of each colour.
pub proof fn law_start_tally()
    ensures
        disks(start_cells(), Disk::Black) == 2,
        disks(start_cells(), Disk::White) == 2,
        start_cells()[27] == Disk::White,
        start_cells()[36] == Disk::White,
        start_cells()[28] == Disk::Black,
        start_cells()[35] == Disk::Black,
{
    let bare = Seq::new(64, |i: int| Disk::Empty);
    let one = bare.update(27, Disk::White);
    let two = one.update(36, Disk::White);
    let three = two.update(28, Disk::Black);
    let four = three.update(35, Disk::Black);
    assert(four =~= start_cells());
    lemma_disks_absent(bare, Disk::Black, 64);
    lemma_disks_absent(bare, Disk::White, 64);
    lemma_disks_update(bare, 27, Disk::White, Disk::White, 64);
    lemma_disks_update(bare, 27, Disk::White, Disk::Black, 64);
    lemma_disks_update(one, 36, Disk::White, Disk::White, 64);
    lemma_disks_update(one, 36, Disk::White, Disk::Black, 64);
    lemma_disks_update(two, 28, Disk::Black, Disk::White, 64);
    lemma_disks_update(two, 28, Disk::Black, Disk::Black, 64);
    lemma_disks_update(three, 35, Disk::Black, Disk::White, 64);
    lemma_disks_update(three, 35, Disk::Black, Disk::Black, 64);
}

/// Playing one move on two boards that hold the same disks gives two boards
/// that hold the same disks.
pub proof fn law_placing_is_deterministic(a: Seq<Disk>, b: Seq<Disk>, mv: MoveView, color: Disk)
    requires
        a.len() == b.len(),
        forall|i: int| 0 <= i < a.len() ==> a[i] == b[i],
    ensures
        placed(a, mv, color) == placed(b, mv, color),
{
    assert(placed(a, mv, color) =~= placed(b, mv, color));
}

/// Playing a move again on the board it produced changes nothing.
pub proof fn law_placing_twice(cells: Seq<Disk>, mv: MoveView, color: Disk)
    ensures
        placed(placed(cells, mv, color), mv, color) == placed(cells, mv, color),
{
    assert(placed(placed(cells, mv, color), mv, color) =~= placed(cells, mv, color));
}

/// The cells after the first `n` of `targets` took `color`, one at a time.
spec fn painted(base: Seq<Disk>, targets: Seq<usize>, color: Disk, n: int) -> Seq<Disk>
    decreases n,
{
    if n <= 0 {
        base
    } else {
        painted(base, targets, color, n - 1).update(targets[n - 1] as int, color)
    }
}

/// Cell `i` is among the first `n` of `targets`.
spec fn hit(targets: Seq<usize>, n: int, i: int) -> bool {
    exists|j: int| 0 <= j < n && #[trigger] targets[j] == i
}

/// Painting changes the targets and nothing else.
proof fn lemma_painted_cells(base: Seq<Disk>, targets: Seq<usize>, color: Disk, n: int)
    requires
        0 <= n <= targets.len(),
        forall|j: int| 0 <= j < n ==> #[trigger] targets[j] < base.len(),
    ensures
        painted(base, targets, color, n).len() == base.len(),
        forall|i: int|
            0 <= i < base.len() ==> #[trigger] painted(base, targets, color, n)[i] == if hit(
                targets,
                n,
                i,
            ) {
                color
            } else {
                base[i]
            },
    decreases n,
{
    if n > 0 {
        lemma_painted_cells(base, targets, color, n - 1);
        let before = painted(base, targets, color, n - 1);
        let now = painted(base, targets, color, n);
        assert forall|i: int| 0 <= i < base.len() implies #[trigger] now[i] == if hit(
            targets,
            n,
            i,
        ) {
            color
        } else {
            base[i]
        } by {
            if i == targets[n - 1] {
                assert(hit(targets, n, i));
            } else if hit(targets, n - 1, i) {
                let j = choose|j: int| 0 <= j < n - 1 && #[trigger] targets[j] == i;
                assert(targets[j] == i);
            } else if hit(targets, n, i) {
                let j = choose|j: int| 0 <= j < n && #[trigger] targets[j] == i;
                assert(j < n - 1);
            }
        }
    }
}

/// Painting `n` distinct cells that all hold `from` moves `n` disks from
/// `from` to `color`.
proof fn lemma_painted_counts(
    base: Seq<Disk>,
    targets: Seq<usize>,
    color: Disk,
    from: Disk,
    n: int,
)
    requires
        0 <= n <= targets.len(),
        from != color,
        forall|j: int| 0 <= j < n ==> #[trigger] targets[j] < base.len(),
        forall|j: int| 0 <= j < n ==> base[#[trigger] targets[j] as int] == from,
        forall|a: int, b: int| 0 <= a < b < n ==> #[trigger] targets[a] != #[trigger] targets[b],
    ensures
        disks(painted(base, targets, color, n), color) == disks(base, color) + n,
        disks(painted(base, targets, color, n), from) == disks(base, from) - n,
    decreases n,
{
    if n > 0 {
        lemma_painted_counts(base, targets, color, from, n - 1);
        lemma_painted_cells(base, targets, color, n - 1);
        let before = painted(base, targets, color, n - 1);
        let t = targets[n - 1] as int;
        if hit(targets, n - 1, t) {
            let j = choose|j: int| 0 <= j < n - 1 && #[trigger] targets[j] == t;
            assert(targets[j] != targets[n - 1]);
        }
        assert(before[t] == from);
        lemma_disks_update(before, t, color, color, base.len() as int);
        lemma_disks_update(before, t, color, from, base.len() as int);
    }
}

/// The cells of the first `l` of `lines`, one line after the other.
spec fn flat(lines: Seq<Seq<usize>>, l: int) -> Seq<usize>
    decreases l,
{
    if l <= 0 {
        Seq::empty()
    } else {
        flat(lines, l - 1) + lines[l - 1]
    }
}

/// The flattened lines hold as many cells as the move flips, and exactly the
/// cells of the lines.
proof fn lemma_flat(mv: MoveView, l: int)
    requires
        0 <= l <= mv.lines.len(),
    ensures
        flat(mv.lines, l).len() == mv.flipped_upto(l),
        forall|i: int|
            hit(flat(mv.lines, l), flat(mv.lines, l).len() as int, i) <==> exists|a: int, b: int|
                0 <= a < l && 0 <= b < mv.lines[a].len() && #[trigger] mv.lines[a][b] == i,
    decreases l,
{
    if l > 0 {
        lemma_flat(mv, l - 1);
        let before = flat(mv.lines, l - 1);
        let now = flat(mv.lines, l);
        let last = mv.lines[l - 1];
        assert forall|i: int| hit(now, now.len() as int, i) implies exists|a: int, b: int|
            0 <= a < l && 0 <= b < mv.lines[a].len() && #[trigger] mv.lines[a][b] == i by {
            let j = choose|j: int| 0 <= j < now.len() && #[trigger] now[j] == i;
            if j < before.len() {
                assert(before[j] == i);
                assert(hit(before, before.len() as int, i));
                let (a, b) = choose|a: int, b: int|
                    0 <= a < l - 1 && 0 <= b < mv.lines[a].len() && #[trigger] mv.lines[a][b] == i;
                assert(0 <= a < l && 0 <= b < mv.lines[a].len() && mv.lines[a][b] == i);
            } else {
                assert(mv.lines[l - 1][j - before.len()] == i);
            }
        }
        assert forall|i: int|
            (exists|a: int, b: int|
                0 <= a < l && 0 <= b < mv.lines[a].len() && #[trigger] mv.lines[a][b]
                    == i) implies hit(now, now.len() as int, i) by {
            let (a, b) = choose|a: int, b: int|
                0 <= a < l && 0 <= b < mv.lines[a].len() && #[trigger] mv.lines[a][b] == i;
            if a < l - 1 {
                assert(hit(before, before.len() as int, i));
                let j = choose|j: int| 0 <= j < before.len() && #[trigger] before[j] == i;
                assert(now[j] == i);
            } else {
                assert(now[before.len() + b] == i);
            }
        }
    }
}

/// The cell `n` steps from `p` in the `j`-th direction.
spec fn ray_point(p: int, j: int, n: int) -> int {
    ray_cell(p, dir_row(j), dir_col(j), n)
}

/// Two walks from one cell meet only if they are the same walk, and no walk
/// comes back to where it started.
proof fn lemma_rays_apart(p: int, j1: int, n1: int, j2: int, n2: int)
    requires
        0 <= p < 64,
        0 <= j1 < 8,
        0 <= j2 < 8,
        1 <= n1,
        1 <= n2,
        ray_inside(p, dir_row(j1), dir_col(j1), n1),
        ray_inside(p, dir_row(j2), dir_col(j2), n2),
    ensures
        ray_point(p, j1, n1) != p,
        0 <= ray_point(p, j1, n1) < 64,
        ray_point(p, j1, n1) == ray_point(p, j2, n2) ==> j1 == j2 && n1 == n2,
{
    let r1 = p / 8 + shift(dir_row(j1), n1);
    let c1 = p % 8 + shift(dir_col(j1), n1);
    let r2 = p / 8 + shift(dir_row(j2), n2);
    let c2 = p % 8 + shift(dir_col(j2), n2);
    assert(ray_point(p, j1, n1) == r1 * 8 + c1);
    assert(ray_point(p, j2, n2) == r2 * 8 + c2);
    assert(p == (p / 8) * 8 + p % 8);
    if r1 * 8 + c1 == r2 * 8 + c2 {
        assert(r1 == r2 && c1 == c2);
    }
    if r1 * 8 + c1 == p {
        assert(r1 == p / 8 && c1 == p % 8);
    }
}

/// `x` lies on the run of opponent disks of one of the first `k` directions.
spec fn on_runs(cells: Seq<Disk>, p: int, color: Disk, k: int, x: int) -> bool {
    exists|j: int, n: int|
        0 <= j < k && 1 <= n <= run(cells, p, dir_row(j), dir_col(j), color) && #[trigger] ray_point(
            p,
            j,
            n,
        ) == x
}

/// Flattening reads only the first `l` lines.
proof fn lemma_flat_prefix(a: Seq<Seq<usize>>, b: Seq<Seq<usize>>, l: int)
    requires
        forall|i: int| 0 <= i < l ==> a[i] == b[i],
    ensures
        flat(a, l) == flat(b, l),
    decreases l,
{
    if l > 0 {
        lemma_flat_prefix(a, b, l - 1);
    }
}

/// The cells on the flip lines of the first `k` directions lie on the runs of
/// those directions, and no cell occurs twice.
proof fn lemma_flat_runs(cells: Seq<Disk>, p: int, color: Disk, k: int)
    requires
        0 <= p < 64,
        0 <= k <= 8,
    ensures
        ({
            let lines = lines_upto(cells, p, color, k);
            let all = flat(lines, lines.len() as int);
            &&& forall|i: int|
                0 <= i < all.len() ==> on_runs(cells, p, color, k, #[trigger] all[i] as int)
            &&& forall|a: int, b: int|
                0 <= a < b < all.len() ==> #[trigger] all[a] != #[trigger] all[b]
        }),
    decreases k,
{
    if k > 0 {
        lemma_flat_runs(cells, p, color, k - 1);
        let rest = lines_upto(cells, p, color, k - 1);
        let lines = lines_upto(cells, p, color, k);
        let before = flat(rest, rest.len() as int);
        let all = flat(lines, lines.len() as int);
        let dr = dir_row(k - 1);
        let dc = dir_col(k - 1);
        assert forall|i: int| 0 <= i < before.len() implies on_runs(
            cells,
            p,
            color,
            k,
            #[trigger] before[i] as int,
        ) by {
            assert(on_runs(cells, p, color, k - 1, before[i] as int));
            let (j, n) = choose|j: int, n: int|
                0 <= j < k - 1 && 1 <= n <= run(cells, p, dir_row(j), dir_col(j), color)
                    && #[trigger] ray_point(p, j, n) == before[i] as int;
            assert(0 <= j < k && ray_point(p, j, n) == before[i] as int);
        }
        if captures(cells, p, dr, dc, color) {
            let line = flip_line(cells, p, dr, dc, color);
            lemma_flat_prefix(lines, rest, rest.len() as int);
            assert(all == before + line);
            lemma_run_cells(cells, p, dr, dc, color, 1);
            assert forall|m: int| 0 <= m < line.len() implies line[m] as int == ray_point(
                p,
                k - 1,
                m + 1,
            ) && on_runs(cells, p, color, k, #[trigger] line[m] as int) by {
                assert(0 <= ray_cell(p, dr, dc, m + 1) < 64);
                assert(ray_point(p, k - 1, m + 1) == line[m] as int);
            }
            assert forall|i: int| 0 <= i < all.len() implies on_runs(
                cells,
                p,
                color,
                k,
                #[trigger] all[i] as int,
            ) by {
                if i < before.len() {
                    assert(all[i] == before[i]);
                } else {
                    assert(all[i] == line[i - before.len()]);
                }
            }
            assert forall|a: int, b: int| 0 <= a < b < all.len() implies #[trigger] all[a]
                != #[trigger] all[b] by {
                if b < before.len() {
                    assert(all[a] == before[a] && all[b] == before[b]);
                } else {
                    let mb = b - before.len();
                    assert(all[b] == line[mb]);
                    assert(ray_inside(p, dr, dc, mb + 1));
                    if a < before.len() {
                        assert(all[a] == before[a]);
                        assert(on_runs(cells, p, color, k - 1, before[a] as int));
                        let (j, n) = choose|j: int, n: int|
                            0 <= j < k - 1 && 1 <= n <= run(cells, p, dir_row(j), dir_col(j), color)
                                && #[trigger] ray_point(p, j, n) == before[a] as int;
                        lemma_run_cells(cells, p, dir_row(j), dir_col(j), color, 1);
                        assert(ray_inside(p, dir_row(j), dir_col(j), n));
                        lemma_rays_apart(p, j, n, k - 1, mb + 1);
                    } else {
                        let ma = a - before.len();
                        assert(all[a] == line[ma]);
                        assert(ray_inside(p, dr, dc, ma + 1));
                        lemma_rays_apart(p, k - 1, ma + 1, k - 1, mb + 1);
                    }
                }
            }
        } else {
            assert(lines == rest);
        }
    }
}

/// After a legal move the mover has one disk more for the cell played and
/// one more for each disk flipped, and the opponent has one less for each
/// disk flipped.
pub proof fn law_tally_after_move(cells: Seq<Disk>, color: Disk, i: int)
    requires
        cells.len() == 64,
        color != Disk::Empty,
        0 <= i < legal_moves(cells, color).len(),
    ensures
        ({
            let mv = legal_moves(cells, color)[i];
            let after = placed(cells, mv, color);
            &&& disks(after, color) == disks(cells, color) + 1 + mv.flipped()
            &&& disks(after, opponent(color)) == disks(cells, opponent(color)) - mv.flipped()
        }),
{
    let mv = legal_moves(cells, color)[i];
    let p = mv.cell as int;
    let other = opponent(color);
    lemma_legal_moves_upto(cells, color, 64);
    assert(is_legal(cells, p, color));
    assert(mv.lines == flip_lines(cells, p, color));
    let all = flat(mv.lines, mv.lines.len() as int);
    let count = all.len() as int;
    lemma_flat(mv, mv.lines.len() as int);
    lemma_flat_runs(cells, p, color, 8);
    let base = cells.update(p, color);
    lemma_disks_update(cells, p, color, color, 64);
    lemma_disks_update(cells, p, color, other, 64);
    assert forall|j: int| 0 <= j < count implies #[trigger] all[j] < 64 && base[all[j] as int]
        == other by {
        assert(on_runs(cells, p, color, 8, all[j] as int));
        let (d, n) = choose|d: int, n: int|
            0 <= d < 8 && 1 <= n <= run(cells, p, dir_row(d), dir_col(d), color)
                && #[trigger] ray_point(p, d, n) == all[j] as int;
        lemma_run_cells(cells, p, dir_row(d), dir_col(d), color, 1);
        assert(ray_inside(p, dir_row(d), dir_col(d), n));
        assert(cells[ray_cell(p, dir_row(d), dir_col(d), n)] == other);
        lemma_rays_apart(p, d, n, d, n);
    }
    lemma_painted_counts(base, all, color, other, count);
    lemma_painted_cells(base, all, color, count);
    let after = placed(cells, mv, color);
    assert forall|c: int| 0 <= c < 64 implies after[c] == painted(base, all, color, count)[c] by {
        if c != p {
            assert(mv.covers(c) == hit(all, count, c));
        }
    }
    assert(after =~= painted(base, all, color, count));
}

/// The root candidates of a search are the legal moves in their order,
/// whatever the depth ceiling and the other settings: the settings change
/// scores, never the moves to choose from.
pub proof fn law_candidates_ignore_settings(cells: Seq<Disk>, color: Disk, a: Settings, b: Settings)
    ensures
        ({
            let moves = legal_moves(cells, color);
            let n = moves.len() as int;
            &&& forest(cells, color, a, n).len() == n
            &&& forest(cells, color, b, n).len() == n
            &&& forall|i: int|
                0 <= i < n ==> (#[trigger] forest(cells, color, a, n)[i]).mv == moves[i] && forest(
                    cells,
                    color,
                    b,
                    n,
                )[i].mv == moves[i]
        }),
{
}

/// Walking from `p` in direction `(dr, dc)`, the first `n` cells hold
/// opponent disks and the next one holds a disk of `color`.
pub open spec fn brackets(cells: Seq<Disk>, p: int, dr: int, dc: int, color: Disk, n: int) -> bool {
    &&& n >= 1
    &&& forall|k: int|
        1 <= k <= n ==> ray_inside(p, dr, dc, k) && cells[#[trigger] ray_cell(p, dr, dc, k)]
            == opponent(color)
    &&& ray_inside(p, dr, dc, n + 1)
    &&& cells[ray_cell(p, dr, dc, n + 1)] == color
}

/// A stretch of opponent disks that ends before an other cell is the run.
proof fn lemma_run_is_stretch(cells: Seq<Disk>, p: int, dr: int, dc: int, color: Disk, m: int, n: int)
    requires
        1 <= m <= n + 1,
        n + 1 < 8,
        forall|k: int|
            m <= k <= n ==> ray_inside(p, dr, dc, k) && cells[#[trigger] ray_cell(p, dr, dc, k)]
                == opponent(color),
        !(ray_inside(p, dr, dc, n + 1) && cells[ray_cell(p, dr, dc, n + 1)] == opponent(color)),
    ensures
        run_from(cells, p, dr, dc, color, m) == n + 1 - m,
    decreases n + 1 - m,
{
    if m <= n {
        assert(ray_inside(p, dr, dc, m) && cells[ray_cell(p, dr, dc, m)] == opponent(color));
        lemma_run_is_stretch(cells, p, dr, dc, color, m + 1, n);
    }
}

/// A closed stretch of opponent disks is the run of its direction.
proof fn lemma_brackets_is_run(cells: Seq<Disk>, p: int, dr: int, dc: int, color: Disk, n: int)
    requires
        color != Disk::Empty,
        0 <= p < 64,
        -1 <= dr <= 1,
        -1 <= dc <= 1,
        dr != 0 || dc != 0,
        brackets(cells, p, dr, dc, color, n),
    ensures
        n == run(cells, p, dr, dc, color),
        captures(cells, p, dr, dc, color),
{
    assert(n + 1 < 8);
    assert(cells[ray_cell(p, dr, dc, n + 1)] != opponent(color));
    lemma_run_is_stretch(cells, p, dr, dc, color, 1, n);
}

/// The run of a capturing direction is a closed stretch of opponent disks.
proof fn lemma_run_brackets(cells: Seq<Disk>, p: int, dr: int, dc: int, color: Disk)
    requires
        captures(cells, p, dr, dc, color),
    ensures
        brackets(cells, p, dr, dc, color, run(cells, p, dr, dc, color)),
{
    lemma_run_cells(cells, p, dr, dc, color, 1);
}

/// A direction captures exactly when some stretch of opponent disks next to
/// the cell is closed by a disk of the mover, and that stretch is the run
/// that the flip line lists, nearest cell first.
pub proof fn law_capture_brackets(cells: Seq<Disk>, p: int, dr: int, dc: int, color: Disk)
    requires
        color != Disk::Empty,
        0 <= p < 64,
        -1 <= dr <= 1,
        -1 <= dc <= 1,
        dr != 0 || dc != 0,
    ensures
        captures(cells, p, dr, dc, color) <==> exists|n: int|
            #[trigger] brackets(cells, p, dr, dc, color, n),
        forall|n: int| #[trigger]
            brackets(cells, p, dr, dc, color, n) ==> flip_line(cells, p, dr, dc, color).len() == n,
        forall|k: int|
            0 <= k < flip_line(cells, p, dr, dc, color).len() ==> #[trigger] flip_line(
                cells,
                p,
                dr,
                dc,
                color,
            )[k] == ray_cell(p, dr, dc, k + 1),
{
    if captures(cells, p, dr, dc, color) {
        lemma_run_brackets(cells, p, dr, dc, color);
    }
    assert forall|n: int| #[trigger] brackets(cells, p, dr, dc, color, n) implies captures(
        cells,
        p,
        dr,
        dc,
        color,
    ) && flip_line(cells, p, dr, dc, color).len() == n by {
        lemma_brackets_is_run(cells, p, dr, dc, color, n);
    }
    assert forall|k: int| 0 <= k < flip_line(cells, p, dr, dc, color).len() implies #[trigger] flip_line(
        cells,
        p,
        dr,
        dc,
        color,
    )[k] == ray_cell(p, dr, dc, k + 1) by {
        lemma_run_cells(cells, p, dr, dc, color, 1);
        assert(0 <= ray_cell(p, dr, dc, k + 1) < 64);
    }
}

} // verus!
