//! The automated player: a full-width search of the game tree to a fixed
//! depth, scored bottom-up by a disk-count heuristic.

use vstd::prelude::*;
use crate::board::{disks, opponent, placed, Board, Disk, Move, MoveView, Player};
use crate::rules::{get_valid_moves, legal_moves, views};
use crate::settings::{
    lemma_depth_is_small, lemma_score_cap_grows, magnitude, score_cap, Settings, TieBreak,
};

verus! {

/// A node of the search tree: the move that led to it, its score, and one
/// child per reply.
#[derive(Debug)]
pub struct Node {
    pub mv: Move,
    pub score: i64,
    pub children: Vec<Node>,
}

/// The mathematical content of a [`Node`].
pub struct Tree {
    pub mv: MoveView,
    pub score: int,
    pub children: Seq<Tree>,
}

impl Node {
    /// The tree held by the node and its descendants.
    pub open spec fn tree(&self) -> Tree
        decreases self,
    {
        Tree {
            mv: self.mv@,
            score: self.score as int,
            children: Seq::new(
                self.children@.len(),
                |i: int|
                    if 0 <= i < self.children@.len() {
                        self.children@[i].tree()
                    } else {
                        Tree { mv: self.mv@, score: 0, children: Seq::empty() }
                    },
            ),
        }
    }
}

impl View for Node {
    type V = Tree;

    open spec fn view(&self) -> Tree {
        self.tree()
    }
}

/// The contents of a vector of nodes.
pub open spec fn trees(nodes: Seq<Node>) -> Seq<Tree> {
    Seq::new(nodes.len(), |i: int| nodes[i]@)
}

/// A node's children are the contents of its vector of children.
pub proof fn lemma_children(node: Node)
    ensures
        node@.children == trees(node.children@),
{
    assert(node@.children =~= trees(node.children@));
}

impl Node {
    /// Appends `child` to the node's children.
    pub fn add_child(&mut self, child: Node)
        ensures
            final(self)@.mv == old(self)@.mv,
            final(self)@.score == old(self)@.score,
            final(self)@.children == old(self)@.children.push(child@),
            final(self).children@ == old(self).children@.push(child),
    {
        self.children.push(child);
        assert(self@.children =~= old(self)@.children.push(child@));
    }
}

/// The four corner cells.
pub open spec fn is_corner(cell: int) -> bool {
    cell == 0 || cell == 7 || cell == 56 || cell == 63
}

/// Value of the position `cells` that `mover` reached by playing on `cell`,
/// seen from `bot`: the mover's lead in disks, plus the corner bonus for a
/// corner move, pushed away from zero by the zero-disk value when a colour
/// has been wiped out, and negated when the mover is not `bot`.
pub open spec fn heuristic(cells: Seq<Disk>, cell: int, bot: Disk, mover: Disk, s: Settings) -> int {
    let lead = disks(cells, mover) - disks(cells, opponent(mover));
    let base = if is_corner(cell) {
        lead + s.corner_value
    } else {
        lead
    };
    let wiped = disks(cells, Disk::Black) == 0 || disks(cells, Disk::White) == 0;
    let low = if wiped && base <= 0 {
        base - s.zero_disk_value
    } else {
        base
    };
    let high = if wiped && low >= 0 {
        low + s.zero_disk_value
    } else {
        low
    };
    if mover != bot {
        -high
    } else {
        high
    }
}

/// Scores the position on `board` that `player` reached by playing on `mv`,
/// from the point of view of `bot`.
pub fn evaluate(board: &Board, mv: usize, bot: Player, player: Player, settings: &Settings) -> (score:
    i64)
    requires
        player.wf(),
        settings.wf(),
    ensures
        score == heuristic(board@, mv as int, bot.color, player.color, *settings),
        magnitude(score as int) <= settings.leaf_cap(),
{
    proof {
        lemma_depth_is_small(*settings);
    }
    let tally = board.score();
    let mut score: i64 = match player.color {
        Disk::Black => tally.0 as i64 - tally.1 as i64,
        _ => tally.1 as i64 - tally.0 as i64,
    };
    if mv == 0 || mv == 7 || mv == 56 || mv == 63 {
        score = score + settings.corner_value;
    }
    let wiped = tally.0 == 0 || tally.1 == 0;
    if wiped && score <= 0 {
        score = score - settings.zero_disk_value;
    }
    if wiped && score >= 0 {
        score = score + settings.zero_disk_value;
    }
    if player.color != bot.color {
        score = -score;
    }
    score
}

/// Divisor applied to the scores of the children of a node at `depth`: 1 for
/// the replies to a root move, growing by the depth weight with each ply.
pub open spec fn discount(depth: int, s: Settings) -> int {
    (depth - 1) * s.depth_weight + 1
}

/// Division that rounds toward zero.
pub open spec fn quotient(x: int, d: int) -> int {
    if x >= 0 {
        x / d
    } else {
        -((-x) / d)
    }
}

/// Sum of the discounted scores of the first `n` of `kids`.
pub open spec fn discounted_sum(kids: Seq<Tree>, d: int, n: int) -> int
    decreases n,
{
    if n <= 0 {
        0
    } else {
        discounted_sum(kids, d, n - 1) + quotient(kids[n - 1].score, d)
    }
}

/// The subtree below a node reached by `mv` with initial score `score`, where
/// `mover` is to play on `cells` at ply `depth`. Past the depth ceiling, or
/// when `mover` has no legal move, the node stays a leaf with its initial
/// score. Otherwise it gets one child per legal reply, and its score grows by
/// the discounted sum of their final scores.
pub open spec fn grown(
    cells: Seq<Disk>,
    bot: Disk,
    mover: Disk,
    depth: int,
    mv: MoveView,
    score: int,
    s: Settings,
) -> Tree
    decreases s.max_depth + 1 - depth, 1int, 0int,
{
    let moves = legal_moves(cells, mover);
    if depth > s.max_depth || moves.len() == 0 {
        Tree { mv, score, children: Seq::empty() }
    } else {
        let kids = replies(cells, bot, mover, depth, s, moves.len() as int);
        Tree {
            mv,
            score: score + discounted_sum(kids, discount(depth, s), kids.len() as int),
            children: kids,
        }
    }
}

/// The subtrees of the first `n` legal replies of `mover` on `cells` at ply
/// `depth`: each reply is played, scored by the heuristic, and explored one
/// ply deeper with the other side to move.
pub open spec fn replies(
    cells: Seq<Disk>,
    bot: Disk,
    mover: Disk,
    depth: int,
    s: Settings,
    n: int,
) -> Seq<Tree>
    decreases s.max_depth + 1 - depth, 0int, n,
{
    if n <= 0 || depth > s.max_depth {
        Seq::empty()
    } else {
        let rest = replies(cells, bot, mover, depth, s, n - 1);
        let mv = legal_moves(cells, mover)[n - 1];
        let next = placed(cells, mv, mover);
        rest.push(
            grown(
                next,
                bot,
                opponent(mover),
                depth + 1,
                mv,
                heuristic(next, mv.cell as int, bot, mover, s),
                s,
            ),
        )
    }
}

/// Rounding toward zero never moves a score away from zero.
pub proof fn lemma_quotient_bounded(x: int, d: int)
    requires
        d >= 1,
    ensures
        magnitude(quotient(x, d)) <= magnitude(x),
{
    if x >= 0 {
        assert(0 <= x / d <= x) by (nonlinear_arith)
            requires
                x >= 0,
                d >= 1,
        ;
    } else {
        let y = -x;
        assert(0 <= y / d <= y) by (nonlinear_arith)
            requires
                y >= 0,
                d >= 1,
        ;
    }
}

/// Below the depth ceiling there is one subtree per reply considered.
pub proof fn lemma_replies_len(cells: Seq<Disk>, bot: Disk, mover: Disk, depth: int, s: Settings, n: int)
    requires
        0 <= n,
        depth <= s.max_depth,
    ensures
        replies(cells, bot, mover, depth, s, n).len() == n,
    decreases n,
{
    if n > 0 {
        lemma_replies_len(cells, bot, mover, depth, s, n - 1);
    }
}

/// Explores the replies to the position on `board`, where `player` is to move
/// at ply `depth`, and hands back `node` with its subtree and its final
/// score. `bot` is the side the search plays for.
pub fn recursive_bot(
    board: &Board,
    bot: Player,
    player: Player,
    depth: usize,
    node: Node,
    settings: &Settings,
) -> (grown_node: Node)
    requires
        player.wf(),
        settings.wf(),
        1 <= depth,
        node.children@.len() == 0,
        magnitude(node.score as int) <= settings.leaf_cap(),
    ensures
        grown_node@ == grown(
            board@,
            bot.color,
            player.color,
            depth as int,
            node@.mv,
            node@.score,
            *settings,
        ),
        magnitude(grown_node.score as int) <= score_cap(
            settings.leaf_cap(),
            settings.max_depth + 1 - depth,
        ),
    decreases settings.max_depth + 1 - depth,
{
    let ghost cells = board@;
    let ghost leaf = settings.leaf_cap();
    let ghost levels = settings.max_depth + 1 - depth;
    let ghost root_mv = node@.mv;
    let ghost root_score = node.score as int;
    proof {
        lemma_depth_is_small(*settings);
        lemma_children(node);
        if levels >= 0 {
            lemma_score_cap_grows(leaf, 0, levels);
        }
        assert(node@.children =~= Seq::empty());
    }
    if depth > settings.max_depth {
        return node;
    }
    let moves = get_valid_moves(board, player);
    if moves.len() == 0 {
        return node;
    }
    let ghost legal = legal_moves(cells, player.color);
    let ghost child_cap = score_cap(leaf, levels - 1);
    let mut node = node;
    let mut i: usize = 0;
    while i < moves.len()
        invariant
            i <= moves.len(),
            moves@.len() <= 64,
            views(moves@) == legal,
            legal == legal_moves(cells, player.color),
            forall|j: int| 0 <= j < moves@.len() ==> (#[trigger] moves@[j]@).in_range(),
            cells == board@,
            player.wf(),
            settings.wf(),
            1 <= depth <= settings.max_depth < 10,
            leaf == settings.leaf_cap(),
            levels == settings.max_depth + 1 - depth,
            child_cap == score_cap(leaf, levels - 1),
            node.mv@ == root_mv,
            node.score == root_score,
            node.children@.len() == i,
            trees(node.children@) == replies(
                cells,
                bot.color,
                player.color,
                depth as int,
                *settings,
                i as int,
            ),
            forall|j: int|
                0 <= j < i ==> magnitude((#[trigger] node.children@[j]).score as int) <= child_cap,
        decreases moves.len() - i,
    {
        let mv = &moves[i];
        assert(mv@ == views(moves@)[i as int]);
        let mut board_new = *board;
        board_new.execute_move(mv, player);
        let player_new = Player::new(player.oppo(), true);
        let new_node = Node {
            mv: mv.clone(),
            score: evaluate(&board_new, mv.mv_int, bot, player, settings),
            children: Vec::new(),
        };
        let child_node = recursive_bot(&board_new, bot, player_new, depth + 1, new_node, settings);
        let ghost before = trees(node.children@);
        node.add_child(child_node);
        assert(trees(node.children@) =~= before.push(child_node@));
        i += 1;
    }
    let ghost kids = trees(node.children@);
    let count = node.children.len();
    proof {
        assert((depth - 1) * settings.depth_weight <= settings.max_depth * settings.depth_weight)
            by (nonlinear_arith)
            requires
                0 <= depth - 1 <= settings.max_depth,
                0 <= settings.depth_weight,
        ;
        assert(0 <= (depth - 1) * settings.depth_weight) by (nonlinear_arith)
            requires
                0 <= depth - 1,
                0 <= settings.depth_weight,
        ;
        lemma_score_cap_grows(leaf, levels, settings.max_depth as int);
        lemma_score_cap_grows(leaf, 0, levels - 1);
    }
    let weight = (depth - 1) as u64 * settings.depth_weight as u64;
    let div: i64 = weight as i64 + 1;
    let mut j: usize = 0;
    while j < count
        invariant
            j <= count <= 64,
            count == node.children@.len(),
            kids == trees(node.children@),
            div == discount(depth as int, *settings),
            div >= 1,
            node.mv@ == root_mv,
            node.score == root_score + discounted_sum(kids, div as int, j as int),
            magnitude(root_score) <= leaf,
            magnitude(node.score as int) <= leaf + j * child_cap,
            0 <= child_cap,
            leaf + 64 * child_cap <= i64::MAX,
            forall|k: int|
                0 <= k < count ==> magnitude((#[trigger] node.children@[k]).score as int)
                    <= child_cap,
        decreases count - j,
    {
        let part = node.children[j].score / div;
        proof {
            lemma_quotient_bounded(node.children@[j as int].score as int, div as int);
            assert(part == quotient(kids[j as int].score, div as int));
            assert(leaf + (j + 1) * child_cap <= leaf + 64 * child_cap) by (nonlinear_arith)
                requires
                    0 <= child_cap,
                    j + 1 <= 64,
            ;
            assert((j + 1) * child_cap == j * child_cap + child_cap) by (nonlinear_arith);
        }
        let ghost children_before = node.children@;
        node.score = node.score + part;
        assert(node.children@ == children_before);
        j += 1;
    }
    proof {
        lemma_replies_len(cells, bot.color, player.color, depth as int, *settings, legal.len() as int);
        lemma_children(node);
        assert(leaf + count * child_cap <= leaf + 64 * child_cap) by (nonlinear_arith)
            requires
                0 <= child_cap,
                count <= 64,
        ;
    }
    node
}

/// The scored subtree of the root move `mv` of `color` on `cells`: the move
/// is played, and the replies are explored from ply 1 with an initial score
/// of 0.
pub open spec fn branch(cells: Seq<Disk>, color: Disk, mv: MoveView, s: Settings) -> Tree {
    grown(placed(cells, mv, color), color, opponent(color), 1, mv, 0, s)
}

/// The subtrees of the first `n` legal moves of `color` on `cells`.
pub open spec fn forest(cells: Seq<Disk>, color: Disk, s: Settings, n: int) -> Seq<Tree> {
    Seq::new(n as nat, |i: int| branch(cells, color, legal_moves(cells, color)[i], s))
}

/// The scores of a sequence of subtrees.
pub open spec fn scores_of(kids: Seq<Tree>) -> Seq<int> {
    Seq::new(kids.len(), |i: int| kids[i].score)
}

/// A candidate takes the lead from the leader: its score is greater, or it is
/// equal and the coin came up for the candidate.
pub open spec fn prevails(leader: int, candidate: int, coin: bool) -> bool {
    candidate > leader || (candidate == leader && coin)
}

/// Index of the leader among the first `n` scores, where `coins[i]` is the
/// coin flipped for candidate `i`. The first candidate leads at the start.
pub open spec fn leader(scores: Seq<int>, coins: Seq<bool>, n: int) -> int
    decreases n,
{
    if n <= 1 {
        0
    } else {
        let before = leader(scores, coins, n - 1);
        if prevails(scores[before], scores[n - 1], coins[n - 1]) {
            n - 1
        } else {
            before
        }
    }
}

/// No score is greater than the one at `i`.
pub open spec fn is_best(scores: Seq<int>, i: int) -> bool {
    &&& 0 <= i < scores.len()
    &&& forall|j: int| 0 <= j < scores.len() ==> scores[j] <= scores[i]
}

/// The score at `i` is the greatest, and no earlier score equals it.
pub open spec fn is_first_best(scores: Seq<int>, i: int) -> bool {
    &&& is_best(scores, i)
    &&& forall|j: int| 0 <= j < i ==> scores[j] < scores[i]
}

/// Coins that never come up for the candidate.
pub open spec fn no_coins(n: int) -> Seq<bool> {
    Seq::new(n as nat, |i: int| false)
}

/// Whatever the coins show, the leader holds a greatest score; when no coin
/// ever comes up for a candidate, it is the first to hold it.
pub proof fn lemma_leader_is_best(scores: Seq<int>, coins: Seq<bool>, n: int)
    requires
        1 <= n <= scores.len(),
        coins.len() == scores.len(),
    ensures
        is_best(scores.take(n), leader(scores, coins, n)),
        (forall|i: int| 0 <= i < n ==> !coins[i]) ==> is_first_best(
            scores.take(n),
            leader(scores, coins, n),
        ),
    decreases n,
{
    if n > 1 {
        lemma_leader_is_best(scores, coins, n - 1);
        let before = leader(scores, coins, n - 1);
        let now = leader(scores, coins, n);
        assert forall|j: int| 0 <= j < n implies scores.take(n)[j] <= scores.take(n)[now] by {
            if j < n - 1 {
                assert(scores.take(n - 1)[j] <= scores.take(n - 1)[before]);
            }
        }
        if forall|i: int| 0 <= i < n ==> !coins[i] {
            assert forall|j: int| 0 <= j < now implies scores.take(n)[j] < scores.take(n)[now] by {
                if now == n - 1 {
                    assert(scores.take(n - 1)[j] <= scores.take(n - 1)[before]);
                } else {
                    assert(scores.take(n - 1)[j] < scores.take(n - 1)[before]);
                }
            }
        }
    }
}

/// Whether a candidate takes the lead, given the coin flipped for it.
pub fn supersedes(leader_score: i64, candidate_score: i64, coin: bool) -> (taken: bool)
    ensures
        taken == prevails(leader_score as int, candidate_score as int, coin),
{
    candidate_score > leader_score || (candidate_score == leader_score && coin)
}

/// Calls `rand::random::<bool>()`, which draws a bit from the thread-local
/// random number generator. Nothing is claimed of the bit: two calls may
/// differ. The generator panics only if the system's source of randomness
/// fails when the thread's generator is first seeded.
#[verifier::external_body]
fn coin_flip() -> (coin: bool) {
    rand::random::<bool>()
}

/// Picks the child to play among `children`, going through them in order: a
/// child takes the lead with a greater score, and with an equal score under
/// the coin-flip policy when the coin comes up for it.
pub fn pick_child(children: &Vec<Node>, tie_break: TieBreak) -> (best: usize)
    requires
        children@.len() > 0,
    ensures
        exists|coins: Seq<bool>|
            coins.len() == children@.len() && best == #[trigger] leader(
                scores_of(trees(children@)),
                coins,
                children@.len() as int,
            ),
        tie_break == TieBreak::FirstSeen ==> best == leader(
            scores_of(trees(children@)),
            no_coins(children@.len() as int),
            children@.len() as int,
        ),
        is_best(scores_of(trees(children@)), best as int),
        tie_break == TieBreak::FirstSeen ==> is_first_best(scores_of(trees(children@)), best as int),
{
    let ghost scores = scores_of(trees(children@));
    let ghost mut coins: Seq<bool> = no_coins(children@.len() as int);
    let mut best: usize = 0;
    let mut i: usize = 1;
    while i < children.len()
        invariant
            1 <= i <= children@.len(),
            best < i,
            scores == scores_of(trees(children@)),
            coins.len() == children@.len(),
            best == leader(scores, coins, i as int),
            forall|k: int| i <= k < coins.len() ==> !coins[k],
            tie_break == TieBreak::FirstSeen ==> coins == no_coins(children@.len() as int),
        decreases children@.len() - i,
    {
        let candidate = children[i].score;
        let held = children[best].score;
        let coin = if candidate == held && tie_break == TieBreak::CoinFlip {
            coin_flip()
        } else {
            false
        };
        proof {
            let updated = coins.update(i as int, coin);
            lemma_leader_reads_prefix(scores, coins, updated, i as int);
            if tie_break == TieBreak::FirstSeen {
                assert(updated =~= coins);
            }
            coins = updated;
        }
        if supersedes(held, candidate, coin) {
            best = i;
        }
        i += 1;
    }
    proof {
        lemma_leader_is_best(scores, coins, scores.len() as int);
        assert(scores.take(scores.len() as int) =~= scores);
    }
    best
}

/// The leader among the first `n` depends on the first `n` coins only.
pub proof fn lemma_leader_reads_prefix(scores: Seq<int>, a: Seq<bool>, b: Seq<bool>, n: int)
    requires
        forall|i: int| 0 <= i < n ==> a[i] == b[i],
    ensures
        leader(scores, a, n) == leader(scores, b, n),
    decreases n,
{
    if n > 1 {
        lemma_leader_reads_prefix(scores, a, b, n - 1);
    }
}

/// Plays the root move `mv` for `player` on a copy of `board` and explores
/// the replies: the unit of work for one root move, independent of the others.
pub fn explore_branch(board: &Board, mv: Move, player: Player, settings: &Settings) -> (node: Node)
    requires
        mv@.in_range(),
        player.wf(),
        settings.wf(),
    ensures
        node@ == branch(board@, player.color, mv@, *settings),
{
    let mut mv_board = *board;
    mv_board.execute_move(&mv, player);
    let thread_node = Node { mv, score: 0, children: Vec::new() };
    let new_player = Player::new(player.oppo(), true);
    recursive_bot(&mv_board, player, new_player, 1, thread_node, settings)
}

/// Chooses a move for `player`: every legal move is explored to the depth
/// ceiling, and one with the greatest score is returned, ties settled by the
/// policy of `settings`. `None` means the player has no legal move and must
/// pass. The board is left as it is.
pub fn bot_turn(board: &mut Board, player: Player, settings: &Settings) -> (choice: Option<Move>)
    requires
        player.wf(),
        settings.wf(),
    ensures
        final(board)@ == old(board)@,
        choice is None <==> legal_moves(old(board)@, player.color).len() == 0,
        choice matches Some(mv) ==> {
            let moves = legal_moves(old(board)@, player.color);
            let scores = scores_of(forest(old(board)@, player.color, *settings, moves.len() as int));
            &&& exists|i: int|
                0 <= i < moves.len() && #[trigger] moves[i] == mv@ && is_best(scores, i) && (
                settings.tie_break == TieBreak::FirstSeen ==> is_first_best(scores, i))
            &&& mv@.in_range()
            &&& old(board)@[mv@.cell as int] == Disk::Empty
            &&& moves.len() == 1 ==> mv@ == moves[0]
        },
{
    let ghost cells = board@;
    let ghost legal = legal_moves(cells, player.color);
    let valid_moves = get_valid_moves(board, player);
    if valid_moves.len() == 0 {
        return None;
    }
    let mut top_node = Node { mv: Move::new(), score: 0, children: Vec::new() };
    let mut i: usize = 0;
    while i < valid_moves.len()
        invariant
            i <= valid_moves.len(),
            views(valid_moves@) == legal,
            legal == legal_moves(cells, player.color),
            forall|j: int| 0 <= j < valid_moves@.len() ==> (#[trigger] valid_moves@[j]@).in_range(),
            cells == board@,
            player.wf(),
            settings.wf(),
            top_node.children@.len() == i,
            trees(top_node.children@) == forest(cells, player.color, *settings, i as int),
        decreases valid_moves.len() - i,
    {
        let valid_move = valid_moves[i].clone();
        assert(valid_move@ == views(valid_moves@)[i as int]);
        let result_node = explore_branch(board, valid_move, player, settings);
        let ghost before = trees(top_node.children@);
        top_node.add_child(result_node);
        assert(trees(top_node.children@) =~= before.push(result_node@));
        assert(trees(top_node.children@) =~= forest(cells, player.color, *settings, i + 1));
        i += 1;
    }
    let best = pick_child(&top_node.children, settings.tie_break);
    let bot_move = top_node.children[best].mv.clone();
    proof {
        let kids = trees(top_node.children@);
        assert(kids[best as int] == branch(cells, player.color, legal[best as int], *settings));
        assert(bot_move@ == legal[best as int]);
        assert(bot_move@ == views(valid_moves@)[best as int]);
        assert(valid_moves@[best as int]@.in_range());
    }
    Some(bot_move)
}

} // verus!
