//! One turn of either kind of player on the authoritative board.

use vstd::prelude::*;
use crate::board::{placed, Board, Move, Player};
use crate::bot::{forest, is_best, is_first_best, scores_of};
use crate::rules::legal_moves;
use crate::settings::{Settings, TieBreak};
use crate::text::{cell_name, find_move};

verus! {

/// The automated player's turn: the move the search chooses is played on
/// `board`. Returns `true` when the player has no legal move and passes; the
/// board is then unchanged.
pub fn bot_turn(board: &mut Board, player: Player, settings: &Settings) -> (passed: bool)
    requires
        player.wf(),
        settings.wf(),
    ensures
        passed <==> legal_moves(old(board)@, player.color).len() == 0,
        passed ==> final(board)@ == old(board)@,
        !passed ==> {
            let moves = legal_moves(old(board)@, player.color);
            let scores = scores_of(forest(old(board)@, player.color, *settings, moves.len() as int));
            exists|i: int|
                0 <= i < moves.len() && final(board)@ == placed(
                    old(board)@,
                    #[trigger] moves[i],
                    player.color,
                ) && is_best(scores, i) && (settings.tie_break == TieBreak::FirstSeen
                    ==> is_first_best(scores, i))
        },
{
    let bot_move_option = crate::bot::bot_turn(board, player, settings);
    match bot_move_option {
        None => true,
        Some(bot_move) => {
            board.execute_move(&bot_move, player);
            false
        },
    }
}

/// The interactive player's answer: if `input` names the cell of one of
/// `moves`, the first such move is played on `board` and the answer is
/// accepted. Otherwise the board is unchanged and the answer is refused.
pub fn play_choice(board: &mut Board, moves: &Vec<Move>, input: &str, player: Player) -> (accepted:
    bool)
    requires
        forall|i: int| 0 <= i < moves@.len() ==> (#[trigger] moves@[i]@).in_range(),
    ensures
        accepted <==> exists|i: int|
            0 <= i < moves@.len() && input@ == cell_name((#[trigger] moves@[i]).mv_int as int),
        !accepted ==> final(board)@ == old(board)@,
        accepted ==> exists|i: int|
            {
                &&& 0 <= i < moves@.len()
                &&& input@ == cell_name((#[trigger] moves@[i]).mv_int as int)
                &&& forall|j: int|
                    0 <= j < i ==> input@ != cell_name((#[trigger] moves@[j]).mv_int as int)
                &&& final(board)@ == placed(old(board)@, moves@[i]@, player.color)
            },
{
    assert forall|i: int| 0 <= i < moves@.len() implies (#[trigger] moves@[i]).mv_int < 64 by {
        assert(moves@[i]@.in_range());
    }
    match find_move(moves, input) {
        Some(i) => {
            board.execute_move(&moves[i], player);
            true
        },
        None => false,
    }
}

} // verus!
