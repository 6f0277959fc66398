use vstd::prelude::*;
use vstd::string::StringExecFns;
use crate::board::Board;
use crate::fen::{parse_fen, position_text, FenError};
use crate::mov::{move_code, move_text, parse_move, Move, MoveError};
use crate::solver::{reply, search_depth, tried_before, value};

verus! {

/// The words of an error of a position text.
pub open spec fn fen_words(e: FenError) -> Seq<char> {
    match e {
        FenError::NotEnoughRows => "Not enough rows"@,
        FenError::TooMuchRows => "Too much rows"@,
        FenError::TooMuchCols => "Too much cols"@,
        FenError::InvalidCharacter => "invalid character"@,
        FenError::IncompleteFen => "Incomplete FEN"@,
        FenError::TooMuchTiles => "Too much tiles"@,
        FenError::NotEnoughTiles => "Not enough tiles"@,
        FenError::DuplicateTile => "Duplicate tile"@,
    }
}

/// The words of an error of a move text.
pub open spec fn move_words(e: MoveError) -> Seq<char> {
    match e {
        MoveError::MissingInformation => "missing information"@,
        MoveError::WrongColor => "wrong color"@,
        MoveError::WrongX => "wrong x"@,
        MoveError::WrongY => "wrong y"@,
    }
}

/// The text of the best move for the position of `fen`, searched `depth` moves deep, the
/// first that the search tries where several are best; the words of the error where `fen`
/// is no position, and `No solution found` where the search has no move to give.
pub fn solve(fen: &str, depth: u8) -> (r: Result<String, String>)
    ensures
        match parse_fen(fen@) {
            Err(e) => r is Err && r->Err_0@ == fen_words(e),
            Ok(pos) => {
                let d = search_depth(pos, Some(depth));
                if d > 0 && exists|m: Move| pos.legal(m) {
                    r is Ok && exists|m: Move|
                        pos.legal(m) && #[trigger] reply(pos, d, m) == value(pos, d, false) && r->Ok_0@
                            == move_text(m) && forall|other: Move|
                            pos.legal(other) && #[trigger] reply(pos, d, other) == value(
                                pos,
                                d,
                                false,
                            ) ==> other == m || tried_before(pos, false, m, other)
                } else {
                    r is Err && r->Err_0@ == "No solution found"@
                }
            },
        },
{
    let board = match Board::from_fen(fen) {
        Ok(board) => board,
        Err(e) => {
            return Err(String::from_str(e.message()));
        },
    };
    match crate::solver::solve(&board, Some(depth)) {
        (_, Some(mov), _) => Ok(mov.to_text()),
        _ => Err(String::from_str("No solution found")),
    }
}

/// The text of the position after the move `mov` on the position of `fen`; the words of
/// the error where one of the two texts cannot be read, and `Invalid move` where the move is
/// not legal.
pub fn play(fen: &str, mov: &str) -> (r: Result<String, String>)
    ensures
        match parse_fen(fen@) {
            Err(e) => r is Err && r->Err_0@ == fen_words(e),
            Ok(pos) => match parse_move(mov@) {
                Err(e) => r is Err && r->Err_0@ == move_words(e),
                Ok(m) => if pos.legal(m) {
                    r is Ok && r->Ok_0@ == position_text(pos.after(m))
                } else {
                    r is Err && r->Err_0@ == "Invalid move"@
                },
            },
        },
{
    let board = match Board::from_fen(fen) {
        Ok(board) => board,
        Err(e) => {
            return Err(String::from_str(e.message()));
        },
    };
    let mov = match Move::try_from(mov) {
        Ok(mov) => mov,
        Err(e) => {
            return Err(String::from_str(e.message()));
        },
    };
    match board.next(&mov) {
        Some(next) => Ok(next.fen()),
        None => Err(String::from_str("Invalid move")),
    }
}

/// The texts of the legal moves of the position of `fen`, each once, in the order of
/// their codes; the words of the error where `fen` is no position.
pub fn moves(fen: &str) -> (r: Result<Vec<String>, String>)
    ensures
        match parse_fen(fen@) {
            Err(e) => r is Err && r->Err_0@ == fen_words(e),
            Ok(pos) => r is Ok && exists|list: Seq<Move>|
                #![trigger list.len()]
                {
                    &&& forall|j: int, k: int|
                        0 <= j < k < list.len() ==> move_code(list[j]) < move_code(list[k])
                    &&& forall|m: Move| list.contains(m) <==> pos.legal(m)
                    &&& list.len() == r->Ok_0@.len()
                    &&& forall|k: int| 0 <= k < list.len() ==> r->Ok_0@[k]@ == move_text(list[k])
                },
        },
{
    let board = match Board::from_fen(fen) {
        Ok(board) => board,
        Err(e) => {
            return Err(String::from_str(e.message()));
        },
    };
    let moves = board.possible_moves();
    let mut rv: Vec<String> = Vec::new();
    let mut k: usize = 0;
    while k < moves.len()
        invariant
            k <= moves.len(),
            rv.len() == k,
            forall|m: Move| moves@.contains(m) <==> board@.legal(m),
            forall|i: int, j: int|
                0 <= i < j < moves@.len() ==> move_code(moves@[i]) < move_code(moves@[j]),
            forall|j: int| 0 <= j < k ==> rv@[j]@ == move_text(moves@[j]),
        decreases moves.len() - k,
    {
        let mov = moves[k];
        assert(moves@.contains(moves@[k as int]));
        rv.push(mov.to_text());
        k += 1;
    }
    assert(moves@.len() == rv@.len());
    Ok(rv)
}

} // verus!
