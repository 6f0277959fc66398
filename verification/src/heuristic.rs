use vstd::prelude::*;
use vstd::seq_lib::to_multiset_insert;
use crate::color::Color;
use crate::mov::Move;

verus! {

/// How much a cell is worth trying early: 0 for the corners, which are part of one tile, 1
/// for the other cells of the edges, part of two, and 2 for the cells inside, part of four.
pub open spec fn cell_score(x: int, y: int) -> int {
    if (x == 0 || x == 4) && (y == 0 || y == 4) {
        0
    } else if x == 0 || y == 0 || x == 4 || y == 4 {
        1
    } else {
        2
    }
}

/// The rank of a move for a player: moves with a piece of the favorite colour come
/// before the others, and among them the better cells first.
pub open spec fn move_rank(m: Move, favorite_color: Color) -> int {
    (if m.color == favorite_color {
        3int
    } else {
        0int
    }) + cell_score(m.col(), m.row())
}

/// The score of a cell: 0 for a corner, 1 for another cell of an edge, 2 for a cell inside.
pub fn square_score(x: u8, y: u8) -> (r: u8)
    ensures
        r == cell_score(x as int, y as int),
{
    if x == 0 && y == 0 {
        return 0;
    }
    if x == 4 && y == 4 {
        return 0;
    }
    if x == 0 && y == 4 {
        return 0;
    }
    if x == 4 && y == 0 {
        return 0;
    }
    if x == 0 || y == 0 || x == 4 || y == 4 {
        return 1;
    }
    2
}

/// The rank of a move for a player.
fn rank_of(mov: &Move, favorite_color: Color) -> (r: u8)
    requires
        mov.wf(),
    ensures
        r == move_rank(*mov, favorite_color),
{
    let first: u8 = if mov.color == favorite_color {
        3
    } else {
        0
    };
    first + square_score(mov.x(), mov.y())
}

/// The moves in the order in which a search should try them: the same moves, those of
/// the greatest rank first.
pub fn sorted_moves(moves: Vec<Move>, favorite_color: Color) -> (r: Vec<Move>)
    requires
        forall|k: int| 0 <= k < moves@.len() ==> moves@[k].wf(),
    ensures
        r@.to_multiset() == moves@.to_multiset(),
        forall|i: int, j: int|
            0 <= i < j < r@.len() ==> move_rank(r@[i], favorite_color) >= move_rank(
                r@[j],
                favorite_color,
            ),
{
    let mut out: Vec<Move> = Vec::new();
    let mut n: usize = 0;
    proof {
        assert(moves@.take(0) =~= Seq::<Move>::empty());
    }
    while n < moves.len()
        invariant
            n <= moves.len(),
            forall|k: int| 0 <= k < moves@.len() ==> moves@[k].wf(),
            forall|k: int| 0 <= k < out@.len() ==> out@[k].wf(),
            out@.to_multiset() == moves@.take(n as int).to_multiset(),
            forall|i: int, j: int|
                0 <= i < j < out@.len() ==> move_rank(out@[i], favorite_color) >= move_rank(
                    out@[j],
                    favorite_color,
                ),
        decreases moves.len() - n,
    {
        let mov = moves[n];
        let rank = rank_of(&mov, favorite_color);
        let mut at: usize = 0;
        while at < out.len() && rank_of(&out[at], favorite_color) >= rank
            invariant
                at <= out.len(),
                mov.wf(),
                rank == move_rank(mov, favorite_color),
                forall|k: int| 0 <= k < out@.len() ==> out@[k].wf(),
                forall|k: int| 0 <= k < at ==> move_rank(out@[k], favorite_color) >= rank,
            decreases out.len() - at,
        {
            at += 1;
        }
        let ghost before = out@;
        out.insert(at, mov);
        proof {
            to_multiset_insert(before, at as int, mov);
            assert(moves@.take(n + 1) =~= moves@.take(n as int).push(mov));
            vstd::seq_lib::to_multiset_build(moves@.take(n as int), mov);
            assert forall|i: int, j: int| 0 <= i < j < out@.len() implies move_rank(
                out@[i],
                favorite_color,
            ) >= move_rank(out@[j], favorite_color) by {
                if j < at {
                    assert(out@[i] == before[i] && out@[j] == before[j]);
                } else if j == at {
                    assert(out@[i] == before[i]);
                } else if i < at {
                    assert(out@[i] == before[i] && out@[j] == before[j - 1]);
                } else if i == at {
                    assert(out@[j] == before[j - 1]);
                    assert(move_rank(before[at as int], favorite_color) < rank);
                    if j - 1 > at {
                        assert(move_rank(before[at as int], favorite_color) >= move_rank(
                            before[j - 1],
                            favorite_color,
                        ));
                    }
                } else {
                    assert(out@[i] == before[i - 1] && out@[j] == before[j - 1]);
                }
            }
            assert forall|k: int| 0 <= k < out@.len() implies out@[k].wf() by {
                if k < at {
                    assert(out@[k] == before[k]);
                } else if k > at {
                    assert(out@[k] == before[k - 1]);
                }
            }
        }
        n += 1;
    }
    proof {
        assert(moves@.take(moves@.len() as int) =~= moves@);
    }
    out
}

} // verus!
