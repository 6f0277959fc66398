use vstd::prelude::*;
use crate::bits::{
    bit, ones, lemma_bit_logic, lemma_bit_shift, lemma_no_bit_is_zero, lemma_trailing_zeros,
    split_lowest,
};
use crate::board::{lemma_score_range, Board, Position};
use crate::color::Color;
use crate::key::{key_of, lemma_key_of};
use crate::mov::{
    cell_index, cell_mask, lemma_cell_mask, lemma_on_board, move_code, on_board, Move,
};
use crate::player::favorite_of;
use crate::tileset::all_tiles;
use crate::transposition_table::TranspositionTable;

verus! {

/// The score that a search gives a position.
pub type EvaluationScore = i16;

/// Below every score of a position.
pub const MIN_SCORE: EvaluationScore = -100;

/// Above every score of a position.
pub const MAX_SCORE: EvaluationScore = 100;

/// From this depth down, a search looks at forced moves only.
pub const FORCED_MOVE_DEPTH: u8 = 3;

/// The number of entries of the table of positions of one search: a prime.
pub const TABLE_SIZE: usize = 8_388_593;

/// The cells in the order in which a search tries them: the centre first, then the edges,
/// then the corners.
pub const HEURISTIC_CELLS: [(u8, u8); 25] = [
    (2, 2), (2, 1), (1, 2), (2, 3), (3, 2),
    (1, 1), (1, 3), (3, 1), (3, 3),
    (0, 2), (4, 2), (2, 0), (2, 4),
    (0, 1), (4, 1), (1, 0), (1, 4),
    (0, 3), (4, 3), (3, 0), (3, 4),
    (0, 0), (0, 4), (4, 0), (4, 4),
];

/// The place of a cell in `HEURISTIC_CELLS`.
pub open spec fn cell_rank(x: int, y: int) -> int {
    if y == 0 {
        if x == 0 { 21 } else if x == 1 { 15 } else if x == 2 { 11 } else if x == 3 { 19 } else { 23 }
    } else if y == 1 {
        if x == 0 { 13 } else if x == 1 { 5 } else if x == 2 { 1 } else if x == 3 { 7 } else { 14 }
    } else if y == 2 {
        if x == 0 { 9 } else if x == 1 { 2 } else if x == 2 { 0 } else if x == 3 { 4 } else { 10 }
    } else if y == 3 {
        if x == 0 { 17 } else if x == 1 { 6 } else if x == 2 { 3 } else if x == 3 { 8 } else { 18 }
    } else {
        if x == 0 { 22 } else if x == 1 { 16 } else if x == 2 { 12 } else if x == 3 { 20 } else { 24 }
    }
}

/// Whether the empty cell `i` is the fourth cell of a tile whose three other cells hold a
/// piece.
pub open spec fn almost_filled(pieces: u64, i: int) -> bool {
    &&& 0 <= i < 64
    &&& !bit(pieces, i)
    &&& {
        ||| bit(pieces, i + 1) && bit(pieces, i + 7) && bit(pieces, i + 8)
        ||| bit(pieces, i - 1) && bit(pieces, i + 6) && bit(pieces, i + 7)
        ||| bit(pieces, i + 1) && bit(pieces, i - 6) && bit(pieces, i - 7)
        ||| bit(pieces, i - 1) && bit(pieces, i - 7) && bit(pieces, i - 8)
    }
}

/// The same cell with a piece of the other colour.
pub open spec fn flip(m: Move) -> Move {
    Move { mask: m.mask, color: m.color.flipped() }
}

impl Position {
    /// A move is forced where it fills a tile, it is legal, and the other colour on its
    /// cell is not.
    pub open spec fn forced(self, m: Move) -> bool {
        almost_filled(self.pieces, m.index()) && self.legal(m) && !self.legal(flip(m))
    }

    /// The moves that a search follows from the position: the forced ones, or all the
    /// legal ones.
    pub open spec fn is_child(self, forced: bool, m: Move) -> bool {
        if forced {
            self.forced(m)
        } else {
            self.legal(m)
        }
    }
}

/// The negamax value of a position for the player to move, `depth` moves deep: the score
/// of the position where the depth is spent or no move is followed, else the best of what
/// the followed moves give. Below the first move, the search follows all legal moves while
/// more than `FORCED_MOVE_DEPTH` moves are left to look at, and forced moves only after that.
pub open spec fn value(pos: Position, depth: nat, forced: bool) -> int
    decreases depth, 200int,
{
    if depth == 0 {
        pos.score()
    } else {
        match best_below(pos, depth, forced, 128) {
            Some(v) => v,
            None => pos.score(),
        }
    }
}

/// The most that a followed move with a code below `n` gives, if there is such a move.
pub open spec fn best_below(pos: Position, depth: nat, forced: bool, n: int) -> Option<int>
    decreases depth, n,
{
    if depth == 0 || n <= 0 {
        None
    } else {
        let prev = best_below(pos, depth, forced, n - 1);
        let m = move_of_code(n - 1);
        if pos.is_child(forced, m) {
            let r = reply(pos, depth, m);
            match prev {
                None => Some(r),
                Some(p) => if p >= r {
                    Some(p)
                } else {
                    Some(r)
                },
            }
        } else {
            prev
        }
    }
}

/// What the move `m` gives the player to move: the value of the position after it for the
/// opponent, negated.
pub open spec fn reply(pos: Position, depth: nat, m: Move) -> int
    decreases depth, 0int,
{
    if depth == 0 {
        0
    } else {
        -value(pos.after(m), (depth - 1) as nat, depth - 1 <= FORCED_MOVE_DEPTH)
    }
}

/// Whether `v` is what the best followed move gives.
pub open spec fn is_best(pos: Position, depth: nat, forced: bool, v: int) -> bool {
    &&& depth > 0
    &&& exists|m: Move| pos.is_child(forced, m) && reply(pos, depth, m) == v
    &&& forall|m: Move| pos.is_child(forced, m) ==> reply(pos, depth, m) <= v
}

/// Whether the list of moves and scores holds the move `m`.
pub open spec fn scored(list: Seq<(Move, EvaluationScore)>, m: Move) -> bool {
    exists|k: int| 0 <= k < list.len() && (#[trigger] list[k]).0 == m
}

/// The depth of the search behind each move that `move_scores` makes: the depth given,
/// or 5 where none is.
pub open spec fn depth_behind(depth: Option<u8>) -> int {
    match depth {
        Some(d) => d as int,
        None => 5,
    }
}

/// How a search result `r` in the window from `alpha` to `beta` stands to the value `v`:
/// inside the window it is the value, at or below `alpha` it is an upper bound, at or above
/// `beta` a lower bound.
pub open spec fn bounds(r: int, alpha: int, beta: int, v: int) -> bool {
    &&& r <= alpha ==> v <= r
    &&& r >= beta ==> v >= r
    &&& alpha < r < beta ==> v == r
}

/// The sign of a number: -1, 0 or 1.
pub open spec fn sign(v: int) -> int {
    if v < 0 {
        -1
    } else if v > 0 {
        1
    } else {
        0
    }
}

/// The depth that a search from `pos` goes to: half the number of legal moves, rounded up,
/// or the depth asked for where that is less.
pub open spec fn search_depth(pos: Position, depth: Option<u8>) -> nat {
    let max_depth = (pos.legal_count() + 1) / 2;
    match depth {
        None => max_depth,
        Some(d) => if (d as nat) < max_depth {
            d as nat
        } else {
            max_depth
        },
    }
}

/// The move of a code.
pub open spec fn move_of_code(c: int) -> Move {
    Move {
        mask: 1u64 << ((c / 2) as u64),
        color: if c % 2 == 0 {
            Color::Black
        } else {
            Color::White
        },
    }
}

/// A well-formed move is the move of its code.
pub proof fn lemma_move_code(m: Move)
    requires
        m.wf(),
    ensures
        0 <= move_code(m) < 128,
        move_of_code(move_code(m)) == m,
{
}

/// What `best_below` holds: nothing where no followed move has a code below `n`, else what
/// the best of them gives.
proof fn lemma_best_below(pos: Position, depth: nat, forced: bool, n: int)
    requires
        depth > 0,
        n <= 128,
    ensures
        best_below(pos, depth, forced, n) is None ==> forall|m: Move|
            pos.is_child(forced, m) ==> move_code(m) >= n,
        best_below(pos, depth, forced, n) is Some ==> {
            &&& exists|m: Move|
                pos.is_child(forced, m) && reply(pos, depth, m) == best_below(
                    pos,
                    depth,
                    forced,
                    n,
                )->0
            &&& forall|m: Move|
                pos.is_child(forced, m) && move_code(m) < n ==> reply(pos, depth, m)
                    <= best_below(pos, depth, forced, n)->0
        },
    decreases n,
{
    if n <= 0 {
        assert forall|m: Move| pos.is_child(forced, m) implies move_code(m) >= n by {
            assert(m.wf());
        }
    } else {
        lemma_best_below(pos, depth, forced, n - 1);
        let prev = best_below(pos, depth, forced, n - 1);
        let cur = best_below(pos, depth, forced, n);
        let c = move_of_code(n - 1);
        assert forall|m: Move| pos.is_child(forced, m) && move_code(m) == n - 1 implies m == c by {
            assert(m.wf());
            lemma_move_code(m);
        }
        if pos.is_child(forced, c) {
            if prev is Some {
                let w = choose|m: Move| pos.is_child(forced, m) && reply(pos, depth, m) == prev->0;
                assert(pos.is_child(forced, w) && reply(pos, depth, w) == prev->0);
            }
            assert(pos.is_child(forced, c) && reply(pos, depth, c) == reply(pos, depth, c));
        } else {
            if prev is Some {
                let w = choose|m: Move| pos.is_child(forced, m) && reply(pos, depth, m) == prev->0;
                assert(pos.is_child(forced, w) && reply(pos, depth, w) == cur->0);
            }
        }
    }
}

/// Where a move is followed, the value is what the best followed move gives.
pub proof fn lemma_value_is_best(pos: Position, depth: nat, forced: bool)
    requires
        depth > 0,
        exists|m: Move| pos.is_child(forced, m),
    ensures
        is_best(pos, depth, forced, value(pos, depth, forced)),
{
    lemma_best_below(pos, depth, forced, 128);
    let w = choose|m: Move| pos.is_child(forced, m);
    assert(w.wf());
    lemma_move_code(w);
    assert forall|m: Move| pos.is_child(forced, m) implies move_code(m) < 128 by {
        assert(m.wf());
        lemma_move_code(m);
    }
}

/// Where no move is followed, or the depth is spent, the value is the score.
pub proof fn lemma_value_is_score(pos: Position, depth: nat, forced: bool)
    requires
        depth == 0 || forall|m: Move| !pos.is_child(forced, m),
    ensures
        value(pos, depth, forced) == pos.score(),
{
    if depth > 0 {
        lemma_best_below(pos, depth, forced, 128);
    }
}

/// Where `v` is what the best followed move gives, `v` is the value.
pub proof fn lemma_best_is_value(pos: Position, depth: nat, forced: bool, v: int)
    requires
        is_best(pos, depth, forced, v),
    ensures
        value(pos, depth, forced) == v,
{
    lemma_value_is_best(pos, depth, forced);
    let w = value(pos, depth, forced);
    let mv = choose|m: Move| pos.is_child(forced, m) && reply(pos, depth, m) == v;
    let mw = choose|m: Move| pos.is_child(forced, m) && reply(pos, depth, m) == w;
    assert(reply(pos, depth, mv) <= w);
    assert(reply(pos, depth, mw) <= v);
}

/// No value is beyond 64.
pub proof fn lemma_value_range(pos: Position, depth: nat, forced: bool)
    ensures
        -64 <= value(pos, depth, forced) <= 64,
    decreases depth,
{
    lemma_score_range(pos);
    if depth > 0 && exists|m: Move| pos.is_child(forced, m) {
        lemma_value_is_best(pos, depth, forced);
        let v = value(pos, depth, forced);
        let m = choose|m: Move| pos.is_child(forced, m) && reply(pos, depth, m) == v;
        lemma_value_range(pos.after(m), (depth - 1) as nat, depth - 1 <= FORCED_MOVE_DEPTH);
    } else {
        lemma_value_is_score(pos, depth, forced);
    }
}

/// The search that a table of positions belongs to: the tile values of the player to move
/// at the root, the number of pieces there, and the depth of the search.
pub ghost struct Game {
    pub owned: Set<int>,
    pub base: int,
    pub total: int,
}

impl Game {
    /// Who is to move after `k` moves from the root.
    pub open spec fn owner_at(self, k: int) -> Set<int> {
        if k % 2 == 0 {
            self.owned
        } else {
            all_tiles().difference(self.owned)
        }
    }

    /// Whether `pos` may come up below the root of the search.
    pub open spec fn holds(self, pos: Position) -> bool {
        &&& pos.wf()
        &&& self.owned.subset_of(all_tiles())
        &&& self.base < ones(pos.pieces) <= self.base + self.total
        &&& pos.owned == self.owner_at(ones(pos.pieces) - self.base)
    }

    /// The depth that is left at `pos`.
    pub open spec fn depth_at(self, pos: Position) -> int {
        self.total - (ones(pos.pieces) - self.base)
    }
}

/// The two orders in which a search tries the moves: black pieces first, or white ones.
pub struct Heuristics {
    pub black_first: Vec<Move>,
    pub white_first: Vec<Move>,
}

/// A list of the 50 moves of the board, each once.
pub open spec fn lists_all_moves(list: Seq<Move>) -> bool {
    &&& list.len() == 50
    &&& forall|k: int| 0 <= k < 50 ==> (#[trigger] list[k]).wf()
    &&& forall|m: Move| m.wf() ==> list.contains(m)
    &&& list.no_duplicates()
}

/// The 25 cells in the order of `HEURISTIC_CELLS`, with a piece of colour `first`, then
/// the 25 cells again with a piece of the other colour.
pub open spec fn heuristic_list(first: Color) -> Seq<Move> {
    Seq::new(
        50,
        |k: int|
            if k < 25 {
                Move {
                    mask: cell_mask(HEURISTIC_CELLS[k].0 as int, HEURISTIC_CELLS[k].1 as int),
                    color: first,
                }
            } else {
                Move {
                    mask: cell_mask(
                        HEURISTIC_CELLS[k - 25].0 as int,
                        HEURISTIC_CELLS[k - 25].1 as int,
                    ),
                    color: first.flipped(),
                }
            },
    )
}

/// `HEURISTIC_CELLS` holds each cell of the board at its rank.
pub proof fn lemma_heuristic_cells()
    ensures
        forall|k: int|
            0 <= k < 25 ==> (#[trigger] HEURISTIC_CELLS[k]).0 < 5 && HEURISTIC_CELLS[k].1 < 5
                && cell_rank(HEURISTIC_CELLS[k].0 as int, HEURISTIC_CELLS[k].1 as int) == k,
        forall|x: int, y: int|
            0 <= x < 5 && 0 <= y < 5 ==> 0 <= #[trigger] cell_rank(x, y) < 25 && HEURISTIC_CELLS[cell_rank(
                x,
                y,
            )] == (x as u8, y as u8),
{
}

/// The cell of the entry `k` of a list of moves.
pub open spec fn list_cell(k: int) -> (u8, u8) {
    if k < 25 {
        HEURISTIC_CELLS[k]
    } else {
        HEURISTIC_CELLS[k - 25]
    }
}

/// What the entry `k` of the list of a colour is.
proof fn lemma_heuristic_entry(first: Color, k: int)
    requires
        0 <= k < 50,
    ensures
        heuristic_list(first)[k].wf(),
        heuristic_list(first)[k].index() == cell_index(list_cell(k).0 as int, list_cell(k).1 as int),
        heuristic_list(first)[k].color == if k < 25 { first } else { first.flipped() },
        list_cell(k).0 < 5,
        list_cell(k).1 < 5,
        cell_rank(list_cell(k).0 as int, list_cell(k).1 as int) == if k < 25 { k } else { k - 25 },
{
    lemma_heuristic_cells();
    let c = list_cell(k);
    assert(c.0 < 5 && c.1 < 5) by {
        if k < 25 {
            assert(HEURISTIC_CELLS[k].0 < 5);
        } else {
            assert(HEURISTIC_CELLS[k - 25].0 < 5);
        }
    }
    lemma_cell_mask(c.0 as int, c.1 as int);
}

/// The list of a colour holds the 50 moves of the board, each once.
pub proof fn lemma_heuristic_list(first: Color)
    ensures
        lists_all_moves(heuristic_list(first)),
{
    let list = heuristic_list(first);
    assert forall|k: int| 0 <= k < 50 implies (#[trigger] list[k]).wf() by {
        lemma_heuristic_entry(first, k);
    }
    assert forall|m: Move| m.wf() implies list.contains(m) by {
        lemma_on_board(m.index());
        lemma_heuristic_cells();
        let x = m.col();
        let y = m.row();
        let k = cell_rank(x, y) + if m.color == first { 0int } else { 25int };
        assert(0 <= cell_rank(x, y) < 25);
        assert(HEURISTIC_CELLS[cell_rank(x, y)] == (x as u8, y as u8));
        lemma_heuristic_entry(first, k);
        assert(list[k].index() == m.index());
        assert(list[k] == m);
    }
    assert forall|j: int, k: int| 0 <= j < 50 && 0 <= k < 50 && j != k implies list[j] != list[k] by {
        lemma_heuristic_entry(first, j);
        lemma_heuristic_entry(first, k);
        if list[j] == list[k] {
            let cj = list_cell(j);
            let ck = list_cell(k);
            assert(cell_index(cj.0 as int, cj.1 as int) == cell_index(ck.0 as int, ck.1 as int));
            assert(cj.0 == ck.0 && cj.1 == ck.1);
        }
    }
}

/// The moves in the order in which a search tries them, pieces of colour `first` first.
pub fn heuristic_moves(first: Color) -> (r: Vec<Move>)
    ensures
        r@ == heuristic_list(first),
        lists_all_moves(r@),
{
    let other = match first {
        Color::Black => Color::White,
        Color::White => Color::Black,
    };
    let mut out: Vec<Move> = Vec::with_capacity(50);
    let mut k: usize = 0;
    proof {
        lemma_heuristic_cells();
    }
    while k < 25
        invariant
            k <= 25,
            out.len() == k,
            forall|j: int| 0 <= j < k ==> out[j] == heuristic_list(first)[j],
        decreases 25 - k,
    {
        proof {
            lemma_heuristic_cells();
        }
        let (x, y) = HEURISTIC_CELLS[k];
        out.push(Move::new(x, y, first));
        k += 1;
    }
    k = 0;
    while k < 25
        invariant
            k <= 25,
            out.len() == 25 + k,
            other == first.flipped(),
            forall|j: int| 0 <= j < 25 + k ==> out[j] == heuristic_list(first)[j],
        decreases 25 - k,
    {
        proof {
            lemma_heuristic_cells();
        }
        let (x, y) = HEURISTIC_CELLS[k];
        out.push(Move::new(x, y, other));
        k += 1;
    }
    proof {
        assert(out@ =~= heuristic_list(first));
        lemma_heuristic_list(first);
    }
    out
}

impl Heuristics {
    /// Each list is the list of its colour, with the 50 moves of the board.
    pub open spec fn wf(self) -> bool {
        lists_all_moves(self.black_first@) && lists_all_moves(self.white_first@)
            && self.black_first@ == heuristic_list(Color::Black) && self.white_first@
            == heuristic_list(Color::White)
    }

    /// The two lists.
    pub fn new() -> (r: Heuristics)
        ensures
            r.wf(),
    {
        Heuristics {
            black_first: heuristic_moves(Color::Black),
            white_first: heuristic_moves(Color::White),
        }
    }

    /// The list for a player whose favorite colour is black, or is not.
    pub open spec fn list(self, black_first: bool) -> Seq<Move> {
        if black_first {
            self.black_first@
        } else {
            self.white_first@
        }
    }
}

/// Whether the list holds the move `m` at the place `from` or after it.
pub open spec fn listed_from(list: Seq<Move>, from: int, m: Move) -> bool {
    exists|k: int| from <= k < list.len() && #[trigger] list[k] == m
}

/// Whether the list holds the move `a` at a place before the move `b`.
pub open spec fn precedes(list: Seq<Move>, a: Move, b: Move) -> bool {
    exists|i: int, j: int| 0 <= i < j < list.len() && #[trigger] list[i] == a && #[trigger] list[j] == b
}

/// Whether a search tries the move `a` before the move `b`: forced moves in the order of
/// their cells, other moves in the order of the list of the favorite colour of the player
/// to move.
pub open spec fn tried_before(pos: Position, forced: bool, a: Move, b: Move) -> bool {
    if forced {
        a.index() < b.index()
    } else {
        precedes(heuristic_list(favorite_of(pos.owned)), a, b)
    }
}

/// Of two moves of a list without a move twice, one comes before the other one way only.
pub proof fn lemma_precedes_one_way(list: Seq<Move>, a: Move, b: Move)
    requires
        list.no_duplicates(),
        precedes(list, a, b),
    ensures
        !precedes(list, b, a),
        a != b,
{
    let (i, j) = choose|i: int, j: int|
        0 <= i < j < list.len() && #[trigger] list[i] == a && #[trigger] list[j] == b;
    if precedes(list, b, a) {
        let (k, l) = choose|k: int, l: int|
            0 <= k < l < list.len() && #[trigger] list[k] == b && #[trigger] list[l] == a;
        assert(k == j && l == i);
    }
}

/// The moves that a search follows from a position, one after the other: the forced
/// moves, from the cells that would fill a tile, or all the moves of a list.
#[derive(Clone, Copy)]
pub enum MoveIterator {
    Forced { almost_full_mask: u64 },
    All { index: usize, black_first: bool },
}

impl MoveIterator {
    /// The iterator fits the position: its cells would fill a tile, or its place is in
    /// the list.
    pub open spec fn wf(self, pos: Position) -> bool {
        match self {
            MoveIterator::Forced { almost_full_mask } => forall|i: int| #[trigger]
                bit(almost_full_mask, i) ==> almost_filled(pos.pieces, i) && on_board(i),
            MoveIterator::All { index, black_first } => index <= 50,
        }
    }

    /// Whether the iterator has yet to give the move `m`.
    pub open spec fn pending(self, pos: Position, h: Heuristics, m: Move) -> bool {
        match self {
            MoveIterator::Forced { almost_full_mask } => bit(almost_full_mask, m.index())
                && pos.forced(m),
            MoveIterator::All { index, black_first } => pos.legal(m) && listed_from(
                h.list(black_first),
                index as int,
                m,
            ),
        }
    }

    /// Whether the iterator gives the move `a` before the move `b`.
    pub open spec fn before(self, h: Heuristics, a: Move, b: Move) -> bool {
        match self {
            MoveIterator::Forced { almost_full_mask } => a.index() < b.index(),
            MoveIterator::All { index, black_first } => precedes(h.list(black_first), a, b),
        }
    }

    /// A number that goes down with each move that the iterator gives.
    pub open spec fn remaining(self) -> int {
        match self {
            MoveIterator::Forced { almost_full_mask } => 64 - almost_full_mask.trailing_zeros(),
            MoveIterator::All { index, black_first } => 50 - index,
        }
    }

    /// The iterator over the forced moves of a board, or over all its legal moves in the
    /// order of the favorite colour of the player to move.
    pub fn new(board: &Board, forced: bool, h: &Heuristics) -> (r: MoveIterator)
        requires
            board.wf(),
            h.wf(),
        ensures
            r.wf(board@),
            r.remaining() >= 0,
            forall|m: Move| r.pending(board@, *h, m) == board@.is_child(forced, m),
            forall|a: Move, b: Move|
                #[trigger] r.before(*h, a, b) == tried_before(board@, forced, a, b),
    {
        if forced {
            let x = board.pieces_mask;
            let mask = (!x & (x >> 1) & (x >> 7) & (x >> 8)) | (!x & (x << 1) & (x >> 6) & (x >> 7)) | (
            !x & (x >> 1) & (x << 6) & (x << 7)) | (!x & (x << 1) & (x << 7) & (x << 8));
            proof {
                lemma_almost_full_mask(x);
                assert forall|i: int| #[trigger] bit(mask, i) implies almost_filled(x, i) && on_board(
                    i,
                ) by {
                    lemma_almost_filled_on_board(board@, i);
                }
                vstd::std_specs::bits::axiom_u64_trailing_zeros(mask);
            }
            MoveIterator::Forced { almost_full_mask: mask }
        } else {
            let black_first = board.current_player.favorite_color == Color::Black;
            let r = MoveIterator::All { index: 0, black_first };
            proof {
                assert forall|m: Move| r.pending(board@, *h, m) == board@.is_child(forced, m) by {
                    assert(board@.is_child(forced, m) == board@.legal(m));
                    if board@.legal(m) {
                        let list = h.list(black_first);
                        assert(m.wf());
                        assert(lists_all_moves(list));
                        assert(list.contains(m));
                        let k = choose|k: int| 0 <= k < list.len() && list[k] == m;
                        assert(0 <= k < 50 && h.list(black_first)[k] == m);
                        assert(listed_from(h.list(black_first), 0, m));
                        assert(r.pending(board@, *h, m));
                    } else {
                        assert(!r.pending(board@, *h, m));
                    }
                }
            }
            r
        }
    }

    /// The next followed move and the board after it, or `None` when all are given.
 #[verifier::rlimit(40)]
    pub fn next(&mut self, board: &Board, h: &Heuristics) -> (r: Option<(Board, Move)>)
        requires
            board.wf(),
            h.wf(),
            old(self).wf(board@),
        ensures
            final(self).wf(board@),
            *old(self) is Forced <==> *final(self) is Forced,
            r is None ==> forall|m: Move| !old(self).pending(board@, *h, m),
            r is None ==> forall|m: Move| !final(self).pending(board@, *h, m),
            r is Some ==> ({
                let (child, m) = r->0;
                &&& old(self).pending(board@, *h, m)
                &&& child.follows(*board, m)
                &&& child.wf()
                &&& m.wf()
                &&& board@.legal(m)
                &&& board.valid() ==> child.valid()
                &&& final(self).remaining() < old(self).remaining()
                &&& forall|m2: Move|
                    final(self).pending(board@, *h, m2) == (old(self).pending(board@, *h, m2) && m2
                        != m)
                &&& forall|m2: Move|
                    final(self).pending(board@, *h, m2) ==> #[trigger] old(self).before(*h, m, m2)
            }),
            forall|a: Move, b: Move|
                #[trigger] final(self).before(*h, a, b) == old(self).before(*h, a, b),
            final(self).remaining() >= 0,
    {
        let state = *self;
        match state {
            MoveIterator::Forced { almost_full_mask } => {
                let mut mask = almost_full_mask;
                let ghost start = mask;
                proof {
                    vstd::std_specs::bits::axiom_u64_trailing_zeros(mask);
                }
                while mask != 0
                    invariant
                        board.wf(),
                        h.wf(),
                        *old(self) == (MoveIterator::Forced { almost_full_mask: start }),
                        forall|i: int| #[trigger]
                            bit(mask, i) ==> almost_filled(board@.pieces, i) && on_board(i),
                        forall|i: int| #[trigger] bit(mask, i) ==> bit(start, i),
                        forall|m: Move|
                            (bit(start, m.index()) && #[trigger] board@.forced(m)) ==> bit(
                                mask,
                                m.index(),
                            ),
                        mask.trailing_zeros() >= start.trailing_zeros(),
                        mask.trailing_zeros() <= 64,
                    decreases 64 - mask.trailing_zeros(),
                {
                    let (cell, rest) = split_lowest(mask);
                    let ghost t = mask.trailing_zeros() as int;
                    proof {
                        lemma_trailing_zeros(mask);
                        lemma_trailing_zeros(rest);
                        vstd::std_specs::bits::axiom_u64_trailing_zeros(rest);
                        assert(bit(mask, t));
                        if rest != 0 {
                            let t2 = rest.trailing_zeros() as int;
                            assert(bit(rest, t2));
                            assert(bit(mask, t2) && t2 != t);
                            if t2 < t {
                                assert(!bit(mask, t2));
                            }
                        }
                    }
                    let mov_black = Move::from_mask(cell, Color::Black);
                    let mov_white = Move::from_mask(cell, Color::White);
                    assert(mov_black.wf() && mov_white.wf() && mov_black.index() == t
                        && mov_white.index() == t);
                    assert(flip(mov_black) == mov_white && flip(mov_white) == mov_black);
                    let black = board.next(&mov_black);
                    let white = board.next(&mov_white);
                    let found = match (black, white) {
                        (Some(b), None) => Some((b, mov_black)),
                        (None, Some(w)) => Some((w, mov_white)),
                        _ => None,
                    };
                    mask = rest;
                    match found {
                        Some((child, m)) => {
                            *self = MoveIterator::Forced { almost_full_mask: rest };
                            proof {
                                assert(board@.forced(m));
                                assert forall|m2: Move|
                                    self.pending(board@, *h, m2) == (old(self).pending(board@, *h, m2)
                                        && m2 != m) by {
                                    if bit(start, m2.index()) && board@.forced(m2) && m2 != m {
                                        if m2.index() == t {
                                            assert(m2.mask == m.mask);
                                            assert(m2 == flip(m));
                                        }
                                    }
                                }
                            }
                            return Some((child, m));
                        },
                        None => {
                            proof {
                                assert forall|m2: Move|
                                    (bit(start, m2.index()) && board@.forced(m2)) implies bit(
                                    rest,
                                    m2.index(),
                                ) by {
                                    if m2.index() == t {
                                        assert(m2.mask == cell);
                                        assert(m2 == mov_black || m2 == mov_white);
                                    }
                                }
                            }
                        },
                    }
                }
                proof {
                    lemma_no_bit_is_zero(mask);
                }
                *self = MoveIterator::Forced { almost_full_mask: 0 };
                proof {
                    vstd::std_specs::bits::axiom_u64_trailing_zeros(0);
                }
                None
            },
            MoveIterator::All { index, black_first } => {
                let mut i = index;
                let ghost start = i;
                while i < 50
                    invariant
                        board.wf(),
                        h.wf(),
                        *old(self) == (MoveIterator::All { index: start, black_first }),
                        start <= i <= 50,
                        forall|k: int|
                            start <= k < i ==> !board@.legal(#[trigger] h.list(black_first)[k]),
                    decreases 50 - i,
                {
                    let mov = if black_first {
                        h.black_first[i]
                    } else {
                        h.white_first[i]
                    };
                    assert(mov == h.list(black_first)[i as int]);
                    i += 1;
                    match board.next(&mov) {
                        Some(child) => {
                            *self = MoveIterator::All { index: i, black_first };
                            proof {
                                let list = h.list(black_first);
                                assert forall|m2: Move|
                                    self.pending(board@, *h, m2) == (old(self).pending(board@, *h, m2)
                                        && m2 != mov) by {
                                    if old(self).pending(board@, *h, m2) && m2 != mov {
                                        assert(listed_from(list, start as int, m2));
                                        let k = choose|k: int| start <= k < list.len() && #[trigger] list[k] == m2;
                                        if k < i - 1 {
                                            assert(!board@.legal(list[k]));
                                        }
                                        assert(i <= k < 50 && list[k] == m2);
                                        assert(listed_from(list, i as int, m2));
                                    }
                                    if self.pending(board@, *h, m2) {
                                        assert(listed_from(list, i as int, m2));
                                        let k = choose|k: int| i <= k < list.len() && #[trigger] list[k] == m2;
                                        assert(start <= k < 50 && list[k] == m2);
                                        assert(listed_from(list, start as int, m2));
                                        assert(list[i - 1] == mov);
                                        assert(k != i - 1);
                                    }
                                }
                                assert(start <= i - 1 < 50 && list[i - 1] == mov);
                                assert(listed_from(list, start as int, mov));
                            }
                            return Some((child, mov));
                        },
                        None => {},
                    }
                }
                *self = MoveIterator::All { index: i, black_first };
                proof {
                    let list = h.list(black_first);
                    assert forall|m: Move| !old(self).pending(board@, *h, m) by {
                        if old(self).pending(board@, *h, m) {
                            assert(listed_from(list, start as int, m));
                            let k = choose|k: int| start <= k < list.len() && #[trigger] list[k] == m;
                            assert(!board@.legal(list[k]));
                        }
                    }
                }
                None
            },
        }
    }
}

/// The bits of the mask of the cells that would fill a tile.
proof fn lemma_almost_full_mask(x: u64)
    ensures
        forall|i: int| #[trigger]
            bit(
                (!x & (x >> 1) & (x >> 7) & (x >> 8)) | (!x & (x << 1) & (x >> 6) & (x >> 7)) | (!x
                    & (x >> 1) & (x << 6) & (x << 7)) | (!x & (x << 1) & (x << 7) & (x << 8)),
                i,
            ) == almost_filled(x, i),
{
    let a = !x & (x >> 1) & (x >> 7) & (x >> 8);
    let b = !x & (x << 1) & (x >> 6) & (x >> 7);
    let c = !x & (x >> 1) & (x << 6) & (x << 7);
    let d = !x & (x << 1) & (x << 7) & (x << 8);
    lemma_bit_logic(x, x);
    lemma_bit_shift(x, 1);
    lemma_bit_shift(x, 6);
    lemma_bit_shift(x, 7);
    lemma_bit_shift(x, 8);
    lemma_bit_logic(!x, x >> 1);
    lemma_bit_logic(!x & (x >> 1), x >> 7);
    lemma_bit_logic(!x & (x >> 1) & (x >> 7), x >> 8);
    lemma_bit_logic(!x, x << 1);
    lemma_bit_logic(!x & (x << 1), x >> 6);
    lemma_bit_logic(!x & (x << 1) & (x >> 6), x >> 7);
    lemma_bit_logic(!x & (x >> 1), x << 6);
    lemma_bit_logic(!x & (x >> 1) & (x << 6), x << 7);
    lemma_bit_logic(!x & (x << 1), x << 7);
    lemma_bit_logic(!x & (x << 1) & (x << 7), x << 8);
    lemma_bit_logic(a, b);
    lemma_bit_logic(a | b, c);
    lemma_bit_logic(a | b | c, d);
    assert forall|i: int| #[trigger] bit(a | b | c | d, i) == almost_filled(x, i) by {
        if 0 <= i < 64 {
            assert(bit(a, i) == (!bit(x, i) && bit(x, i + 1) && bit(x, i + 7) && bit(x, i + 8)));
            assert(bit(b, i) == (!bit(x, i) && bit(x, i - 1) && bit(x, i + 6) && bit(x, i + 7)));
            assert(bit(c, i) == (!bit(x, i) && bit(x, i + 1) && bit(x, i - 6) && bit(x, i - 7)));
            assert(bit(d, i) == (!bit(x, i) && bit(x, i - 1) && bit(x, i - 7) && bit(x, i - 8)));
        }
    }
}

/// A cell that would fill a tile of a well-formed position is a cell of the board.
proof fn lemma_almost_filled_on_board(pos: Position, i: int)
    requires
        pos.wf(),
        almost_filled(pos.pieces, i),
    ensures
        on_board(i),
{
    let p = pos.pieces;
    if bit(p, i + 1) && bit(p, i + 7) && bit(p, i + 8) {
        assert(on_board(i + 1) && on_board(i + 7));
    } else if bit(p, i - 1) && bit(p, i + 6) && bit(p, i + 7) {
        assert(on_board(i - 1) && on_board(i + 7));
    } else if bit(p, i + 1) && bit(p, i - 6) && bit(p, i - 7) {
        assert(on_board(i + 1) && on_board(i - 7));
    } else {
        assert(on_board(i - 1) && on_board(i - 7));
    }
}

/// The score of the position for the player to move, as a search sees it at its leaves.
fn evaluation(board: &Board) -> (r: EvaluationScore)
    requires
        board.wf(),
    ensures
        r == board@.score(),
        -64 <= r <= 64,
{
    proof {
        lemma_score_range(board@);
    }
    board.current_score() as EvaluationScore
}

/// A search: the positions that it has looked at, counted, a table of upper bounds for
/// positions that it has searched, and the two orders of the moves.
pub struct Solver {
    explored_positions: u128,
    transposition_table: TranspositionTable<TABLE_SIZE>,
    heuristics: Heuristics,
}

impl Solver {
    /// The table and the lists of moves are in order.
    pub closed spec fn wf(&self) -> bool {
        self.transposition_table.wf() && self.heuristics.wf()
    }

    /// What the table answers for a position of the search `game` is not below the value
    /// of that position at the depth that the search reaches it with.
    pub closed spec fn sound(&self, game: Game) -> bool {
        forall|pos: Position|
            game.holds(pos) && (#[trigger] self.transposition_table.lookup(
                key_of(pos.pieces, pos.black),
            )) is Some ==> value(
                pos,
                game.depth_at(pos) as nat,
                game.depth_at(pos) <= FORCED_MOVE_DEPTH,
            ) <= self.transposition_table.lookup(key_of(pos.pieces, pos.black))->0
    }

    /// The lists of moves of the search.
    pub closed spec fn lists(&self) -> Heuristics {
        self.heuristics
    }

    /// The number of positions that the search has looked at.
    pub closed spec fn explored(&self) -> u128 {
        self.explored_positions
    }

    /// A search that has looked at nothing yet, with an empty table.
    fn new() -> (r: Solver)
        ensures
            r.wf(),
            r.explored() == 0,
            forall|game: Game| 0 <= game.base ==> r.sound(game),
    {
        let r = Solver {
            explored_positions: 0,
            transposition_table: TranspositionTable::default(),
            heuristics: Heuristics::new(),
        };
        proof {
            assert forall|game: Game| 0 <= game.base implies r.sound(game) by {
                assert forall|pos: Position|
                    game.holds(pos) && (#[trigger] r.transposition_table.lookup(
                        key_of(pos.pieces, pos.black),
                    )) is Some implies value(
                    pos,
                    game.depth_at(pos) as nat,
                    game.depth_at(pos) <= FORCED_MOVE_DEPTH,
                ) <= r.transposition_table.lookup(key_of(pos.pieces, pos.black))->0 by {
                    lemma_key_of(pos, pos);
                    crate::board::lemma_empty_masks();
                }
            }
        }
        r
    }

    /// What each legal move gives the player to move, searched `depth` moves deep behind
    /// the move, or 5 where no depth is given: the moves that give most first, and of two
    /// moves that give the same the one with the lesser code.
 #[verifier::rlimit(40)]
    pub fn move_scores(board: &Board, depth: Option<u8>) -> (r: Vec<(Move, EvaluationScore)>)
        requires
            board.wf(),
        ensures
            forall|m: Move| board@.legal(m) <==> scored(r@, m),
            forall|j: int, k: int| 0 <= j < k < r@.len() ==> r@[j].0 != r@[k].0,
            forall|k: int|
                0 <= k < r@.len() ==> (#[trigger] r@[k]).1 == reply(
                    board@,
                    (depth_behind(depth) + 1) as nat,
                    r@[k].0,
                ),
            forall|j: int, k: int| 0 <= j < k < r@.len() ==> r@[j].1 >= r@[k].1,
            forall|j: int, k: int|
                0 <= j < k < r@.len() && r@[j].1 == r@[k].1 ==> move_code(r@[j].0) < move_code(
                    r@[k].0,
                ),
    {
        let mut solver = Solver::new();
        let depth: u8 = match depth {
            Some(d) => d,
            None => 5,
        };
        let ghost game = Game {
            owned: board@.owned,
            base: ones(board.pieces_mask),
            total: depth + 1,
        };
        let moves = board.possible_moves();
        let mut out: Vec<(Move, EvaluationScore)> = Vec::with_capacity(50);
        let mut n: usize = 0;
        proof {
            crate::bits::lemma_ones_below_range(board.pieces_mask, 64);
        }
        while n < moves.len()
            invariant
                n <= moves.len(),
                board.wf(),
                solver.wf(),
                solver.sound(game),
                game == (Game {
                    owned: board@.owned,
                    base: ones(board.pieces_mask),
                    total: depth + 1,
                }),
                forall|m: Move| moves@.contains(m) <==> board@.legal(m),
                moves@.no_duplicates(),
                forall|k: int|
                    0 <= k < out@.len() ==> (#[trigger] out@[k]).1 == reply(
                        board@,
                        (depth + 1) as nat,
                        out@[k].0,
                    ) && exists|j: int| 0 <= j < n && moves@[j] == out@[k].0,
                forall|j: int| 0 <= j < n ==> scored(out@, #[trigger] moves@[j]),
                forall|j: int, k: int| 0 <= j < k < out@.len() ==> out@[j].0 != out@[k].0,
                forall|j: int, k: int| 0 <= j < k < out@.len() ==> out@[j].1 >= out@[k].1,
                forall|j: int, k: int|
                    0 <= j < k < moves@.len() ==> move_code(moves@[j]) < move_code(moves@[k]),
                forall|j: int, k: int|
                    0 <= j < k < out@.len() && out@[j].1 == out@[k].1 ==> move_code(out@[j].0)
                        < move_code(out@[k].0),
            decreases moves.len() - n,
        {
            let mov = moves[n];
            assert(moves@.contains(moves@[n as int]));
            match board.next(&mov) {
                None => {},
                Some(child) => {
                    proof {
                        lemma_child_holds(game, *board, child, mov, depth + 1, true);
                        lemma_value_range(child@, depth as nat, depth <= FORCED_MOVE_DEPTH);
                    }
                    let score = -solver.negamax(&child, MIN_SCORE, MAX_SCORE, depth, Ghost(game));
                    proof {
                        assert(reply(board@, (depth + 1) as nat, mov) == -value(
                            child@,
                            depth as nat,
                            depth <= FORCED_MOVE_DEPTH,
                        ));
                    }
                    let mut at: usize = 0;
                    while at < out.len() && out[at].1 >= score
                        invariant
                            at <= out.len(),
                            forall|k: int| 0 <= k < at ==> out@[k].1 >= score,
                        decreases out.len() - at,
                    {
                        at += 1;
                    }
                    let ghost before = out@;
                    out.insert(at, (mov, score));
                    proof {
                        assert forall|k: int| 0 <= k < out@.len() implies out@[k] == (if k < at {
                            before[k]
                        } else if k == at {
                            (mov, score)
                        } else {
                            before[k - 1]
                        }) by {}
                        assert forall|k: int| 0 <= k < out@.len() implies (#[trigger] out@[k]).1
                            == reply(board@, (depth + 1) as nat, out@[k].0) && exists|j: int|
                            0 <= j < n + 1 && moves@[j] == out@[k].0 by {
                            if k < at {
                                let j = choose|j: int| 0 <= j < n && moves@[j] == before[k].0;
                                assert(0 <= j < n + 1 && moves@[j] == out@[k].0);
                            } else if k == at {
                                assert(moves@[n as int] == out@[k].0);
                            } else {
                                let j = choose|j: int| 0 <= j < n && moves@[j] == before[k - 1].0;
                                assert(0 <= j < n + 1 && moves@[j] == out@[k].0);
                            }
                        }
                        assert forall|j: int| 0 <= j < n + 1 implies scored(
                            out@,
                            #[trigger] moves@[j],
                        ) by {
                            if j < n {
                                assert(scored(before, moves@[j]));
                                let k = choose|k: int|
                                    0 <= k < before.len() && (#[trigger] before[k]).0 == moves@[j];
                                if k < at {
                                    assert(out@[k].0 == moves@[j]);
                                } else {
                                    assert(out@[k + 1].0 == moves@[j]);
                                }
                            } else {
                                assert(out@[at as int].0 == moves@[j]);
                            }
                        }
                        assert forall|j: int, k: int| 0 <= j < k < out@.len() implies out@[j].0
                            != out@[k].0 by {
                            if j == at {
                                let i = choose|i: int| 0 <= i < n && moves@[i] == before[k - 1].0;
                                assert(moves@[i] != moves@[n as int]);
                            } else if k == at {
                                let i = choose|i: int| 0 <= i < n && moves@[i] == before[j].0;
                                assert(moves@[i] != moves@[n as int]);
                            }
                        }
                        assert forall|j: int, k: int| 0 <= j < k < out@.len() implies out@[j].1
                            >= out@[k].1 by {
                            if j == at {
                                assert(before[at as int].1 < score);
                                if k - 1 > at {
                                    assert(before[at as int].1 >= before[k - 1].1);
                                }
                            }
                        }
                        assert forall|j: int, k: int|
                            0 <= j < k < out@.len() && out@[j].1 == out@[k].1 implies move_code(
                            out@[j].0,
                        ) < move_code(out@[k].0) by {
                            if j == at {
                                assert(before[at as int].1 < score);
                                if k - 1 > at {
                                    assert(before[at as int].1 >= before[k - 1].1);
                                }
                            } else if k == at {
                                let i = choose|i: int| 0 <= i < n && moves@[i] == before[j].0;
                                assert(move_code(moves@[i]) < move_code(moves@[n as int]));
                            }
                        }
                    }
                },
            }
            n += 1;
        }
        proof {
            assert forall|m: Move| board@.legal(m) implies scored(out@, m) by {
                let j = choose|j: int| 0 <= j < moves@.len() && moves@[j] == m;
                assert(scored(out@, moves@[j]));
            }
            assert forall|m: Move| scored(out@, m) implies board@.legal(m) by {
                let k = choose|k: int| 0 <= k < out@.len() && (#[trigger] out@[k]).0 == m;
                let j = choose|j: int| 0 <= j < n && moves@[j] == out@[k].0;
                assert(moves@.contains(moves@[j]));
            }
        }
        out
    }

    /// Counts one more position.
    fn count_position(&mut self)
        ensures
            final(self).wf() == old(self).wf(),
            final(self).lists() == old(self).lists(),
            final(self).transposition_table == old(self).transposition_table,
            final(self).explored() >= old(self).explored(),
            old(self).explored() < u128::MAX ==> final(self).explored() == old(self).explored() + 1,
    {
        if self.explored_positions < u128::MAX {
            self.explored_positions += 1;
        }
    }

    /// The search from the first position: as `negamax`, but it follows all legal moves,
    /// asks no table, and gives the move that it found best.
 #[verifier::rlimit(40)]
    fn negamax0(
        &mut self,
        board: &Board,
        alpha: EvaluationScore,
        beta: EvaluationScore,
        depth: u8,
    ) -> (r: (EvaluationScore, Option<Move>))
        requires
            old(self).wf(),
            board.wf(),
            MIN_SCORE <= alpha < beta <= MAX_SCORE,
            old(self).sound(
                Game { owned: board@.owned, base: ones(board.pieces_mask), total: depth as int },
            ),
        ensures
            final(self).wf(),
            final(self).explored() >= old(self).explored(),
            old(self).explored() < u128::MAX ==> final(self).explored() > old(self).explored(),
            -128 <= r.0 <= 128,
            bounds(r.0 as int, alpha as int, beta as int, value(board@, depth as nat, false)),
            r.1 is Some ==> {
                &&& board@.legal(r.1->0)
                &&& depth > 0
                &&& alpha < r.0
                &&& r.0 < beta ==> reply(board@, depth as nat, r.1->0) == r.0
                &&& r.0 >= beta ==> reply(board@, depth as nat, r.1->0) >= r.0
            },
            r.1 is None ==> depth == 0 || (forall|m: Move| !board@.legal(m)) || r.0 == alpha,
            r.1 is Some && r.0 < beta ==> forall|m: Move|
                board@.legal(m) && #[trigger] reply(board@, depth as nat, m) == r.0 ==> m == r.1->0
                    || tried_before(board@, false, r.1->0, m),
    {
        let ghost game = Game {
            owned: board@.owned,
            base: ones(board.pieces_mask),
            total: depth as int,
        };
        let ghost v = value(board@, depth as nat, false);
        let mut lo = alpha;
        self.count_position();
        if depth == 0 {
            let r = evaluation(board);
            proof {
                lemma_value_is_score(board@, 0, false);
            }
            return (r, None);
        }
        let mut it = MoveIterator::new(board, false, &self.heuristics);
        let mut best_mov: Option<Move> = None;
        let mut terminal = true;
        let mut done = false;
        let ghost h = self.heuristics;
        proof {
            assert forall|m: Move| it.pending(board@, h, m) == board@.legal(m) by {
                assert(board@.is_child(false, m) == board@.legal(m));
            }
        }
        while !done
            invariant
                self.wf(),
                self.sound(game),
                self.lists() == h,
                h.wf(),
                self.explored() >= old(self).explored(),
                old(self).explored() < u128::MAX ==> self.explored() > old(self).explored(),
                board.wf(),
                game == (Game {
                    owned: board@.owned,
                    base: ones(board.pieces_mask),
                    total: depth as int,
                }),
                depth > 0,
                v == value(board@, depth as nat, false),
                it.wf(board@),
                it.remaining() >= 0,
                forall|m: Move| it.pending(board@, h, m) ==> board@.legal(m),
                done ==> forall|m: Move| !it.pending(board@, h, m),
                MIN_SCORE <= alpha <= lo < beta <= MAX_SCORE,
                forall|m: Move|
                    board@.legal(m) && !it.pending(board@, h, m) ==> reply(board@, depth as nat, m)
                        <= lo,
                lo > alpha <==> best_mov is Some,
                best_mov is Some ==> board@.legal(best_mov->0) && reply(
                    board@,
                    depth as nat,
                    best_mov->0,
                ) == lo,
                forall|a: Move, b: Move|
                    #[trigger] it.before(h, a, b) == tried_before(board@, false, a, b),
                best_mov is Some ==> forall|m: Move|
                    it.pending(board@, h, m) ==> #[trigger] tried_before(
                        board@,
                        false,
                        best_mov->0,
                        m,
                    ),
                best_mov is Some ==> forall|m: Move|
                    board@.legal(m) && !it.pending(board@, h, m) && #[trigger] reply(
                        board@,
                        depth as nat,
                        m,
                    ) == lo ==> m == best_mov->0 || tried_before(board@, false, best_mov->0, m),
                terminal ==> forall|m: Move| board@.legal(m) ==> it.pending(board@, h, m),
                !terminal ==> exists|m: Move| board@.legal(m),
            decreases
                    (if done {
                        0
                    } else {
                        it.remaining() + 1
                    }),
        {
            let ghost it0 = it;
            match it.next(board, &self.heuristics) {
                None => {
                    done = true;
                },
                Some((child, mov)) => {
                    terminal = false;
                    proof {
                        lemma_child_holds(game, *board, child, mov, depth as int, true);
                        assert(it0.pending(board@, h, mov));
                        assert forall|m: Move| it.pending(board@, h, m) implies #[trigger] tried_before(
                            board@,
                            false,
                            mov,
                            m,
                        ) by {
                            assert(it0.before(h, mov, m));
                        }
                        if best_mov is Some {
                            assert(tried_before(board@, false, best_mov->0, mov));
                        }
                    }
                    let score = -self.negamax(&child, -beta, -lo, depth - 1, Ghost(game));
                    proof {
                        assert(reply(board@, depth as nat, mov) == -value(
                            child@,
                            (depth - 1) as nat,
                            depth - 1 <= FORCED_MOVE_DEPTH,
                        ));
                    }
                    if score >= beta {
                        proof {
                            assert(board@.is_child(false, mov));
                            lemma_value_is_best(board@, depth as nat, false);
                            assert(reply(board@, depth as nat, mov) <= v);
                            assert(reply(board@, depth as nat, mov) >= score);
                        }
                        return (score, Some(mov));
                    }
                    if score > lo {
                        lo = score;
                        best_mov = Some(mov);
                    }
                },
            }
        }
        if terminal {
            lo = evaluation(board);
            proof {
                lemma_value_is_score(board@, depth as nat, false);
            }
            return (lo, None);
        }
        proof {
            lemma_value_is_best(board@, depth as nat, false);
            let w = choose|m: Move| board@.is_child(false, m) && reply(board@, depth as nat, m) == v;
            assert(reply(board@, depth as nat, w) <= lo);
            if lo > alpha {
                assert(is_best(board@, depth as nat, false, lo as int));
                lemma_best_is_value(board@, depth as nat, false, lo as int);
            }
        }
        (lo, best_mov)
    }

    /// The search below the first position, in the window from `alpha` to `beta`. The
    /// table may lower `beta`; the result is the score at depth 0, else the best of what the
    /// followed moves give, cut off at `beta`; what comes out at the end goes into the table.
 #[verifier::rlimit(40)]
    fn negamax(
        &mut self,
        board: &Board,
        alpha: EvaluationScore,
        beta: EvaluationScore,
        depth: u8,
        Ghost(game): Ghost<Game>,
    ) -> (r: EvaluationScore)
        requires
            old(self).wf(),
            old(self).sound(game),
            board.wf(),
            game.holds(board@),
            depth == game.depth_at(board@),
            MIN_SCORE <= alpha < beta <= MAX_SCORE,
        ensures
            final(self).wf(),
            final(self).sound(game),
            final(self).lists() == old(self).lists(),
            final(self).explored() >= old(self).explored(),
            old(self).explored() < u128::MAX ==> final(self).explored() > old(self).explored(),
            -128 <= r <= 128,
            bounds(
                r as int,
                alpha as int,
                beta as int,
                value(board@, depth as nat, depth <= FORCED_MOVE_DEPTH),
            ),
        decreases depth,
    {
                let forced = depth <= FORCED_MOVE_DEPTH;
        let ghost v = value(board@, depth as nat, forced);
        let mut lo = alpha;
        let mut hi = beta;
        self.count_position();
        let key = board.key();
        proof {
            lemma_value_range(board@, depth as nat, forced);
        }
        match self.transposition_table.get(key) {
            Some(cached_beta) => {
                if hi > cached_beta as EvaluationScore {
                    hi = cached_beta as EvaluationScore;
                    if lo >= hi {
                        return hi;
                    }
                }
            },
            None => {},
        }
        if depth == 0 {
            let r = evaluation(board);
            proof {
                lemma_value_is_score(board@, 0, forced);
            }
            return r;
        }
        let mut it = MoveIterator::new(board, forced, &self.heuristics);
        let mut terminal = true;
        let mut done = false;
        let ghost h = self.heuristics;
        while !done
            invariant
                self.wf(),
                self.sound(game),
                self.lists() == h,
                self.lists() == old(self).lists(),
                h.wf(),
                self.explored() >= old(self).explored(),
                old(self).explored() < u128::MAX ==> self.explored() > old(self).explored(),
                board.wf(),
                game.holds(board@),
                depth == game.depth_at(board@),
                depth > 0,
                forced == (depth <= FORCED_MOVE_DEPTH),
                v == value(board@, depth as nat, forced),
                -64 <= v <= 64,
                key == key_of(board.pieces_mask, board.black_mask),
                it.wf(board@),
                it.remaining() >= 0,
                forall|m: Move| it.pending(board@, h, m) ==> board@.is_child(forced, m),
                done ==> forall|m: Move| !it.pending(board@, h, m),
                MIN_SCORE <= alpha <= lo < hi <= beta <= MAX_SCORE,
                hi < beta ==> v <= hi,
                forall|m: Move|
                    board@.is_child(forced, m) && !it.pending(board@, h, m) ==> reply(
                        board@,
                        depth as nat,
                        m,
                    ) <= lo,
                lo > alpha ==> exists|m: Move|
                    board@.is_child(forced, m) && reply(board@, depth as nat, m) == lo,
                terminal ==> forall|m: Move|
                    board@.is_child(forced, m) ==> it.pending(board@, h, m),
                !terminal ==> exists|m: Move| board@.is_child(forced, m),
            decreases
                    depth,
                    (if done {
                        0
                    } else {
                        it.remaining() + 1
                    }),
        {
            match it.next(board, &self.heuristics) {
                None => {
                    done = true;
                },
                Some((child, mov)) => {
                    terminal = false;
                    proof {
                        lemma_child_holds(game, *board, child, mov, depth as int, false);
                        assert(board@.is_child(forced, mov));
                    }
                    let score = -self.negamax(&child, -hi, -lo, depth - 1, Ghost(game));
                    proof {
                        assert(reply(board@, depth as nat, mov) == -value(
                            child@,
                            (depth - 1) as nat,
                            depth - 1 <= FORCED_MOVE_DEPTH,
                        ));
                    }
                    if score >= hi {
                        proof {
                            lemma_value_is_best(board@, depth as nat, forced);
                            assert(reply(board@, depth as nat, mov) <= v);
                            assert(reply(board@, depth as nat, mov) >= score);
                        }
                        return score;
                    }
                    if score > lo {
                        lo = score;
                    }
                },
            }
        }
        if terminal {
            lo = evaluation(board);
            proof {
                lemma_value_is_score(board@, depth as nat, forced);
            }
        } else {
            proof {
                lemma_value_is_best(board@, depth as nat, forced);
                let w = choose|m: Move|
                    board@.is_child(forced, m) && reply(board@, depth as nat, m) == v;
                assert(reply(board@, depth as nat, w) <= lo);
                if lo > alpha {
                    assert(is_best(board@, depth as nat, forced, lo as int));
                    lemma_best_is_value(board@, depth as nat, forced, lo as int);
                }
            }
        }
        let ghost before = self.transposition_table;
        self.transposition_table.insert(key, lo as i8);
        proof {
            let after = self.transposition_table;
            assert forall|pos: Position|
                game.holds(pos) && (#[trigger] after.lookup(key_of(pos.pieces, pos.black)))
                    is Some implies value(
                pos,
                game.depth_at(pos) as nat,
                game.depth_at(pos) <= FORCED_MOVE_DEPTH,
            ) <= after.lookup(key_of(pos.pieces, pos.black))->0 by {
                let key2 = key_of(pos.pieces, pos.black);
                lemma_key_of(pos, board@);
                lemma_key_of(board@, pos);
                let slot = TranspositionTable::<TABLE_SIZE>::slot_of(key);
                let slot2 = TranspositionTable::<TABLE_SIZE>::slot_of(key2);
                if slot2 == slot {
                    assert(key2 == key);
                    assert(pos.owned == board@.owned);
                    assert(pos == board@);
                } else {
                    assert(after.lookup(key2) == before.lookup(key2));
                }
            }
        }
        lo
    }
}

/// The board after a followed move is a position of the same search, one move deeper.
proof fn lemma_child_holds(game: Game, board: Board, child: Board, m: Move, depth: int, root: bool)
    requires
        board.wf(),
        child.wf(),
        child.follows(board, m),
        board@.legal(m),
        depth > 0,
        if root {
            game == (Game { owned: board@.owned, base: ones(board.pieces_mask), total: depth })
        } else {
            game.holds(board@) && depth == game.depth_at(board@)
        },
    ensures
        game.holds(child@),
        depth - 1 == game.depth_at(child@),
{
    board.lemma_pieces_with(m);
    let k = ones(board.pieces_mask) - game.base;
    crate::bits::lemma_ones_below_range(board.pieces_mask, 64);
    assert(child@.owned =~= game.owner_at(k + 1));
}

/// Whether the list of boards and moves holds the move `m`.
pub open spec fn yields(list: Seq<(Board, Move)>, m: Move) -> bool {
    exists|k: int| 0 <= k < list.len() && (#[trigger] list[k]).1 == m
}

/// The boards that a search follows from `board`, with the moves that lead to them: the
/// forced moves in the order of their cells, or all legal moves, those with a piece of the
/// favorite colour of the player to move first.
#[verifier::rlimit(40)]
pub fn next_boards(board: &Board, forced: bool) -> (r: Vec<(Board, Move)>)
    requires
        board.wf(),
    ensures
        forall|m: Move| board@.is_child(forced, m) <==> yields(r@, m),
        forall|k: int|
            0 <= k < r.len() ==> (#[trigger] r[k]).0.follows(*board, r[k].1) && r[k].0.wf(),
        forall|j: int, k: int| 0 <= j < k < r.len() ==> r[j].1 != r[k].1,
        forall|j: int, k: int|
            0 <= j < k < r.len() ==> tried_before(board@, forced, r[j].1, r[k].1),
{
    let h = Heuristics::new();
    let mut it = MoveIterator::new(board, forced, &h);
    let mut out: Vec<(Board, Move)> = Vec::new();
    let mut done = false;
    while !done
        invariant
            board.wf(),
            h.wf(),
            it.wf(board@),
            it.remaining() >= 0,
            forall|m: Move| it.pending(board@, h, m) ==> board@.is_child(forced, m),
            done ==> forall|m: Move| !it.pending(board@, h, m),
            forall|m: Move|
                board@.is_child(forced, m) && !it.pending(board@, h, m) ==> yields(out@, m),
            forall|k: int|
                0 <= k < out.len() ==> board@.is_child(forced, (#[trigger] out[k]).1)
                    && !it.pending(board@, h, out[k].1) && out[k].0.follows(*board, out[k].1)
                    && out[k].0.wf(),
            forall|j: int, k: int| 0 <= j < k < out.len() ==> out[j].1 != out[k].1,
            forall|a: Move, b: Move|
                #[trigger] it.before(h, a, b) == tried_before(board@, forced, a, b),
            forall|j: int, k: int|
                0 <= j < k < out.len() ==> tried_before(board@, forced, out[j].1, out[k].1),
            forall|j: int, m: Move|
                0 <= j < out.len() && it.pending(board@, h, m) ==> #[trigger] tried_before(
                    board@,
                    forced,
                    out[j].1,
                    m,
                ),
        decreases
                (if done {
                    0
                } else {
                    it.remaining() + 1
                }),
    {
        let ghost before = out@;
        let ghost it0 = it;
        match it.next(board, &h) {
            None => {
                done = true;
            },
            Some((child, mov)) => {
                out.push((child, mov));
                proof {
                    assert(out@[out.len() - 1].1 == mov);
                    assert forall|m: Move|
                        board@.is_child(forced, m) && !it.pending(board@, h, m) implies yields(
                        out@,
                        m,
                    ) by {
                        if m != mov {
                            assert(!it0.pending(board@, h, m));
                            assert(yields(before, m));
                            let k = choose|k: int| 0 <= k < before.len() && (#[trigger] before[k]).1 == m;
                            assert(out@[k].1 == m);
                        }
                    }
                    assert forall|k: int| 0 <= k < out.len() implies board@.is_child(
                        forced,
                        (#[trigger] out[k]).1,
                    ) && !it.pending(board@, h, out[k].1) && out[k].0.follows(*board, out[k].1)
                        && out[k].0.wf() by {
                        if k < before.len() {
                            assert(before[k] == out[k]);
                        }
                    }
                    assert forall|j: int, k: int| 0 <= j < k < out.len() implies out[j].1 != out[k].1 by {
                        if k == out.len() - 1 {
                            assert(before[j] == out[j]);
                            assert(!it0.pending(board@, h, before[j].1));
                        } else {
                            assert(before[j] == out[j] && before[k] == out[k]);
                        }
                    }
                    assert forall|j: int, k: int| 0 <= j < k < out.len() implies tried_before(
                        board@,
                        forced,
                        out[j].1,
                        out[k].1,
                    ) by {
                        assert(before[j] == out[j]);
                        if k < out.len() - 1 {
                            assert(before[k] == out[k]);
                        }
                    }
                    assert forall|j: int, m: Move|
                        0 <= j < out.len() && it.pending(board@, h, m) implies #[trigger] tried_before(
                        board@,
                        forced,
                        out[j].1,
                        m,
                    ) by {
                        assert(it0.pending(board@, h, m));
                        if j < out.len() - 1 {
                            assert(before[j] == out[j]);
                        } else {
                            assert(it0.before(h, mov, m));
                        }
                    }
                }
            },
        }
    }
    proof {
        assert forall|m: Move| yields(out@, m) implies board@.is_child(forced, m) by {
            let k = choose|k: int| 0 <= k < out@.len() && (#[trigger] out@[k]).1 == m;
            assert(board@.is_child(forced, out[k].1));
        }
    }
    out
}

/// The value of a position `depth` moves deep, or as deep as half its legal moves where
/// `depth` is more or is not given; a move that gives that value, if a move is legal and the
/// depth is not zero; and the number of positions that the search looked at.
pub fn solve(board: &Board, depth: Option<u8>) -> (r: (EvaluationScore, Option<Move>, u128))
    requires
        board.wf(),
    ensures
        r.0 == value(board@, search_depth(board@, depth), false),
        r.1 is Some <==> search_depth(board@, depth) > 0 && exists|m: Move| board@.legal(m),
        r.1 is Some ==> board@.legal(r.1->0) && reply(
            board@,
            search_depth(board@, depth),
            r.1->0,
        ) == r.0,
        r.1 is Some ==> forall|m: Move|
            board@.legal(m) && #[trigger] reply(board@, search_depth(board@, depth), m) == r.0
                ==> m == r.1->0 || tried_before(board@, false, r.1->0, m),
        r.2 >= 1,
        board.valid() && board@.owned.len() == 8 ==> -8 <= r.0 <= 8,
{
    let mut solver = Solver::new();
    let depth = depth_of_search(board, depth);
    proof {
        crate::bits::lemma_ones_below_range(board.pieces_mask, 64);
        lemma_value_range(board@, depth as nat, false);
        if board.valid() && board@.owned.len() == 8 {
            crate::laws::lemma_value_within_eight(board@, depth as nat, false);
        }
    }
    let (score, mov) = solver.negamax0(board, MIN_SCORE, MAX_SCORE, depth);
    (score, mov, solver.explored_positions)
}

/// The sign of the value that `solve` gives for the same position and depth: a search in
/// the window from -1 to 1.
pub fn partial_solve(board: &Board, depth: Option<u8>) -> (r: (
    EvaluationScore,
    Option<Move>,
    u128,
))
    requires
        board.wf(),
    ensures
        sign(r.0 as int) == sign(value(board@, search_depth(board@, depth), false)),
        bounds(r.0 as int, -1, 1, value(board@, search_depth(board@, depth), false)),
        r.1 is Some ==> board@.legal(r.1->0) && r.0 > -1 && (r.0 < 1 ==> reply(
            board@,
            search_depth(board@, depth),
            r.1->0,
        ) == r.0) && (r.0 >= 1 ==> reply(board@, search_depth(board@, depth), r.1->0) >= r.0),
        r.2 >= 1,
{
    let mut solver = Solver::new();
    let depth = depth_of_search(board, depth);
    proof {
        crate::bits::lemma_ones_below_range(board.pieces_mask, 64);
    }
    let (score, mov) = solver.negamax0(board, -1, 1, depth);
    (score, mov, solver.explored_positions)
}

/// The depth that a search from `board` goes to.
fn depth_of_search(board: &Board, depth: Option<u8>) -> (r: u8)
    requires
        board.wf(),
    ensures
        r == search_depth(board@, depth),
{
    let moves = board.possible_moves();
    let move_count = moves.len() as u8;
    let max_depth = (move_count + 1) / 2;
    match depth {
        None => max_depth,
        Some(d) => if d < max_depth {
            d
        } else {
            max_depth
        },
    }
}

/// The sign of what a search in the window from -1 to 1 gives is the sign of the value.
pub proof fn lemma_partial_sign(partial: int, v: int)
    requires
        bounds(partial, -1, 1, v),
    ensures
        sign(partial) == sign(v),
{
}

} // verus!
