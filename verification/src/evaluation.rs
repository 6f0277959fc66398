use vstd::prelude::*;
use crate::bits::{
    bit, lemma_bit16_single, lemma_bit_logic, lemma_bit_shift, lemma_no_bit_is_zero,
    lemma_trailing_zeros, split_lowest,
};
use crate::board::{lemma_score_range, Board, Position};
use crate::grid::{b2i, tile_at, tile_value, lemma_tile_value_range};
use crate::mov::on_board;
use crate::tileset::{all_tiles, TileSet};

verus! {

/// The cells that are the top-left cell of a tile: the four first cells of the four first
/// rows of the board.
pub const TILE_MASK: u64 = 0b0000000_0000000_0011110_0011110_0011110_0011110_0000000;

/// Whether bit `a` is the top-left cell of a tile of the board.
pub open spec fn is_anchor(a: int) -> bool {
    on_board(a) && on_board(a + 8)
}

/// Which cells of a tile hold no piece: top-left, top-right, bottom-left, bottom-right.
#[derive(Clone, Copy)]
pub struct Free {
    pub top_left: bool,
    pub top_right: bool,
    pub bottom_left: bool,
    pub bottom_right: bool,
}

/// Whether the tile whose top-left cell is bit `a` has pieces on exactly the cells that
/// `free` leaves out.
pub open spec fn shaped(pieces: u64, a: int, free: Free) -> bool {
    &&& bit(pieces, a) == !free.top_left
    &&& bit(pieces, a + 1) == !free.top_right
    &&& bit(pieces, a + 7) == !free.bottom_left
    &&& bit(pieces, a + 8) == !free.bottom_right
}

/// Whether the tile value `v` agrees with the pieces of the tile whose top-left cell is
/// bit `a`: each cell with a piece is black in `v` exactly where the piece is black.
pub open spec fn fits(pos: Position, a: int, v: int) -> bool {
    &&& bit(pos.pieces, a) ==> (v % 2 == 1) == bit(pos.black, a)
    &&& bit(pos.pieces, a + 1) ==> ((v / 2) % 2 == 1) == bit(pos.black, a + 1)
    &&& bit(pos.pieces, a + 7) ==> ((v / 4) % 2 == 1) == bit(pos.black, a + 7)
    &&& bit(pos.pieces, a + 8) ==> ((v / 8) % 2 == 1) == bit(pos.black, a + 8)
}

/// How many of the four cells of a tile hold a piece.
pub open spec fn filled_cells(pieces: u64, a: int) -> int {
    b2i(bit(pieces, a)) + b2i(bit(pieces, a + 1)) + b2i(bit(pieces, a + 7)) + b2i(
        bit(pieces, a + 8),
    )
}

/// Whether exactly two cells of a tile hold a piece, side by side or one above the other.
pub open spec fn edge_pair(pieces: u64, a: int) -> bool {
    filled_cells(pieces, a) == 2 && bit(pieces, a) != bit(pieces, a + 8)
}

/// The tile values that a tile with one empty cell can still get.
pub open spec fn almost_set(pos: Position) -> Set<int> {
    Set::new(
        |v: int|
            0 <= v < 16 && exists|a: int|
                is_anchor(a) && filled_cells(pos.pieces, a) == 3 && fits(pos, a, v),
    )
}

/// The tile values that a tile with two pieces on one side can still get.
pub open spec fn half_set(pos: Position) -> Set<int> {
    Set::new(
        |v: int|
            0 <= v < 16 && exists|a: int| is_anchor(a) && edge_pair(pos.pieces, a) && fits(pos, a, v),
    )
}

/// How many values of `s` the player to move owns, less how many the opponent owns.
pub open spec fn ownership(pos: Position, s: Set<int>) -> int {
    pos.owned.intersect(s).len() - all_tiles().difference(pos.owned).intersect(s).len()
}

/// What the tiles with one empty cell promise the player to move.
pub open spec fn almost_full(pos: Position) -> int {
    ownership(pos, almost_set(pos))
}

/// What the tiles with two pieces on one side promise the player to move.
pub open spec fn half(pos: Position) -> int {
    ownership(pos, half_set(pos))
}

/// The evaluation of a position with `played_moves` pieces: the score, what the tiles with
/// one empty cell promise and what the tiles with two pieces on one side promise, each with
/// a weight that the number of pieces sets.
pub open spec fn evaluation_of(pos: Position, played_moves: int) -> int {
    if played_moves < 2 {
        0
    } else if played_moves < 3 {
        half(pos)
    } else if played_moves < 4 {
        almost_full(pos) + half(pos)
    } else if played_moves <= 8 {
        pos.score() + almost_full(pos) + half(pos)
    } else if played_moves <= 16 {
        pos.score() * 2 + almost_full(pos) * 2 + half(pos)
    } else if played_moves <= 20 {
        pos.score() * 4 + almost_full(pos) + half(pos)
    } else {
        pos.score() * 8
    }
}

/// The tile values that agree with the tile of some cell of `anchors`.
pub open spec fn fitting(pos: Position, anchors: u64) -> Set<int> {
    Set::new(|v: int| 0 <= v < 16 && fits_below(pos, anchors, 64, v))
}

/// One bit of `TILE_MASK`.
proof fn bv_tile_mask(i: u64)
    by (bit_vector)
    requires
        i < 64,
    ensures
        ((TILE_MASK >> i) & 1 == 1) == (8 <= i && i <= 32 && 1 <= i % 7 && i % 7 <= 4),
{
}

/// The set bits of `TILE_MASK` are the top-left cells of the tiles.
pub proof fn lemma_tile_mask()
    ensures
        forall|i: int| #[trigger] bit(TILE_MASK, i) == is_anchor(i),
{
    assert forall|i: int| #[trigger] bit(TILE_MASK, i) == is_anchor(i) by {
        if 0 <= i < 64 {
            bv_tile_mask(i as u64);
        }
    }
}

/// Whether the tile value `v` has the colours of the tile value `base` on the cells that
/// are not free.
pub open spec fn agreeing(v: int, base: int, free: Free) -> bool {
    &&& !free.top_left ==> v % 2 == base % 2
    &&& !free.top_right ==> (v / 2) % 2 == (base / 2) % 2
    &&& !free.bottom_left ==> (v / 4) % 2 == (base / 4) % 2
    &&& !free.bottom_right ==> (v / 8) % 2 == (base / 8) % 2
}

/// Whether the tile value `v` agrees with the tile of some cell of `anchors` below `lo`.
pub open spec fn fits_below(pos: Position, anchors: u64, lo: int, v: int) -> bool {
    exists|a: int| bit(anchors, a) && a < lo && fits(pos, a, v)
}

/// Whether the value `v` agrees with the value `base` on the cells that are not free.
fn agrees(v: u8, base: u8, free: Free) -> (r: bool)
    ensures
        r == agreeing(v as int, base as int, free),
{
    (free.top_left || v % 2 == base % 2) && (free.top_right || (v / 2) % 2 == (base / 2) % 2) && (
    free.bottom_left || (v / 4) % 2 == (base / 4) % 2) && (free.bottom_right || (v / 8) % 2 == (base
        / 8) % 2)
}

/// The tile values that agree with one of the tiles of `anchors`, all of the shape `free`.
#[verifier::rlimit(40)]
fn compatible_tiles(board: &Board, anchors: u64, free: Free) -> (r: TileSet)
    requires
        board.wf(),
        forall|a: int| #[trigger] bit(anchors, a) ==> is_anchor(a) && shaped(board.pieces_mask, a, free),
    ensures
        r@ == fitting(board@, anchors),
{
    let mut acc = TileSet::empty();
    let mut mask = anchors;
    let ghost mut lo: int = 0;
    while mask != 0
        invariant
            board.wf(),
            0 <= lo <= 64,
            forall|a: int| #[trigger] bit(anchors, a) ==> is_anchor(a) && shaped(
                board.pieces_mask,
                a,
                free,
            ),
            forall|a: int| #[trigger] bit(mask, a) == (bit(anchors, a) && a >= lo),
            forall|v: int|
                acc@.contains(v) <==> 0 <= v < 16 && fits_below(board@, anchors, lo, v),
        decreases 64 - lo,
    {
        let (top_left, rest) = split_lowest(mask);
        let ghost t = mask.trailing_zeros() as int;
        proof {
            lemma_trailing_zeros(mask);
            assert(bit(mask, t));
            assert(is_anchor(t));
        }
        let base = tile_at(&board.black_mask, top_left);
        proof {
            lemma_tile_value_range(board.black_mask, t);
        }
        let ghost before = acc@;
        let mut v: u8 = 0;
        while v < 16
            invariant
                v <= 16,
                base < 16,
                forall|w: int|
                    acc@.contains(w) <==> before.contains(w) || (0 <= w < v && agreeing(
                        w,
                        base as int,
                        free,
                    )),
            decreases 16 - v,
        {
            let ghost inner = acc@;
            assert(forall|w: int|
                inner.contains(w) <==> before.contains(w) || (0 <= w < v && agreeing(
                    w,
                    base as int,
                    free,
                )));
            if agrees(v, base, free) {
                proof {
                    lemma_bit16_single(v as u16);
                }
                let one = TileSet::new(1u16 << v);
                assert(one@ =~= set![v as int]);
                acc = acc.union(&one);
                assert(acc@ =~= inner.insert(v as int));
            }
            proof {
                assert forall|w: int|
                    acc@.contains(w) <==> before.contains(w) || (0 <= w < v + 1 && agreeing(
                        w,
                        base as int,
                        free,
                    )) by {
                    assert(inner.contains(w) <==> before.contains(w) || (0 <= w < v && agreeing(
                        w,
                        base as int,
                        free,
                    )));
                    if agreeing(v as int, base as int, free) {
                        assert(acc@.contains(w) == (inner.contains(w) || w == v));
                    } else {
                        assert(acc@ == inner);
                    }
                }
            }
            v += 1;
        }
        mask = rest;
        proof {
            assert(shaped(board.pieces_mask, t, free));
            assert forall|w: int| 0 <= w < 16 implies agreeing(w, base as int, free) == fits(
                board@,
                t,
                w,
            ) by {
                lemma_fits(board@, t, w, free);
            }
            assert forall|w: int|
                acc@.contains(w) <==> 0 <= w < 16 && fits_below(board@, anchors, t + 1, w) by {
                assert(acc@.contains(w) <==> before.contains(w) || (0 <= w < 16 && agreeing(
                    w,
                    base as int,
                    free,
                )));
                assert(before.contains(w) <==> 0 <= w < 16 && fits_below(board@, anchors, lo, w));
                if 0 <= w < 16 {
                    assert(agreeing(w, base as int, free) == fits(board@, t, w));
                }
                if acc@.contains(w) {
                    if before.contains(w) {
                        let a = choose|a: int| bit(anchors, a) && a < lo && fits(board@, a, w);
                        assert(bit(anchors, a) && a < t + 1 && fits(board@, a, w));
                    } else {
                        assert(bit(anchors, t) && t < t + 1 && fits(board@, t, w));
                    }
                }
                if 0 <= w < 16 && fits_below(board@, anchors, t + 1, w) {
                    let a = choose|a: int| bit(anchors, a) && a < t + 1 && fits(board@, a, w);
                    if a < lo {
                        assert(fits_below(board@, anchors, lo, w));
                    } else if a < t {
                        assert(!bit(mask, a));
                    } else {
                        assert(a == t);
                    }
                }
            }
            lo = t + 1;
        }
    }
    proof {
        lemma_no_bit_is_zero(mask);
        assert forall|v: int| acc@.contains(v) == fitting(board@, anchors).contains(v) by {
            if fitting(board@, anchors).contains(v) {
                let a = choose|a: int| bit(anchors, a) && a < 64 && fits(board@, a, v);
                assert(!bit(mask, a));
                assert(fits_below(board@, anchors, lo, v));
            }
            if acc@.contains(v) {
                let a = choose|a: int| bit(anchors, a) && a < lo && fits(board@, a, v);
                assert(bit(anchors, a) && a < 64 && fits(board@, a, v));
            }
        }
        assert(acc@ =~= fitting(board@, anchors));
    }
    acc
}

/// A tile value has the colours of the value of a tile on the cells with a piece exactly
/// where it agrees with the pieces of the tile.
proof fn lemma_fits(pos: Position, a: int, v: int, free: Free)
    requires
        pos.wf(),
        shaped(pos.pieces, a, free),
        0 <= v < 16,
    ensures
        agreeing(v, tile_value(pos.black, a), free) == fits(pos, a, v),
{
    let base = tile_value(pos.black, a);
    let b0 = b2i(bit(pos.black, a));
    let b1 = b2i(bit(pos.black, a + 1));
    let b2 = b2i(bit(pos.black, a + 7));
    let b3 = b2i(bit(pos.black, a + 8));
    assert(base == b0 + 2 * b1 + 4 * b2 + 8 * b3);
    assert(base % 2 == b0);
    assert((base / 2) % 2 == b1);
    assert((base / 4) % 2 == b2);
    assert((base / 8) % 2 == b3);
}

/// How many of the tile values of `total` the player to move owns, less how many the
/// opponent owns.
fn owned_difference(board: &Board, total: TileSet) -> (r: i8)
    requires
        board.wf(),
    ensures
        r == ownership(board@, total@),
        -16 <= r <= 16,
{
    proof {
        assert(board.opponent.tiles@ == all_tiles().difference(board@.owned));
    }
    let mine = board.current_player.tiles.intersection(&total).size();
    let theirs = board.opponent.tiles.intersection(&total).size();
    mine as i8 - theirs as i8
}

/// What the tiles with one empty cell promise the player to move: a tile value that such
/// a tile can still get counts one for its owner.
#[verifier::rlimit(40)]
pub fn almost_full_tiles(board: &Board) -> (r: i8)
    requires
        board.wf(),
    ensures
        r == almost_full(board@),
        -16 <= r <= 16,
{
    let x = board.pieces_mask;
    proof {
        lemma_patterns(x);
        lemma_tile_mask();
    }
    let bottom_right = compatible_tiles(
        board,
        x & (x >> 1) & (x >> 7) & !(x >> 8) & TILE_MASK,
        Free { top_left: false, top_right: false, bottom_left: false, bottom_right: true },
    );
    let bottom_left = compatible_tiles(
        board,
        x & (x >> 1) & !(x >> 7) & (x >> 8) & TILE_MASK,
        Free { top_left: false, top_right: false, bottom_left: true, bottom_right: false },
    );
    let top_right = compatible_tiles(
        board,
        x & !(x >> 1) & (x >> 7) & (x >> 8) & TILE_MASK,
        Free { top_left: false, top_right: true, bottom_left: false, bottom_right: false },
    );
    let top_left = compatible_tiles(
        board,
        !x & (x >> 1) & (x >> 7) & (x >> 8) & TILE_MASK,
        Free { top_left: true, top_right: false, bottom_left: false, bottom_right: false },
    );
    let total = bottom_right.union(&bottom_left).union(&top_right).union(&top_left);
    proof {
        assert forall|v: int| total@.contains(v) == almost_set(board@).contains(v) by {
            if almost_set(board@).contains(v) {
                let a = choose|a: int|
                    is_anchor(a) && filled_cells(x, a) == 3 && fits(board@, a, v);
                if !bit(x, a + 8) {
                    assert(bit(x & (x >> 1) & (x >> 7) & !(x >> 8) & TILE_MASK, a));
                    assert(fits_below(board@, x & (x >> 1) & (x >> 7) & !(x >> 8) & TILE_MASK, 64, v));
                } else if !bit(x, a + 7) {
                    assert(bit(x & (x >> 1) & !(x >> 7) & (x >> 8) & TILE_MASK, a));
                    assert(fits_below(board@, x & (x >> 1) & !(x >> 7) & (x >> 8) & TILE_MASK, 64, v));
                } else if !bit(x, a + 1) {
                    assert(bit(x & !(x >> 1) & (x >> 7) & (x >> 8) & TILE_MASK, a));
                    assert(fits_below(board@, x & !(x >> 1) & (x >> 7) & (x >> 8) & TILE_MASK, 64, v));
                } else {
                    assert(bit(!x & (x >> 1) & (x >> 7) & (x >> 8) & TILE_MASK, a));
                    assert(fits_below(board@, !x & (x >> 1) & (x >> 7) & (x >> 8) & TILE_MASK, 64, v));
                }
            }
            if total@.contains(v) {
                lemma_fitting_anchor(board@, x & (x >> 1) & (x >> 7) & !(x >> 8) & TILE_MASK, v);
                lemma_fitting_anchor(board@, x & (x >> 1) & !(x >> 7) & (x >> 8) & TILE_MASK, v);
                lemma_fitting_anchor(board@, x & !(x >> 1) & (x >> 7) & (x >> 8) & TILE_MASK, v);
                lemma_fitting_anchor(board@, !x & (x >> 1) & (x >> 7) & (x >> 8) & TILE_MASK, v);
            }
        }
        assert(total@ =~= almost_set(board@));
    }
    owned_difference(board, total)
}

/// What the tiles with two pieces on one side promise the player to move: a tile value
/// that such a tile can still get counts one for its owner.
#[verifier::rlimit(40)]
pub fn half_tiles(board: &Board) -> (r: i8)
    requires
        board.wf(),
    ensures
        r == half(board@),
        -16 <= r <= 16,
{
    let x = board.pieces_mask;
    proof {
        lemma_patterns(x);
        lemma_tile_mask();
    }
    let horizontal_tops = compatible_tiles(
        board,
        x & (x >> 1) & !(x >> 7) & !(x >> 8) & TILE_MASK,
        Free { top_left: false, top_right: false, bottom_left: true, bottom_right: true },
    );
    let horizontal_bottoms = compatible_tiles(
        board,
        !x & !(x >> 1) & (x >> 7) & (x >> 8) & TILE_MASK,
        Free { top_left: true, top_right: true, bottom_left: false, bottom_right: false },
    );
    let vertical_lefts = compatible_tiles(
        board,
        x & !(x >> 1) & (x >> 7) & !(x >> 8) & TILE_MASK,
        Free { top_left: false, top_right: true, bottom_left: false, bottom_right: true },
    );
    let vertical_rights = compatible_tiles(
        board,
        !x & (x >> 1) & !(x >> 7) & (x >> 8) & TILE_MASK,
        Free { top_left: true, top_right: false, bottom_left: true, bottom_right: false },
    );
    let total = horizontal_tops.union(&horizontal_bottoms).union(&vertical_lefts).union(
        &vertical_rights,
    );
    proof {
        assert forall|v: int| total@.contains(v) == half_set(board@).contains(v) by {
            if half_set(board@).contains(v) {
                let a = choose|a: int| is_anchor(a) && edge_pair(x, a) && fits(board@, a, v);
                if bit(x, a) && bit(x, a + 1) {
                    assert(bit(x & (x >> 1) & !(x >> 7) & !(x >> 8) & TILE_MASK, a));
                    assert(fits_below(board@, x & (x >> 1) & !(x >> 7) & !(x >> 8) & TILE_MASK, 64, v));
                } else if bit(x, a + 7) && bit(x, a + 8) {
                    assert(bit(!x & !(x >> 1) & (x >> 7) & (x >> 8) & TILE_MASK, a));
                    assert(fits_below(board@, !x & !(x >> 1) & (x >> 7) & (x >> 8) & TILE_MASK, 64, v));
                } else if bit(x, a) && bit(x, a + 7) {
                    assert(bit(x & !(x >> 1) & (x >> 7) & !(x >> 8) & TILE_MASK, a));
                    assert(fits_below(board@, x & !(x >> 1) & (x >> 7) & !(x >> 8) & TILE_MASK, 64, v));
                } else {
                    assert(bit(!x & (x >> 1) & !(x >> 7) & (x >> 8) & TILE_MASK, a));
                    assert(fits_below(board@, !x & (x >> 1) & !(x >> 7) & (x >> 8) & TILE_MASK, 64, v));
                }
            }
            if total@.contains(v) {
                lemma_fitting_anchor(board@, x & (x >> 1) & !(x >> 7) & !(x >> 8) & TILE_MASK, v);
                lemma_fitting_anchor(board@, !x & !(x >> 1) & (x >> 7) & (x >> 8) & TILE_MASK, v);
                lemma_fitting_anchor(board@, x & !(x >> 1) & (x >> 7) & !(x >> 8) & TILE_MASK, v);
                lemma_fitting_anchor(board@, !x & (x >> 1) & !(x >> 7) & (x >> 8) & TILE_MASK, v);
            }
        }
        assert(total@ =~= half_set(board@));
    }
    owned_difference(board, total)
}

/// The evaluation of a position for the player to move.
pub fn evaluate(board: &Board) -> (r: i16)
    requires
        board.wf(),
    ensures
        r == evaluation_of(board@, board.played_moves as int),
{
    proof {
        lemma_score_range(board@);
    }
    if board.played_moves < 2 {
        return 0;
    }
    if board.played_moves < 3 {
        return half_tiles(board) as i16;
    }
    if board.played_moves < 4 {
        return almost_full_tiles(board) as i16 + half_tiles(board) as i16;
    }
    if board.played_moves > 20 {
        return board.current_score() as i16 * 8;
    }
    let full_tiles_score = board.current_score() as i16;
    let almost_full_score = almost_full_tiles(board) as i16;
    let half_tiles_score = half_tiles(board) as i16;
    if board.played_moves <= 8 {
        full_tiles_score + almost_full_score + half_tiles_score
    } else if board.played_moves <= 16 {
        full_tiles_score * 2 + almost_full_score * 2 + half_tiles_score
    } else {
        full_tiles_score * 4 + almost_full_score + half_tiles_score
    }
}

/// A value of `fitting` agrees with the tile of one of the cells.
proof fn lemma_fitting_anchor(pos: Position, anchors: u64, v: int)
    ensures
        fitting(pos, anchors).contains(v) ==> exists|a: int|
            #[trigger] bit(anchors, a) && fits(pos, a, v),
{
    if fitting(pos, anchors).contains(v) {
        let a = choose|a: int| bit(anchors, a) && a < 64 && fits(pos, a, v);
        assert(bit(anchors, a) && fits(pos, a, v));
    }
}

/// The bits of the masks that pick the tiles of one shape.
proof fn lemma_patterns(x: u64)
    ensures
        forall|a: int|
            0 <= a ==> #[trigger] bit(x & (x >> 1) & (x >> 7) & !(x >> 8) & TILE_MASK, a) == (bit(
                x,
                a,
            ) && bit(x, a + 1) && bit(x, a + 7) && !bit(x, a + 8) && bit(TILE_MASK, a)),
        forall|a: int|
            0 <= a ==> #[trigger] bit(x & (x >> 1) & !(x >> 7) & (x >> 8) & TILE_MASK, a) == (bit(
                x,
                a,
            ) && bit(x, a + 1) && !bit(x, a + 7) && bit(x, a + 8) && bit(TILE_MASK, a)),
        forall|a: int|
            0 <= a ==> #[trigger] bit(x & !(x >> 1) & (x >> 7) & (x >> 8) & TILE_MASK, a) == (bit(
                x,
                a,
            ) && !bit(x, a + 1) && bit(x, a + 7) && bit(x, a + 8) && bit(TILE_MASK, a)),
        forall|a: int|
            0 <= a ==> #[trigger] bit(!x & (x >> 1) & (x >> 7) & (x >> 8) & TILE_MASK, a) == (!bit(
                x,
                a,
            ) && bit(x, a + 1) && bit(x, a + 7) && bit(x, a + 8) && bit(TILE_MASK, a)),
        forall|a: int|
            0 <= a ==> #[trigger] bit(x & (x >> 1) & !(x >> 7) & !(x >> 8) & TILE_MASK, a) == (bit(
                x,
                a,
            ) && bit(x, a + 1) && !bit(x, a + 7) && !bit(x, a + 8) && bit(TILE_MASK, a)),
        forall|a: int|
            0 <= a ==> #[trigger] bit(!x & !(x >> 1) & (x >> 7) & (x >> 8) & TILE_MASK, a) == (!bit(
                x,
                a,
            ) && !bit(x, a + 1) && bit(x, a + 7) && bit(x, a + 8) && bit(TILE_MASK, a)),
        forall|a: int|
            0 <= a ==> #[trigger] bit(x & !(x >> 1) & (x >> 7) & !(x >> 8) & TILE_MASK, a) == (bit(
                x,
                a,
            ) && !bit(x, a + 1) && bit(x, a + 7) && !bit(x, a + 8) && bit(TILE_MASK, a)),
        forall|a: int|
            0 <= a ==> #[trigger] bit(!x & (x >> 1) & !(x >> 7) & (x >> 8) & TILE_MASK, a) == (!bit(
                x,
                a,
            ) && bit(x, a + 1) && !bit(x, a + 7) && bit(x, a + 8) && bit(TILE_MASK, a)),
{
    let s1 = x >> 1;
    let s7 = x >> 7;
    let s8 = x >> 8;
    lemma_bit_shift(x, 1);
    lemma_bit_shift(x, 7);
    lemma_bit_shift(x, 8);
    lemma_bit_logic(x, x);
    lemma_bit_logic(s1, s1);
    lemma_bit_logic(s7, s7);
    lemma_bit_logic(s8, s8);
    lemma_and4(x, s1, s7, !s8);
    lemma_and4(x, s1, !s7, s8);
    lemma_and4(x, !s1, s7, s8);
    lemma_and4(!x, s1, s7, s8);
    lemma_and4(x, s1, !s7, !s8);
    lemma_and4(!x, !s1, s7, s8);
    lemma_and4(x, !s1, s7, !s8);
    lemma_and4(!x, s1, !s7, s8);
    assert forall|a: int| 0 <= a implies (bit(s1, a) == bit(x, a + 1) && bit(s7, a) == bit(x, a + 7)
        && bit(s8, a) == bit(x, a + 8) && bit(!s1, a) == (a < 64 && !bit(x, a + 1)) && bit(!s7, a)
        == (a < 64 && !bit(x, a + 7)) && bit(!s8, a) == (a < 64 && !bit(x, a + 8)) && bit(!x, a)
        == (a < 64 && !bit(x, a))) by {}
}

/// The bits of four masks and `TILE_MASK`, all combined with `&`.
proof fn lemma_and4(a: u64, b: u64, c: u64, d: u64)
    ensures
        forall|i: int| #[trigger]
            bit(a & b & c & d & TILE_MASK, i) == (bit(a, i) && bit(b, i) && bit(c, i) && bit(d, i)
                && bit(TILE_MASK, i)),
{
    lemma_bit_logic(a, b);
    lemma_bit_logic(a & b, c);
    lemma_bit_logic(a & b & c, d);
    lemma_bit_logic(a & b & c & d, TILE_MASK);
}

} // verus!
