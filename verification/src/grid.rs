use vstd::prelude::*;
use crate::bits::{
    bit, lemma_bit_logic, lemma_bit_shift, lemma_no_bit_is_zero, lemma_trailing_zeros,
    split_lowest,
};
use crate::mov::on_board;

verus! {

/// The 25 cells of the board, in a word of 7 rows of 7 bits.
pub const BOARD_MASK: u64 = 0b0000000_0111110_0111110_0111110_0111110_0111110_0000000;

/// The 3 by 3 square of cells whose top-left cell is bit 0.
pub const AREA_MASK: u64 = 0b0000111_0000111_0000111;

/// 1 for true, 0 for false.
pub open spec fn b2i(b: bool) -> int {
    if b {
        1
    } else {
        0
    }
}

/// Whether the four cells of the tile whose top-left cell is bit `a` are all set in `pieces`.
pub open spec fn tile_filled(pieces: u64, a: int) -> bool {
    bit(pieces, a) && bit(pieces, a + 1) && bit(pieces, a + 7) && bit(pieces, a + 8)
}

/// The value of the tile whose top-left cell is bit `a`: 1 for a black top-left cell, 2 for
/// top-right, 4 for bottom-left, 8 for bottom-right, summed.
pub open spec fn tile_value(black: u64, a: int) -> int {
    b2i(bit(black, a)) + 2 * b2i(bit(black, a + 1)) + 4 * b2i(bit(black, a + 7)) + 8 * b2i(
        bit(black, a + 8),
    )
}

/// The top-left cells, below bit `n`, of the filled tiles of `pieces`, in ascending order.
pub open spec fn filled_anchors(pieces: u64, n: int) -> Seq<int>
    decreases n,
{
    if n <= 0 {
        Seq::empty()
    } else if tile_filled(pieces, n - 1) {
        filled_anchors(pieces, n - 1).push(n - 1)
    } else {
        filled_anchors(pieces, n - 1)
    }
}

/// The values of the filled tiles of a position, in the order of their top-left cells.
pub open spec fn filled_values(pieces: u64, black: u64, n: int) -> Seq<u8> {
    filled_anchors(pieces, n).map_values(|a: int| tile_value(black, a) as u8)
}

/// The set of the values of the filled tiles of a position.
pub open spec fn filled_set(pieces: u64, black: u64) -> Set<int> {
    Set::new(|v: int| exists|a: int| tile_filled(pieces, a) && tile_value(black, a) == v)
}

/// Whether no two filled tiles of a position have the same value.
pub open spec fn tiles_distinct(pieces: u64, black: u64) -> bool {
    forall|a: int, b: int|
        tile_filled(pieces, a) && tile_filled(pieces, b) && a != b ==> tile_value(black, a)
            != tile_value(black, b)
}

/// One bit of `BOARD_MASK` and of `AREA_MASK`.
proof fn bv_masks(i: u64)
    by (bit_vector)
    requires
        i < 64,
    ensures
        ((BOARD_MASK >> i) & 1 == 1) == (8 <= i && i <= 40 && 1 <= i % 7 && i % 7 <= 5),
        ((AREA_MASK >> i) & 1 == 1) == (i == 0 || i == 1 || i == 2 || i == 7 || i == 8 || i == 9
            || i == 14 || i == 15 || i == 16),
{
}

/// The set bits of `BOARD_MASK` are the cells of the board.
pub proof fn lemma_board_mask()
    ensures
        forall|i: int| #[trigger] bit(BOARD_MASK, i) == on_board(i),
{
    assert forall|i: int| #[trigger] bit(BOARD_MASK, i) == on_board(i) by {
        if 0 <= i < 64 {
            bv_masks(i as u64);
        }
    }
}

/// The set bits of `AREA_MASK` are three cells in each of three rows.
pub proof fn lemma_area_mask()
    ensures
        forall|i: int| #[trigger]
            bit(AREA_MASK, i) == (i == 0 || i == 1 || i == 2 || i == 7 || i == 8 || i == 9 || i
                == 14 || i == 15 || i == 16),
{
    assert forall|i: int| #[trigger]
        bit(AREA_MASK, i) == (i == 0 || i == 1 || i == 2 || i == 7 || i == 8 || i == 9 || i == 14
            || i == 15 || i == 16) by {
        if 0 <= i < 64 {
            bv_masks(i as u64);
        }
    }
}

/// The value of a tile is one of sixteen.
pub proof fn lemma_tile_value_range(black: u64, a: int)
    ensures
        0 <= tile_value(black, a) < 16,
{
}

/// What `filled_anchors` holds: the filled tiles below `n`, each once, in ascending order.
pub proof fn lemma_filled_anchors(pieces: u64, n: int)
    ensures
        forall|k: int|
            0 <= k < filled_anchors(pieces, n).len() ==> 0 <= #[trigger] filled_anchors(pieces, n)[k]
                < n && tile_filled(pieces, filled_anchors(pieces, n)[k]),
        forall|j: int, k: int|
            0 <= j < k < filled_anchors(pieces, n).len() ==> filled_anchors(pieces, n)[j]
                < filled_anchors(pieces, n)[k],
        forall|a: int|
            0 <= a < n && tile_filled(pieces, a) ==> filled_anchors(pieces, n).contains(a),
        filled_anchors(pieces, n).len() <= if n < 0 { 0 } else { n },
    decreases n,
{
    if n > 0 {
        lemma_filled_anchors(pieces, n - 1);
        let prev = filled_anchors(pieces, n - 1);
        let cur = filled_anchors(pieces, n);
        if tile_filled(pieces, n - 1) {
            assert(cur[cur.len() - 1] == n - 1);
            assert forall|a: int| 0 <= a < n && tile_filled(pieces, a) implies cur.contains(a) by {
                if a < n - 1 {
                    let k = choose|k: int| 0 <= k < prev.len() && prev[k] == a;
                    assert(cur[k] == a);
                } else {
                    assert(cur[cur.len() - 1] == a);
                }
            }
        }
    }
}

/// Where no tile is filled from `lo` up to `hi`, the list of filled tiles does not move.
pub proof fn lemma_filled_anchors_gap(pieces: u64, lo: int, hi: int)
    requires
        lo <= hi,
        forall|a: int| lo <= a < hi ==> !tile_filled(pieces, a),
    ensures
        filled_anchors(pieces, hi) == filled_anchors(pieces, lo),
    decreases hi - lo,
{
    if lo < hi {
        lemma_filled_anchors_gap(pieces, lo, hi - 1);
    }
}

/// The four numbers that `tile_at` puts together are the four cells of the tile, each at its weight.
proof fn bv_tile_at(black: u64, tl: u64, t: u64)
    by (bit_vector)
    requires
        t <= 55,
        tl == 1u64 << t,
    ensures
        ({
            let a = (black & tl) >> t;
            let b = (black & (tl << 1)) >> t;
            let c = (black & (tl << 7)) >> ((t + 5) as u64);
            let d = (black & (tl << 8)) >> ((t + 5) as u64);
            &&& a == (black >> t) & 1
            &&& b == 2 * ((black >> ((t + 1) as u64)) & 1)
            &&& c == 4 * ((black >> ((t + 7) as u64)) & 1)
            &&& d == 8 * ((black >> ((t + 8) as u64)) & 1)
            &&& (a | b | c | d) == a + b + c + d
            &&& (a | b | c | d) < 16
            &&& (black >> t) & 1 <= 1
            &&& (black >> ((t + 1) as u64)) & 1 <= 1
            &&& (black >> ((t + 7) as u64)) & 1 <= 1
            &&& (black >> ((t + 8) as u64)) & 1 <= 1
        }),
{
}

/// The value of the tile whose top-left cell is the only set bit of `top_left`.
pub fn tile_at(black_mask: &u64, top_left: u64) -> (r: u8)
    requires
        top_left.trailing_zeros() <= 55,
        top_left == 1u64 << top_left.trailing_zeros(),
    ensures
        r == tile_value(*black_mask, top_left.trailing_zeros() as int),
{
    let top_left_shift = top_left.trailing_zeros() as u64;
    proof {
        bv_tile_at(*black_mask, top_left, top_left_shift);
    }
    let a = (*black_mask & top_left) >> top_left_shift;
    let b = (*black_mask & (top_left << 1)) >> top_left_shift;
    let c = (*black_mask & (top_left << 7)) >> (top_left_shift + 5);
    let d = (*black_mask & (top_left << 8)) >> (top_left_shift + 5);
    (a | b | c | d) as u8
}

/// The bits of `pieces & pieces >> 1 & pieces >> 7 & pieces >> 8` are the top-left cells of
/// the filled tiles.
pub proof fn lemma_tops(pieces: u64)
    ensures
        forall|a: int|
            0 <= a ==> #[trigger] bit(
                (pieces & (pieces >> 1)) & ((pieces & (pieces >> 1)) >> 7),
                a,
            ) == tile_filled(pieces, a),
{
    let pairs = pieces & (pieces >> 1);
    lemma_bit_shift(pieces, 1);
    lemma_bit_logic(pieces, pieces >> 1);
    lemma_bit_shift(pairs, 7);
    lemma_bit_logic(pairs, pairs >> 7);
    assert forall|a: int| 0 <= a implies #[trigger] bit(pairs & (pairs >> 7), a) == tile_filled(
        pieces,
        a,
    ) by {
        assert(bit(pairs, a) == (bit(pieces, a) && bit(pieces >> 1, a)));
        assert(bit(pairs >> 7, a) == bit(pairs, a + 7));
        assert(bit(pairs, a + 7) == (bit(pieces, a + 7) && bit(pieces >> 1, a + 7)));
        assert(bit(pieces >> 1, a) == bit(pieces, a + 1));
        assert(bit(pieces >> 1, a + 7) == bit(pieces, a + 7 + 1));
    }
}

/// The values of the filled tiles of a position, in the order of their top-left cells.
pub fn filled_tiles(pieces_mask: u64, black_mask: u64) -> (r: Vec<u8>)
    ensures
        r@ == filled_values(pieces_mask, black_mask, 64),
{
    let mut mask = pieces_mask;
    mask = mask & (mask >> 1);
    mask = mask & (mask >> 7);
    proof {
        lemma_tops(pieces_mask);
    }
    let mut out: Vec<u8> = Vec::new();
    let ghost mut lo: int = 0;
    while mask != 0
        invariant
            0 <= lo <= 64,
            forall|a: int| #[trigger] bit(mask, a) == (tile_filled(pieces_mask, a) && a >= lo),
            out@ == filled_values(pieces_mask, black_mask, lo),
        decreases 64 - lo,
    {
        let (top_left, rest) = split_lowest(mask);
        let ghost t = mask.trailing_zeros() as int;
        proof {
            lemma_trailing_zeros(mask);
            assert(bit(mask, t));
            assert(tile_filled(pieces_mask, t));
            assert forall|a: int| lo <= a < t implies !tile_filled(pieces_mask, a) by {
                assert(!bit(mask, a));
            }
            lemma_filled_anchors_gap(pieces_mask, lo, t);
            assert(filled_values(pieces_mask, black_mask, t + 1) =~= filled_values(
                pieces_mask,
                black_mask,
                lo,
            ).push(tile_value(black_mask, t) as u8));
        }
        out.push(tile_at(&black_mask, top_left));
        mask = rest;
        proof {
            lo = t + 1;
        }
    }
    proof {
        lemma_no_bit_is_zero(mask);
        assert forall|a: int| lo <= a < 64 implies !tile_filled(pieces_mask, a) by {
            assert(!bit(mask, a));
        }
        lemma_filled_anchors_gap(pieces_mask, lo, 64);
    }
    out
}

/// The value of each listed tile is the value of its top-left cell, and a value is listed
/// exactly where a filled tile has it.
pub proof fn lemma_filled_values(pieces: u64, black: u64)
    ensures
        filled_values(pieces, black, 64).len() == filled_anchors(pieces, 64).len(),
        forall|k: int|
            0 <= k < filled_anchors(pieces, 64).len() ==> #[trigger] filled_values(
                pieces,
                black,
                64,
            )[k] == tile_value(black, filled_anchors(pieces, 64)[k]),
        forall|v: int|
            filled_set(pieces, black).contains(v) <==> exists|k: int|
                0 <= k < filled_values(pieces, black, 64).len() && #[trigger] filled_values(
                    pieces,
                    black,
                    64,
                )[k] == v,
        tiles_distinct(pieces, black) <==> filled_values(pieces, black, 64).no_duplicates(),
{
    let anchors = filled_anchors(pieces, 64);
    let values = filled_values(pieces, black, 64);
    lemma_filled_anchors(pieces, 64);
    assert forall|k: int| 0 <= k < anchors.len() implies #[trigger] values[k] == tile_value(
        black,
        anchors[k],
    ) by {
        lemma_tile_value_range(black, anchors[k]);
    }
    assert forall|v: int| filled_set(pieces, black).contains(v) implies exists|k: int|
        0 <= k < values.len() && #[trigger] values[k] == v by {
        let a = choose|a: int| tile_filled(pieces, a) && tile_value(black, a) == v;
        assert(0 <= a < 64);
        assert(anchors.contains(a));
        let k = choose|k: int| 0 <= k < anchors.len() && anchors[k] == a;
        assert(values[k] == v);
    }
    assert forall|v: int|
        (exists|k: int| 0 <= k < values.len() && #[trigger] values[k] == v) implies filled_set(
        pieces,
        black,
    ).contains(v) by {
        let k = choose|k: int| 0 <= k < values.len() && #[trigger] values[k] == v;
        assert(tile_filled(pieces, anchors[k]) && tile_value(black, anchors[k]) == v);
    }
    if tiles_distinct(pieces, black) {
        assert forall|j: int, k: int| 0 <= j < values.len() && 0 <= k < values.len() && j != k implies
            values[j] != values[k] by {
            assert(values[j] == tile_value(black, anchors[j]));
            assert(values[k] == tile_value(black, anchors[k]));
            if j < k {
                assert(anchors[j] < anchors[k]);
            } else {
                assert(anchors[k] < anchors[j]);
            }
        }
    }
    if values.no_duplicates() {
        assert forall|a: int, b: int|
            tile_filled(pieces, a) && tile_filled(pieces, b) && a != b implies tile_value(black, a)
            != tile_value(black, b) by {
            assert(0 <= a < 64 && 0 <= b < 64);
            assert(anchors.contains(a));
            assert(anchors.contains(b));
            let j = choose|j: int| 0 <= j < anchors.len() && anchors[j] == a;
            let k = choose|k: int| 0 <= k < anchors.len() && anchors[k] == b;
            assert(values[j] == tile_value(black, a));
            assert(values[k] == tile_value(black, b));
        }
    }
}

} // verus!
