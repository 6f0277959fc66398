use vstd::prelude::*;
use crate::bits::{bit, lemma_bit_logic, lemma_no_bit_is_zero};
use crate::board::{Board, Position};
use crate::grid::{lemma_board_mask, BOARD_MASK};
use crate::transposition_table::tag_of;

verus! {

/// The 25 cells of a mask, packed into 25 bits: the five cells of each row side by side,
/// the top row lowest.
pub open spec fn pack25(m: u64) -> u64 {
    ((m >> 8) & 0x1F) | (((m >> 15) & 0x1F) << 5) | (((m >> 22) & 0x1F) << 10) | (((m >> 29)
        & 0x1F) << 15) | (((m >> 36) & 0x1F) << 20)
}

/// The key of a position: its pieces in the low 25 bits, its black pieces in the next 25.
pub open spec fn key_of(pieces: u64, black: u64) -> u64 {
    pack25(pieces) | (pack25(black) << 25)
}

/// On masks that lie on the board, the key has 50 bits and gives the masks back.
proof fn bv_key_of(p1: u64, b1: u64, p2: u64, b2: u64)
    by (bit_vector)
    requires
        p1 & !BOARD_MASK == 0,
        b1 & !BOARD_MASK == 0,
        p2 & !BOARD_MASK == 0,
        b2 & !BOARD_MASK == 0,
    ensures
        key_of(p1, b1) < 0x4_0000_0000_0000,
        key_of(p1, b1) & 0x00FF_FFFF_FFFF_FFFF == key_of(p1, b1),
        key_of(p1, b1) == key_of(p2, b2) ==> p1 == p2 && b1 == b2,
        key_of(p1, b1) == 0 ==> p1 == 0,
{
}

/// A mask whose bits are cells of the board has no bit outside `BOARD_MASK`.
pub proof fn lemma_within_board(m: u64)
    requires
        forall|i: int| bit(m, i) ==> crate::mov::on_board(i),
    ensures
        m & !BOARD_MASK == 0,
{
    lemma_board_mask();
    lemma_bit_logic(BOARD_MASK, BOARD_MASK);
    lemma_bit_logic(m, !BOARD_MASK);
    lemma_no_bit_is_zero(m & !BOARD_MASK);
}

/// Two well-formed positions with one key have the same pieces of the same colours. A key
/// has 50 bits, so it is its own tag, and only the empty position has the key 0.
pub proof fn lemma_key_of(a: Position, b: Position)
    requires
        a.wf(),
        b.wf(),
    ensures
        key_of(a.pieces, a.black) < 0x4_0000_0000_0000,
        tag_of(key_of(a.pieces, a.black)) == key_of(a.pieces, a.black),
        key_of(a.pieces, a.black) == key_of(b.pieces, b.black) ==> a.pieces == b.pieces && a.black
            == b.black,
        key_of(a.pieces, a.black) == 0 ==> a.pieces == 0,
{
    lemma_within_board(a.pieces);
    lemma_within_board(a.black);
    lemma_within_board(b.pieces);
    lemma_within_board(b.black);
    bv_key_of(a.pieces, a.black, b.pieces, b.black);
}

impl Board {
    /// The key of the position, for a table of positions.
    pub fn key(&self) -> (r: u64)
        ensures
            r == key_of(self.pieces_mask, self.black_mask),
    {
        let p = self.pieces_mask;
        let b = self.black_mask;
        let pieces = ((p >> 8) & 0x1F) | (((p >> 15) & 0x1F) << 5) | (((p >> 22) & 0x1F) << 10) | (((p
            >> 29) & 0x1F) << 15) | (((p >> 36) & 0x1F) << 20);
        let black = ((b >> 8) & 0x1F) | (((b >> 15) & 0x1F) << 5) | (((b >> 22) & 0x1F) << 10) | (((b
            >> 29) & 0x1F) << 15) | (((b >> 36) & 0x1F) << 20);
        pieces | (black << 25)
    }
}

} // verus!
