use vstd::prelude::*;
use rand::Rng;
use crate::bits::{
    bit, ones, ones_below, lemma_bit_logic, lemma_bit_shift, lemma_bit_single,
    lemma_no_bit_is_zero, lemma_ones_below_set, lemma_ones_below_range, lemma_trailing_zeros,
    split_lowest,
};
use crate::color::Color;
use crate::grid::{
    AREA_MASK, BOARD_MASK, filled_set, filled_tiles, filled_values, filled_anchors, tile_filled,
    tile_value, tiles_distinct, lemma_area_mask, lemma_board_mask, lemma_filled_values,
    lemma_filled_anchors, lemma_tile_value_range,
};
use crate::mov::{move_code, on_board, Move};
use crate::player::Player;
use crate::tileset::{all_tiles, lemma_tileset_range, TileSet};

verus! {

/// The score that a list of tile values gives the owner of `owned`: one point for each
/// value of the list that is owned, one point off for each that is not.
pub open spec fn tally(values: Seq<u8>, owned: Set<int>) -> int
    decreases values.len(),
{
    if values.len() == 0 {
        0
    } else {
        tally(values.drop_last(), owned) + if owned.contains(values.last() as int) {
            1int
        } else {
            -1int
        }
    }
}

/// A position as the rules see it: which cells hold a piece, which of them a black one,
/// and the tile values of the player to move. The opponent owns the other values.
pub struct Position {
    pub pieces: u64,
    pub black: u64,
    pub owned: Set<int>,
}

impl Position {
    /// The pieces lie on the 25 cells, the black pieces are among them, and the player to
    /// move owns tile values only.
    pub open spec fn wf(self) -> bool {
        &&& forall|i: int| bit(self.pieces, i) ==> on_board(i)
        &&& forall|i: int| bit(self.black, i) ==> bit(self.pieces, i)
        &&& self.owned.subset_of(all_tiles())
    }

    /// No two filled tiles have the same value.
    pub open spec fn valid(self) -> bool {
        self.wf() && tiles_distinct(self.pieces, self.black)
    }

    /// The values of the filled tiles.
    pub open spec fn played(self) -> Set<int> {
        filled_set(self.pieces, self.black)
    }

    /// The black pieces once `m` is played.
    pub open spec fn black_with(self, m: Move) -> u64 {
        if m.color == Color::Black {
            self.black | m.mask
        } else {
            self.black
        }
    }

    /// Whether `m` fills the tile whose top-left cell is bit `a`: the tile holds the cell
    /// of `m`, and its other cells hold a piece.
    pub open spec fn completes(self, m: Move, a: int) -> bool {
        let t = m.index();
        &&& a == t - 8 || a == t - 7 || a == t - 1 || a == t
        &&& a == t || bit(self.pieces, a)
        &&& a + 1 == t || bit(self.pieces, a + 1)
        &&& a + 7 == t || bit(self.pieces, a + 7)
        &&& a + 8 == t || bit(self.pieces, a + 8)
    }

    /// The value, once `m` is played, of the tile whose top-left cell is bit `a`.
    pub open spec fn value_with(self, m: Move, a: int) -> int {
        tile_value(self.black_with(m), a)
    }

    /// The values of the tiles that `m` fills.
    pub open spec fn new_tiles(self, m: Move) -> Set<int> {
        Set::new(|v: int| exists|a: int| self.completes(m, a) && self.value_with(m, a) == v)
    }

    /// Whether the tiles that `m` fills all have different values.
    pub open spec fn move_distinct(self, m: Move) -> bool {
        forall|a: int, b: int|
            self.completes(m, a) && self.completes(m, b) && a != b ==> self.value_with(m, a)
                != self.value_with(m, b)
    }

    /// A move is legal where its cell is empty and no tile that it fills has the value of
    /// another filled tile, old or new.
    pub open spec fn legal(self, m: Move) -> bool {
        &&& m.wf()
        &&& !bit(self.pieces, m.index())
        &&& self.move_distinct(m)
        &&& self.new_tiles(m).disjoint(self.played())
    }

    /// The number of legal moves.
    pub open spec fn legal_count(self) -> nat {
        Set::new(|m: Move| self.legal(m)).len()
    }

    /// The position once `m` is played: the piece is on its cell, and the opponent is to
    /// move.
    pub open spec fn after(self, m: Move) -> Position {
        Position {
            pieces: self.pieces | m.mask,
            black: self.black_with(m),
            owned: all_tiles().difference(self.owned),
        }
    }

    /// The score of the player to move: its filled tiles less those of the opponent.
    pub open spec fn score(self) -> int {
        tally(filled_values(self.pieces, self.black, 64), self.owned)
    }

    /// Whether the game is over: all sixteen tile values are played, or no move is legal.
    pub open spec fn terminal(self) -> bool {
        self.played() == all_tiles() || forall|m: Move| !self.legal(m)
    }
}

/// A position in play: the masks of the pieces and of the black ones, the two players, the
/// values of the filled tiles, and the number of pieces.
#[derive(PartialEq, Eq, Clone, Copy, Debug, Structural)]
pub struct Board {
    pub pieces_mask: u64,
    pub black_mask: u64,
    pub current_player: Player,
    pub opponent: Player,
    pub played_tiles: TileSet,
    pub played_moves: u8,
}

impl View for Board {
    type V = Position;

    /// The position that the board shows: its masks, and the tile values of the player to move.
    open spec fn view(&self) -> Position {
        Position {
            pieces: self.pieces_mask,
            black: self.black_mask,
            owned: self.current_player.owned(),
        }
    }
}

impl Board {
    /// A board is well formed where its pieces lie on the 25 cells, its black pieces are
    /// among them, the played tiles are the values of the filled tiles, the played moves
    /// are the number of pieces, and the two players share out the sixteen tile values.
    pub open spec fn wf(self) -> bool {
        &&& self@.wf()
        &&& self.played_tiles@ == self@.played()
        &&& self.played_moves == ones(self.pieces_mask)
        &&& self.current_player.wf()
        &&& self.opponent.wf()
        &&& self.opponent.owned() == all_tiles().difference(self.current_player.owned())
    }

    /// A board is valid where it is well formed and no two of its filled tiles have the
    /// same value.
    pub open spec fn valid(self) -> bool {
        self.wf() && self@.valid()
    }

    /// Whether `self` is the board that playing `m` on `before` leads to.
    pub open spec fn follows(self, before: Board, m: Move) -> bool {
        &&& self@ == before@.after(m)
        &&& self.current_player == before.opponent
        &&& self.opponent == before.current_player
        &&& self.played_tiles@ == before.played_tiles@.union(before@.new_tiles(m))
        &&& self.played_moves == before.played_moves + 1
    }

    /// The board before the first move, with the players that own the values 0 to 7 and 8
    /// to 15.
    pub fn empty() -> (r: Board)
        ensures
            r.valid(),
            r.pieces_mask == 0,
            r.black_mask == 0,
            r.played_moves == 0,
            r.played_tiles@ == Set::<int>::empty(),
            r.current_player.owned() == Set::new(|v: int| 0 <= v < 8),
    {
        let (current_player, opponent) = Player::default_set();
        let r = Board {
            pieces_mask: 0,
            black_mask: 0,
            current_player,
            opponent,
            played_tiles: TileSet::empty(),
            played_moves: 0,
        };
        proof {
            lemma_empty_masks();
            assert(r.opponent.owned() =~= all_tiles().difference(r.current_player.owned()));
        }
        r
    }

    /// The board before the first move, with eight tile values drawn at random for each
    /// player.
    pub fn random_empty<R: Rng>(rng: &mut R) -> (r: Board)
        ensures
            r.valid(),
            r.pieces_mask == 0,
            r.black_mask == 0,
            r.played_moves == 0,
            r.played_tiles@ == Set::<int>::empty(),
            r.current_player.owned().len() == 8,
    {
        let (current_player, opponent) = Player::random_set(rng);
        let r = Board {
            pieces_mask: 0,
            black_mask: 0,
            current_player,
            opponent,
            played_tiles: TileSet::empty(),
            played_moves: 0,
        };
        proof {
            lemma_empty_masks();
        }
        r
    }

    /// The legal moves, each once, in the order of their cells, and black before white on
    /// one cell.
 #[verifier::rlimit(40)]
    pub fn possible_moves(&self) -> (r: Vec<Move>)
        requires
            self.wf(),
        ensures
            forall|m: Move| r@.contains(m) <==> self@.legal(m),
            r@.no_duplicates(),
            forall|j: int, k: int| 0 <= j < k < r@.len() ==> move_code(r@[j]) < move_code(r@[k]),
            r.len() == self@.legal_count(),
            r.len() <= 128,
    {
        let mut available_spots = !self.pieces_mask & BOARD_MASK;
        let mut out: Vec<Move> = Vec::new();
        let ghost mut lo: int = 0;
        proof {
            lemma_bit_logic(self.pieces_mask, self.pieces_mask);
            lemma_bit_logic(!self.pieces_mask, BOARD_MASK);
            lemma_board_mask();
        }
        while available_spots != 0
            invariant
                self.wf(),
                0 <= lo <= 64,
                forall|i: int| #[trigger]
                    bit(available_spots, i) == (on_board(i) && !bit(self.pieces_mask, i) && i
                        >= lo),
                forall|m: Move| out@.contains(m) <==> self@.legal(m) && m.index() < lo,
                out@.no_duplicates(),
                out.len() <= 2 * lo,
                forall|j: int, k: int|
                    0 <= j < k < out@.len() ==> move_code(out@[j]) < move_code(out@[k]),
                forall|k: int| 0 <= k < out@.len() ==> move_code(#[trigger] out@[k]) < 2 * lo,
            decreases 64 - lo,
        {
            let (mov_mask, rest) = split_lowest(available_spots);
            let ghost t = available_spots.trailing_zeros() as int;
            proof {
                lemma_trailing_zeros(available_spots);
                assert(bit(available_spots, t));
            }
            let black = Move::from_mask(mov_mask, Color::Black);
            let white = Move::from_mask(mov_mask, Color::White);
            assert(black.wf() && white.wf() && black.index() == t && white.index() == t);
            let ghost before = out@;
            if self.is_move_possible(&black) {
                out.push(black);
            }
            let ghost middle = out@;
            if self.is_move_possible(&white) {
                out.push(white);
            }
            let ghost spots = available_spots;
            available_spots = rest;
            proof {
                assert forall|m: Move| out@.contains(m) <==> self@.legal(m) && m.index() < t + 1 by {
                    if out@.contains(m) {
                        let k = choose|k: int| 0 <= k < out@.len() && out@[k] == m;
                        if k < before.len() {
                            assert(before[k] == m);
                            assert(before.contains(m));
                        }
                    }
                    if self@.legal(m) && m.index() < t + 1 {
                        if m.index() < lo {
                            assert(before.contains(m));
                            let k = choose|k: int| 0 <= k < before.len() && before[k] == m;
                            assert(out@[k] == m);
                        } else {
                            assert(m.index() == t) by {
                                assert(bit(spots, m.index()));
                            }
                            assert(m.mask == mov_mask);
                            if m.color == Color::Black {
                                assert(m == black);
                                assert(middle[before.len() as int] == m);
                                assert(out@[before.len() as int] == m);
                            } else {
                                assert(m == white);
                                assert(out@[out@.len() - 1] == m);
                            }
                        }
                    }
                }
                assert(out@.no_duplicates()) by {
                    assert forall|j: int, k: int| 0 <= j < out@.len() && 0 <= k < out@.len() && j != k implies
                        out@[j] != out@[k] by {
                        if j < before.len() {
                            assert(before[j] == out@[j]);
                            assert(before.contains(out@[j]));
                        }
                        if k < before.len() {
                            assert(before[k] == out@[k]);
                            assert(before.contains(out@[k]));
                        }
                    }
                }
                assert forall|k: int| 0 <= k < out@.len() implies move_code(#[trigger] out@[k]) < 2 * (t
                    + 1) && (k >= before.len() ==> move_code(out@[k]) >= 2 * t) by {
                    if k < before.len() {
                        assert(before[k] == out@[k]);
                    } else {
                        assert(out@[k] == black || out@[k] == white);
                    }
                }
                assert forall|j: int, k: int| 0 <= j < k < out@.len() implies move_code(out@[j])
                    < move_code(out@[k]) by {
                    if k < before.len() {
                        assert(before[j] == out@[j] && before[k] == out@[k]);
                    } else if j < before.len() {
                        assert(before[j] == out@[j]);
                        assert(move_code(before[j]) < 2 * lo);
                    } else {
                        assert(out@[j] == black && out@[k] == white);
                    }
                }
                lo = t + 1;
            }
        }
        proof {
            lemma_no_bit_is_zero(available_spots);
            assert forall|m: Move| self@.legal(m) implies m.index() < lo by {
                assert(!bit(available_spots, m.index()));
            }
            assert(out@.to_set() =~= Set::new(|m: Move| self@.legal(m)));
            out@.unique_seq_to_set();
        }
        out
    }

    /// Whether the move is legal.
    pub fn is_move_possible(&self, mov: &Move) -> (r: bool)
        requires
            self.wf(),
            mov.wf(),
        ensures
            r == self@.legal(*mov),
    {
        proof {
            self.lemma_occupied(*mov);
        }
        if mov.mask & self.pieces_mask != 0 {
            return false;
        }
        if self.already_played_or_dup_move(mov) {
            return false;
        }
        true
    }

    /// The score of the player to move.
    pub fn current_score(&self) -> (r: i8)
        requires
            self.wf(),
        ensures
            r == self@.score(),
    {
        let tiles = self.filled_tiles();
        let mut acc: i8 = 0;
        let mut k: usize = 0;
        proof {
            lemma_filled_anchors(self.pieces_mask, 64);
            assert forall|j: int| 0 <= j < tiles.len() implies tiles[j] < 16 by {
                lemma_tile_value_range(self.black_mask, filled_anchors(self.pieces_mask, 64)[j]);
            }
        }
        while k < tiles.len()
            invariant
                k <= tiles.len(),
                tiles.len() <= 64,
                forall|j: int| 0 <= j < tiles.len() ==> tiles[j] < 16,
                acc == tally(tiles@.take(k as int), self.current_player.owned()),
                -(k as int) <= acc <= k,
            decreases tiles.len() - k,
        {
            proof {
                assert(tiles@.take(k + 1).drop_last() =~= tiles@.take(k as int));
            }
            if self.current_player.has_tile(tiles[k]) {
                acc = acc + 1;
            } else {
                acc = acc - 1;
            }
            k += 1;
        }
        proof {
            assert(tiles@.take(tiles.len() as int) =~= tiles@);
        }
        acc
    }

    /// Whether the game is over.
    pub fn is_terminal(&self) -> (r: bool)
        requires
            self.wf(),
        ensures
            r == self@.terminal(),
    {
        if self.played_tiles.is_full() {
            return true;
        }
        let moves = self.possible_moves();
        proof {
            if moves.len() > 0 {
                assert(moves@.contains(moves@[0]));
                assert(self@.legal(moves@[0]));
            } else {
                assert forall|m: Move| !self@.legal(m) by {
                    assert(!moves@.contains(m));
                }
            }
        }
        moves.len() == 0
    }

    /// Whether the game is over and the player to move has won it.
    pub fn is_winning(&self) -> (r: bool)
        requires
            self.wf(),
        ensures
            r == (self@.terminal() && self@.score() > 0),
    {
        self.is_terminal() && self.current_score() > 0
    }

    /// The values of the filled tiles, in the order of their top-left cells.
    pub fn filled_tiles(&self) -> (r: Vec<u8>)
        ensures
            r@ == filled_values(self.pieces_mask, self.black_mask, 64),
    {
        filled_tiles(self.pieces_mask, self.black_mask)
    }

    /// The position after the move, or `None` where the move is not legal.
    pub fn next(&self, mov: &Move) -> (r: Option<Board>)
        requires
            self.wf(),
            mov.wf(),
        ensures
            r is Some <==> self@.legal(*mov),
            r is Some ==> r->0.follows(*self, *mov) && r->0.wf(),
            r is Some && self.valid() ==> r->0.valid(),
    {
        let pos = mov.mask;
        proof {
            self.lemma_occupied(*mov);
        }
        if pos & self.pieces_mask != 0 {
            return None;
        }
        let tiles_from_move = match self.tiles_from(mov) {
            Some(tiles) => tiles,
            None => { return None; },
        };
        let played_tiles = match self.played_tiles.try_union(&tiles_from_move) {
            Some(tiles) => tiles,
            None => { return None; },
        };
        proof {
            lemma_ones_below_range(self.pieces_mask | pos, 64);
            self.lemma_pieces_with(*mov);
        }
        let r = Board {
            pieces_mask: self.pieces_mask | pos,
            black_mask: if mov.color == Color::Black {
                self.black_mask | pos
            } else {
                self.black_mask
            },
            current_player: self.opponent,
            opponent: self.current_player,
            played_tiles,
            played_moves: self.played_moves + 1,
        };
        proof {
            self.lemma_follows_wf(*mov, r);
        }
        Some(r)
    }

    /// Whether the move fills two tiles with one value, or a tile with a value that is
    /// played already.
    fn already_played_or_dup_move(&self, mov: &Move) -> (r: bool)
        requires
            self.wf(),
            mov.wf(),
        ensures
            r == !(self@.move_distinct(*mov) && self@.new_tiles(*mov).disjoint(self@.played())),
    {
        let tiles_from_move = match self.tiles_from(mov) {
            Some(tiles) => tiles,
            None => { return true; },
        };
        match self.played_tiles.try_union(&tiles_from_move) {
            Some(_) => false,
            None => true,
        }
    }

    /// The values of the tiles that the move fills, or `None` where two of them have the
    /// same value. Whether the cell of the move is empty is not looked at.
 #[verifier::rlimit(40)]
    pub fn tiles_from(&self, mov: &Move) -> (r: Option<TileSet>)
        requires
            mov.wf(),
        ensures
            r is Some <==> self@.move_distinct(*mov),
            r is Some ==> r->0@ == self@.new_tiles(*mov),
    {
        let mut tiles = TileSet::empty();
        let impacted_area = AREA_MASK << mov.shift();
        let new_mask = (self.pieces_mask | mov.mask) & impacted_area;
        let new_black_mask = if mov.color == Color::Black {
            self.black_mask | mov.mask
        } else {
            self.black_mask
        };
        let values = filled_tiles(new_mask, new_black_mask);
        proof {
            self.lemma_impacted(*mov);
            lemma_filled_values(new_mask, new_black_mask);
            lemma_filled_anchors(new_mask, 64);
            assert forall|j: int| 0 <= j < values.len() implies values[j] < 16 by {
                lemma_tile_value_range(new_black_mask, filled_anchors(new_mask, 64)[j]);
            }
            assert(new_black_mask == self@.black_with(*mov));
            assert forall|a: int| #[trigger] tile_filled(new_mask, a) == self@.completes(*mov, a) by {
                assert(new_mask == (self.pieces_mask | mov.mask) & (AREA_MASK << ((mov.index() - 8) as u32)));
            }
            assert forall|v: int| filled_set(new_mask, new_black_mask).contains(v) implies
                self@.new_tiles(*mov).contains(v) by {
                let a = choose|a: int| tile_filled(new_mask, a) && tile_value(new_black_mask, a) == v;
                assert(self@.completes(*mov, a) && self@.value_with(*mov, a) == v);
            }
            assert forall|v: int| self@.new_tiles(*mov).contains(v) implies
                filled_set(new_mask, new_black_mask).contains(v) by {
                let a = choose|a: int| self@.completes(*mov, a) && self@.value_with(*mov, a) == v;
                assert(tile_filled(new_mask, a) && tile_value(new_black_mask, a) == v);
            }
            assert(filled_set(new_mask, new_black_mask) =~= self@.new_tiles(*mov));
            assert(tiles_distinct(new_mask, new_black_mask) == self@.move_distinct(*mov)) by {
                if tiles_distinct(new_mask, new_black_mask) {
                    assert forall|a: int, b: int| self@.completes(*mov, a) && self@.completes(*mov, b) && a != b implies
                        self@.value_with(*mov, a) != self@.value_with(*mov, b) by {
                        assert(tile_filled(new_mask, a) && tile_filled(new_mask, b));
                    }
                }
                if self@.move_distinct(*mov) {
                    assert forall|a: int, b: int| tile_filled(new_mask, a) && tile_filled(new_mask, b) && a != b implies
                        tile_value(new_black_mask, a) != tile_value(new_black_mask, b) by {
                        assert(self@.completes(*mov, a) && self@.completes(*mov, b));
                        assert(self@.value_with(*mov, a) != self@.value_with(*mov, b));
                    }
                }
            }
        }
        let mut k: usize = 0;
        while k < values.len()
            invariant
                k <= values.len(),
                forall|j: int| 0 <= j < values.len() ==> values[j] < 16,
                values@.take(k as int).no_duplicates(),
                forall|v: int| tiles@.contains(v) <==> exists|j: int| 0 <= j < k && values[j] == v,
                values@.no_duplicates() == self@.move_distinct(*mov),
                filled_set(new_mask, new_black_mask) == self@.new_tiles(*mov),
                forall|v: int|
                    filled_set(new_mask, new_black_mask).contains(v) <==> exists|j: int|
                        0 <= j < values@.len() && #[trigger] values@[j] == v,
            decreases values.len() - k,
        {
            let ghost before = tiles@;
            match tiles.try_add(values[k]) {
                Some(more) => {
                    tiles = more;
                },
                None => {
                    proof {
                        let j = choose|j: int| 0 <= j < k && values[j] == values[k as int];
                        assert(values@[j] == values@[k as int] && j != k);
                    }
                    return None;
                },
            }
            k += 1;
            proof {
                assert forall|v: int| tiles@.contains(v) <==> exists|j: int| 0 <= j < k && values[j] == v by {
                    if tiles@.contains(v) {
                        if before.contains(v) {
                            let j = choose|j: int| 0 <= j < k - 1 && values[j] == v;
                            assert(0 <= j < k && values[j] == v);
                        } else {
                            assert(values[k - 1] == v);
                        }
                    }
                    if exists|j: int| 0 <= j < k && values[j] == v {
                        let j = choose|j: int| 0 <= j < k && values[j] == v;
                        if j < k - 1 {
                            assert(before.contains(v));
                        }
                    }
                }
                assert forall|i: int, j: int| 0 <= i < k && 0 <= j < k && i != j implies
                    values@.take(k as int)[i] != values@.take(k as int)[j] by {
                    if i < k - 1 && j < k - 1 {
                        assert(values@.take(k - 1)[i] != values@.take(k - 1)[j]);
                    } else if i == k - 1 {
                        assert(!before.contains(values[i] as int));
                    } else {
                        assert(!before.contains(values[j] as int));
                    }
                }
            }
        }
        proof {
            assert(values@.take(values.len() as int) =~= values@);
            assert forall|v: int| tiles@.contains(v) == filled_set(new_mask, new_black_mask).contains(v) by {
                if tiles@.contains(v) {
                    let j = choose|j: int| 0 <= j < k && values[j] == v;
                    assert(values@[j] == v);
                }
                if filled_set(new_mask, new_black_mask).contains(v) {
                    let j = choose|j: int| 0 <= j < values@.len() && #[trigger] values@[j] == v;
                    assert(values[j] == v);
                }
            }
            assert(tiles@ =~= filled_set(new_mask, new_black_mask));
        }
        Some(tiles)
    }

    /// The mask of a well-formed move meets the pieces exactly where its cell is taken.
    pub proof fn lemma_occupied(self, m: Move)
        requires
            m.wf(),
        ensures
            (m.mask & self.pieces_mask != 0) == bit(self.pieces_mask, m.index()),
    {
        lemma_bit_single(m.index() as u64);
        lemma_bit_logic(m.mask, self.pieces_mask);
        lemma_no_bit_is_zero(m.mask & self.pieces_mask);
        if bit(self.pieces_mask, m.index()) {
            assert(bit(m.mask & self.pieces_mask, m.index()));
        }
    }

    /// The bits of the masks once `m` is played.
    pub proof fn lemma_pieces_with(self, m: Move)
        requires
            m.wf(),
        ensures
            forall|i: int| #[trigger]
                bit(self.pieces_mask | m.mask, i) == (bit(self.pieces_mask, i) || i == m.index()),
            forall|i: int| #[trigger]
                bit(self@.black_with(m), i) == (bit(self.black_mask, i) || (i == m.index()
                    && m.color == Color::Black)),
            !bit(self.pieces_mask, m.index()) ==> ones(self.pieces_mask | m.mask) == ones(
                self.pieces_mask,
            ) + 1,
            ones(self.pieces_mask | m.mask) <= 64,
    {
        self@.lemma_with(m);
    }

    /// The filled tiles of the cells around the move, once it is played, are the tiles
    /// that the move fills.
    proof fn lemma_impacted(self, m: Move)
        requires
            m.wf(),
        ensures
            forall|a: int| #[trigger]
                tile_filled(
                    (self.pieces_mask | m.mask) & (AREA_MASK << ((m.index() - 8) as u32)),
                    a,
                ) == self@.completes(m, a),
    {
        let t = m.index();
        let area = AREA_MASK << ((t - 8) as u32);
        let with = self.pieces_mask | m.mask;
        assert(AREA_MASK << ((t - 8) as u32) == AREA_MASK << ((t - 8) as u64)) by {
            let s32 = (t - 8) as u32;
            let s64 = (t - 8) as u64;
            assert(s32 < 64 && s32 as u64 == s64 ==> AREA_MASK << s32 == AREA_MASK << s64) by (bit_vector);
        }
        lemma_area_mask();
        lemma_bit_shift(AREA_MASK, (t - 8) as u64);
        lemma_bit_logic(with, area);
        self.lemma_pieces_with(m);
        assert forall|i: int| #[trigger] bit(with & area, i) == ((bit(self.pieces_mask, i) || i == t) && bit(AREA_MASK, i - (t - 8)) && i < 64) by {
            assert(bit(with & area, i) == (bit(with, i) && bit(area, i)));
            if i < 64 {
                assert(bit(area, i) == bit(AREA_MASK, i - (t - 8)));
            }
        }
        assert forall|a: int| #[trigger] tile_filled(with & area, a) == self@.completes(m, a) by {
            assert(bit(with & area, a)
                == ((bit(self.pieces_mask, a) || a == t) && bit(AREA_MASK, a - (t - 8)) && a < 64));
            assert(bit(with & area, a + 1)
                == ((bit(self.pieces_mask, a + 1) || a + 1 == t) && bit(AREA_MASK, a + 1 - (t - 8)) && a + 1 < 64));
            assert(bit(with & area, a + 7)
                == ((bit(self.pieces_mask, a + 7) || a + 7 == t) && bit(AREA_MASK, a + 7 - (t - 8)) && a + 7 < 64));
            assert(bit(with & area, a + 8)
                == ((bit(self.pieces_mask, a + 8) || a + 8 == t) && bit(AREA_MASK, a + 8 - (t - 8)) && a + 8 < 64));
        }
    }

    /// The board that a legal move leads to is well formed, and valid where the board
    /// before was.
    pub proof fn lemma_follows_wf(self, m: Move, after: Board)
        requires
            self.wf(),
            self@.legal(m),
            after.follows(self, m),
        ensures
            after.wf(),
            self.valid() ==> after.valid(),
    {
        self@.lemma_after(m);
        lemma_tileset_range(self.current_player.tiles);
        lemma_tileset_range(self.opponent.tiles);
        assert(after.opponent.owned() =~= all_tiles().difference(after.current_player.owned()));
    }
}

impl Position {
    /// The bits of the masks once `m` is played.
    pub proof fn lemma_with(self, m: Move)
        requires
            m.wf(),
        ensures
            forall|i: int| #[trigger]
                bit(self.pieces | m.mask, i) == (bit(self.pieces, i) || i == m.index()),
            forall|i: int| #[trigger]
                bit(self.black_with(m), i) == (bit(self.black, i) || (i == m.index() && m.color
                    == Color::Black)),
            !bit(self.pieces, m.index()) ==> ones(self.pieces | m.mask) == ones(self.pieces) + 1,
            ones(self.pieces | m.mask) <= 64,
    {
        lemma_bit_single(m.index() as u64);
        lemma_bit_logic(self.pieces, m.mask);
        lemma_bit_logic(self.black, m.mask);
        lemma_ones_below_range(self.pieces | m.mask, 64);
        if !bit(self.pieces, m.index()) {
            lemma_ones_below_set(self.pieces, self.pieces | m.mask, m.index(), 64);
        }
    }

    /// What a legal move does to a well-formed position: one more piece, the filled tiles
    /// of before and those that the move fills, which are new; and no two filled tiles with
    /// one value, where there were none before.
 #[verifier::rlimit(40)]
    pub proof fn lemma_after(self, m: Move)
        requires
            self.wf(),
            self.legal(m),
        ensures
            self.after(m).wf(),
            ones(self.after(m).pieces) == ones(self.pieces) + 1,
            self.after(m).played() == self.played().union(self.new_tiles(m)),
            self.new_tiles(m).disjoint(self.played()),
            self.valid() ==> self.after(m).valid(),
    {
        let t = m.index();
        let p = self.pieces;
        let p2 = self.after(m).pieces;
        let b = self.black;
        let b2 = self.after(m).black;
        self.lemma_with(m);
        assert forall|a: int| #[trigger] tile_filled(p2, a) == (tile_filled(p, a) || self.completes(m, a)) by {
            assert(bit(p2, a) == (bit(p, a) || a == t));
            assert(bit(p2, a + 1) == (bit(p, a + 1) || a + 1 == t));
            assert(bit(p2, a + 7) == (bit(p, a + 7) || a + 7 == t));
            assert(bit(p2, a + 8) == (bit(p, a + 8) || a + 8 == t));
        }
        assert forall|a: int| tile_filled(p, a) implies #[trigger] tile_value(b2, a) == tile_value(b, a) by {
            assert(bit(b2, a) == (bit(b, a) || (a == t && m.color == Color::Black)));
            assert(bit(b2, a + 1) == (bit(b, a + 1) || (a + 1 == t && m.color == Color::Black)));
            assert(bit(b2, a + 7) == (bit(b, a + 7) || (a + 7 == t && m.color == Color::Black)));
            assert(bit(b2, a + 8) == (bit(b, a + 8) || (a + 8 == t && m.color == Color::Black)));
        }
        assert forall|a: int| self.completes(m, a) implies !tile_filled(p, a) by {}
        assert(filled_set(p2, b2) =~= self.played().union(self.new_tiles(m))) by {
            assert forall|v: int| filled_set(p2, b2).contains(v) implies
                self.played().union(self.new_tiles(m)).contains(v) by {
                let a = choose|a: int| tile_filled(p2, a) && tile_value(b2, a) == v;
                if tile_filled(p, a) {
                    assert(tile_value(b, a) == v);
                    assert(filled_set(p, b).contains(v));
                } else {
                    assert(self.completes(m, a) && self.value_with(m, a) == v);
                    assert(self.new_tiles(m).contains(v));
                }
            }
            assert forall|v: int| self.played().union(self.new_tiles(m)).contains(v) implies
                filled_set(p2, b2).contains(v) by {
                if self.played().contains(v) {
                    let a = choose|a: int| tile_filled(p, a) && tile_value(b, a) == v;
                    assert(tile_filled(p2, a) && tile_value(b2, a) == v);
                } else {
                    let a = choose|a: int| self.completes(m, a) && self.value_with(m, a) == v;
                    assert(tile_filled(p2, a) && tile_value(b2, a) == v);
                }
            }
        }
        if self.valid() {
            assert forall|a1: int, a2: int| tile_filled(p2, a1) && tile_filled(p2, a2) && a1 != a2 implies
                tile_value(b2, a1) != tile_value(b2, a2) by {
                if tile_filled(p, a1) && tile_filled(p, a2) {
                    assert(tile_value(b2, a1) == tile_value(b, a1));
                    assert(tile_value(b2, a2) == tile_value(b, a2));
                } else if tile_filled(p, a1) {
                    assert(self.completes(m, a2));
                    assert(self.new_tiles(m).contains(self.value_with(m, a2)));
                    assert(tile_value(b2, a1) == tile_value(b, a1));
                    assert(filled_set(p, b).contains(tile_value(b, a1)));
                } else if tile_filled(p, a2) {
                    assert(self.completes(m, a1));
                    assert(self.new_tiles(m).contains(self.value_with(m, a1)));
                    assert(tile_value(b2, a2) == tile_value(b, a2));
                    assert(filled_set(p, b).contains(tile_value(b, a2)));
                } else {
                    assert(self.completes(m, a1) && self.completes(m, a2));
                }
            }
        }
    }
}

/// The score of a position is not beyond the number of its filled tiles.
pub proof fn lemma_tally_range(values: Seq<u8>, owned: Set<int>)
    ensures
        -values.len() <= tally(values, owned) <= values.len(),
    decreases values.len(),
{
    if values.len() > 0 {
        lemma_tally_range(values.drop_last(), owned);
    }
}

/// No score is beyond 64.
pub proof fn lemma_score_range(pos: Position)
    ensures
        -64 <= pos.score() <= 64,
{
    lemma_filled_anchors(pos.pieces, 64);
    lemma_tally_range(filled_values(pos.pieces, pos.black, 64), pos.owned);
}

/// The empty position has no piece, no filled tile and no set bit.
pub proof fn lemma_empty_masks()
    ensures
        forall|i: int| !bit(0u64, i),
        ones(0u64) == 0,
        filled_set(0u64, 0u64) == Set::<int>::empty(),
        tiles_distinct(0u64, 0u64),
{
    lemma_no_bit_is_zero(0u64);
    lemma_zero_ones(64);
    assert(filled_set(0u64, 0u64) =~= Set::<int>::empty());
}

/// The empty word has no set bit below any index.
proof fn lemma_zero_ones(n: int)
    ensures
        ones_below(0u64, n) == 0,
    decreases n,
{
    lemma_no_bit_is_zero(0u64);
    if n > 0 {
        lemma_zero_ones(n - 1);
    }
}

} // verus!
