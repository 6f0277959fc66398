use vstd::prelude::*;
use vstd::string::StringExecFns;
use crate::bits::{below, bit, lemma_below, lemma_bit_ext, lemma_bit_logic, lemma_no_bit_is_zero};
use crate::board::{Board, Position};
use crate::grid::{
    filled_anchors, filled_tiles, lemma_filled_anchors, lemma_filled_values,
    lemma_tile_value_range,
};
use crate::mov::{cell_index, cell_mask, lemma_cell_mask, on_board, Move};
use crate::player::{hex_char, hex_text, Player};
use crate::tileset::{elements_below, lemma_tileset_ext, lemma_tileset_range, TileSet};

verus! {

/// Why a text is not a position.
#[derive(PartialEq, Eq, Clone, Copy, Debug, Structural)]
pub enum FenError {
    NotEnoughRows,
    TooMuchRows,
    TooMuchCols,
    InvalidCharacter,
    IncompleteFen,
    TooMuchTiles,
    NotEnoughTiles,
    DuplicateTile,
}

/// The number of empty cells that a digit stands for.
pub open spec fn run_of_char(c: char) -> Option<int> {
    if c == '1' {
        Some(1)
    } else if c == '2' {
        Some(2)
    } else if c == '3' {
        Some(3)
    } else if c == '4' {
        Some(4)
    } else if c == '5' {
        Some(5)
    } else {
        None
    }
}

/// The tile value that a hexadecimal digit stands for, in either case.
pub open spec fn hex_value(c: char) -> Option<int> {
    if c == '0' { Some(0) } else if c == '1' { Some(1) } else if c == '2' { Some(2) }
    else if c == '3' { Some(3) } else if c == '4' { Some(4) } else if c == '5' { Some(5) }
    else if c == '6' { Some(6) } else if c == '7' { Some(7) } else if c == '8' { Some(8) }
    else if c == '9' { Some(9) } else if c == 'a' || c == 'A' { Some(10) }
    else if c == 'b' || c == 'B' { Some(11) } else if c == 'c' || c == 'C' { Some(12) }
    else if c == 'd' || c == 'D' { Some(13) } else if c == 'e' || c == 'E' { Some(14) }
    else if c == 'f' || c == 'F' { Some(15) } else { None }
}

/// Reads the rows of a position from the start of `s`, with the black and white pieces
/// read so far, at column `x` of row `y`. A digit skips that many cells, `b` and `w` put a
/// piece on the next cell, `/` ends a row and a space ends the last one. The result holds the
/// black pieces, the white pieces, and what follows the space.
pub open spec fn parse_rows(s: Seq<char>, x: int, y: int, black: u64, white: u64) -> Result<
    (u64, u64, Seq<char>),
    FenError,
>
    decreases s.len(),
{
    if s.len() == 0 {
        Ok((black, white, s))
    } else {
        let c = s[0];
        let rest = s.drop_first();
        if c == ' ' {
            if y < 4 {
                Err(FenError::NotEnoughRows)
            } else {
                Ok((black, white, rest))
            }
        } else if c == '/' {
            if y >= 4 {
                Err(FenError::TooMuchRows)
            } else if x > 5 {
                Err(FenError::TooMuchCols)
            } else {
                parse_rows(rest, 0, y + 1, black, white)
            }
        } else if run_of_char(c) is Some {
            parse_rows(rest, x + run_of_char(c)->0, y, black, white)
        } else if c == 'b' {
            if x >= 5 {
                Err(FenError::TooMuchCols)
            } else {
                parse_rows(rest, x + 1, y, black | cell_mask(x, y), white)
            }
        } else if c == 'w' {
            if x >= 5 {
                Err(FenError::TooMuchCols)
            } else {
                parse_rows(rest, x + 1, y, black, white | cell_mask(x, y))
            }
        } else {
            Err(FenError::InvalidCharacter)
        }
    }
}

/// Reads the tile values of the player to move from `s`, with `count` values read so far:
/// eight hexadecimal digits, no value twice.
pub open spec fn parse_tiles(s: Seq<char>, count: int, tiles: Set<int>) -> Result<
    Set<int>,
    FenError,
>
    decreases s.len(),
{
    if s.len() == 0 {
        if count < 8 {
            Err(FenError::NotEnoughTiles)
        } else {
            Ok(tiles)
        }
    } else {
        match hex_value(s[0]) {
            None => Err(FenError::InvalidCharacter),
            Some(d) => if tiles.contains(d) {
                Err(FenError::DuplicateTile)
            } else if count > 7 {
                Err(FenError::TooMuchTiles)
            } else {
                parse_tiles(s.drop_first(), count + 1, tiles.insert(d))
            },
        }
    }
}

/// What a text says of a position, or why it is not one: five rows, a space, and the
/// eight tile values of the player to move.
pub open spec fn parse_fen(s: Seq<char>) -> Result<Position, FenError> {
    match parse_rows(s, 0, 0, 0, 0) {
        Err(e) => Err(e),
        Ok((black, white, rest)) => if rest.len() == 0 {
            Err(FenError::IncompleteFen)
        } else {
            match parse_tiles(rest, 0, Set::empty()) {
                Err(e) => Err(e),
                Ok(tiles) => Ok(Position { pieces: black | white, black, owned: tiles }),
            }
        },
    }
}

/// The digit of a run of one to five empty cells.
pub open spec fn run_char(run: int) -> char {
    if run == 1 {
        '1'
    } else if run == 2 {
        '2'
    } else if run == 3 {
        '3'
    } else if run == 4 {
        '4'
    } else {
        '5'
    }
}

/// The text of row `y` from column `x` on, after a run of `run` empty cells: a digit for
/// a run that a piece ends, a letter for each piece, nothing for the empty cells that end
/// the row.
pub open spec fn row_text(pieces: u64, black: u64, y: int, x: int, run: int) -> Seq<char>
    decreases 5 - x,
{
    if x >= 5 {
        Seq::empty()
    } else if !bit(pieces, cell_index(x, y)) {
        row_text(pieces, black, y, x + 1, run + 1)
    } else {
        (if run > 0 {
            seq![run_char(run)]
        } else {
            Seq::empty()
        }) + seq![if bit(black, cell_index(x, y)) { 'b' } else { 'w' }] + row_text(
            pieces,
            black,
            y,
            x + 1,
            0,
        )
    }
}

/// What follows row `y` in the text of the rows: a `/` and the rows below, if there are any.
pub open spec fn rows_after(pieces: u64, black: u64, y: int) -> Seq<char>
    decreases 5 - y, 0int,
{
    if y >= 4 {
        Seq::empty()
    } else {
        seq!['/'] + rows_text(pieces, black, y + 1)
    }
}

/// The text of the rows from row `y` down, top row first.
pub open spec fn rows_text(pieces: u64, black: u64, y: int) -> Seq<char>
    decreases 5 - y, 1int,
{
    if y >= 5 {
        Seq::empty()
    } else {
        row_text(pieces, black, y, 0, 0) + rows_after(pieces, black, y)
    }
}

/// The text of a position: its rows, a space, and the tile values of the player to move
/// in ascending order.
pub open spec fn position_text(pos: Position) -> Seq<char> {
    rows_text(pos.pieces, pos.black, 0) + seq![' '] + hex_text(elements_below(pos.owned, 16))
}

/// The text of the position of a board.
pub open spec fn fen_text(board: Board) -> Seq<char> {
    position_text(board@)
}

impl FenError {
    /// The error in words.
    pub fn message(&self) -> (r: &'static str)
        ensures
            r@ == match self {
                FenError::NotEnoughRows => "Not enough rows"@,
                FenError::TooMuchRows => "Too much rows"@,
                FenError::TooMuchCols => "Too much cols"@,
                FenError::InvalidCharacter => "invalid character"@,
                FenError::IncompleteFen => "Incomplete FEN"@,
                FenError::TooMuchTiles => "Too much tiles"@,
                FenError::NotEnoughTiles => "Not enough tiles"@,
                FenError::DuplicateTile => "Duplicate tile"@,
            },
    {
        match self {
            FenError::NotEnoughRows => "Not enough rows",
            FenError::TooMuchRows => "Too much rows",
            FenError::TooMuchCols => "Too much cols",
            FenError::InvalidCharacter => "invalid character",
            FenError::IncompleteFen => "Incomplete FEN",
            FenError::TooMuchTiles => "Too much tiles",
            FenError::NotEnoughTiles => "Not enough tiles",
            FenError::DuplicateTile => "Duplicate tile",
        }
    }
}

/// The tile value of a hexadecimal digit, in either case.
pub fn hex_digit(c: char) -> (r: Option<u8>)
    ensures
        r is Some == hex_value(c) is Some,
        r is Some ==> r->0 == hex_value(c)->0 && r->0 < 16,
{
    if c == '0' { Some(0) } else if c == '1' { Some(1) } else if c == '2' { Some(2) }
    else if c == '3' { Some(3) } else if c == '4' { Some(4) } else if c == '5' { Some(5) }
    else if c == '6' { Some(6) } else if c == '7' { Some(7) } else if c == '8' { Some(8) }
    else if c == '9' { Some(9) } else if c == 'a' || c == 'A' { Some(10) }
    else if c == 'b' || c == 'B' { Some(11) } else if c == 'c' || c == 'C' { Some(12) }
    else if c == 'd' || c == 'D' { Some(13) } else if c == 'e' || c == 'E' { Some(14) }
    else if c == 'f' || c == 'F' { Some(15) } else { None }
}

impl Board {
    /// Reads a position from its text: five rows from the top, of `b`, `w` and digits for
    /// runs of empty cells, with `/` between them; a space; and the eight tile values of the
    /// player to move, as hexadecimal digits.
 #[verifier::rlimit(40)]
    pub fn from_fen(fen: &str) -> (r: Result<Board, FenError>)
        ensures
            match parse_fen(fen@) {
                Ok(position) => r is Ok && r->Ok_0.wf() && r->Ok_0@ == position
                    && position.owned.len() == 8,
                Err(e) => r == Err::<Board, FenError>(e),
            },
    {
        let n = fen.unicode_len();
        let mut black_mask: u64 = 0;
        let mut white_mask: u64 = 0;
        let mut x: u8 = 0;
        let mut y: u8 = 0;
        let mut i: usize = 0;
        let ghost mut xs: int = 0;
        let mut in_rows = true;
        proof {
            assert(fen@.skip(0) =~= fen@);
            lemma_no_bit_is_zero(0);
        }
        while in_rows && i < n
            invariant
                n == fen@.len(),
                i <= n,
                y <= 4,
                x <= 6,
                x == if xs > 6 { 6 } else { xs },
                0 <= xs,
                forall|k: int| bit(black_mask, k) || bit(white_mask, k) ==> on_board(k),
                in_rows ==> parse_rows(fen@.skip(i as int), xs, y as int, black_mask, white_mask)
                    == parse_rows(fen@, 0, 0, 0, 0),
                !in_rows ==> parse_rows(fen@, 0, 0, 0, 0) == Ok::<
                    (u64, u64, Seq<char>),
                    FenError,
                >((black_mask, white_mask, fen@.skip(i as int))),
            decreases n - i,
        {
            let chr = fen.get_char(i);
            proof {
                assert(fen@.skip(i as int)[0] == chr);
                assert(fen@.skip(i as int).drop_first() =~= fen@.skip(i + 1));
            }
            if chr == ' ' {
                if y < 4 {
                    return Err(FenError::NotEnoughRows);
                }
                in_rows = false;
            } else if chr == '/' {
                if y == 4 {
                    return Err(FenError::TooMuchRows);
                }
                if x > 5 {
                    return Err(FenError::TooMuchCols);
                }
                y += 1;
                x = 0;
                proof {
                    xs = 0;
                }
            } else if chr == '1' || chr == '2' || chr == '3' || chr == '4' || chr == '5' {
                let run: u8 = if chr == '1' {
                    1
                } else if chr == '2' {
                    2
                } else if chr == '3' {
                    3
                } else if chr == '4' {
                    4
                } else {
                    5
                };
                x = if x + run > 6 {
                    6
                } else {
                    x + run
                };
                proof {
                    xs = xs + run;
                }
            } else if chr == 'b' {
                if x >= 5 {
                    return Err(FenError::TooMuchCols);
                }
                proof {
                    lemma_cell_mask(x as int, y as int);
                    lemma_bit_logic(black_mask, cell_mask(x as int, y as int));
                }
                black_mask |= Move::mask_at(x, y);
                x += 1;
                proof {
                    xs = xs + 1;
                }
            } else if chr == 'w' {
                if x >= 5 {
                    return Err(FenError::TooMuchCols);
                }
                proof {
                    lemma_cell_mask(x as int, y as int);
                    lemma_bit_logic(white_mask, cell_mask(x as int, y as int));
                }
                white_mask |= Move::mask_at(x, y);
                x += 1;
                proof {
                    xs = xs + 1;
                }
            } else {
                return Err(FenError::InvalidCharacter);
            }
            i += 1;
        }
        if i >= n {
            return Err(FenError::IncompleteFen);
        }
        let ghost rest = fen@.skip(i as int);
        let start = i;
        let mut tiles = TileSet::empty();
        let mut count: usize = 0;
        proof {
            assert(rest.skip(0) =~= rest);
            lemma_tileset_range(tiles);
        }
        while i < n
            invariant
                n == fen@.len(),
                start <= i <= n,
                rest == fen@.skip(start as int),
                rest.len() > 0,
                parse_rows(fen@, 0, 0, 0, 0) == Ok::<(u64, u64, Seq<char>), FenError>(
                    (black_mask, white_mask, rest),
                ),
                count <= 8,
                tiles@.finite(),
                tiles@.len() == count,
                parse_tiles(rest.skip(i - start), count as int, tiles@) == parse_tiles(
                    rest,
                    0,
                    Set::empty(),
                ),
            decreases n - i,
        {
            let chr = fen.get_char(i);
            proof {
                assert(rest.skip(i - start)[0] == chr);
                assert(rest.skip(i - start).drop_first() =~= rest.skip(i + 1 - start));
            }
            match hex_digit(chr) {
                Some(digit) => {
                    match tiles.try_add(digit) {
                        Some(more) => {
                            tiles = more;
                        },
                        None => {
                            return Err(FenError::DuplicateTile);
                        },
                    }
                },
                None => {
                    return Err(FenError::InvalidCharacter);
                },
            }
            if count > 7 {
                return Err(FenError::TooMuchTiles);
            }
            count += 1;
            i += 1;
        }
        proof {
            assert(rest.skip(n - start).len() == 0);
        }
        if count < 8 {
            return Err(FenError::NotEnoughTiles);
        }
        let (current_player, opponent) = Player::pair(tiles);
        let pieces_mask = black_mask | white_mask;
        let values = filled_tiles(pieces_mask, black_mask);
        proof {
            lemma_bit_logic(black_mask, white_mask);
            lemma_filled_values(pieces_mask, black_mask);
            lemma_filled_anchors(pieces_mask, 64);
            assert forall|j: int| 0 <= j < values.len() implies values[j] < 16 by {
                lemma_tile_value_range(black_mask, filled_anchors(pieces_mask, 64)[j]);
            }
            crate::bits::lemma_ones_below_range(pieces_mask, 64);
        }
        let played_tiles = TileSet::from_vec(&values);
        let r = Board {
            pieces_mask,
            black_mask,
            current_player,
            opponent,
            played_tiles,
            played_moves: pieces_mask.count_ones() as u8,
        };
        proof {
            assert(r.played_tiles@ =~= crate::grid::filled_set(pieces_mask, black_mask)) by {
                assert forall|v: int| r.played_tiles@.contains(v) implies
                    crate::grid::filled_set(pieces_mask, black_mask).contains(v) by {
                    let k = choose|k: int| 0 <= k < values.len() && values[k] == v;
                    assert(values@[k] == v);
                }
                assert forall|v: int| crate::grid::filled_set(pieces_mask, black_mask).contains(v) implies
                    r.played_tiles@.contains(v) by {
                    let k = choose|k: int| 0 <= k < values@.len() && #[trigger] values@[k] == v;
                    assert(values[k] == v);
                }
            }
        }
        Ok(r)
    }

    /// The text of the position.
 #[verifier::rlimit(40)]
    pub fn fen(&self) -> (r: String)
        ensures
            r@ == fen_text(*self),
    {
        let mut out = String::new();
        let mut y: u8 = 0;
        let ghost p = self.pieces_mask;
        let ghost b = self.black_mask;
        proof {
            reveal_strlit("/");
            reveal_strlit("w");
            reveal_strlit("b");
            reveal_strlit(" ");
            reveal_strlit("1");
            reveal_strlit("2");
            reveal_strlit("3");
            reveal_strlit("4");
            reveal_strlit("5");
        }
        while y < 5
            invariant
                y <= 5,
                p == self.pieces_mask,
                b == self.black_mask,
                "/"@ == seq!['/'],
                "w"@ == seq!['w'],
                "b"@ == seq!['b'],
                "1"@ == seq!['1'],
                "2"@ == seq!['2'],
                "3"@ == seq!['3'],
                "4"@ == seq!['4'],
                "5"@ == seq!['5'],
                y < 5 ==> out@ + (if y > 0 { seq!['/'] } else { Seq::<char>::empty() }) + rows_text(p, b, y as int) == rows_text(p, b, 0),
                y == 5 ==> out@ == rows_text(p, b, 0),
            decreases 5 - y,
        {
            if y > 0 {
                out.append("/");
            }
            let mut idx: u8 = 0;
            let mut x: u8 = 0;
            while x < 5
                invariant
                    x <= 5,
                    y < 5,
                    idx <= x,
                    p == self.pieces_mask,
                    b == self.black_mask,
                    "w"@ == seq!['w'],
                    "b"@ == seq!['b'],
                    "1"@ == seq!['1'],
                    "2"@ == seq!['2'],
                    "3"@ == seq!['3'],
                    "4"@ == seq!['4'],
                    "5"@ == seq!['5'],
                    out@ + row_text(p, b, y as int, x as int, idx as int) + rows_after(p, b, y as int) == rows_text(p, b, 0),
                decreases 5 - x,
            {
                let cell = Move::mask_at(x, y);
                proof {
                    lemma_cell_mask(x as int, y as int);
                    lemma_bit_logic(cell, self.pieces_mask);
                    lemma_bit_logic(cell, self.black_mask);
                    lemma_no_bit_is_zero(cell & self.pieces_mask);
                    lemma_no_bit_is_zero(cell & self.black_mask);
                    assert(bit(cell & self.pieces_mask, cell_index(x as int, y as int))
                        == bit(self.pieces_mask, cell_index(x as int, y as int)));
                    assert(bit(cell & self.black_mask, cell_index(x as int, y as int))
                        == bit(self.black_mask, cell_index(x as int, y as int)));
                }
                if cell & self.pieces_mask == 0 {
                    idx += 1;
                } else {
                    let ghost before = out@;
                    if idx > 0 {
                        out.append(
                            if idx == 1 {
                                "1"
                            } else if idx == 2 {
                                "2"
                            } else if idx == 3 {
                                "3"
                            } else if idx == 4 {
                                "4"
                            } else {
                                "5"
                            },
                        );
                    }
                    out.append(
                        if cell & self.black_mask == 0 {
                            "w"
                        } else {
                            "b"
                        },
                    );
                    proof {
                        let piece = seq![if bit(b, cell_index(x as int, y as int)) { 'b' } else { 'w' }];
                        let digits = if idx > 0 { seq![run_char(idx as int)] } else { Seq::<char>::empty() };
                        assert(out@ =~= before + digits + piece);
                        assert(before + row_text(p, b, y as int, x as int, idx as int) + rows_after(p, b, y as int)
                            =~= out@ + row_text(p, b, y as int, x + 1, 0) + rows_after(p, b, y as int));
                    }
                    idx = 0;
                }
                x += 1;
            }
            proof {
                assert(out@ + row_text(p, b, y as int, 5, idx as int) =~= out@);
                if y < 4 {
                    assert(out@ + rows_after(p, b, y as int) =~= out@ + seq!['/'] + rows_text(p, b, y + 1));
                } else {
                    assert(out@ + rows_after(p, b, y as int) =~= out@);
                }
            }
            y += 1;
        }
        out.append(" ");
        let tiles = self.current_player.fen_part();
        out.append(tiles.as_str());
        proof {
            assert(out@ =~= fen_text(*self));
        }
        out
    }
}

/// The white pieces of a position: the pieces that are not black.
pub open spec fn white_of(pieces: u64, black: u64) -> u64 {
    pieces & !black
}

/// The masks of a well-formed position, bit by bit.
proof fn lemma_masks(pos: Position)
    requires
        pos.wf(),
    ensures
        forall|i: int| #[trigger]
            bit(white_of(pos.pieces, pos.black), i) == (bit(pos.pieces, i) && !bit(pos.black, i)),
        pos.black | white_of(pos.pieces, pos.black) == pos.pieces,
        below(pos.black, 8) == 0,
        below(white_of(pos.pieces, pos.black), 8) == 0,
        below(pos.black, 41) == pos.black,
        below(white_of(pos.pieces, pos.black), 41) == white_of(pos.pieces, pos.black),
{
    let w = white_of(pos.pieces, pos.black);
    lemma_bit_logic(pos.black, pos.black);
    lemma_bit_logic(pos.pieces, !pos.black);
    lemma_bit_logic(pos.black, w);
    lemma_bit_ext(pos.black | w, pos.pieces);
    lemma_below(pos.black, 8);
    lemma_below(w, 8);
    lemma_below(pos.black, 41);
    lemma_below(w, 41);
    lemma_no_bit_is_zero(0);
    assert forall|i: int| #[trigger] bit(pos.black, i) implies 8 <= i <= 40 by {
        assert(bit(pos.pieces, i));
        assert(on_board(i));
    }
    assert forall|i: int| #[trigger] bit(w, i) implies 8 <= i <= 40 by {
        assert(bit(pos.pieces, i));
        assert(on_board(i));
    }
    assert forall|i: int| 0 <= i < 64 implies bit(below(pos.black, 8), i) == bit(0u64, i) by {
        assert(bit(below(pos.black, 8), i) == (bit(pos.black, i) && i < 8));
    }
    assert forall|i: int| 0 <= i < 64 implies bit(below(w, 8), i) == bit(0u64, i) by {
        assert(bit(below(w, 8), i) == (bit(w, i) && i < 8));
    }
    assert forall|i: int| 0 <= i < 64 implies bit(below(pos.black, 41), i) == bit(pos.black, i) by {
        assert(bit(below(pos.black, 41), i) == (bit(pos.black, i) && i < 41));
    }
    assert forall|i: int| 0 <= i < 64 implies bit(below(w, 41), i) == bit(w, i) by {
        assert(bit(below(w, 41), i) == (bit(w, i) && i < 41));
    }
    lemma_bit_ext(below(pos.black, 8), 0);
    lemma_bit_ext(below(w, 8), 0);
    lemma_bit_ext(below(pos.black, 41), pos.black);
    lemma_bit_ext(below(w, 41), w);
}

/// Reading on from a `/` or a space does not depend on the column, up to five.
proof fn lemma_row_end(tail: Seq<char>, x: int, y: int, black: u64, white: u64)
    requires
        tail.len() > 0,
        tail[0] == '/' || tail[0] == ' ',
        x <= 5,
    ensures
        parse_rows(tail, x, y, black, white) == parse_rows(tail, 5, y, black, white),
{
}

/// Reading the text of a row from column `x` on, after a run of `run` empty cells, adds
/// the pieces of the row from column `x` on to those read so far.
#[verifier::rlimit(40)]
proof fn lemma_parse_row(pos: Position, y: int, x: int, run: int, tail: Seq<char>)
    requires
        pos.wf(),
        0 <= y < 5,
        0 <= run <= x <= 5,
        tail.len() > 0,
        tail[0] == '/' || tail[0] == ' ',
    ensures
        parse_rows(
            row_text(pos.pieces, pos.black, y, x, run) + tail,
            x - run,
            y,
            below(pos.black, cell_index(x, y)),
            below(white_of(pos.pieces, pos.black), cell_index(x, y)),
        ) == parse_rows(
            tail,
            5,
            y,
            below(pos.black, cell_index(5, y)),
            below(white_of(pos.pieces, pos.black), cell_index(5, y)),
        ),
    decreases 5 - x,
{
    let p = pos.pieces;
    let b = pos.black;
    let w = white_of(p, b);
    let i = cell_index(x, y);
    let text = row_text(p, b, y, x, run);
    lemma_masks(pos);
    if x >= 5 {
        assert(text + tail =~= tail);
        lemma_row_end(tail, x - run, y, below(b, i), below(w, i));
    } else {
        lemma_below(b, i);
        lemma_below(w, i);
        lemma_below(b, i + 1);
        lemma_below(w, i + 1);
        lemma_cell_mask(x, y);
        if !bit(p, i) {
            lemma_bit_ext(below(b, i + 1), below(b, i));
            lemma_bit_ext(below(w, i + 1), below(w, i));
            lemma_parse_row(pos, y, x + 1, run + 1, tail);
        } else {
            let piece = if bit(b, i) { 'b' } else { 'w' };
            let rest = row_text(p, b, y, x + 1, 0);
            let from_piece = seq![piece] + rest + tail;
            if run > 0 {
                let s = text + tail;
                assert(s =~= seq![run_char(run)] + from_piece);
                assert(s[0] == run_char(run));
                assert(s.drop_first() =~= from_piece);
                assert(run_of_char(run_char(run)) == Some(run));
                assert(parse_rows(s, x - run, y, below(b, i), below(w, i)) == parse_rows(
                    from_piece,
                    x,
                    y,
                    below(b, i),
                    below(w, i),
                ));
            } else {
                assert(text + tail =~= from_piece);
            }
            assert(from_piece[0] == piece);
            assert(from_piece.drop_first() =~= rest + tail);
            lemma_bit_logic(below(b, i), cell_mask(x, y));
            lemma_bit_logic(below(w, i), cell_mask(x, y));
            if bit(b, i) {
                lemma_bit_ext(below(b, i) | cell_mask(x, y), below(b, i + 1));
                lemma_bit_ext(below(w, i + 1), below(w, i));
            } else {
                lemma_bit_ext(below(w, i) | cell_mask(x, y), below(w, i + 1));
                lemma_bit_ext(below(b, i + 1), below(b, i));
            }
            assert(parse_rows(from_piece, x, y, below(b, i), below(w, i)) == parse_rows(
                rest + tail,
                x + 1,
                y,
                below(b, i + 1),
                below(w, i + 1),
            ));
            lemma_parse_row(pos, y, x + 1, 0, tail);
        }
    }
}

/// Reading the text of the rows from row `y` down gives the pieces of the position, and
/// leaves what follows the space.
proof fn lemma_parse_rows(pos: Position, y: int, tiles: Seq<char>)
    requires
        pos.wf(),
        0 <= y < 5,
    ensures
        parse_rows(
            rows_text(pos.pieces, pos.black, y) + seq![' '] + tiles,
            0,
            y,
            below(pos.black, cell_index(0, y)),
            below(white_of(pos.pieces, pos.black), cell_index(0, y)),
        ) == Ok::<(u64, u64, Seq<char>), FenError>(
            (pos.black, white_of(pos.pieces, pos.black), tiles),
        ),
    decreases 5 - y,
{
    let p = pos.pieces;
    let b = pos.black;
    let w = white_of(p, b);
    let tail = rows_after(p, b, y) + seq![' '] + tiles;
    lemma_masks(pos);
    assert(rows_text(p, b, y) + seq![' '] + tiles =~= row_text(p, b, y, 0, 0) + tail);
    lemma_parse_row(pos, y, 0, 0, tail);
    let end = cell_index(5, y);
    if y < 4 {
        let next = rows_text(p, b, y + 1) + seq![' '] + tiles;
        assert(tail =~= seq!['/'] + next);
        assert(tail[0] == '/');
        assert(tail.drop_first() =~= next);
        lemma_below(b, end);
        lemma_below(w, end);
        lemma_below(b, cell_index(0, y + 1));
        lemma_below(w, cell_index(0, y + 1));
        let start = cell_index(0, y + 1);
        assert forall|i: int| 0 <= i < 64 implies bit(below(b, end), i) == bit(below(b, start), i) by {
            assert(bit(below(b, end), i) == (bit(b, i) && i < end));
            assert(bit(below(b, start), i) == (bit(b, i) && i < start));
            if bit(b, i) {
                assert(bit(p, i));
                assert(on_board(i));
            }
        }
        assert forall|i: int| 0 <= i < 64 implies bit(below(w, end), i) == bit(below(w, start), i) by {
            assert(bit(below(w, end), i) == (bit(w, i) && i < end));
            assert(bit(below(w, start), i) == (bit(w, i) && i < start));
            if bit(w, i) {
                assert(bit(p, i));
                assert(on_board(i));
            }
        }
        lemma_bit_ext(below(b, end), below(b, start));
        lemma_bit_ext(below(w, end), below(w, start));
        lemma_parse_rows(pos, y + 1, tiles);
    } else {
        assert(tail =~= seq![' '] + tiles);
        assert(tail[0] == ' ');
        assert(tail.drop_first() =~= tiles);
    }
}

/// Reading the digits of a list of eight different tile values, from the place `k` on,
/// gives the set of the values.
proof fn lemma_parse_tiles(list: Seq<u8>, k: int)
    requires
        list.len() == 8,
        0 <= k <= 8,
        forall|j: int| 0 <= j < 8 ==> list[j] < 16,
        forall|i: int, j: int| 0 <= i < j < 8 ==> list[i] != list[j],
    ensures
        parse_tiles(
            hex_text(list).skip(k),
            k,
            Set::new(|v: int| exists|j: int| 0 <= j < k && list[j] == v),
        ) == Ok::<Set<int>, FenError>(Set::new(|v: int| exists|j: int| 0 <= j < 8 && list[j] == v)),
    decreases 8 - k,
{
    let text = hex_text(list).skip(k);
    let seen = Set::new(|v: int| exists|j: int| 0 <= j < k && list[j] == v);
    if k < 8 {
        let d = list[k];
        assert(text[0] == hex_char(d));
        assert(hex_value(hex_char(d)) == Some(d as int));
        assert(!seen.contains(d as int));
        assert(text.drop_first() =~= hex_text(list).skip(k + 1));
        assert(seen.insert(d as int) =~= Set::new(
            |v: int| exists|j: int| 0 <= j < k + 1 && list[j] == v,
        )) by {
            assert forall|v: int| seen.insert(d as int).contains(v) implies exists|j: int|
                0 <= j < k + 1 && list[j] == v by {
                if v == d {
                    assert(list[k] == v);
                } else {
                    let j = choose|j: int| 0 <= j < k && list[j] == v;
                    assert(0 <= j < k + 1 && list[j] == v);
                }
            }
        }
        lemma_parse_tiles(list, k + 1);
    } else {
        assert(text.len() == 0);
    }
}

/// The list of the elements of a set of tile values: ascending, and with the values of
/// the set below `n`.
proof fn lemma_elements(s: Set<int>, n: int)
    requires
        0 <= n <= 16,
    ensures
        forall|k: int|
            0 <= k < elements_below(s, n).len() ==> 0 <= #[trigger] elements_below(s, n)[k] < n
                && s.contains(elements_below(s, n)[k] as int),
        forall|i: int, j: int|
            0 <= i < j < elements_below(s, n).len() ==> elements_below(s, n)[i] < elements_below(
                s,
                n,
            )[j],
        forall|v: int|
            0 <= v < n && s.contains(v) ==> exists|k: int|
                0 <= k < elements_below(s, n).len() && #[trigger] elements_below(s, n)[k] == v,
        elements_below(s, n).len() == s.intersect(Set::new(|v: int| 0 <= v < n)).len(),
        s.intersect(Set::new(|v: int| 0 <= v < n)).finite(),
    decreases n,
{
    let range = Set::new(|v: int| 0 <= v < n);
    if n == 0 {
        assert(s.intersect(range) =~= Set::<int>::empty());
    } else {
        lemma_elements(s, n - 1);
        let prev = elements_below(s, n - 1);
        let cur = elements_below(s, n);
        let before = Set::new(|v: int| 0 <= v < n - 1);
        if s.contains(n - 1) {
            assert(cur[cur.len() - 1] == n - 1);
            assert(s.intersect(range) =~= s.intersect(before).insert(n - 1));
            assert forall|v: int| 0 <= v < n && s.contains(v) implies exists|k: int|
                0 <= k < cur.len() && #[trigger] cur[k] == v by {
                if v < n - 1 {
                    let k = choose|k: int| 0 <= k < prev.len() && #[trigger] prev[k] == v;
                    assert(cur[k] == v);
                } else {
                    assert(cur[cur.len() - 1] == v);
                }
            }
        } else {
            assert(s.intersect(range) =~= s.intersect(before));
        }
    }
}

/// Reading the text of a well-formed board whose player to move owns eight tile values
/// gives the position of the board.
pub proof fn lemma_fen_round_trip(board: Board)
    requires
        board.wf(),
        board.current_player.owned().len() == 8,
    ensures
        parse_fen(fen_text(board)) == Ok::<Position, FenError>(board@),
{
    let pos = board@;
    let owned = pos.owned;
    let list = elements_below(owned, 16);
    let tiles = hex_text(list);
    lemma_tileset_range(board.current_player.tiles);
    lemma_elements(owned, 16);
    assert(owned.intersect(Set::new(|v: int| 0 <= v < 16)) =~= owned);
    assert(list.len() == 8);
    lemma_masks(pos);
    lemma_parse_rows(pos, 0, tiles);
    assert(tiles.len() == 8);
    lemma_parse_tiles(list, 0);
    assert(tiles.skip(0) =~= tiles);
    assert(Set::new(|v: int| exists|j: int| 0 <= j < 0 && list[j] == v) =~= Set::<int>::empty());
    assert(Set::new(|v: int| exists|j: int| 0 <= j < 8 && list[j] == v) =~= owned) by {
        assert forall|v: int| owned.contains(v) implies exists|j: int|
            0 <= j < 8 && list[j] == v by {
            let k = choose|k: int| 0 <= k < list.len() && #[trigger] list[k] == v;
            assert(0 <= k < 8 && list[k] == v);
        }
    }
}

/// A well-formed board is the only one with its position.
pub proof fn lemma_board_of_position(a: Board, b: Board)
    requires
        a.wf(),
        b.wf(),
        a@ == b@,
    ensures
        a == b,
{
    lemma_tileset_ext(a.current_player.tiles, b.current_player.tiles);
    lemma_tileset_ext(a.opponent.tiles, b.opponent.tiles);
    lemma_tileset_ext(a.played_tiles, b.played_tiles);
}

} // verus!
