use vstd::prelude::*;
use vstd::string::StringExecFns;
use crate::bits::{bit, lemma_bit_single, lemma_single_trailing_zeros};
use crate::color::Color;

verus! {

/// The index, in a word of 7 rows of 7 bits, of the cell in column `x` and row `y`.
/// The 5 by 5 board sits in the middle, with a margin of one cell on each side.
pub open spec fn cell_index(x: int, y: int) -> int {
    (y + 1) * 7 + (x + 1)
}

/// Whether the bit index `i` is a cell of the 5 by 5 board.
pub open spec fn on_board(i: int) -> bool {
    8 <= i <= 40 && 1 <= i % 7 <= 5
}

/// The word whose only set bit is the cell in column `x` and row `y`.
pub open spec fn cell_mask(x: int, y: int) -> u64 {
    1u64 << (cell_index(x, y) as u64)
}

/// Why a text is not a move.
#[derive(PartialEq, Eq, Clone, Copy, Debug, Structural)]
pub enum MoveError {
    MissingInformation,
    WrongColor,
    WrongX,
    WrongY,
}

/// A piece of one colour on one cell.
#[derive(PartialEq, Eq, Clone, Copy, Debug, Structural)]
pub struct Move {
    pub mask: u64,
    pub color: Color,
}

/// The colour that a piece letter stands for.
pub open spec fn color_of_char(c: char) -> Option<Color> {
    if c == 'b' || c == 'B' {
        Some(Color::Black)
    } else if c == 'w' || c == 'W' {
        Some(Color::White)
    } else {
        None
    }
}

/// The column that a letter stands for.
pub open spec fn column_of_char(c: char) -> Option<int> {
    if c == 'a' || c == 'A' {
        Some(0)
    } else if c == 'b' || c == 'B' {
        Some(1)
    } else if c == 'c' || c == 'C' {
        Some(2)
    } else if c == 'd' || c == 'D' {
        Some(3)
    } else if c == 'e' || c == 'E' {
        Some(4)
    } else {
        None
    }
}

/// The row that a digit stands for.
pub open spec fn row_of_char(c: char) -> Option<int> {
    if c == '1' {
        Some(0)
    } else if c == '2' {
        Some(1)
    } else if c == '3' {
        Some(2)
    } else if c == '4' {
        Some(3)
    } else if c == '5' {
        Some(4)
    } else {
        None
    }
}

/// The move that a text stands for: a piece letter, a column letter and a row digit.
/// What follows the third character is not read.
pub open spec fn parse_move(s: Seq<char>) -> Result<Move, MoveError> {
    if s.len() < 1 {
        Err(MoveError::MissingInformation)
    } else if color_of_char(s[0]) is None {
        Err(MoveError::WrongColor)
    } else if s.len() < 2 {
        Err(MoveError::MissingInformation)
    } else if column_of_char(s[1]) is None {
        Err(MoveError::WrongX)
    } else if s.len() < 3 {
        Err(MoveError::MissingInformation)
    } else if row_of_char(s[2]) is None {
        Err(MoveError::WrongY)
    } else {
        Ok(
            Move {
                mask: cell_mask(column_of_char(s[1])->0, row_of_char(s[2])->0),
                color: color_of_char(s[0])->0,
            },
        )
    }
}

/// The code of a well-formed move, a number below 128 that orders the moves: twice its
/// cell, and one more for white.
pub open spec fn move_code(m: Move) -> int {
    2 * m.index() + if m.color == Color::Black { 0int } else { 1int }
}

/// The text of a move.
pub open spec fn move_text(m: Move) -> Seq<char> {
    seq![
        if m.color == Color::Black { 'b' } else { 'w' },
        if m.col() == 0 { 'a' } else if m.col() == 1 { 'b' } else if m.col() == 2 { 'c' } else if m.col() == 3 { 'd' } else { 'e' },
        if m.row() == 0 { '1' } else if m.row() == 1 { '2' } else if m.row() == 2 { '3' } else if m.row() == 3 { '4' } else { '5' },
    ]
}

impl MoveError {
    /// The error in words.
    pub fn message(&self) -> (r: &'static str)
        ensures
            r@ == match self {
                MoveError::MissingInformation => "missing information"@,
                MoveError::WrongColor => "wrong color"@,
                MoveError::WrongX => "wrong x"@,
                MoveError::WrongY => "wrong y"@,
            },
    {
        match self {
            MoveError::MissingInformation => "missing information",
            MoveError::WrongColor => "wrong color",
            MoveError::WrongX => "wrong x",
            MoveError::WrongY => "wrong y",
        }
    }
}

impl Move {
    /// The bit index of the move's cell.
    pub open spec fn index(self) -> int {
        self.mask.trailing_zeros() as int
    }

    /// A move is well formed where its mask is one cell of the board.
    pub open spec fn wf(self) -> bool {
        &&& on_board(self.index())
        &&& self.mask == 1u64 << (self.index() as u64)
    }

    /// The column of the move's cell.
    pub open spec fn col(self) -> int {
        (self.index() - 8) % 7
    }

    /// The row of the move's cell.
    pub open spec fn row(self) -> int {
        (self.index() - 7) / 7
    }

    /// The move with the mask and the colour.
    pub fn from_mask(mask: u64, color: Color) -> (r: Move)
        ensures
            r == (Move { mask, color }),
    {
        Move { mask, color }
    }

    /// The move of a piece of the colour to column `x` and row `y`.
    pub fn new(x: u8, y: u8, color: Color) -> (r: Move)
        requires
            x < 5,
            y < 5,
        ensures
            r == (Move { mask: cell_mask(x as int, y as int), color }),
            r.wf(),
            r.col() == x,
            r.row() == y,
    {
        proof {
            lemma_cell_mask(x as int, y as int);
        }
        Move { mask: Move::mask_at(x, y), color }
    }

    /// The move of a black piece to column `x` and row `y`.
    pub fn black(x: u8, y: u8) -> (r: Move)
        requires
            x < 5,
            y < 5,
        ensures
            r == (Move { mask: cell_mask(x as int, y as int), color: Color::Black }),
            r.wf(),
    {
        Move::new(x, y, Color::Black)
    }

    /// The move of a white piece to column `x` and row `y`.
    pub fn white(x: u8, y: u8) -> (r: Move)
        requires
            x < 5,
            y < 5,
        ensures
            r == (Move { mask: cell_mask(x as int, y as int), color: Color::White }),
            r.wf(),
    {
        Move::new(x, y, Color::White)
    }

    /// Whether the piece is black.
    pub fn is_black(&self) -> (r: bool)
        ensures
            r == (self.color == Color::Black),
    {
        self.color == Color::Black
    }

    /// Whether the piece is white.
    pub fn is_white(&self) -> (r: bool)
        ensures
            r == (self.color == Color::White),
    {
        self.color == Color::White
    }

    /// The mask of the cell in column `x` and row `y`.
    pub fn mask_at(x: u8, y: u8) -> (r: u64)
        requires
            x < 5,
            y < 5,
        ensures
            r == cell_mask(x as int, y as int),
    {
        1u64 << ((1 + y as u64) * 7 + (1 + x as u64))
    }

    /// The column of the move: 0 for `a`, up to 4 for `e`.
    pub fn x(&self) -> (r: u8)
        requires
            self.wf(),
        ensures
            r == self.col(),
            r < 5,
    {
        let zeros = self.mask.trailing_zeros() - 7;
        ((zeros - 1) % 7) as u8
    }

    /// The row of the move: 0 for `1`, up to 4 for `5`.
    pub fn y(&self) -> (r: u8)
        requires
            self.wf(),
        ensures
            r == self.row(),
            r < 5,
    {
        let zeros = self.mask.trailing_zeros() - 7;
        (zeros / 7) as u8
    }

    /// How far the move's cell lies from the first cell of the board, in bits.
    pub fn shift(&self) -> (r: u32)
        requires
            self.wf(),
        ensures
            r == self.index() - 8,
    {
        self.mask.trailing_zeros() - 8
    }

    /// Reads a move from its text, whatever the case of its letters.
    pub fn try_from(s: &str) -> (r: Result<Move, MoveError>)
        ensures
            r == parse_move(s@),
            r is Ok ==> r->Ok_0.wf(),
    {
        let len = s.unicode_len();
        if len < 1 {
            return Err(MoveError::MissingInformation);
        }
        let c0 = s.get_char(0);
        let color = if c0 == 'b' || c0 == 'B' {
            Color::Black
        } else if c0 == 'w' || c0 == 'W' {
            Color::White
        } else {
            return Err(MoveError::WrongColor);
        };
        if len < 2 {
            return Err(MoveError::MissingInformation);
        }
        let c1 = s.get_char(1);
        let x: u8 = if c1 == 'a' || c1 == 'A' {
            0
        } else if c1 == 'b' || c1 == 'B' {
            1
        } else if c1 == 'c' || c1 == 'C' {
            2
        } else if c1 == 'd' || c1 == 'D' {
            3
        } else if c1 == 'e' || c1 == 'E' {
            4
        } else {
            return Err(MoveError::WrongX);
        };
        if len < 3 {
            return Err(MoveError::MissingInformation);
        }
        let c2 = s.get_char(2);
        let y: u8 = if c2 == '1' {
            0
        } else if c2 == '2' {
            1
        } else if c2 == '3' {
            2
        } else if c2 == '4' {
            3
        } else if c2 == '5' {
            4
        } else {
            return Err(MoveError::WrongY);
        };
        Ok(Move::new(x, y, color))
    }

    /// The text of the move, in lower case: piece, column, row.
    pub fn to_text(&self) -> (r: String)
        requires
            self.wf(),
        ensures
            r@ == move_text(*self),
    {
        let piece = match self.color {
            Color::Black => "b",
            Color::White => "w",
        };
        let x = self.x();
        let col = if x == 0 {
            "a"
        } else if x == 1 {
            "b"
        } else if x == 2 {
            "c"
        } else if x == 3 {
            "d"
        } else {
            "e"
        };
        let y = self.y();
        let row = if y == 0 {
            "1"
        } else if y == 1 {
            "2"
        } else if y == 2 {
            "3"
        } else if y == 3 {
            "4"
        } else {
            "5"
        };
        proof {
            reveal_strlit("a");
            reveal_strlit("b");
            reveal_strlit("c");
            reveal_strlit("d");
            reveal_strlit("e");
            reveal_strlit("w");
            reveal_strlit("1");
            reveal_strlit("2");
            reveal_strlit("3");
            reveal_strlit("4");
            reveal_strlit("5");
        }
        let mut out = String::new();
        out.append(piece);
        out.append(col);
        out.append(row);
        assert(out@ =~= move_text(*self));
        out
    }
}

impl std::ops::Not for Move {
    type Output = Move;

    /// The same cell with a piece of the other colour.
    fn not(self) -> (r: Move) {
        Move { mask: self.mask, color: std::ops::Not::not(self.color) }
    }
}

impl vstd::std_specs::ops::NotSpecImpl for Move {
    open spec fn obeys_not_spec() -> bool {
        true
    }

    open spec fn not_req(self) -> bool {
        true
    }

    open spec fn not_spec(self) -> Move {
        Move { mask: self.mask, color: self.color.flipped() }
    }
}

/// The mask of a cell of the board is a well-formed position, and gives the cell back.
pub proof fn lemma_cell_mask(x: int, y: int)
    requires
        0 <= x < 5,
        0 <= y < 5,
    ensures
        on_board(cell_index(x, y)),
        cell_mask(x, y).trailing_zeros() == cell_index(x, y),
        cell_mask(x, y) != 0,
        (cell_index(x, y) - 8) % 7 == x,
        (cell_index(x, y) - 7) / 7 == y,
        forall|i: int| #[trigger] bit(cell_mask(x, y), i) == (i == cell_index(x, y)),
{
    let k = cell_index(x, y) as u64;
    lemma_single_trailing_zeros(k);
    lemma_bit_single(k);
}

/// A cell of the board has a column and a row, and its index is theirs.
pub proof fn lemma_on_board(i: int)
    requires
        on_board(i),
    ensures
        0 <= (i - 8) % 7 < 5,
        0 <= (i - 7) / 7 < 5,
        i == cell_index((i - 8) % 7, (i - 7) / 7),
{
}

/// Reading the text of a well-formed move gives the move back.
pub proof fn lemma_move_text_round_trip(m: Move)
    requires
        m.wf(),
    ensures
        parse_move(move_text(m)) == Ok::<Move, MoveError>(m),
{
    lemma_on_board(m.index());
}

} // verus!
