use vstd::prelude::*;

verus! {

/// The colour of a piece.
#[derive(PartialEq, Eq, Clone, Copy, Debug, Structural)]
pub enum Color {
    Black,
    White,
}

impl Color {
    /// The other colour.
    pub open spec fn flipped(self) -> Color {
        match self {
            Color::Black => Color::White,
            Color::White => Color::Black,
        }
    }
}

impl std::ops::Not for Color {
    type Output = Color;

    /// The other colour.
    fn not(self) -> (r: Color) {
        match self {
            Color::Black => Color::White,
            Color::White => Color::Black,
        }
    }
}

impl vstd::std_specs::ops::NotSpecImpl for Color {
    open spec fn obeys_not_spec() -> bool {
        true
    }

    open spec fn not_req(self) -> bool {
        true
    }

    open spec fn not_spec(self) -> Color {
        self.flipped()
    }
}


} // verus!
