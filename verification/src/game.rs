use vstd::prelude::*;
use crate::board::{Board, Position};
use crate::mov::{parse_move, Move};

verus! {

/// What a player asks for.
#[derive(PartialEq, Eq, Clone, Copy, Debug, Structural)]
pub enum Action {
    Move(Move),
    Rewind,
    Quit,
}

/// What a text asks for in a position: `r` or `rewind` to take a move back, `q` or `quit`
/// to stop, the text of a legal move to play it, and any other text nothing.
pub open spec fn action_of(pos: Position, text: Seq<char>) -> Option<Action> {
    if text == "r"@ || text == "rewind"@ {
        Some(Action::Rewind)
    } else if text == "q"@ || text == "quit"@ {
        Some(Action::Quit)
    } else {
        match parse_move(text) {
            Ok(m) => if pos.legal(m) {
                Some(Action::Move(m))
            } else {
                None
            },
            Err(_) => None,
        }
    }
}

/// A game in play: the board, and the boards before it, oldest first.
pub struct Game {
    pub board: Board,
    pub history: Vec<Board>,
}

/// Whether two texts are the same.
pub fn same_text(a: &str, b: &str) -> (r: bool)
    ensures
        r == (a@ == b@),
{
    let n = a.unicode_len();
    if n != b.unicode_len() {
        return false;
    }
    let mut k: usize = 0;
    while k < n
        invariant
            k <= n,
            n == a@.len(),
            n == b@.len(),
            forall|j: int| 0 <= j < k ==> a@[j] == b@[j],
        decreases n - k,
    {
        if a.get_char(k) != b.get_char(k) {
            return false;
        }
        k += 1;
    }
    assert(a@ =~= b@);
    true
}

impl Game {
    /// The board and the boards before it are well formed.
    pub open spec fn wf(&self) -> bool {
        self.board.wf() && forall|k: int| 0 <= k < self.history@.len() ==> self.history@[k].wf()
    }

    /// A game from the board, or from the empty board.
    pub fn new(from_board: Option<Board>) -> (r: Game)
        requires
            from_board is Some ==> from_board->0.wf(),
        ensures
            r.wf(),
            from_board is Some ==> r.board == from_board->0,
            from_board is None ==> r.board.pieces_mask == 0 && r.board.black_mask == 0
                && r.board.current_player.owned() == Set::new(|v: int| 0 <= v < 8),
            r.history@.len() == 0,
    {
        let board = match from_board {
            Some(board) => board,
            None => Board::empty(),
        };
        Game { board, history: Vec::new() }
    }

    /// Whether the game is over.
    pub fn is_over(&self) -> (r: bool)
        requires
            self.wf(),
        ensures
            r == self.board@.terminal(),
    {
        self.board.is_terminal()
    }

    /// What the text of a player asks for, or `None` where it asks for nothing that can be
    /// done: the player is asked again.
    pub fn read_action(&self, text: &str) -> (r: Option<Action>)
        requires
            self.wf(),
        ensures
            r == action_of(self.board@, text@),
    {
        if same_text(text, "r") || same_text(text, "rewind") {
            return Some(Action::Rewind);
        }
        if same_text(text, "q") || same_text(text, "quit") {
            return Some(Action::Quit);
        }
        match Move::try_from(text) {
            Ok(mov) => if self.board.is_move_possible(&mov) {
                Some(Action::Move(mov))
            } else {
                None
            },
            Err(_) => None,
        }
    }

    /// Does what the player asked for, and says whether the game goes on. A move is
    /// played, where it is legal, and the board before it is kept; a rewind takes the last
    /// kept board back, if there is one; quitting changes nothing.
    pub fn apply(&mut self, action: Action) -> (running: bool)
        requires
            old(self).wf(),
            action matches Action::Move(m) ==> m.wf(),
        ensures
            final(self).wf(),
            running == !(action is Quit),
            match action {
                Action::Quit => *final(self) == *old(self),
                Action::Rewind => if old(self).history@.len() > 0 {
                    final(self).board == old(self).history@.last() && final(self).history@ == old(
                        self,
                    ).history@.drop_last()
                } else {
                    final(self).board == old(self).board && final(self).history@ == old(
                        self,
                    ).history@
                },
                Action::Move(m) => if old(self).board@.legal(m) {
                    final(self).board.follows(old(self).board, m) && final(self).history@ == old(
                        self,
                    ).history@.push(old(self).board)
                } else {
                    final(self).board == old(self).board && final(self).history@ == old(
                        self,
                    ).history@
                },
            },
    {
        match action {
            Action::Rewind => {
                match self.history.pop() {
                    Some(prev_board) => {
                        self.board = prev_board;
                    },
                    None => {},
                }
                true
            },
            Action::Move(mov) => {
                match self.board.next(&mov) {
                    Some(after) => {
                        self.history.push(self.board);
                        self.board = after;
                    },
                    None => {},
                }
                true
            },
            Action::Quit => false,
        }
    }
}

} // verus!
