use ascacou::game::{same_text, Action};
use ascacou::{Board, Game, Move};

#[test]
fn a_game_starts_on_the_empty_board() {
    let game = Game::new(None);
    assert_eq!(game.board, Board::empty());
    assert!(game.history.is_empty());
    assert!(!game.is_over());
    let board = Board::from_fen("1wbw/2b/1bb/5/5 01234567").unwrap();
    assert_eq!(Game::new(Some(board)).board, board);
}

#[test]
fn a_game_reads_what_the_player_asks_for() {
    let board = Board::from_fen("bb1ww/www1w/1bbw/1bww/2w 2689abce").unwrap();
    let game = Game::new(Some(board));
    assert_eq!(game.read_action("r"), Some(Action::Rewind));
    assert_eq!(game.read_action("rewind"), Some(Action::Rewind));
    assert_eq!(game.read_action("q"), Some(Action::Quit));
    assert_eq!(game.read_action("quit"), Some(Action::Quit));
    assert_eq!(game.read_action("wa3"), Some(Action::Move(Move::white(0, 2))));
    assert_eq!(game.read_action("bc1"), None);
    assert_eq!(game.read_action("ba1"), None);
    assert_eq!(game.read_action("hello"), None);
    assert_eq!(game.read_action(""), None);
}

#[test]
fn a_game_plays_and_rewinds() {
    let mut game = Game::new(None);
    let start = game.board;
    assert!(game.apply(Action::Rewind));
    assert_eq!(game.board, start);
    assert!(game.apply(Action::Move(Move::black(2, 2))));
    assert_eq!(game.board.fen(), "//2b// 89abcdef");
    assert_eq!(game.history, vec![start]);
    assert!(game.apply(Action::Move(Move::white(2, 2))));
    assert_eq!(game.board.fen(), "//2b// 89abcdef");
    assert_eq!(game.history.len(), 1);
    assert!(game.apply(Action::Rewind));
    assert_eq!(game.board, start);
    assert!(game.history.is_empty());
    assert!(!game.apply(Action::Quit));
    assert_eq!(game.board, start);
}

#[test]
fn a_game_is_over_when_no_move_is_left() {
    let board = Board::from_fen("wbbww/wbwbw/b1w1b/bbwww/wwwwb 034567ef").unwrap();
    assert!(Game::new(Some(board)).is_over());
}

#[test]
fn same_text_compares_texts() {
    assert!(same_text("quit", "quit"));
    assert!(!same_text("quit", "qui"));
    assert!(!same_text("quit", "quiz"));
    assert!(same_text("", ""));
}
