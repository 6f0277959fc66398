use ascacou::heuristic::{sorted_moves, square_score};
use ascacou::{Board, Color, Move};

#[test]
fn square_score_of_corners_edges_and_centre() {
    assert_eq!(square_score(0, 0), 0);
    assert_eq!(square_score(4, 4), 0);
    assert_eq!(square_score(0, 4), 0);
    assert_eq!(square_score(4, 0), 0);
    assert_eq!(square_score(0, 2), 1);
    assert_eq!(square_score(3, 4), 1);
    assert_eq!(square_score(2, 2), 2);
    assert_eq!(square_score(1, 3), 2);
}

#[test]
fn sorted_moves_puts_the_favorite_color_and_the_centre_first() {
    let moves = vec![
        Move::white(0, 0),
        Move::black(0, 0),
        Move::white(2, 2),
        Move::black(0, 2),
        Move::black(2, 2),
        Move::white(0, 2),
    ];
    let sorted = sorted_moves(moves.clone(), Color::Black);
    assert_eq!(
        sorted,
        vec![
            Move::black(2, 2),
            Move::black(0, 2),
            Move::black(0, 0),
            Move::white(2, 2),
            Move::white(0, 2),
            Move::white(0, 0),
        ]
    );
    let sorted = sorted_moves(moves, Color::White);
    assert_eq!(sorted[0], Move::white(2, 2));
    assert_eq!(sorted[5], Move::black(0, 0));
}

#[test]
fn sorted_moves_keeps_every_move() {
    let board = Board::from_fen("1wbw/2b/1bb/5/5 01234567").unwrap();
    let moves = board.possible_moves();
    let sorted = sorted_moves(moves.clone(), board.current_player.favorite_color);
    assert_eq!(sorted.len(), moves.len());
    for mov in moves.iter() {
        assert_eq!(sorted.iter().filter(|m| *m == mov).count(), 1);
    }
    let rank = |m: &Move| (if m.color == Color::White { 3 } else { 0 }) + square_score(m.x(), m.y());
    for pair in sorted.windows(2) {
        assert!(rank(&pair[0]) >= rank(&pair[1]));
    }
}
