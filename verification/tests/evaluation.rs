use ascacou::evaluation::{almost_full_tiles, evaluate, half_tiles};
use ascacou::Board;

#[test]
fn evaluation_of_the_first_moves_is_zero() {
    assert_eq!(evaluate(&Board::empty()), 0);
    assert_eq!(evaluate(&Board::from_fen("b//// 01234567").unwrap()), 0);
}

#[test]
fn evaluation_after_two_moves_counts_half_tiles() {
    let board = Board::from_fen("bw//// 0123459d").unwrap();
    assert_eq!(half_tiles(&board), 4);
    assert_eq!(almost_full_tiles(&board), 0);
    assert_eq!(evaluate(&board), 4);
    let even = Board::from_fen("bw//// 01234567").unwrap();
    assert_eq!(half_tiles(&even), 0);
    assert_eq!(evaluate(&even), 0);
}

#[test]
fn evaluation_after_three_moves_counts_almost_full_tiles_too() {
    let board = Board::from_fen("bw/b/// 0123459d").unwrap();
    assert_eq!(almost_full_tiles(&board), 2);
    assert_eq!(half_tiles(&board), 0);
    assert_eq!(evaluate(&board), 2);
}

#[test]
fn evaluation_in_the_middle_game() {
    let board = Board::from_fen("1wbw/2b/1bb/5/5 01234567").unwrap();
    assert_eq!(board.current_score(), 0);
    assert_eq!(almost_full_tiles(&board), -3);
    assert_eq!(half_tiles(&board), 0);
    assert_eq!(evaluate(&board), -3);
    let board = Board::from_fen("bw/bw/5/5/5 01234567").unwrap();
    assert_eq!(board.current_score(), 1);
    assert_eq!(almost_full_tiles(&board), 0);
    assert_eq!(half_tiles(&board), 0);
    assert_eq!(evaluate(&board), 1);
}

#[test]
fn evaluation_weights_follow_the_number_of_pieces() {
    for fen in [
        "2b1b/wwb1w/w1bw/bw1w/bw2b 137abcdf",
        "bb1ww/www1w/1bb/1bww/2w 013457df",
        "bwwb/2www/3wb/bbw/1w1wb 025689ad",
        "2bbw/bww1w/w1w1w/1w1bw/wbb1b 013679ce",
        "1wbw/2bw/1bb/5/5 89abcdef",
    ] {
        let board = Board::from_fen(fen).unwrap();
        let full = board.current_score() as i16;
        let almost = almost_full_tiles(&board) as i16;
        let half = half_tiles(&board) as i16;
        let expected = match board.played_moves {
            0..=1 => 0,
            2 => half,
            3 => almost + half,
            4..=8 => full + almost + half,
            9..=16 => full * 2 + almost * 2 + half,
            17..=20 => full * 4 + almost + half,
            _ => full * 8,
        };
        assert_eq!(evaluate(&board), expected, "{}", fen);
    }
}

#[test]
fn evaluation_at_the_end_counts_full_tiles_only() {
    let board = Board::from_fen("wwwbb/bwbwb/bbbww/bbwww/w 01234567").unwrap();
    assert_eq!(board.played_moves, 21);
    assert_eq!(board.current_score(), 2);
    assert_eq!(evaluate(&board), 16);
}
