use ascacou::solver::{next_boards, partial_solve, solve, Solver};
use ascacou::{Board, Move};

#[test]
fn test_forced_moves() {
    for (fen, expected) in [
        ("bwwb/2www/3wb/bbw/1w1wb 025689ad", vec![]),
        (
            "bb1ww/www1w/1bb/1bww/2w 013457df",
            vec!["wc1", "wa3", "wd3"],
        ),
        ("wwbw/bb2b/1wwb/2b/wb1wb 124589ef", vec!["wb4"]),
        ("w3w/wbbbb/2b1b/2bw/bwb1w 013568be", vec!["wd3"]),
        ("bww/1bb1w/wb/1wwbw/1www 0149bcde", vec!["ba4"]),
        ("wbbbb/b2ww/bbw/b1b/1b1b 13678adf", vec!["bc2"]),
        (
            "bbwwb/bbwww/b3b/bwwww/2w1b 01389cdf",
            vec!["bd3", "bb5", "bd5"],
        ),
        ("bww/1w1ww/2wwb/1wbb/1b1ww 023679ab", vec!["bb3"]),
        ("bw2b/ww2b/bww1w/w1b/w1w1b 12346cdf", vec!["bb4"]),
    ] {
        let board = Board::from_fen(fen).unwrap();
        let forced: Vec<String> = next_boards(&board, true)
            .iter()
            .map(|(_, m)| m.to_text())
            .collect();
        assert_eq!(forced, expected, "for board:\n{}", board.fen());
    }
}

#[test]
fn it_finds_winning_continuations() {
    let board = Board::from_fen("2bbw/bww1w/w1w1w/1w1bw/wbb1b 013679ce").unwrap();
    println!("{:?}", solve(&board, Some(8)));
    assert!(matches!(
        solve(&board, Some(8)),
        (x, Some(_), _) if x > 0
    ));
    let board = Board::from_fen("1wbw/2b/1bb/5/5 01234567").unwrap();
    assert_eq!(solve(&board, Some(1)), (1, Some(Move::white(3, 1)), 39))
}

#[test]
fn it_solves_endings_quickly() {
    let board = Board::from_fen("wwwbb/bwbwb/bbbww/bbwww/w 01234567").unwrap();
    let expected_move = Move::white(3, 4);
    let solved = solve(&board, Some(100));
    assert!(
        matches!(solved, (3, Some(mov), _) if mov == expected_move),
        "expected {}, got {:?}",
        expected_move.to_text(),
        solved,
    )
}

#[test]
fn partial_solve_gives_the_sign_of_solve() {
    for fen in [
        "2bbw/bww1w/w1w1w/1w1bw/wbb1b 013679ce",
        "1wbw/2b/1bb/5/5 01234567",
        "wwwbb/bwbwb/bbbww/bbwww/w 01234567",
        "bb1ww/www1w/1bb/1bww/2w 013457df",
        "wbbww/wbwbw/b1w1b/bbwww/wwwwb 034567ef",
    ] {
        let board = Board::from_fen(fen).unwrap();
        for depth in [Some(0), Some(1), Some(2), Some(3)] {
            let full = solve(&board, depth);
            let partial = partial_solve(&board, depth);
            assert_eq!(full.0.signum(), partial.0.signum(), "{} at {:?}", fen, depth);
            assert_eq!(full, solve(&board, depth));
        }
    }
    let board = Board::from_fen("wwwbb/bwbwb/bbbww/bbwww/w 01234567").unwrap();
    assert_eq!(solve(&board, None).0.signum(), partial_solve(&board, None).0.signum());
}

#[test]
fn solve_of_a_terminal_position_has_no_move() {
    let board = Board::from_fen("wbbww/wbwbw/b1w1b/bbwww/wwwwb 034567ef").unwrap();
    let (score, mov, nodes) = solve(&board, None);
    assert_eq!(score, board.current_score() as i16);
    assert_eq!(mov, None);
    assert_eq!(nodes, 1);
}

#[test]
fn all_moves_come_in_the_order_of_the_favorite_color() {
    let board = Board::empty();
    let children = next_boards(&board, false);
    assert_eq!(children.len(), 50);
    assert_eq!(children[0].1, Move::white(2, 2));
    assert_eq!(children[1].1, Move::white(2, 1));
    assert_eq!(children[24].1, Move::white(4, 4));
    assert_eq!(children[25].1, Move::black(2, 2));
    assert_eq!(children[49].1, Move::black(4, 4));
    let board = Board::from_fen("//// 89abcdef").unwrap();
    let children = next_boards(&board, false);
    assert_eq!(children[0].1, Move::black(2, 2));
    assert_eq!(children[25].1, Move::white(2, 2));
    for (child, mov) in children {
        assert_eq!(board.next(&mov), Some(child));
    }
}

#[test]
fn move_scores_lists_every_move_with_what_it_gives() {
    let board = Board::from_fen("1wbw/2b/1bb/5/5 01234567").unwrap();
    let scores = Solver::move_scores(&board, Some(0));
    assert_eq!(scores.len(), 38);
    assert_eq!(scores[0], (Move::white(3, 1), 1));
    assert_eq!(scores[1].1, 0);
    assert_eq!(scores[37].1, -2);
    assert_eq!(scores[36].1, -2);
    assert!(scores[36].0 == Move::black(1, 1) || scores[36].0 == Move::white(1, 1));
    for pair in scores.windows(2) {
        assert!(pair[0].1 >= pair[1].1);
    }
    for (mov, score) in scores.iter() {
        let child = board.next(mov).unwrap();
        assert_eq!(*score, -(child.current_score() as i16));
    }
}

#[test]
fn move_scores_agree_with_solve() {
    let board = Board::from_fen("wwwbb/bwbwb/bbbww/bbwww/w 01234567").unwrap();
    let scores = Solver::move_scores(&board, None);
    let (best, _, _) = solve(&board, Some(100));
    assert_eq!(scores.len(), board.possible_moves().len());
    assert_eq!(scores[0].1, best);
    assert!(scores.iter().any(|(mov, score)| *mov == Move::white(3, 4) && *score == 3));
}

#[test]
fn solve_gives_the_first_of_the_best_moves() {
    let board = Board::from_fen("bb1ww/www1w/1bb/1bww/2w 013457df").unwrap();
    let (score, mov, _) = solve(&board, Some(2));
    let mov = mov.unwrap();
    let first = next_boards(&board, false)
        .into_iter()
        .find(|(child, _)| {
            let reply = next_boards(child, true)
                .iter()
                .map(|(after, _)| -(after.current_score() as i16))
                .max()
                .unwrap_or(child.current_score() as i16);
            -reply == score
        })
        .unwrap();
    assert_eq!(first.1, mov);
}
