use ascacou::fen::FenError;
use ascacou::grid::tile_at;
use ascacou::mcts::rollout;
use ascacou::{Board, Color, Move, TileSet};
use rand::rngs::SmallRng;
use rand::seq::IndexedRandom;
use rand::SeedableRng;

fn tile(board: &Board, x: u8, y: u8) -> u8 {
    tile_at(&board.black_mask, Move::mask_at(x, y))
}

#[test]
fn test_tile_at() {
    let mut board = Board::from_fen("bw/ww/5/5/5 01234567").unwrap();
    assert_eq!(tile(&board, 0, 0), 0b0001);
    board = Board::from_fen("bb/ww/5/5/5 01234567").unwrap();
    assert_eq!(tile(&board, 0, 0), 0b0011);
    board = Board::from_fen("bb/bw/5/5/5 01234567").unwrap();
    assert_eq!(tile(&board, 0, 0), 0b0111);
    board = Board::from_fen("bb/bb/5/5/5 01234567").unwrap();
    assert_eq!(tile(&board, 0, 0), 0b1111);
    board = Board::from_fen("wwbb/wwbbb/wb/5/5 01234567").unwrap();
    assert_eq!(tile(&board, 0, 0), 0b0000);
    assert_eq!(tile(&board, 1, 0), 0b1010);
    assert_eq!(tile(&board, 2, 0), 0b1111);
    assert_eq!(tile(&board, 2, 0), 0b1111);
    assert_eq!(tile(&board, 0, 1), 0b1000);
}

#[test]
fn test_next() {
    let board = Board::from_fen("bb1ww/www1w/1bbw/1bww/2w 2689abce").unwrap();
    let mov = Move::try_from("bc1").unwrap();
    assert!(board.next(&mov).is_none());
}

#[test]
fn test_from_fen_set_played_tiles() {
    let board = Board::from_fen("bb1ww/www1w/1bbw/1bww/2w 2689abce").unwrap();
    let expected_played_tiles: TileSet = TileSet::new(0b0001_0000_1000_1010);
    assert_eq!(board.played_tiles, expected_played_tiles);
}

#[test]
fn board_current_score() {
    assert_eq!(
        Board::from_fen("1wbw/2b/1bb/5/5 01234567")
            .unwrap()
            .current_score(),
        0
    );
    assert_eq!(
        Board::from_fen("1wbw/2bw/1bb/5/5 89abcdef")
            .unwrap()
            .current_score(),
        -1,
        "Score was not -1 for board below\n{}",
        Board::from_fen("1wbw/2bw/1bb/5/5 89abcdef").unwrap().fen()
    );
    assert_eq!(
        Board::from_fen("1wbw/2bb/1bb/5/5 89abcdef")
            .unwrap()
            .current_score(),
        1
    );
}

#[test]
fn current_score() {
    assert_eq!(
        Board::from_fen("1wbw/2bw/1bb/5/5 89abcdef")
            .unwrap()
            .current_score(),
        -1,
        "Score was not -1 for board below\n{}",
        Board::from_fen("1wbw/2bw/1bb/5/5 89abcdef").unwrap().fen()
    );
    assert_eq!(
        Board::from_fen("1wbw/2bb/1bb/5/5 89abcdef")
            .unwrap()
            .current_score(),
        1
    );
}

#[test]
fn test_tiles_from() {
    let mov = Move::try_from("wd2").unwrap();
    let board = Board::from_fen("2wwb/2w1b/2wbb/5/5 01234567").unwrap();
    println!("{}\nChecking tiles from move {}", board.fen(), mov.to_text());
    assert_eq!(
        board.tiles_from(&mov).unwrap(),
        TileSet::from_vec(&vec![0, 10, 8, 14])
    )
}

#[test]
fn impossible_move_generating_two_times_the_same_tile() {
    let board = Board::from_fen("wbbww/wbwbw/b1w1b/bbwww/wwwwb 034567ef").unwrap();
    assert_eq!(board.possible_moves(), vec![]);
}

#[test]
fn fen_is_consistent() {
    let mut fen = "2b1b/wwb1w/w1bw/bw1w/bw2b 137abcdf";
    assert_eq!(Board::from_fen(fen).unwrap().fen(), fen);
    fen = "5/5/5/5/5 01234567";
    assert_eq!(Board::from_fen(fen).unwrap().fen(), "//// 01234567");
}

#[test]
fn position_mask() {
    assert_eq!(
        Move::mask_at(0, 0),
        1u64 << 8,
        "position (0, 0) is incorrect"
    );
    assert_eq!(
        Move::mask_at(1, 0),
        1u64 << 9,
        "position (1, 0) is incorrect"
    );
    assert_eq!(
        Move::mask_at(0, 1),
        1u64 << 15,
        "position (0, 1) is incorrect"
    )
}

#[test]
fn empty_board_has_fifty_moves() {
    let board = Board::empty();
    assert_eq!(board.fen(), "//// 01234567");
    assert_eq!(board.possible_moves().len(), 50);
    assert_eq!(board.current_score(), 0);
    assert!(!board.is_terminal());
    assert!(!board.is_winning());
}

#[test]
fn next_swaps_the_players_and_counts_the_move() {
    let board = Board::from_fen("1wbw/2b/1bb/5/5 01234567").unwrap();
    let mov = Move::white(3, 1);
    let after = board.next(&mov).unwrap();
    assert_eq!(after.played_moves, board.played_moves + 1);
    assert_eq!(after.current_player, board.opponent);
    assert_eq!(after.opponent, board.current_player);
    assert_eq!(after.fen(), "1wbw/2bw/1bb// 89abcdef");
    assert_eq!(after.current_score(), -1);
    assert_eq!(after.played_tiles, TileSet::from_vec(&vec![5]));
    assert!(after.played_tiles.values() & board.played_tiles.values() == board.played_tiles.values());
}

#[test]
fn every_possible_move_can_be_played() {
    let board = Board::from_fen("2b1b/wwb1w/w1bw/bw1w/bw2b 137abcdf").unwrap();
    let moves = board.possible_moves();
    assert!(!moves.is_empty());
    for mov in moves.iter() {
        assert!(board.is_move_possible(mov));
        let after = board.next(mov).unwrap();
        assert_eq!(after.played_moves, board.played_moves + 1);
        assert!(after.current_score().abs() <= after.played_tiles.size() as i8);
    }
    for x in 0..5 {
        for y in 0..5 {
            for color in [Color::Black, Color::White] {
                let mov = Move::new(x, y, color);
                assert_eq!(moves.contains(&mov), board.next(&mov).is_some());
            }
        }
    }
}

#[test]
fn next_refuses_a_taken_cell() {
    let board = Board::from_fen("1wbw/2b/1bb/5/5 01234567").unwrap();
    assert!(board.next(&Move::black(1, 0)).is_none());
    assert!(board.next(&Move::white(1, 0)).is_none());
}

#[test]
fn terminal_when_no_move_is_left() {
    let board = Board::from_fen("wbbww/wbwbw/b1w1b/bbwww/wwwwb 034567ef").unwrap();
    assert!(board.is_terminal());
    assert!(!board.played_tiles.is_full());
}

#[test]
fn from_fen_errors() {
    assert_eq!(Board::from_fen("5/5 01234567"), Err(FenError::NotEnoughRows));
    assert_eq!(Board::from_fen("5/5/5/5/5/5 01234567"), Err(FenError::TooMuchRows));
    assert_eq!(Board::from_fen("bbbbbb/5/5/5/5 01234567"), Err(FenError::TooMuchCols));
    assert_eq!(Board::from_fen("51/5/5/5/5 01234567"), Err(FenError::TooMuchCols));
    assert_eq!(Board::from_fen("5/x/5/5/5 01234567"), Err(FenError::InvalidCharacter));
    assert_eq!(Board::from_fen("5/5/5/5/5 0123456x"), Err(FenError::InvalidCharacter));
    assert_eq!(Board::from_fen("5/5/5/5/5"), Err(FenError::IncompleteFen));
    assert_eq!(Board::from_fen("5/5/5/5/5 "), Err(FenError::IncompleteFen));
    assert_eq!(Board::from_fen("5/5/5/5/5 012345678"), Err(FenError::TooMuchTiles));
    assert_eq!(Board::from_fen("5/5/5/5/5 0123456"), Err(FenError::NotEnoughTiles));
    assert_eq!(Board::from_fen("5/5/5/5/5 01234566"), Err(FenError::DuplicateTile));
    assert_eq!(FenError::DuplicateTile.message(), "Duplicate tile");
    assert_eq!(FenError::IncompleteFen.message(), "Incomplete FEN");
}

#[test]
fn from_fen_reads_upper_case_tiles() {
    let board = Board::from_fen("//// 89ABCDEF").unwrap();
    assert_eq!(board.fen(), "//// 89abcdef");
}

#[test]
fn reading_the_text_of_a_board_gives_the_board_back() {
    let mut rng = SmallRng::seed_from_u64(2024);
    for _ in 0..20 {
        let mut board = Board::random_empty(&mut rng);
        loop {
            assert_eq!(Board::from_fen(&board.fen()), Ok(board));
            assert_eq!(board.played_moves as u32, board.pieces_mask.count_ones());
            assert!(board.current_score().unsigned_abs() <= board.played_tiles.size());
            let moves = board.possible_moves();
            assert_eq!(board.is_terminal(), moves.is_empty() || board.played_tiles.is_full());
            match moves.choose(&mut rng) {
                Some(mov) => {
                    let after = board.next(mov).unwrap();
                    assert_eq!(after.played_moves, board.played_moves + 1);
                    assert_eq!(
                        after.played_tiles.values() & board.played_tiles.values(),
                        board.played_tiles.values()
                    );
                    assert_eq!(
                        after.played_tiles,
                        TileSet::from_vec(&after.filled_tiles())
                    );
                    assert_eq!(
                        after.filled_tiles().len(),
                        after.played_tiles.size() as usize
                    );
                    board = after;
                }
                None => break,
            }
        }
        let (end, _) = rollout(board, &mut rng);
        assert_eq!(end, board);
    }
}

#[test]
fn is_winning_asks_for_a_finished_game() {
    let board = Board::from_fen("1wbw/2bb/1bb/5/5 89abcdef").unwrap();
    assert_eq!(board.current_score(), 1);
    assert!(!board.is_winning());
    let board = Board::from_fen("wbbww/wbwbw/b1w1b/bbwww/wwwwb 034567ef").unwrap();
    assert!(board.is_terminal());
    assert_eq!(board.is_winning(), board.current_score() > 0);
}

#[test]
fn a_text_may_show_two_tiles_of_one_value() {
    let board = Board::from_fen("bbb/bbb/5/5/5 01234567").unwrap();
    assert_eq!(board.filled_tiles(), vec![15, 15]);
    assert_eq!(board.played_tiles, TileSet::from_vec(&vec![15]));
    assert_eq!(board.played_tiles.size(), 1);
    assert_eq!(board.current_score(), -2);
}
