use ascacou::api::{moves, play, solve};

#[test]
fn solve_gives_the_text_of_the_best_move() {
    assert_eq!(solve("1wbw/2b/1bb/5/5 01234567", 1), Ok("wd2".to_string()));
    assert_eq!(
        solve("wwwbb/bwbwb/bbbww/bbwww/w 01234567", 100),
        Ok("wd5".to_string())
    );
}

#[test]
fn solve_reports_what_it_cannot_do() {
    assert_eq!(
        solve("1wbw/2b/1bb/5/5 01234567", 0),
        Err("No solution found".to_string())
    );
    assert_eq!(
        solve("wbbww/wbwbw/b1w1b/bbwww/wwwwb 034567ef", 5),
        Err("No solution found".to_string())
    );
    assert_eq!(solve("5/5 01234567", 5), Err("Not enough rows".to_string()));
    assert_eq!(solve("5/5/5/5/5", 5), Err("Incomplete FEN".to_string()));
}

#[test]
fn play_gives_the_text_of_the_next_position() {
    assert_eq!(
        play("1wbw/2b/1bb/5/5 01234567", "wd2"),
        Ok("1wbw/2bw/1bb// 89abcdef".to_string())
    );
    assert_eq!(play("//// 01234567", "Bc3"), Ok("//2b// 89abcdef".to_string()));
}

#[test]
fn play_reports_what_it_cannot_do() {
    assert_eq!(
        play("1wbw/2b/1bb/5/5 01234567", "wb1"),
        Err("Invalid move".to_string())
    );
    assert_eq!(
        play("bb1ww/www1w/1bbw/1bww/2w 2689abce", "bc1"),
        Err("Invalid move".to_string())
    );
    assert_eq!(play("//// 01234567", "xc3"), Err("wrong color".to_string()));
    assert_eq!(play("//// 01234567", "bz3"), Err("wrong x".to_string()));
    assert_eq!(play("//// 01234567", "bc9"), Err("wrong y".to_string()));
    assert_eq!(play("//// 01234567", "b"), Err("missing information".to_string()));
    assert_eq!(play("//// 0123456", "bc3"), Err("Not enough tiles".to_string()));
    assert_eq!(play("//// 012345678", "bc3"), Err("Too much tiles".to_string()));
    assert_eq!(play("//// 01234566", "bc3"), Err("Duplicate tile".to_string()));
    assert_eq!(play("///// 01234567", "bc3"), Err("Too much rows".to_string()));
    assert_eq!(play("bbbbbb//// 01234567", "bc3"), Err("Too much cols".to_string()));
    assert_eq!(play("?//// 01234567", "bc3"), Err("invalid character".to_string()));
}

#[test]
fn moves_gives_the_texts_of_the_legal_moves() {
    let all = moves("//// 01234567").unwrap();
    assert_eq!(all.len(), 50);
    assert_eq!(all[0], "ba1");
    assert_eq!(all[1], "wa1");
    assert_eq!(all[49], "we5");
    assert_eq!(
        moves("wbbww/wbwbw/b1w1b/bbwww/wwwwb 034567ef"),
        Ok(Vec::<String>::new())
    );
    assert_eq!(moves("5/5/5/5"), Err("Incomplete FEN".to_string()));
}
