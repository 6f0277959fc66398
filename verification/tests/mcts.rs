use ascacou::mcts::{last_max, playout_value, rollout, NodeData, Solver};
use ascacou::{Board, Move};
use rand::rngs::SmallRng;
use rand::SeedableRng;

fn uct(score: i32, visits: u32, parent_visits: u32) -> i64 {
    let int_factor = 100_000_000f64;
    let exploitation = score as f64 / visits as f64;
    let exploration = (2f64 * (parent_visits as f64).log2() / visits as f64).sqrt();
    (int_factor * (exploitation + exploration)) as i64
}

#[test]
fn a_new_node_has_no_visit() {
    let node = NodeData::new(Move::white(1, 2));
    assert_eq!(node.visits, 0);
    assert_eq!(node.score, 0);
    assert_eq!(node.uct, 0);
    assert_eq!(node.mov, Move::white(1, 2));
}

#[test]
fn last_max_takes_the_last_of_the_greatest() {
    assert_eq!(last_max(&vec![]), None);
    assert_eq!(last_max(&vec![3]), Some(0));
    assert_eq!(last_max(&vec![1, 5, 2, 5, 4]), Some(3));
    assert_eq!(last_max(&vec![-3, -7]), Some(0));
}

#[test]
fn the_search_counts_its_iterations() {
    let mut rng = SmallRng::seed_from_u64(7);
    let board = Board::from_fen("1wbw/2b/1bb/5/5 01234567").unwrap();
    let mut solver = Solver::new(board);
    assert_eq!(solver.iterations(), 0);
    assert_eq!(solver.current_best_move(), None);
    assert_eq!(solver.current_best_continuation(), vec![]);
    assert_eq!(solver.tree_depth(), 0);
    for n in 1..=300 {
        solver.run_search_iteration(&mut rng, &uct);
        assert_eq!(solver.iterations(), n);
        let mov = solver.current_best_move().unwrap();
        assert!(board.next(&mov).is_some());
    }
    let children = solver.root_children();
    assert_eq!(children.len(), board.possible_moves().len());
    assert_eq!(children.iter().map(|node| node.visits).sum::<u32>(), 300);
    for node in children.iter() {
        assert!(node.visits >= 1);
        assert!(node.score.unsigned_abs() <= node.visits);
        assert!(board.next(&node.mov).is_some());
    }
    let best = children.iter().map(|node| node.visits).max().unwrap();
    let last_best = children.iter().rev().find(|node| node.visits == best).unwrap();
    assert_eq!(solver.current_best_move(), Some(last_best.mov));
    let depth = solver.tree_depth();
    assert!(depth >= 2);
    assert!(depth >= solver.current_best_continuation().len());
    assert!(depth <= 19);
}

#[test]
fn the_best_continuation_can_be_played() {
    let mut rng = SmallRng::seed_from_u64(11);
    let board = Board::from_fen("bb1ww/www1w/1bb/1bww/2w 013457df").unwrap();
    let line = Solver::best_continuation(board, 2000, &mut rng, &uct);
    assert!(!line.is_empty());
    let first = Solver::solve(board, 0, &mut rng, &uct);
    assert_eq!(first.current_best_move(), None);
    let mut current = board;
    for mov in line {
        current = current.next(&mov).unwrap();
    }
}

#[test]
fn a_position_without_moves_has_no_best_move() {
    let mut rng = SmallRng::seed_from_u64(3);
    let board = Board::from_fen("wbbww/wbwbw/b1w1b/bbwww/wwwwb 034567ef").unwrap();
    assert_eq!(Solver::best_move(board, 50, &mut rng, &uct), None);
    assert_eq!(Solver::best_continuation(board, 50, &mut rng, &uct), vec![]);
    assert_eq!(Solver::solve(board, 50, &mut rng, &uct).iterations(), 50);
}

#[test]
fn the_search_finds_the_only_move() {
    let mut rng = SmallRng::seed_from_u64(5);
    let board = Board::from_fen("wwwbb/bwbwb/bbbww/bbwww/w 01234567").unwrap();
    let moves = board.possible_moves();
    let best = Solver::best_move(board, 500, &mut rng, &uct).unwrap();
    assert!(moves.contains(&best));
}

#[test]
fn a_rollout_ends_where_no_move_is_left() {
    let mut rng = SmallRng::seed_from_u64(42);
    for _ in 0..20 {
        let board = Board::random_empty(&mut rng);
        let (end, side) = rollout(board, &mut rng);
        assert!(end.possible_moves().is_empty());
        assert!(end.is_terminal());
        let plies = end.played_moves - board.played_moves;
        assert_eq!(side, if plies % 2 == 0 { 1 } else { -1 });
        let value = playout_value(&end, side);
        assert_eq!(value, ((end.current_score() * side) as i32).signum());
    }
}

#[test]
fn playout_value_is_the_sign_for_the_side() {
    let won = Board::from_fen("1wbw/2bb/1bb/5/5 89abcdef").unwrap();
    assert_eq!(won.current_score(), 1);
    assert_eq!(playout_value(&won, 1), 1);
    assert_eq!(playout_value(&won, -1), -1);
    let even = Board::from_fen("1wbw/2b/1bb/5/5 01234567").unwrap();
    assert_eq!(playout_value(&even, 1), 0);
    assert_eq!(playout_value(&even, -1), 0);
}
