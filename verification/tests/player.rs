use ascacou::{Color, Player, TileSet};
use rand::rngs::SmallRng;
use rand::SeedableRng;

#[test]
fn test_fen_part() {
    let player = Player::new(TileSet::from_vec(&vec![15, 14, 13, 12, 11, 10, 9, 8]));
    assert_eq!(player.fen_part(), "89abcdef");
}

#[test]
fn default_players_share_out_the_tiles() {
    let (first, second) = Player::default_set();
    assert_eq!(first.fen_part(), "01234567");
    assert_eq!(second.fen_part(), "89abcdef");
    assert_eq!(first.favorite_color, Color::White);
    assert_eq!(second.favorite_color, Color::Black);
    assert!(first.has_tile(3));
    assert!(!first.has_tile(8));
}

#[test]
fn players_from_current_tiles() {
    let (first, second) = Player::from_current_tiles([1, 3, 7, 10, 11, 12, 13, 15]);
    assert_eq!(first.fen_part(), "137abcdf");
    assert_eq!(second.fen_part(), "0245689e");
}

#[test]
fn random_players_share_out_the_tiles() {
    let mut rng = SmallRng::seed_from_u64(42);
    for _ in 0..50 {
        let (first, second) = Player::random_set(&mut rng);
        assert_eq!(first.tiles.size(), 8);
        assert_eq!(second.tiles.size(), 8);
        assert_eq!(first.tiles.complement(), second.tiles);
        assert_eq!(first.favorite_color, first.tiles.most_present_color());
    }
}
