use ascacou::{Color, TileSet};

#[test]
fn test_tileset_iterator() {
    for tiles in vec![
        vec![0, 3, 5, 7, 8, 9, 10, 15],
        vec![1, 2, 4, 6, 8, 9, 10, 11],
    ] {
        let tileset: TileSet = TileSet::from_vec(&tiles);
        let collected_tiles: Vec<u8> = tileset.to_vec();
        assert_eq!(tiles, collected_tiles);
    }
}

#[test]
fn test_tileset_has() {
    let tileset: TileSet = TileSet::from_vec(&vec![0, 3, 5, 7, 8, 9, 10, 15]);
    assert!(tileset.has(0));
    assert!(tileset.has(3));
    assert!(!tileset.has(4));
    assert!(tileset.has(9));
    assert!(!tileset.has(14));
    assert!(tileset.has(15));
    let tileset: TileSet = TileSet::from_vec(&vec![1, 2, 4, 6, 8, 9, 10, 11]);
    assert!(!tileset.has(0));
    assert!(!tileset.has(15));
}

#[test]
fn test_count_blacks() {
    let mostly_white: TileSet = TileSet::from_vec(&vec![0, 1, 2, 3, 4, 5, 6, 7]);
    let mostly_black: TileSet = TileSet::from_vec(&vec![8, 9, 10, 11, 12, 13, 14, 15]);
    let same_same: TileSet = TileSet::from_vec(&vec![4, 5, 6, 7, 8, 9, 10, 11]);

    assert_eq!(mostly_white.count_blacks(), 12);
    assert_eq!(mostly_black.count_blacks(), 20);
    assert_eq!(same_same.count_blacks(), 16);
}

#[test]
fn tileset_add_and_union() {
    let mut set = TileSet::empty();
    assert_eq!(set.size(), 0);
    let mut one = set.try_add(5).unwrap();
    assert_eq!(one, TileSet::new(1 << 5));
    assert_eq!(one.try_add(5), None);
    let two = one.try_add(9).unwrap();
    assert_eq!(two.to_vec(), vec![5, 9]);
    assert_eq!(two.size(), 2);
    let other = TileSet::from_vec(&vec![1, 2]);
    assert_eq!(two.try_union(&other).unwrap().to_vec(), vec![1, 2, 5, 9]);
    assert_eq!(two.try_union(&one), None);
    assert_eq!(two.union(&one), two);
    assert_eq!(two.intersection(&one), one);
}

#[test]
fn tileset_complement_and_full() {
    let low = TileSet::from_vec(&vec![0, 1, 2, 3, 4, 5, 6, 7]);
    let high = low.complement();
    assert_eq!(high.to_vec(), vec![8, 9, 10, 11, 12, 13, 14, 15]);
    assert!(!low.is_full());
    assert!(low.try_union(&high).unwrap().is_full());
    assert_eq!(low.try_union(&high).unwrap().size(), 16);
    assert_eq!(TileSet::empty().complement(), TileSet::new(0xFFFF));
}

#[test]
fn tileset_most_present_color() {
    let mostly_white = TileSet::from_vec(&vec![0, 1, 2, 3, 4, 5, 6, 7]);
    let mostly_black = TileSet::from_vec(&vec![8, 9, 10, 11, 12, 13, 14, 15]);
    let same_same = TileSet::from_vec(&vec![4, 5, 6, 7, 8, 9, 10, 11]);
    assert_eq!(mostly_white.most_present_color(), Color::White);
    assert_eq!(mostly_black.most_present_color(), Color::Black);
    assert_eq!(same_same.most_present_color(), Color::Black);
}
