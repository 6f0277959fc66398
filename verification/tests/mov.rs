use ascacou::mov::MoveError;
use ascacou::{Color, Move};

#[test]
fn test_try_from_string() {
    assert_eq!(Move::try_from("Ba1"), Ok(Move::new(0, 0, Color::Black)))
}

#[test]
fn mov_test_try_from_string() {
    assert_eq!(
        Move::try_from("Ba1"),
        Ok(Move {
            color: Color::Black,
            mask: Move::mask_at(0, 0)
        })
    )
}

#[test]
fn test_from_mask() {
    for (x, y, mask) in [
        (0u8, 0u8, 0b00001_0_0000000u64),
        (1u8, 0u8, 0b00010_0_0000000u64),
        (2u8, 3u8, 0b00100_0_0000000_0000000_0000000_0000000u64),
        (
            4u8,
            4u8,
            0b10000_0_0000000_0000000_0000000_0000000_0000000u64,
        ),
    ] {
        let mov_black = Move::from_mask(mask, Color::Black);
        let mov_white = Move::from_mask(mask, Color::White);
        assert_eq!(
            mov_black,
            Move::black(x as u8, y as u8),
            "position ({}, {}) is incorrect",
            x,
            y
        );
        assert_eq!(
            mov_white,
            Move::white(x as u8, y as u8),
            "position ({}, {}) is incorrect",
            x,
            y
        );
    }
}

#[test]
fn test_mask_at() {
    assert_eq!(
        Move::mask_at(0, 0),
        1u64 << 8,
        "position (0, 0) is incorrect"
    );
    assert_eq!(
        Move::mask_at(1, 0),
        1u64 << 9,
        "position (1, 0) is incorrect"
    );
    assert_eq!(
        Move::mask_at(0, 1),
        1u64 << 15,
        "position (0, 1) is incorrect"
    )
}

#[test]
fn move_text_round_trip() {
    for x in 0..5u8 {
        for y in 0..5u8 {
            for color in [Color::Black, Color::White] {
                let mov = Move::new(x, y, color);
                assert_eq!(mov.x(), x);
                assert_eq!(mov.y(), y);
                assert_eq!(mov.shift(), (y as u32) * 7 + x as u32);
                assert_eq!(Move::try_from(mov.to_text().as_str()), Ok(mov));
            }
        }
    }
    assert_eq!(Move::white(3, 1).to_text(), "wd2");
    assert_eq!(Move::black(2, 2).to_text(), "bc3");
    assert_eq!(Move::try_from("wa1"), Ok(Move::white(0, 0)));
    assert_eq!(Move::try_from("WE5"), Ok(Move::white(4, 4)));
}

#[test]
fn move_text_errors() {
    assert_eq!(Move::try_from(""), Err(MoveError::MissingInformation));
    assert_eq!(Move::try_from("b"), Err(MoveError::MissingInformation));
    assert_eq!(Move::try_from("ba"), Err(MoveError::MissingInformation));
    assert_eq!(Move::try_from("xa1"), Err(MoveError::WrongColor));
    assert_eq!(Move::try_from("w1a"), Err(MoveError::WrongX));
    assert_eq!(Move::try_from("wf5"), Err(MoveError::WrongX));
    assert_eq!(Move::try_from("bd6"), Err(MoveError::WrongY));
    assert_eq!(MoveError::WrongColor.message(), "wrong color");
    assert_eq!(MoveError::MissingInformation.message(), "missing information");
}

#[test]
fn colors_and_moves_flip() {
    assert_eq!(!Color::Black, Color::White);
    assert_eq!(!Color::White, Color::Black);
    assert_eq!(!Move::black(1, 2), Move::white(1, 2));
    assert!(Move::black(1, 2).is_black());
    assert!(Move::white(1, 2).is_white());
}
