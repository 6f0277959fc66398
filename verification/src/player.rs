use vstd::prelude::*;
use vstd::string::StringExecFns;
use rand::Rng;
use rand::seq::IteratorRandom;
use crate::color::Color;
use crate::tileset::{all_tiles, blacks_below, elements_below, TileSet};

verus! {

/// The colour that a player with the tile values `s` plays first: black where one half or
/// more of the cells of those tiles are black, else white.
pub open spec fn favorite_of(s: Set<int>) -> Color {
    if blacks_below(s, 16) >= 16 {
        Color::Black
    } else {
        Color::White
    }
}

/// The hexadecimal digit of a tile value.
pub open spec fn hex_char(v: u8) -> char {
    if v == 0 { '0' } else if v == 1 { '1' } else if v == 2 { '2' } else if v == 3 { '3' }
    else if v == 4 { '4' } else if v == 5 { '5' } else if v == 6 { '6' } else if v == 7 { '7' }
    else if v == 8 { '8' } else if v == 9 { '9' } else if v == 10 { 'a' } else if v == 11 { 'b' }
    else if v == 12 { 'c' } else if v == 13 { 'd' } else if v == 14 { 'e' } else { 'f' }
}

/// The hexadecimal digits of a list of tile values.
pub open spec fn hex_text(tiles: Seq<u8>) -> Seq<char> {
    Seq::new(tiles.len(), |k: int| hex_char(tiles[k]))
}

/// One side of the game: the tile values it owns, and the colour it plays first.
#[derive(PartialEq, Eq, Clone, Copy, Debug, Structural)]
pub struct Player {
    pub tiles: TileSet,
    pub favorite_color: Color,
}

impl Player {
    /// The tile values that the player owns.
    pub open spec fn owned(self) -> Set<int> {
        self.tiles@
    }

    /// A player is well formed where its favorite colour is that of its tiles.
    pub open spec fn wf(self) -> bool {
        self.favorite_color == favorite_of(self.owned())
    }

    /// The two players of a new game: the first owns the tile values 0 to 7, the second
    /// the others.
    pub fn default_set() -> (r: (Player, Player))
        ensures
            r.0.wf(),
            r.1.wf(),
            r.0.owned() == Set::new(|v: int| 0 <= v < 8),
            r.1.owned() == Set::new(|v: int| 8 <= v < 16),
    {
        let low: Vec<u8> = vec![0, 1, 2, 3, 4, 5, 6, 7];
        let high: Vec<u8> = vec![15, 14, 13, 12, 11, 10, 9, 8];
        let first = Player::new(TileSet::from_vec(&low));
        let second = Player::new(TileSet::from_vec(&high));
        proof {
            assert forall|v: int| 0 <= v < 8 implies first.owned().contains(v) by {
                assert(low[v] == v);
            }
            assert forall|v: int| 8 <= v < 16 implies second.owned().contains(v) by {
                assert(high[15 - v] == v);
            }
            assert(first.owned() =~= Set::new(|v: int| 0 <= v < 8));
            assert(second.owned() =~= Set::new(|v: int| 8 <= v < 16));
        }
        (first, second)
    }

    /// Two players with eight tile values each, drawn at random.
    pub fn random_set<R: Rng>(rng: &mut R) -> (r: (Player, Player))
        ensures
            r.0.wf(),
            r.1.wf(),
            r.0.owned().subset_of(all_tiles()),
            r.0.owned().len() == 8,
            r.1.owned() == all_tiles().difference(r.0.owned()),
    {
        let drawn = choose_eight(rng);
        let tiles = TileSet::from_vec(&drawn);
        proof {
            assert(tiles@ =~= drawn@.map_values(|t: u8| t as int).to_set()) by {
                let ints = drawn@.map_values(|t: u8| t as int);
                assert forall|v: int| tiles@.contains(v) implies ints.to_set().contains(v) by {
                    let k = choose|k: int| 0 <= k < drawn.len() && drawn[k] == v;
                    assert(ints[k] == v);
                }
                assert forall|v: int| ints.to_set().contains(v) implies tiles@.contains(v) by {
                    let k = choose|k: int| 0 <= k < ints.len() && ints[k] == v;
                    assert(drawn[k] == v);
                }
            }
            let ints = drawn@.map_values(|t: u8| t as int);
            assert(ints.no_duplicates());
            ints.unique_seq_to_set();
        }
        Player::pair(tiles)
    }

    /// The player who owns the tiles, with the favorite colour that they give.
    pub fn new(tiles: TileSet) -> (r: Player)
        ensures
            r.wf(),
            r.tiles == tiles,
    {
        Player { tiles, favorite_color: tiles.most_present_color() }
    }

    /// The player to move, who owns `tiles`, and the opponent, who owns the other values.
    pub fn pair(tiles: TileSet) -> (r: (Player, Player))
        ensures
            r.0.wf(),
            r.1.wf(),
            r.0.tiles == tiles,
            r.1.owned() == all_tiles().difference(tiles@),
    {
        (Player::new(tiles), Player::new(tiles.complement()))
    }

    /// The player to move, who owns the eight values of `tiles`, and the opponent, who
    /// owns the other values.
    pub fn from_current_tiles(tiles: [u8; 8]) -> (r: (Player, Player))
        requires
            forall|k: int| 0 <= k < 8 ==> tiles[k] < 16,
        ensures
            r.0.wf(),
            r.1.wf(),
            forall|v: int| r.0.owned().contains(v) <==> exists|k: int| 0 <= k < 8 && tiles[k] == v,
            r.1.owned() == all_tiles().difference(r.0.owned()),
    {
        let mut list: Vec<u8> = Vec::new();
        let mut k: usize = 0;
        while k < 8
            invariant
                k <= 8,
                list.len() == k,
                forall|j: int| 0 <= j < k ==> list[j] == tiles[j],
            decreases 8 - k,
        {
            list.push(tiles[k]);
            k += 1;
        }
        Player::pair(TileSet::from_vec(&list))
    }

    /// Whether the player owns the tile value.
    pub fn has_tile(&self, tile: u8) -> (r: bool)
        requires
            tile < 16,
        ensures
            r == self.owned().contains(tile as int),
    {
        self.tiles.has(tile)
    }

    /// The player's tile values as hexadecimal digits, in ascending order.
    pub fn fen_part(&self) -> (r: String)
        ensures
            r@ == hex_text(elements_below(self.owned(), 16)),
    {
        let list = self.tiles.to_vec();
        let mut out = String::new();
        let mut k: usize = 0;
        while k < list.len()
            invariant
                k <= list.len(),
                out@ == hex_text(list@.take(k as int)),
            decreases list.len() - k,
        {
            out.append(hex_str(list[k]));
            proof {
                assert(list@.take(k + 1) =~= list@.take(k as int).push(list[k as int]));
                assert(hex_text(list@.take(k + 1)) =~= hex_text(list@.take(k as int)) + seq![hex_char(list[k as int])]);
            }
            k += 1;
        }
        proof {
            assert(list@.take(list.len() as int) =~= list@);
        }
        out
    }
}

/// The hexadecimal digit of a tile value, as a text.
pub fn hex_str(v: u8) -> (r: &'static str)
    ensures
        r@ == seq![hex_char(v)],
{
    proof {
        reveal_strlit("0");
        reveal_strlit("1");
        reveal_strlit("2");
        reveal_strlit("3");
        reveal_strlit("4");
        reveal_strlit("5");
        reveal_strlit("6");
        reveal_strlit("7");
        reveal_strlit("8");
        reveal_strlit("9");
        reveal_strlit("a");
        reveal_strlit("b");
        reveal_strlit("c");
        reveal_strlit("d");
        reveal_strlit("e");
        reveal_strlit("f");
    }
    let r = if v == 0 { "0" } else if v == 1 { "1" } else if v == 2 { "2" } else if v == 3 { "3" }
    else if v == 4 { "4" } else if v == 5 { "5" } else if v == 6 { "6" } else if v == 7 { "7" }
    else if v == 8 { "8" } else if v == 9 { "9" } else if v == 10 { "a" } else if v == 11 { "b" }
    else if v == 12 { "c" } else if v == 13 { "d" } else if v == 14 { "e" } else { "f" };
    assert(r@ =~= seq![hex_char(v)]);
    r
}

/// `choose_multiple` of rand's `IteratorRandom`, asked for eight of the sixteen tile values:
/// it hands out eight values of the range, no position of the range twice.
#[verifier::external_body]
fn choose_eight<R: Rng>(rng: &mut R) -> (r: Vec<u8>)
    ensures
        r.len() == 8,
        forall|k: int| 0 <= k < 8 ==> r[k] < 16,
        forall|j: int, k: int| 0 <= j < k < 8 ==> r[j] != r[k],
{
    (0..16u8).choose_multiple(rng, 8)
}

} // verus!
