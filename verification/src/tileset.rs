use vstd::prelude::*;
use crate::bits::{
    bit16, ones16_below, lemma_bit16_logic, lemma_bit16_single, lemma_bit16_ext,
    lemma_trailing_zeros16,
};
use crate::color::Color;

verus! {

/// For each tile value, how many of its four cells are black.
pub const BLACK_COLOR_PRESENCE: [u8; 16] = [0, 1, 1, 2, 1, 2, 2, 3, 1, 2, 2, 3, 2, 3, 3, 4];

/// The number of black cells of the tile value `v`: one for each of its four bits.
pub open spec fn black_cells(v: int) -> int {
    v % 2 + (v / 2) % 2 + (v / 4) % 2 + (v / 8) % 2
}

/// The black cells of the tile values of `s` below `n`, summed.
pub open spec fn blacks_below(s: Set<int>, n: int) -> int
    decreases n,
{
    if n <= 0 {
        0
    } else {
        blacks_below(s, n - 1) + if s.contains(n - 1) { black_cells(n - 1) } else { 0 }
    }
}

/// The tile values of `s` below `n`, in ascending order.
pub open spec fn elements_below(s: Set<int>, n: int) -> Seq<u8>
    decreases n,
{
    if n <= 0 {
        Seq::empty()
    } else if s.contains(n - 1) {
        elements_below(s, n - 1).push((n - 1) as u8)
    } else {
        elements_below(s, n - 1)
    }
}

/// All sixteen tile values.
pub open spec fn all_tiles() -> Set<int> {
    Set::new(|v: int| 0 <= v < 16)
}

/// A set of tile values, each in `0..16`, kept as a bitmap.
#[derive(PartialEq, Eq, Clone, Copy, Debug, Structural)]
pub struct TileSet(u16);

impl View for TileSet {
    type V = Set<int>;

    /// The tile values of the set.
    open spec fn view(&self) -> Set<int> {
        Set::new(|v: int| bit16(self.bitmap(), v))
    }
}

impl TileSet {
    /// The bitmap of the set: bit `v` is set where the set holds `v`.
    pub closed spec fn bitmap(self) -> u16 {
        self.0
    }

    /// The set without a tile value.
    pub fn empty() -> (r: TileSet)
        ensures
            r.bitmap() == 0,
            r@ == Set::<int>::empty(),
    {
        proof {
            lemma_bit16_logic(0, 0);
            assert(TileSet(0)@ =~= Set::<int>::empty());
        }
        TileSet::new(0)
    }

    /// The set of the tile values whose bit is set in `values`.
    pub fn new(values: u16) -> (r: TileSet)
        ensures
            r.bitmap() == values,
    {
        TileSet(values)
    }

    /// The bitmap of the set.
    pub fn values(&self) -> (r: u16)
        ensures
            r == self.bitmap(),
    {
        self.0
    }

    /// Whether the set holds the tile value.
    pub fn has(&self, val: u8) -> (r: bool)
        requires
            val < 16,
        ensures
            r == self@.contains(val as int),
    {
        proof {
            lemma_bit16_single(val as u16);
            lemma_bit16_logic(self.0, 1u16 << val);
            lemma_bit16_is_zero(self.0 & (1u16 << val));
            assert(bit16(self.0 & (1u16 << val), val as int) == bit16(self.0, val as int));
        }
        self.0 & (1 << val) != 0
    }

    /// The set with `val` added, or `None` where the set holds `val` already.
    pub fn try_add(&mut self, val: u8) -> (r: Option<TileSet>)
        requires
            val < 16,
        ensures
            *final(self) == *old(self),
            r is Some <==> !old(self)@.contains(val as int),
            r is Some ==> r->0@ == old(self)@.insert(val as int),
    {
        let tile_mask: u16 = 1 << val;
        proof {
            lemma_bit16_single(val as u16);
            lemma_bit16_logic(self.0, tile_mask);
            lemma_bit16_is_zero(self.0 & tile_mask);
            assert(bit16(self.0 & tile_mask, val as int) == bit16(self.0, val as int));
        }
        if self.0 & tile_mask == 0 {
            let r = TileSet::new(self.0 | tile_mask);
            assert(r@ =~= self@.insert(val as int));
            Some(r)
        } else {
            None
        }
    }

    /// The union of two sets that share no tile value, or `None` where they share one.
    pub fn try_union(&self, other: &TileSet) -> (r: Option<TileSet>)
        ensures
            r is Some <==> self@.disjoint(other@),
            r is Some ==> r->0@ == self@.union(other@),
    {
        proof {
            lemma_bit16_logic(self.0, other.0);
            lemma_bit16_is_zero(self.0 & other.0);
        }
        if self.0 & other.0 == 0 {
            let r = TileSet::new(self.0 | other.0);
            assert(r@ =~= self@.union(other@));
            assert(self@.disjoint(other@)) by {
                assert forall|v: int| !(self@.contains(v) && other@.contains(v)) by {
                    assert(!bit16(self.0 & other.0, v));
                }
            }
            Some(r)
        } else {
            proof {
                let w = choose|i: int| bit16(self.0 & other.0, i);
                assert(self@.contains(w) && other@.contains(w));
            }
            None
        }
    }

    /// The number of tile values of the set.
    pub fn size(&self) -> (r: u8)
        ensures
            self@.finite(),
            r == self@.len(),
            r <= 16,
    {
        proof {
            lemma_members_below(self.0, 16);
            assert(self@ =~= members_below(self.0, 16));
            lemma_ones16_below_range(self.0, 16);
        }
        self.0.count_ones() as u8
    }

    /// Whether the set holds all sixteen tile values.
    pub fn is_full(&self) -> (r: bool)
        ensures
            r == (self@ == all_tiles()),
    {
        proof {
            lemma_bit16_logic(self.0, self.0);
            if self.0 == 0xFFFF {
                assert(self@ =~= all_tiles());
            }
            if self@ == all_tiles() {
                assert forall|i: int| 0 <= i < 16 implies bit16(self.0, i) == bit16(0xFFFFu16, i) by {
                    assert(self@.contains(i));
                }
                lemma_bit16_ext(self.0, 0xFFFF);
            }
        }
        self.0 == 0xFFFF
    }

    /// Black where the cells of the set's tiles are black for one half or more, else white.
    pub fn most_present_color(&self) -> (r: Color)
        ensures
            r == if blacks_below(self@, 16) >= 16 { Color::Black } else { Color::White },
    {
        if self.count_blacks() >= 16 {
            Color::Black
        } else {
            Color::White
        }
    }

    /// The number of black cells over all tiles of the set.
    pub fn count_blacks(&self) -> (count: u8)
        ensures
            count == blacks_below(self@, 16),
    {
        let mut count: u8 = 0;
        let mut values: u16 = self.0;
        let ghost mut lo: int = 0;
        while values != 0
            invariant
                0 <= lo <= 16,
                forall|i: int| #[trigger] bit16(values, i) == (bit16(self.0, i) && i >= lo),
                count == blacks_below(self@, lo),
                count <= 4 * lo,
            decreases 16 - lo,
        {
            let (i, rest) = pop_lowest16(values);
            proof {
                assert forall|j: int| lo <= j < i implies !self@.contains(j) by {
                    assert(!bit16(values, j));
                }
                lemma_blacks_gap(self@, lo, i as int);
                assert(self@.contains(i as int));
                assert(BLACK_COLOR_PRESENCE[i as int] == black_cells(i as int));
                lo = i + 1;
            }
            values = rest;
            count += BLACK_COLOR_PRESENCE[i as usize];
        }
        proof {
            lemma_bit16_logic(0, 0);
            assert forall|j: int| lo <= j < 16 implies !self@.contains(j) by {
                assert(!bit16(values, j));
            }
            lemma_blacks_gap(self@, lo, 16);
        }
        count
    }

    /// The tile values that the set does not hold.
    pub fn complement(&self) -> (r: TileSet)
        ensures
            r@ == all_tiles().difference(self@),
    {
        proof {
            lemma_bit16_logic(self.0, self.0);
            assert(TileSet(!self.0)@ =~= all_tiles().difference(self@));
        }
        TileSet::new(!self.0)
    }

    /// The tile values that both sets hold.
    pub fn intersection(&self, rhs: &TileSet) -> (r: TileSet)
        ensures
            r@ == self@.intersect(rhs@),
    {
        proof {
            lemma_bit16_logic(self.0, rhs.0);
            assert(TileSet(self.0 & rhs.0)@ =~= self@.intersect(rhs@));
        }
        TileSet::new(self.0 & rhs.0)
    }

    /// The tile values that one set or the other holds.
    pub fn union(&self, rhs: &TileSet) -> (r: TileSet)
        ensures
            r@ == self@.union(rhs@),
    {
        proof {
            lemma_bit16_logic(self.0, rhs.0);
            assert(TileSet(self.0 | rhs.0)@ =~= self@.union(rhs@));
        }
        TileSet::new(self.0 | rhs.0)
    }

    /// The tile values of the set, each once, in ascending order.
    pub fn to_vec(&self) -> (r: Vec<u8>)
        ensures
            r@ == elements_below(self@, 16),
    {
        let mut out: Vec<u8> = Vec::new();
        let mut values: u16 = self.0;
        let ghost mut lo: int = 0;
        while values != 0
            invariant
                0 <= lo <= 16,
                forall|i: int| #[trigger] bit16(values, i) == (bit16(self.0, i) && i >= lo),
                out@ == elements_below(self@, lo),
            decreases 16 - lo,
        {
            let (i, rest) = pop_lowest16(values);
            proof {
                assert forall|j: int| lo <= j < i implies !self@.contains(j) by {
                    assert(!bit16(values, j));
                }
                lemma_elements_gap(self@, lo, i as int);
                assert(self@.contains(i as int));
                lo = i + 1;
            }
            values = rest;
            out.push(i);
        }
        proof {
            lemma_bit16_logic(0, 0);
            assert forall|j: int| lo <= j < 16 implies !self@.contains(j) by {
                assert(!bit16(values, j));
            }
            lemma_elements_gap(self@, lo, 16);
        }
        out
    }

    /// The set of the tile values in `tiles`.
    pub fn from_vec(tiles: &Vec<u8>) -> (r: TileSet)
        requires
            forall|k: int| 0 <= k < tiles.len() ==> tiles[k] < 16,
        ensures
            forall|v: int| r@.contains(v) <==> exists|k: int| 0 <= k < tiles.len() && tiles[k] == v,
    {
        let mut values: u16 = 0;
        let mut n: usize = 0;
        proof {
            lemma_bit16_logic(0, 0);
        }
        while n < tiles.len()
            invariant
                n <= tiles.len(),
                forall|k: int| 0 <= k < tiles.len() ==> tiles[k] < 16,
                forall|v: int| bit16(values, v) <==> exists|k: int| 0 <= k < n && tiles[k] == v,
            decreases tiles.len() - n,
        {
            let tile = tiles[n];
            let ghost before = values;
            proof {
                lemma_bit16_single(tile as u16);
                lemma_bit16_logic(values, 1u16 << tile);
            }
            values |= 1 << tile;
            n += 1;
            assert forall|v: int| bit16(values, v) <==> exists|k: int| 0 <= k < n && tiles[k] == v by {
                if bit16(values, v) {
                    if bit16(before, v) {
                        let k = choose|k: int| 0 <= k < n - 1 && tiles[k] == v;
                        assert(0 <= k < n && tiles[k] == v);
                    } else {
                        assert(tiles[n - 1] == v);
                    }
                }
                if exists|k: int| 0 <= k < n && tiles[k] == v {
                    let k = choose|k: int| 0 <= k < n && tiles[k] == v;
                    if k < n - 1 {
                        assert(bit16(before, v));
                    }
                }
            }
        }
        TileSet::new(values)
    }
}

/// Two tile sets with the same tile values are the same tile set.
pub proof fn lemma_tileset_ext(a: TileSet, b: TileSet)
    requires
        a@ == b@,
    ensures
        a == b,
{
    assert forall|i: int| 0 <= i < 16 implies bit16(a.0, i) == bit16(b.0, i) by {
        assert(a@.contains(i) == bit16(a.bitmap(), i));
        assert(b@.contains(i) == bit16(b.bitmap(), i));
    }
    lemma_bit16_ext(a.0, b.0);
}

/// A tile set holds tile values only, and finitely many.
pub proof fn lemma_tileset_range(a: TileSet)
    ensures
        a@.subset_of(all_tiles()),
        a@.finite(),
        a@.len() <= 16,
{
    lemma_members_below(a.0, 16);
    assert(a@ =~= members_below(a.0, 16));
    lemma_ones16_below_range(a.0, 16);
}

/// The lowest tile value of a bitmap that is not empty, and the bitmap without it.
fn pop_lowest16(values: u16) -> (r: (u8, u16))
    requires
        values != 0,
    ensures
        r.0 < 16,
        bit16(values, r.0 as int),
        forall|j: int| 0 <= j < r.0 ==> !#[trigger] bit16(values, j),
        forall|j: int| #[trigger] bit16(r.1, j) == (bit16(values, j) && j != r.0),
{
    let i = values.trailing_zeros() as u8;
    proof {
        lemma_trailing_zeros16(values);
        lemma_bit16_single(i as u16);
        lemma_bit16_logic(values, 1u16 << i);
    }
    (i, values ^ (1 << i))
}

/// The tile values below `n` whose bit is set in `v`.
pub open spec fn members_below(v: u16, n: int) -> Set<int> {
    Set::new(|i: int| i < n && bit16(v, i))
}

/// The tile values below `n` of a bitmap are as many as its set bits below `n`.
proof fn lemma_members_below(v: u16, n: int)
    requires
        0 <= n,
    ensures
        members_below(v, n).finite(),
        members_below(v, n).len() == ones16_below(v, n),
    decreases n,
{
    if n == 0 {
        assert(members_below(v, n) =~= Set::<int>::empty());
    } else {
        lemma_members_below(v, n - 1);
        if bit16(v, n - 1) {
            assert(members_below(v, n) =~= members_below(v, n - 1).insert(n - 1));
        } else {
            assert(members_below(v, n) =~= members_below(v, n - 1));
        }
    }
}

/// A half word has between 0 and `n` set bits below `n`.
proof fn lemma_ones16_below_range(v: u16, n: int)
    requires
        0 <= n,
    ensures
        0 <= ones16_below(v, n) <= n,
    decreases n,
{
    if n > 0 {
        lemma_ones16_below_range(v, n - 1);
    }
}

/// A half word without set bits is zero.
proof fn lemma_bit16_is_zero(v: u16)
    ensures
        v == 0 <==> (forall|i: int| !bit16(v, i)),
{
    lemma_trailing_zeros16(v);
    lemma_bit16_logic(v, v);
}

/// Where `s` holds no value from `lo` up to `hi`, the sum of black cells does not move.
proof fn lemma_blacks_gap(s: Set<int>, lo: int, hi: int)
    requires
        lo <= hi,
        forall|j: int| lo <= j < hi ==> !s.contains(j),
    ensures
        blacks_below(s, hi) == blacks_below(s, lo),
    decreases hi - lo,
{
    if lo < hi {
        lemma_blacks_gap(s, lo, hi - 1);
    }
}

/// Where `s` holds no value from `lo` up to `hi`, the list of elements does not move.
proof fn lemma_elements_gap(s: Set<int>, lo: int, hi: int)
    requires
        lo <= hi,
        forall|j: int| lo <= j < hi ==> !s.contains(j),
    ensures
        elements_below(s, hi) == elements_below(s, lo),
    decreases hi - lo,
{
    if lo < hi {
        lemma_elements_gap(s, lo, hi - 1);
    }
}

} // verus!
