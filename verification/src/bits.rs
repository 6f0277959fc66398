use vstd::prelude::*;

verus! {

/// Whether bit `i` of the word `m` is set. No bit is set outside `0..64`.
pub open spec fn bit(m: u64, i: int) -> bool {
    0 <= i < 64 && (m >> (i as u64)) & 1 == 1
}

/// The number of set bits of `m` below index `n`.
pub open spec fn ones_below(m: u64, n: int) -> int
    decreases n,
{
    if n <= 0 {
        0
    } else {
        ones_below(m, n - 1) + if bit(m, n - 1) { 1int } else { 0int }
    }
}

/// The number of set bits of `m`.
pub open spec fn ones(m: u64) -> int {
    ones_below(m, 64)
}

/// One bit of `&`, `|`, `^` and `!` is that operation on the bits.
proof fn bv_logic(a: u64, b: u64, i: u64)
    by (bit_vector)
    requires
        i < 64,
    ensures
        (((a & b) >> i) & 1 == 1) == (((a >> i) & 1 == 1) && ((b >> i) & 1 == 1)),
        (((a | b) >> i) & 1 == 1) == (((a >> i) & 1 == 1) || ((b >> i) & 1 == 1)),
        (((a ^ b) >> i) & 1 == 1) == (((a >> i) & 1 == 1) != ((b >> i) & 1 == 1)),
        (((!a) >> i) & 1 == 1) == !((a >> i) & 1 == 1),
        ((a >> i) & 1 == 0) == !((a >> i) & 1 == 1),
{
}

/// The bits of `a & b`, `a | b`, `a ^ b` and `!a` are those operations on the bits of `a` and `b`.
pub proof fn lemma_bit_logic(a: u64, b: u64)
    ensures
        forall|i: int| #[trigger] bit(a & b, i) == (bit(a, i) && bit(b, i)),
        forall|i: int| #[trigger] bit(a | b, i) == (bit(a, i) || bit(b, i)),
        forall|i: int| #[trigger] bit(a ^ b, i) == (bit(a, i) != bit(b, i)),
        forall|i: int| #[trigger] bit(!a, i) == (0 <= i < 64 && !bit(a, i)),
{
    assert forall|i: int| #[trigger] bit(a & b, i) == (bit(a, i) && bit(b, i)) by {
        if 0 <= i < 64 {
            bv_logic(a, b, i as u64);
        }
    }
    assert forall|i: int| #[trigger] bit(a | b, i) == (bit(a, i) || bit(b, i)) by {
        if 0 <= i < 64 {
            bv_logic(a, b, i as u64);
        }
    }
    assert forall|i: int| #[trigger] bit(a ^ b, i) == (bit(a, i) != bit(b, i)) by {
        if 0 <= i < 64 {
            bv_logic(a, b, i as u64);
        }
    }
    assert forall|i: int| #[trigger] bit(!a, i) == (0 <= i < 64 && !bit(a, i)) by {
        if 0 <= i < 64 {
            bv_logic(a, b, i as u64);
        }
    }
}

/// One bit of a shifted word, and of a word with one set bit.
proof fn bv_shift(a: u64, k: u64, i: u64)
    by (bit_vector)
    requires
        i < 64,
        k < 64,
    ensures
        i + k < 64 ==> (((a >> k) >> i) & 1 == 1) == ((a >> ((i + k) as u64)) & 1 == 1),
        i + k >= 64 ==> !(((a >> k) >> i) & 1 == 1),
        i >= k ==> (((a << k) >> i) & 1 == 1) == ((a >> ((i - k) as u64)) & 1 == 1),
        i < k ==> !(((a << k) >> i) & 1 == 1),
        ((1u64 << k) >> i) & 1 == 1 <==> i == k,
{
}

/// Shifting a word moves its bits: right towards index zero, left away from it.
pub proof fn lemma_bit_shift(a: u64, k: u64)
    requires
        k < 64,
    ensures
        forall|i: int| 0 <= i ==> #[trigger] bit(a >> k, i) == bit(a, i + k),
        forall|i: int| i < 64 ==> #[trigger] bit(a << k, i) == bit(a, i - k),
{
    assert forall|i: int| 0 <= i implies #[trigger] bit(a >> k, i) == bit(a, i + k) by {
        if i < 64 {
            bv_shift(a, k, i as u64);
        }
    }
    assert forall|i: int| i < 64 implies #[trigger] bit(a << k, i) == bit(a, i - k) by {
        if 0 <= i {
            bv_shift(a, k, i as u64);
        }
    }
}

/// The word `1 << k` has bit `k` set and no other.
pub proof fn lemma_bit_single(k: u64)
    requires
        k < 64,
    ensures
        forall|i: int| #[trigger] bit(1u64 << k, i) == (i == k),
{
    assert forall|i: int| #[trigger] bit(1u64 << k, i) == (i == k) by {
        if 0 <= i < 64 {
            bv_shift(0, k, i as u64);
        }
    }
}

/// The word `1 << k` is not zero, and `k` is the number of its trailing zeros.
pub proof fn lemma_single_trailing_zeros(k: u64)
    requires
        k < 64,
    ensures
        1u64 << k != 0,
        (1u64 << k).trailing_zeros() == k,
{
    let m = 1u64 << k;
    lemma_bit_single(k);
    lemma_trailing_zeros(m);
    lemma_no_bit_is_zero(m);
    assert(bit(m, k as int));
}

/// What `trailing_zeros` says of a word, over `bit`.
pub proof fn lemma_trailing_zeros(m: u64)
    ensures
        m == 0 <==> m.trailing_zeros() == 64,
        m != 0 ==> m.trailing_zeros() < 64 && bit(m, m.trailing_zeros() as int),
        forall|i: int| 0 <= i < m.trailing_zeros() ==> !#[trigger] bit(m, i),
{
    vstd::std_specs::bits::axiom_u64_trailing_zeros(m);
    let t = m.trailing_zeros();
    assert forall|i: int| 0 <= i < t implies !#[trigger] bit(m, i) by {
        let j = i as u64;
        assert((m >> j) & 1u64 == 0u64);
        bv_logic(m, m, j);
    }
}

/// Two words with the same bits are the same word.
pub proof fn lemma_bit_ext(a: u64, b: u64)
    requires
        forall|i: int| 0 <= i < 64 ==> bit(a, i) == bit(b, i),
    ensures
        a == b,
{
    let x = a ^ b;
    lemma_bit_logic(a, b);
    lemma_trailing_zeros(x);
    if x != 0 {
        let t = x.trailing_zeros() as int;
        assert(bit(a ^ b, t));
        assert(false);
    }
    assert(a ^ b == 0 ==> a == b) by (bit_vector);
}

/// A word without set bits is zero.
pub proof fn lemma_no_bit_is_zero(m: u64)
    ensures
        m == 0 <==> (forall|i: int| !bit(m, i)),
{
    lemma_trailing_zeros(m);
    if m == 0 {
        assert forall|i: int| !bit(m, i) by {
            if 0 <= i < 64 {
                let j = i as u64;
                assert((0u64 >> j) & 1 == 0) by (bit_vector);
            }
        }
    }
}

/// Taking one from a word clears its lowest set bit, and what is taken off is that bit.
proof fn bv_lowest(m: u64, t: u64)
    by (bit_vector)
    requires
        t < 64,
        (m >> t) & 1 == 1,
        m << (64 - t) as u64 == 0,
    ensures
        m != 0,
        m & ((m - 1) as u64) == m ^ (1u64 << t),
        m & ((m - 1) as u64) <= m,
        m - (m & ((m - 1) as u64)) == 1u64 << t,
{
}

/// The bits of `m` below index `n`.
pub open spec fn below(m: u64, n: int) -> u64 {
    m & (((1u64 << (n as u64)) - 1) as u64)
}

/// One bit of a word cut off at `n`.
proof fn bv_below(m: u64, n: u64, i: u64)
    by (bit_vector)
    requires
        n < 64,
        i < 64,
    ensures
        (((m & (((1u64 << n) - 1) as u64)) >> i) & 1 == 1) == (((m >> i) & 1 == 1) && i < n),
{
}

/// `below(m, n)` has the bits of `m` whose index is less than `n`.
pub proof fn lemma_below(m: u64, n: int)
    requires
        0 <= n < 64,
    ensures
        forall|i: int| #[trigger] bit(below(m, n), i) == (bit(m, i) && i < n),
{
    assert forall|i: int| #[trigger] bit(below(m, n), i) == (bit(m, i) && i < n) by {
        if 0 <= i < 64 {
            bv_below(m, n as u64, i as u64);
        }
    }
}

/// Splits a nonzero word into its lowest set bit, as a word of its own, and the rest.
pub fn split_lowest(m: u64) -> (r: (u64, u64))
    requires
        m != 0,
    ensures
        m.trailing_zeros() < 64,
        r.0 == 1u64 << m.trailing_zeros(),
        r.0.trailing_zeros() == m.trailing_zeros(),
        forall|i: int| #[trigger] bit(r.0, i) == (i == m.trailing_zeros()),
        forall|i: int| #[trigger] bit(r.1, i) == (bit(m, i) && i != m.trailing_zeros()),
{
    let rest = m & (m - 1);
    proof {
        vstd::std_specs::bits::axiom_u64_trailing_zeros(m);
        bv_lowest(m, m.trailing_zeros() as u64);
    }
    let low = m - rest;
    proof {
        let t = m.trailing_zeros() as u64;
        lemma_bit_single(t);
        lemma_bit_logic(m, 1u64 << t);
        lemma_trailing_zeros(low);
        lemma_trailing_zeros(m);
        assert(bit(low, t as int));
        if low.trailing_zeros() != t {
            assert(bit(low, low.trailing_zeros() as int));
        }
    }
    (low, rest)
}

/// Setting one more bit adds one to the count, once the count reaches that bit.
pub proof fn lemma_ones_below_set(a: u64, b: u64, k: int, n: int)
    requires
        0 <= k < 64,
        !bit(a, k),
        forall|i: int| 0 <= i < 64 ==> bit(b, i) == (bit(a, i) || i == k),
    ensures
        ones_below(b, n) == ones_below(a, n) + if k < n { 1int } else { 0int },
    decreases n,
{
    if n > 0 {
        lemma_ones_below_set(a, b, k, n - 1);
    }
}

/// A word has between 0 and `n` set bits below `n`.
pub proof fn lemma_ones_below_range(a: u64, n: int)
    requires
        0 <= n,
    ensures
        0 <= ones_below(a, n) <= n,
    decreases n,
{
    if n > 0 {
        lemma_ones_below_range(a, n - 1);
    }
}

/// `count_ones` of std: the number of ones in the binary representation of the word.
pub assume_specification[ u64::count_ones ](m: u64) -> (r: u32)
    ensures
        r == ones(m),
;

/// Whether bit `i` of the half word `v` is set. No bit is set outside `0..16`.
pub open spec fn bit16(v: u16, i: int) -> bool {
    0 <= i < 16 && (v >> (i as u16)) & 1 == 1
}

/// The number of set bits of `v` below index `n`.
pub open spec fn ones16_below(v: u16, n: int) -> int
    decreases n,
{
    if n <= 0 {
        0
    } else {
        ones16_below(v, n - 1) + if bit16(v, n - 1) { 1int } else { 0int }
    }
}

/// `count_ones` of std: the number of ones in the binary representation of the half word.
pub assume_specification[ u16::count_ones ](v: u16) -> (r: u32)
    ensures
        r == ones16_below(v, 16),
;

/// One bit of `&`, `|`, `^` and `!` on half words, and of the full and the empty half word.
proof fn bv16_logic(a: u16, b: u16, i: u16)
    by (bit_vector)
    requires
        i < 16,
    ensures
        (((a & b) >> i) & 1 == 1) == (((a >> i) & 1 == 1) && ((b >> i) & 1 == 1)),
        (((a | b) >> i) & 1 == 1) == (((a >> i) & 1 == 1) || ((b >> i) & 1 == 1)),
        (((a ^ b) >> i) & 1 == 1) == (((a >> i) & 1 == 1) != ((b >> i) & 1 == 1)),
        (((!a) >> i) & 1 == 1) == !((a >> i) & 1 == 1),
        ((a >> i) & 1 == 0) == !((a >> i) & 1 == 1),
        ((0xFFFFu16 >> i) & 1 == 1),
        !((0u16 >> i) & 1 == 1),
{
}

/// The bits of `a & b`, `a | b`, `a ^ b` and `!a` are those operations on the bits of `a` and `b`;
/// the half word `0xFFFF` has all sixteen bits and `0` has none.
pub proof fn lemma_bit16_logic(a: u16, b: u16)
    ensures
        forall|i: int| #[trigger] bit16(a & b, i) == (bit16(a, i) && bit16(b, i)),
        forall|i: int| #[trigger] bit16(a | b, i) == (bit16(a, i) || bit16(b, i)),
        forall|i: int| #[trigger] bit16(a ^ b, i) == (bit16(a, i) != bit16(b, i)),
        forall|i: int| #[trigger] bit16(!a, i) == (0 <= i < 16 && !bit16(a, i)),
        forall|i: int| #[trigger] bit16(0xFFFFu16, i) == (0 <= i < 16),
        forall|i: int| !#[trigger] bit16(0u16, i),
{
    assert forall|i: int| #[trigger] bit16(a & b, i) == (bit16(a, i) && bit16(b, i)) by {
        if 0 <= i < 16 {
            bv16_logic(a, b, i as u16);
        }
    }
    assert forall|i: int| #[trigger] bit16(a | b, i) == (bit16(a, i) || bit16(b, i)) by {
        if 0 <= i < 16 {
            bv16_logic(a, b, i as u16);
        }
    }
    assert forall|i: int| #[trigger] bit16(a ^ b, i) == (bit16(a, i) != bit16(b, i)) by {
        if 0 <= i < 16 {
            bv16_logic(a, b, i as u16);
        }
    }
    assert forall|i: int| #[trigger] bit16(!a, i) == (0 <= i < 16 && !bit16(a, i)) by {
        if 0 <= i < 16 {
            bv16_logic(a, b, i as u16);
        }
    }
    assert forall|i: int| #[trigger] bit16(0xFFFFu16, i) == (0 <= i < 16) by {
        if 0 <= i < 16 {
            bv16_logic(a, b, i as u16);
        }
    }
    assert forall|i: int| !#[trigger] bit16(0u16, i) by {
        if 0 <= i < 16 {
            bv16_logic(a, b, i as u16);
        }
    }
}

/// One bit of a half word with one set bit.
proof fn bv16_single(k: u16, i: u16)
    by (bit_vector)
    requires
        i < 16,
        k < 16,
    ensures
        ((1u16 << k) >> i) & 1 == 1 <==> i == k,
{
}

/// The half word `1 << k` has bit `k` set and no other.
pub proof fn lemma_bit16_single(k: u16)
    requires
        k < 16,
    ensures
        forall|i: int| #[trigger] bit16(1u16 << k, i) == (i == k),
{
    assert forall|i: int| #[trigger] bit16(1u16 << k, i) == (i == k) by {
        if 0 <= i < 16 {
            bv16_single(k, i as u16);
        }
    }
}

/// What `trailing_zeros` says of a half word, over `bit16`.
pub proof fn lemma_trailing_zeros16(v: u16)
    ensures
        v == 0 <==> v.trailing_zeros() == 16,
        v != 0 ==> v.trailing_zeros() < 16 && bit16(v, v.trailing_zeros() as int),
        forall|i: int| 0 <= i < v.trailing_zeros() ==> !#[trigger] bit16(v, i),
{
    vstd::std_specs::bits::axiom_u16_trailing_zeros(v);
    let t = v.trailing_zeros();
    assert forall|i: int| 0 <= i < t implies !#[trigger] bit16(v, i) by {
        let j = i as u16;
        assert((v >> j) & 1u16 == 0u16);
        bv16_logic(v, v, j);
    }
}

/// Two half words with the same bits are the same half word.
pub proof fn lemma_bit16_ext(a: u16, b: u16)
    requires
        forall|i: int| 0 <= i < 16 ==> bit16(a, i) == bit16(b, i),
    ensures
        a == b,
{
    let x = a ^ b;
    lemma_bit16_logic(a, b);
    lemma_trailing_zeros16(x);
    if x != 0 {
        let t = x.trailing_zeros() as int;
        assert(bit16(a ^ b, t));
        assert(false);
    }
    assert(a ^ b == 0 ==> a == b) by (bit_vector);
}

} // verus!
