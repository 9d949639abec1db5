use vstd::prelude::*;
use vstd::std_specs::bits::{u32_trailing_zeros, axiom_u32_trailing_zeros};

verus! {

/// Whether square `i` (0..32) is set in the bitboard `x`.
#[verifier::opaque]
pub open spec fn bit(x: u32, i: u32) -> bool {
    (x >> i) & 1u32 == 1u32
}

/// `x` rotated left by `k` places (0 < k < 32).
pub open spec fn rotl(x: u32, k: u32) -> u32 {
    (x << k) | (x >> ((32 - k) as u32))
}

/// Number of squares among `0..n` that are set in `x`.
pub open spec fn ones_below(x: u32, n: nat) -> nat
    decreases n,
{
    if n == 0 {
        0
    } else {
        ones_below(x, (n - 1) as nat) + if bit(x, (n - 1) as u32) { 1nat } else { 0nat }
    }
}

/// Number of set squares of `x`.
pub open spec fn ones(x: u32) -> nat {
    ones_below(x, 32)
}

pub proof fn lemma_ones_below_bound(x: u32, n: nat)
    ensures
        ones_below(x, n) <= n,
    decreases n,
{
    if n > 0 {
        lemma_ones_below_bound(x, (n - 1) as nat);
    }
}

pub proof fn lemma_bit_and(a: u32, b: u32, i: u32)
    requires
        i < 32,
    ensures
        bit(a & b, i) == (bit(a, i) && bit(b, i)),
{
    reveal(bit);
    assert(((a & b) >> i) & 1u32 == 1u32 <==> ((a >> i) & 1u32 == 1u32 && (b >> i) & 1u32 == 1u32))
        by (bit_vector)
        requires
            i < 32,
    ;
}

pub proof fn lemma_bit_or(a: u32, b: u32, i: u32)
    requires
        i < 32,
    ensures
        bit(a | b, i) == (bit(a, i) || bit(b, i)),
{
    reveal(bit);
    assert(((a | b) >> i) & 1u32 == 1u32 <==> ((a >> i) & 1u32 == 1u32 || (b >> i) & 1u32 == 1u32))
        by (bit_vector)
        requires
            i < 32,
    ;
}

pub proof fn lemma_bit_xor(a: u32, b: u32, i: u32)
    requires
        i < 32,
    ensures
        bit(a ^ b, i) == (bit(a, i) != bit(b, i)),
{
    reveal(bit);
    assert(((a ^ b) >> i) & 1u32 == 1u32 <==> ((a >> i) & 1u32 == 1u32) != ((b >> i) & 1u32 == 1u32))
        by (bit_vector)
        requires
            i < 32,
    ;
}

pub proof fn lemma_bit_not(a: u32, i: u32)
    requires
        i < 32,
    ensures
        bit(!a, i) == !bit(a, i),
{
    reveal(bit);
    assert(((!a) >> i) & 1u32 == 1u32 <==> !((a >> i) & 1u32 == 1u32)) by (bit_vector)
        requires
            i < 32,
    ;
}

pub proof fn lemma_bit_single(j: u32, i: u32)
    requires
        i < 32,
        j < 32,
    ensures
        bit(1u32 << j, i) == (i == j),
{
    reveal(bit);
    assert((((1u32 << j) >> i) & 1u32 == 1u32) <==> i == j) by (bit_vector)
        requires
            i < 32,
            j < 32,
    ;
}

pub proof fn lemma_bit_zero(i: u32)
    requires
        i < 32,
    ensures
        !bit(0, i),
{
    reveal(bit);
    assert(((0u32 >> i) & 1u32) == 0u32) by (bit_vector);
}

pub proof fn lemma_bit_rotl(x: u32, k: u32, i: u32)
    requires
        0 < k < 32,
        i < 32,
    ensures
        bit(rotl(x, k), i) == bit(x, ((i + 32 - k) % 32) as u32),
{
    reveal(bit);
    if i >= k {
        assert((((x << k) | (x >> ((32 - k) as u32))) >> i) & 1u32 == 1u32 <==> (x >> ((i - k)
            as u32)) & 1u32 == 1u32) by (bit_vector)
            requires
                0 < k < 32,
                k <= i < 32,
        ;
    } else {
        assert((((x << k) | (x >> ((32 - k) as u32))) >> i) & 1u32 == 1u32 <==> (x >> ((i + 32
            - k) as u32)) & 1u32 == 1u32) by (bit_vector)
            requires
                0 < k < 32,
                i < k,
        ;
    }
}

/// Masking with a single square tests that square.
pub proof fn lemma_bit_mask(x: u32, i: u32)
    requires
        i < 32,
    ensures
        (x & (1u32 << i) != 0) == bit(x, i),
{
    reveal(bit);
    assert((x & (1u32 << i) != 0) <==> ((x >> i) & 1u32 == 1u32)) by (bit_vector)
        requires
            i < 32,
    ;
}

/// Two bitboards that differ only on square `c`, set in `x` and clear in `y`, differ by one
/// in the number of set squares below any `n` past `c`.
pub proof fn lemma_ones_remove(x: u32, y: u32, c: u32, n: nat)
    requires
        c < 32,
        n <= 32,
        bit(x, c),
        !bit(y, c),
        forall|i: u32| i < 32 && i != c ==> bit(x, i) == bit(y, i),
    ensures
        ones_below(x, n) == ones_below(y, n) + if c < n { 1nat } else { 0nat },
    decreases n,
{
    if n > 0 {
        lemma_ones_remove(x, y, c, (n - 1) as nat);
    }
}

/// Two bitboards with the same squares are equal.
pub proof fn lemma_bits_ext(a: u32, b: u32)
    requires
        forall|i: u32| i < 32 ==> bit(a, i) == bit(b, i),
    ensures
        a == b,
{
    reveal(bit);
    if a != b {
        let x = a ^ b;
        assert(x != 0) by (bit_vector)
            requires
                a != b,
                x == a ^ b,
        ;
        broadcast use axiom_u32_trailing_zeros;

        let t = u32_trailing_zeros(x);
        assert(t < 32);
        assert((x >> t) & 1u32 == 1u32);
        lemma_bit_xor(a, b, t);
        assert(bit(a, t) == bit(b, t));
    }
}

/// Clearing the lowest set square of `x` keeps every other square.
pub proof fn lemma_clear_lowest(x: u32, i: u32)
    requires
        x != 0,
        i < 32,
    ensures
        u32_trailing_zeros(x) < 32,
        bit(x, u32_trailing_zeros(x)),
        i < u32_trailing_zeros(x) ==> !bit(x, i),
        bit(x & ((x - 1) as u32), i) == (bit(x, i) && i != u32_trailing_zeros(x)),
        x & ((x - 1) as u32) < x,
{
    reveal(bit);
    broadcast use axiom_u32_trailing_zeros;

    let t = u32_trailing_zeros(x);
    assert(t < 32);
    assert(x << ((32 - t) as u32) == 0);
    assert(x & ((x - 1) as u32) == x ^ (1u32 << t)) by (bit_vector)
        requires
            x != 0,
            t < 32,
            (x >> t) & 1u32 == 1u32,
            x << ((32 - t) as u32) == 0,
    ;
    assert(x & ((x - 1) as u32) < x) by (bit_vector)
        requires
            x != 0,
    ;
    lemma_bit_xor(x, 1u32 << t, i);
    lemma_bit_single(t, i);
    if i < t {
        assert((x >> i) & 1u32 == 0u32);
    }
}

/// Counts the set squares of a bitboard.
pub fn popcount(x: u32) -> (r: u32)
    ensures
        r == ones(x),
        r <= 32,
{
    let mut count: u32 = 0;
    let mut i: u32 = 0;
    while i < 32
        invariant
            i <= 32,
            count == ones_below(x, i as nat),
            count <= i,
        decreases 32 - i,
    {
        proof {
            lemma_ones_below_bound(x, i as nat);
            reveal(bit);
        }
        if (x >> i) & 1 == 1 {
            count = count + 1;
        }
        i = i + 1;
    }
    count
}

/// Rotates a bitboard left by `k` places.
pub fn rotate(x: u32, k: u32) -> (r: u32)
    requires
        0 < k < 32,
    ensures
        r == rotl(x, k),
{
    (x << k) | (x >> (32 - k))
}

} // verus!
