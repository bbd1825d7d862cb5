//! Counting the one bits of a word.

use vstd::prelude::*;
use vstd::arithmetic::power2::{pow2, lemma_pow2_unfold, lemma_pow2_pos, lemma2_to64, lemma2_to64_rest};
use vstd::bits::lemma_u64_shl_is_mul;

verus! {

/// The number of one bits of `x`.
pub open spec fn popcount(x: u64) -> nat
    decreases x,
{
    if x == 0 {
        0
    } else {
        (x % 2) as nat + popcount(x / 2)
    }
}

/// The number of one bits of `x`, counted from the bottom bit up.
pub fn count_ones(x: u64) -> (r: u32)
    ensures
        r == popcount(x),
{
    let mut y = x;
    let mut c: u32 = 0;
    proof {
        lemma_popcount_max(x);
    }
    while y != 0
        invariant
            c + popcount(y) == popcount(x),
            popcount(x) <= 64,
        decreases y,
    {
        proof {
            lemma_low_bit(y);
        }
        c = c + (y & 1) as u32;
        y = y >> 1;
    }
    c
}

proof fn lemma_low_bit(y: u64)
    by (bit_vector)
    ensures
        y & 1 == y % 2,
        y >> 1 == y / 2,
{
}

/// A number below `2^n` has at most `n` one bits.
pub proof fn lemma_popcount_below(x: u64, n: nat)
    requires
        x < pow2(n),
    ensures
        popcount(x) <= n,
    decreases n,
{
    if n == 0 {
        lemma2_to64();
    } else {
        lemma_pow2_unfold(n);
        if x != 0 {
            lemma_popcount_below(x / 2, (n - 1) as nat);
        }
    }
}

/// A word has at most 64 one bits.
pub proof fn lemma_popcount_max(x: u64)
    ensures
        popcount(x) <= 64,
{
    lemma2_to64_rest();
    lemma_popcount_below(x, 64);
}

/// Doubling a number (without overflow) keeps its one bits.
pub proof fn lemma_popcount_double(x: u64)
    requires
        x * 2 <= u64::MAX,
    ensures
        popcount((x * 2) as u64) == popcount(x),
{
    let y = (x * 2) as u64;
    if x != 0 {
        assert(y % 2 == 0 && y / 2 == x);
    }
}

/// Multiplying by a power of two (without overflow) keeps the one bits.
pub proof fn lemma_popcount_mul_pow2(x: u64, s: nat)
    requires
        x * pow2(s) <= u64::MAX,
    ensures
        popcount((x * pow2(s)) as u64) == popcount(x),
    decreases s,
{
    if s == 0 {
        lemma2_to64();
    } else {
        lemma_pow2_unfold(s);
        lemma_pow2_pos((s - 1) as nat);
        let y = x * pow2((s - 1) as nat);
        assert(x * pow2(s) == y * 2) by (nonlinear_arith)
            requires
                pow2(s) == 2 * pow2((s - 1) as nat),
                y == x * pow2((s - 1) as nat),
        ;
        assert(y <= x * pow2(s)) by (nonlinear_arith)
            requires
                pow2(s) == 2 * pow2((s - 1) as nat),
                y == x * pow2((s - 1) as nat),
                x >= 0,
        ;
        lemma_popcount_mul_pow2(x, (s - 1) as nat);
        lemma_popcount_double(y as u64);
    }
}

/// Shifting a number left (without overflow) keeps its one bits.
pub proof fn lemma_popcount_shl(x: u64, s: u64)
    requires
        s < 64,
        x * pow2(s as nat) <= u64::MAX,
    ensures
        popcount(x << s) == popcount(x),
{
    lemma_u64_shl_is_mul(x, s);
    lemma_popcount_mul_pow2(x, s as nat);
}


/// Small facts about words that several proofs use.
pub proof fn lemma_word_basics(x: u64, k: u64)
    by (bit_vector)
    ensures
        x << 0u64 == x,
        x >> 0u64 == x,
        (x << 0u64) | 0u64 == x,
        x & 7 <= 7,
        x & 1023 < 1024,
        x != 0 ==> x >> 3u64 < x,
        x == 0 ==> (x >> k) & 1 == 0 && (x >> k) & 7 == 0,
        x < 0x100_0000_0000 ==> x >> 40u64 == 0,
        x < (1u64 << 40u64) ==> x >> 40u64 == 0,
        (1u64 << 10u64) == 1024,
        0u64 < (1u64 << 0u64),
        0b0000000001_0000000001_0000000001_0000000001u64 < (1u64 << 31u64),
{
}

/// The one bits of two words without common bits add up.
pub proof fn lemma_popcount_or_disjoint(x: u64, y: u64)
    requires
        x & y == 0,
    ensures
        popcount(x | y) == popcount(x) + popcount(y),
    decreases x,
{
    lemma_halves(x, y);
    if x != 0 {
        lemma_popcount_or_disjoint(x / 2, y / 2);
    }
}

/// Bit facts about two words: halving, disjointness, commuting.
pub proof fn lemma_halves(x: u64, y: u64)
    by (bit_vector)
    ensures
        x & y == y & x,
        x | y == y | x,
        x == 0 ==> x & y == 0,
        x == 0 ==> x | y == y,
        x != 0 ==> x | y != 0,
        x & y == 0 ==> (x | y) % 2 == x % 2 + y % 2,
        (x | y) / 2 == (x / 2) | (y / 2),
        x & y == 0 ==> (x / 2) & (y / 2) == 0,
        x != 0 ==> x / 2 < x,
{
}

/// Masking with a shifted mask is masking the shifted-down word, shifted back.
pub proof fn lemma_and_shifted_mask(x: u64, m: u64, s: u64)
    by (bit_vector)
    requires
        s < 64,
    ensures
        x & (m << s) == ((x >> s) & m) << s,
{
}

/// Shifting distributes over exclusive or.
pub proof fn lemma_xor_shl(a: u64, c: u64, s: u64)
    by (bit_vector)
    requires
        s < 64,
    ensures
        (a << s) ^ (c << s) == (a ^ c) << s,
        a ^ c == c ^ a,
{
}

/// Two left shifts add up.
pub proof fn lemma_shl_shl(x: u64, a: u64, b: u64)
    by (bit_vector)
    requires
        a + b < 64,
    ensures
        (x << a) << b == x << ((a + b) as u64),
{
}

/// Exclusive or of two numbers below `2^n` stays below `2^n`.
pub proof fn lemma_xor_below(a: u64, c: u64, n: u64)
    by (bit_vector)
    requires
        n < 64,
        a < (1u64 << n),
        c < (1u64 << n),
    ensures
        a ^ c < (1u64 << n),
{
}

/// Masking keeps a number at most the mask.
pub proof fn lemma_and_le(x: u64, m: u64)
    by (bit_vector)
    ensures
        x & m <= m,
{
}

} // verus!
