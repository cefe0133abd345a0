//! The Luby sequence that spaces out restarts.
use vstd::prelude::*;
use vstd::arithmetic::power2::{lemma2_to64, lemma2_to64_rest, lemma_pow2_pos, lemma_pow2_unfold, pow2};

verus! {

/// The exponent of term `i` (counted from 1) of the Luby sequence
/// 1, 1, 2, 1, 1, 2, 4, 1, 1, 2, ... within a block of `2^k - 1` terms: the
/// last term of the block is `2^(k-1)`, and the terms before it are the
/// block of `2^(k-1) - 1` terms, twice.
pub open spec fn luby_exp(k: nat, i: int) -> nat
    decreases k,
{
    if k <= 1 {
        0
    } else if i == pow2(k) - 1 {
        (k - 1) as nat
    } else if i >= pow2((k - 1) as nat) {
        luby_exp((k - 1) as nat, i - (pow2((k - 1) as nat) - 1))
    } else {
        luby_exp((k - 1) as nat, i)
    }
}

/// A term keeps its exponent in every larger block.
pub proof fn lemma_luby_block(k: nat, m: nat, i: int)
    requires
        1 <= i <= pow2(k) - 1,
        k <= m,
    ensures
        luby_exp(m, i) == luby_exp(k, i),
    decreases m - k,
{
    if k < m {
        lemma_luby_block(k, (m - 1) as nat, i);
        lemma_pow2_unfold(m);
        lemma_pow2_pos((m - 1) as nat);
        if k < m - 1 {
            lemma_pow2_monotone(k, (m - 1) as nat);
        }
    }
}

proof fn lemma_pow2_monotone(a: nat, b: nat)
    requires
        a <= b,
    ensures
        pow2(a) <= pow2(b),
    decreases b - a,
{
    if a < b {
        lemma_pow2_monotone(a, (b - 1) as nat);
        lemma_pow2_unfold(b);
    }
}

/// The exponent of term `x` (counted from 0) of the Luby sequence: the
/// restart limit is the base interval times 2 to this power.
pub fn luby_exponent(x: u64) -> (seq: u32)
    requires
        x < 0xffff_ffff_ffff_ffffu64,
    ensures
        forall|k: nat| x + 1 <= pow2(k) - 1 ==> seq == #[trigger] luby_exp(k, x + 1),
{
    let mut size: u64 = 1;
    let mut seq: u32 = 0;
    proof {
        lemma2_to64();
    }
    while size < x + 1
        invariant
            x < 0xffff_ffff_ffff_ffffu64,
            size == pow2((seq + 1) as nat) - 1,
            seq == 0 || size < 2 * (x + 1),
            seq <= 64,
        decreases 64 - seq,
    {
        proof {
            lemma_pow2_unfold((seq + 2) as nat);
            if seq >= 63 {
                lemma_pow2_monotone(64, (seq + 1) as nat);
                lemma2_to64_rest();
            } else {
                lemma_pow2_monotone((seq + 1) as nat, 63);
                lemma2_to64_rest();
                assert(size <= 0x7fff_ffff_ffff_ffffu64);
            }
        }
        seq = seq + 1;
        size = 2 * size + 1;
    }
    let ghost k0 = (seq + 1) as nat;
    let ghost i0 = x + 1;
    let mut x = x;
    proof {
        if seq > 0 {
            lemma_pow2_unfold(k0);
        }
    }
    while size - 1 != x
        invariant
            size == pow2((seq + 1) as nat) - 1,
            x < size,
            luby_exp((seq + 1) as nat, x + 1) == luby_exp(k0, i0),
            seq <= 64,
        decreases seq,
    {
        proof {
            lemma_pow2_unfold((seq + 1) as nat);
            lemma_pow2_pos(seq as nat);
            if seq == 0 {
                lemma2_to64();
            }
        }
        size = (size - 1) / 2;
        seq = seq - 1;
        if x >= size {
            x = x - size;
        }
    }
    proof {
        assert forall|k: nat| i0 <= pow2(k) - 1 implies seq == #[trigger] luby_exp(k, i0) by {
            if k < k0 {
                if k0 > 1 {
                    lemma_pow2_monotone(k, (k0 - 1) as nat);
                } else {
                    lemma2_to64();
                }
                assert(false);
            } else {
                lemma_luby_block(k0, k, i0);
            }
        }
    }
    seq
}

} // verus!
