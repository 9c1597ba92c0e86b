//! How large a block a request gets, and the prefix length of that block.
use vstd::prelude::*;
use vstd::arithmetic::power2::{lemma2_to64, lemma_pow2_pos, lemma_pow2_strictly_increases, lemma_pow2_unfold, pow2};
use crate::error::VlsmError;

verus! {

/// The least `k` with `pow2(k) >= x`.
pub open spec fn ceil_log2(x: nat) -> nat
    decreases x,
{
    if x <= 1 {
        0
    } else {
        1 + ceil_log2(((x + 1) / 2) as nat)
    }
}

/// Host bits of the block for `needed` hosts: room for them, the network
/// address and the broadcast address.
pub open spec fn block_bits(needed: nat) -> nat {
    ceil_log2(needed + 2)
}

/// Number of addresses in the block for `needed` hosts.
pub open spec fn block_size(needed: nat) -> nat {
    pow2(block_bits(needed))
}

/// `pow2(ceil_log2(x))` reaches `x`, and the power below it does not.
pub proof fn lemma_ceil_log2_bounds(x: nat)
    requires
        x >= 1,
    ensures
        pow2(ceil_log2(x)) >= x,
        ceil_log2(x) > 0 ==> pow2((ceil_log2(x) - 1) as nat) < x,
    decreases x,
{
    lemma2_to64();
    if x > 1 {
        let y = ((x + 1) / 2) as nat;
        lemma_ceil_log2_bounds(y);
        lemma_pow2_unfold(ceil_log2(x));
        if ceil_log2(y) > 0 {
            lemma_pow2_unfold(ceil_log2(y));
        }
    }
}

/// Any `k` whose power reaches `x` while the power below it does not is
/// `ceil_log2(x)`.
pub proof fn lemma_ceil_log2_unique(x: nat, k: nat)
    requires
        x >= 1,
        pow2(k) >= x,
        k == 0 || pow2((k - 1) as nat) < x,
    ensures
        ceil_log2(x) == k,
    decreases k,
{
    lemma2_to64();
    if k > 0 {
        lemma_pow2_unfold(k);
        let y = ((x + 1) / 2) as nat;
        if k > 1 {
            lemma_pow2_unfold((k - 1) as nat);
        }
        lemma_ceil_log2_unique(y, (k - 1) as nat);
    }
}

/// The block for `needed` hosts leaves room for them, and no smaller power of
/// two does.
pub proof fn lemma_block_is_smallest(needed: nat)
    ensures
        block_size(needed) >= needed + 2,
        forall|k: nat| k < block_bits(needed) ==> #[trigger] pow2(k) < needed + 2,
{
    lemma_ceil_log2_bounds(needed + 2);
    assert forall|k: nat| k < block_bits(needed) implies #[trigger] pow2(k) < needed + 2 by {
        let top = (block_bits(needed) - 1) as nat;
        if k < top {
            lemma_pow2_strictly_increases(k, top);
        }
    }
}

/// A request for more hosts never gets a smaller block.
pub proof fn lemma_block_bits_monotone(a: nat, b: nat)
    requires
        a <= b,
    ensures
        block_bits(a) <= block_bits(b),
{
    lemma_ceil_log2_bounds(a + 2);
    lemma_ceil_log2_bounds(b + 2);
    if block_bits(a) > block_bits(b) {
        let below = (block_bits(a) - 1) as nat;
        if block_bits(b) < below {
            lemma_pow2_strictly_increases(block_bits(b), below);
        }
    }
}

/// Block size and prefix length for a request of `needed_size` hosts inside a
/// base network of prefix `current_prefix`, as `(prefix, size)`. A block larger
/// than the base network is refused.
pub fn get_allocated_size_and_prefix(current_prefix: u8, needed_size: u32) -> (r: Result<
    (u8, u64),
    VlsmError,
>)
    ensures
        match r {
            Ok((prefix, size)) => {
                &&& current_prefix <= 32
                &&& block_bits(needed_size as nat) <= 32 - current_prefix
                &&& prefix == 32 - block_bits(needed_size as nat)
                &&& size == block_size(needed_size as nat)
            },
            Err(e) => {
                ||| current_prefix > 32 && e == VlsmError::InvalidPrefix
                ||| current_prefix <= 32 && block_bits(needed_size as nat) > 32 - current_prefix
                    && e == VlsmError::PrefixExhausted
            },
        },
{
    if current_prefix > 32 {
        return Err(VlsmError::InvalidPrefix);
    }
    let need: u64 = needed_size as u64 + 2;
    let mut power: u8 = 0;
    let mut size: u64 = 1;
    proof {
        lemma2_to64();
    }
    while size < need
        invariant
            need == needed_size + 2,
            size == pow2(power as nat),
            power <= 33,
            power == 0 || pow2((power - 1) as nat) < need,
        decreases 33 - power,
    {
        proof {
            lemma2_to64();
            if power >= 33 {
                lemma_pow2_strictly_increases(32, power as nat);
            }
            lemma_pow2_unfold((power + 1) as nat);
        }
        size = size * 2;
        power = power + 1;
    }
    proof {
        lemma_ceil_log2_unique(need as nat, power as nat);
    }
    if power > 32 - current_prefix {
        return Err(VlsmError::PrefixExhausted);
    }
    Ok((32 - power, size))
}

} // verus!
