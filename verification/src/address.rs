//! Splitting an address into the set it selects and the tag that remains.

use vstd::prelude::*;
use vstd::arithmetic::div_mod::{lemma_basic_div, lemma_div_nonincreasing, lemma_mod_bound, lemma_small_mod};
use vstd::arithmetic::power2::{lemma2_to64, lemma2_to64_rest, lemma_pow2_pos, lemma_pow2_strictly_increases, pow2};
use vstd::bits::{lemma_u64_low_bits_mask_is_mod, lemma_u64_shl_is_mul, lemma_u64_shr_is_div, low_bits_mask};

verus! {

/// The set that `address` selects: the `s` bits that lie above the `b` bits
/// of the block offset.
pub open spec fn set_index_of(address: u64, s: nat, b: nat) -> nat {
    (address as nat / pow2(b)) % pow2(s)
}

/// The tag of `address`: what is left above the `s + b` low bits.
pub open spec fn tag_of(address: u64, s: nat, b: nat) -> nat {
    address as nat / pow2(s + b)
}

/// An address below `2^64` has nothing left above bit `n` once `n >= 64`.
proof fn lemma_shifted_out(address: u64, n: nat)
    requires
        n >= 64,
    ensures
        address as nat / pow2(n) == 0,
{
    lemma2_to64_rest();
    if n > 64 {
        lemma_pow2_strictly_increases(64, n);
    }
    lemma_basic_div(address as int, pow2(n) as int);
}

/// A set index always lies below the number of sets, `2^s`.
pub proof fn lemma_set_index_bound(address: u64, s: nat, b: nat)
    ensures
        set_index_of(address, s, b) < pow2(s),
{
    lemma_pow2_pos(s);
    lemma_mod_bound((address as nat / pow2(b)) as int, pow2(s) as int);
}

/// A tag is never larger than its address, so it fits in 64 bits.
pub proof fn lemma_tag_bound(address: u64, s: nat, b: nat)
    ensures
        tag_of(address, s, b) <= address,
{
    lemma_pow2_pos(s + b);
    lemma_div_nonincreasing(address as int, pow2(s + b) as int);
}

/// With no set-index bits every address selects set 0.
pub proof fn lemma_single_set(address: u64, b: nat)
    ensures
        set_index_of(address, 0, b) == 0,
{
    lemma2_to64();
}

/// Returns the set index and the tag of `address` for a cache with `s`
/// set-index bits and `b` block-offset bits.
///
/// Bits shifted past the top of the address are zero, so the result is
/// defined for every `s` and `b`. The index is narrowed to `usize`, which
/// loses nothing when `2^s` fits in `usize`.
pub fn calculate_index_and_tag(address: u64, s: usize, b: usize) -> (r: (usize, u64))
    ensures
        r.0 == set_index_of(address, s as nat, b as nat) as usize,
        r.1 as nat == tag_of(address, s as nat, b as nat),
        set_index_of(address, s as nat, b as nat) <= usize::MAX ==> r.0 as nat == set_index_of(
            address,
            s as nat,
            b as nat,
        ),
        s == 0 ==> r.0 == 0,
{
    let above_offset: u64 = if b < 64 {
        proof {
            lemma_u64_shr_is_div(address, b as u64);
        }
        address >> b
    } else {
        proof {
            lemma_shifted_out(address, b as nat);
        }
        0
    };
    assert(above_offset as nat == address as nat / pow2(b as nat));
    let index: u64 = if s < 64 {
        proof {
            lemma2_to64();
            lemma2_to64_rest();
            if s < 63 {
                lemma_pow2_strictly_increases(s as nat, 63);
            }
            lemma_pow2_pos(s as nat);
            lemma_u64_shl_is_mul(1, s as u64);
            lemma_u64_low_bits_mask_is_mod(above_offset, s as nat);
        }
        let mask: u64 = (1u64 << s) - 1;
        assert(mask == low_bits_mask(s as nat) as u64);
        above_offset & mask
    } else {
        proof {
            lemma2_to64_rest();
            if s > 64 {
                lemma_pow2_strictly_increases(64, s as nat);
            }
            lemma_small_mod(above_offset as nat, pow2(s as nat));
        }
        above_offset
    };
    assert(index as nat == set_index_of(address, s as nat, b as nat));
    let tag: u64 = if b < 64 && s < 64 - b {
        proof {
            lemma_u64_shr_is_div(address, (s + b) as u64);
        }
        address >> (s + b)
    } else {
        proof {
            lemma_shifted_out(address, (s + b) as nat);
        }
        0
    };
    proof {
        lemma_set_index_bound(address, s as nat, b as nat);
        lemma_single_set(address, b as nat);
    }
    (#[verifier::truncate] (index as usize), tag)
}

} // verus!
