//! Small helpers shared by the tile modules.

use vstd::arithmetic::power2::{lemma2_to64, lemma_pow2_strictly_increases, pow2};
use vstd::bits::lemma_u64_shl_is_mul;
use vstd::prelude::*;

pub mod aabb;
pub mod format;
pub mod sort;


verus! {

/// Powers of two grow with the exponent, and `2^25` is 33554432.
pub proof fn lemma_pow2_bound(e: nat)
    requires
        e <= 25,
    ensures
        0 < pow2(e) <= 33554432,
        pow2(25) == 33554432,
{
    lemma2_to64();
    if e < 25 {
        lemma_pow2_strictly_increases(e, 25);
    }
    vstd::arithmetic::power2::lemma_pow2_pos(e);
}

/// `2^e`, for an exponent that a tile zoom can reach.
pub fn pow2_u64(e: u32) -> (result: u64)
    requires
        e <= 25,
    ensures
        result == pow2(e as nat),
        0 < result <= 33554432,
{
    proof {
        lemma_pow2_bound(e as nat);
        lemma_u64_shl_is_mul(1u64, e as u64);
    }
    1u64 << e
}

/// The source of the numbers that tell tiles apart: it hands out 1, 2, 3
/// and so on, each number once until the counter wraps.
#[derive(Debug)]
pub struct IdGenerator {
    next: usize,
}

impl IdGenerator {
    /// The number that is handed out next.
    pub closed spec fn spec_next(&self) -> usize {
        self.next
    }

    /// A generator that starts at 1.
    pub fn new() -> (result: Self)
        ensures
            result.spec_next() == 1,
    {
        Self { next: 1 }
    }
}

/// The number that follows `id`: one more, and zero after the greatest.
pub open spec fn following_id(id: usize) -> usize {
    if id == usize::MAX {
        0
    } else {
        (id + 1) as usize
    }
}

/// Hands out the next number of `generator`.
pub fn unique_id(generator: &mut IdGenerator) -> (result: usize)
    ensures
        result == old(generator).spec_next(),
        final(generator).spec_next() == following_id(old(generator).spec_next()),
{
    let id: usize = generator.next;
    generator.next = if id == usize::MAX {
        0
    } else {
        id + 1
    };
    id
}

} // verus!
