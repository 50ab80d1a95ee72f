//! The permutation table of one-dimensional Perlin noise, shuffled by a
//! linear congruential generator from a seed.  (The noise itself is computed
//! in floating point, outside this library.)

use vstd::prelude::*;

verus! {

/// The multiplier of the generator.
pub const LCG_MULTIPLIER: u32 = 1664525u32;

/// The increment of the generator.
pub const LCG_INCREMENT: u32 = 1013904223u32;

/// One step of the generator, with 32-bit wrap-around.
pub open spec fn lcg_next(s: u32) -> u32 {
    ((s as nat * LCG_MULTIPLIER as nat % 0x1_0000_0000 + LCG_INCREMENT as nat) % 0x1_0000_0000) as u32
}

/// The identity table 0, 1, ..., 255.
pub open spec fn identity_table() -> Seq<u8> {
    Seq::new(256, |i: int| i as u8)
}

/// The generator state and the table after the first `k` shuffle steps; the
/// step for position `i` (from 255 down to 1) swaps it with position
/// `state % (i + 1)`.
pub open spec fn shuffle_after(seed: u32, k: nat) -> (u32, Seq<u8>)
    decreases k,
{
    if k == 0 {
        (seed, identity_table())
    } else {
        let (s, p) = shuffle_after(seed, (k - 1) as nat);
        let i = 256 - k;
        let s2 = lcg_next(s);
        let j = (s2 % ((i + 1) as u32)) as int;
        (s2, p.update(i, p[j]).update(j, p[i]))
    }
}

/// The table that `seed` gives.
pub open spec fn perlin_permutation(seed: u32) -> Seq<u8> {
    shuffle_after(seed, 255).1
}

/// Perlin noise over one dimension.
pub struct Perlin1D {
    pub perm: [u8; 256],
}

impl Perlin1D {
    /// The noise whose permutation table is shuffled from `seed`.
    pub fn new(seed: u32) -> (p: Self)
        ensures
            p.perm@ == perlin_permutation(seed),
    {
        let mut perm = [0u8; 256];
        let mut i: usize = 0;
        while i < 256
            invariant
                0 <= i <= 256,
                forall|k: int| 0 <= k < i ==> perm@[k] == k as u8,
            decreases 256 - i,
        {
            perm[i] = i as u8;
            i += 1;
        }
        assert(perm@ =~= identity_table());
        let mut state = seed;
        let mut k: usize = 0;
        while k < 255
            invariant
                0 <= k <= 255,
                (state, perm@) == shuffle_after(seed, k as nat),
                perm@.len() == 256,
            decreases 255 - k,
        {
            let i = 255 - k;
            let next = state.wrapping_mul(LCG_MULTIPLIER).wrapping_add(LCG_INCREMENT);
            assert(next == lcg_next(state));
            state = next;
            let j = (state % (i as u32 + 1)) as usize;
            let a = perm[i];
            let b = perm[j];
            perm[i] = b;
            perm[j] = a;
            k += 1;
        }
        Perlin1D { perm }
    }
}

/// Every shuffle step keeps the table a permutation of 0, ..., 255: it has
/// 256 entries and none repeats.
pub proof fn lemma_shuffle_is_permutation(seed: u32, k: nat)
    requires
        k <= 255,
    ensures
        shuffle_after(seed, k).1.len() == 256,
        forall|a: int, b: int|
            0 <= a < b < 256 ==> #[trigger] shuffle_after(seed, k).1[a] != #[trigger] shuffle_after(seed, k).1[b],
    decreases k,
{
    if k > 0 {
        lemma_shuffle_is_permutation(seed, (k - 1) as nat);
        let (s, p) = shuffle_after(seed, (k - 1) as nat);
        let i = 256 - k;
        let s2 = lcg_next(s);
        let j = (s2 % ((i + 1) as u32)) as int;
        let q = shuffle_after(seed, k).1;
        assert(q == p.update(i, p[j]).update(j, p[i]));
        assert forall|a: int, b: int| 0 <= a < b < 256 implies q[a] != q[b] by {
            let sa = if a == j { i } else if a == i { j } else { a };
            let sb = if b == j { i } else if b == i { j } else { b };
            assert(q[a] == p[sa]);
            assert(q[b] == p[sb]);
            if sa < sb {
                assert(p[sa] != p[sb]);
            } else {
                assert(p[sb] != p[sa]);
            }
        }
    }
}

/// The table of any seed is a permutation of 0, ..., 255.
pub proof fn lemma_perlin_permutation(seed: u32)
    ensures
        perlin_permutation(seed).len() == 256,
        forall|a: int, b: int|
            0 <= a < b < 256 ==> #[trigger] perlin_permutation(seed)[a] != #[trigger] perlin_permutation(seed)[b],
{
    lemma_shuffle_is_permutation(seed, 255);
}

} // verus!
