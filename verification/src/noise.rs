//! The integer side of the noise generator: the splitmix64 hash, the seeded
//! permutation table behind gradient noise, and per-cell hashing.
use vstd::prelude::*;
use vstd::wrapping::u64_specs;

verus! {

/// splitmix64: add the golden-ratio increment, then two xor-shift-multiply
/// rounds and a final xor-shift, all modulo 2^64.
pub open spec fn spec_splitmix64(x: u64) -> u64 {
    let x1 = u64_specs::wrapping_add(x, 0x9E3779B97F4A7C15u64);
    let z1 = u64_specs::wrapping_mul(x1 ^ (x1 >> 30u64), 0xBF58476D1CE4E5B9u64);
    let z2 = u64_specs::wrapping_mul(z1 ^ (z1 >> 27u64), 0x94D049BB133111EBu64);
    z2 ^ (z2 >> 31u64)
}

/// A small, fast, well-mixed hash: used to seed the permutation table, and
/// anywhere a cell just needs an unpredictable-looking but reproducible
/// number rather than a full noise field.
pub fn splitmix64(x: u64) -> (r: u64)
    ensures
        r == spec_splitmix64(x),
{
    let x = x.wrapping_add(0x9E3779B97F4A7C15);
    let mut z = x;
    z = (z ^ (z >> 30)).wrapping_mul(0xBF58476D1CE4E5B9);
    z = (z ^ (z >> 27)).wrapping_mul(0x94D049BB133111EB);
    z ^ (z >> 31)
}

/// The hash behind a cell's deterministic pseudo-random draw: splitmix64 of
/// the seed mixed with both coordinates, keeping its top 53 bits.
pub open spec fn spec_cell_bits(x: u64, y: u64, seed: u64) -> u64 {
    spec_splitmix64(
        seed ^ u64_specs::wrapping_mul(x, 0x9E3779B97F4A7C15u64) ^ u64_specs::wrapping_mul(
            y,
            0xC2B2AE3D27D4EB4Fu64,
        ),
    ) >> 11u64
}

/// The 53-bit integer behind a cell's pseudo-random draw in `0..1`: the
/// draw itself is this value divided by 2^53 (exactly, since it fits in an
/// `f64` mantissa), so "draw < p" is "bits < ceil(p * 2^53)".
pub fn cell_random_bits(x: usize, y: usize, seed: u64) -> (r: u64)
    ensures
        r == spec_cell_bits(x as u64, y as u64, seed),
        r < 0x20_0000_0000_0000u64,
{
    let mixed = splitmix64(
        seed ^ (x as u64).wrapping_mul(0x9E37_79B9_7F4A_7C15) ^ (y as u64).wrapping_mul(
            0xC2B2_AE3D_27D4_EB4F,
        ),
    );
    assert(mixed >> 11u64 < 0x20_0000_0000_0000u64) by (bit_vector);
    mixed >> 11
}

/// The identity permutation of `0..256`.
pub open spec fn identity_table() -> Seq<u8> {
    Seq::new(256, |i: int| i as u8)
}

pub open spec fn swap_entries(t: Seq<u8>, i: int, j: int) -> Seq<u8> {
    t.update(i, t[j]).update(j, t[i])
}

/// Fisher-Yates from position `i` down to 1: each step advances the
/// splitmix64 state and swaps position `i` with `state % (i + 1)`.
pub open spec fn shuffle_down(t: Seq<u8>, state: u64, i: int) -> Seq<u8>
    decreases i,
{
    if i < 1 {
        t
    } else {
        let s = spec_splitmix64(state);
        let j = ((s as usize) as int) % (i + 1);
        shuffle_down(swap_entries(t, i, j), s, i - 1)
    }
}

/// The seeded permutation table of `0..256`.
pub open spec fn perm_table(seed: u64) -> Seq<u8> {
    shuffle_down(identity_table(), seed, 255)
}

/// Ken Perlin's "Improved Noise" (2002) permutation, seeded via a
/// splitmix64-driven Fisher-Yates shuffle and stored twice over so lookups
/// of `index + 1` never need wrapping.
pub struct Perlin3 {
    perm: Vec<u8>,
}

impl Perlin3 {
    pub closed spec fn spec_perm(&self) -> Seq<u8> {
        self.perm@
    }

    pub fn new(seed: u64) -> (r: Self)
        ensures
            r.spec_perm().len() == 512,
            forall|k: int| 0 <= k < 512 ==> #[trigger] r.spec_perm()[k] == perm_table(seed)[k % 256],
    {
        let mut table: Vec<u8> = Vec::with_capacity(256);
        let mut i: usize = 0;
        while i < 256
            invariant
                i <= 256,
                table@.len() == i,
                forall|k: int| 0 <= k < i ==> #[trigger] table@[k] == k as u8,
            decreases 256 - i,
        {
            table.push(i as u8);
            i = i + 1;
        }
        assert(table@ =~= identity_table());
        let mut state = seed;
        let mut i: usize = 255;
        while i >= 1
            invariant
                i <= 255,
                table@.len() == 256,
                shuffle_down(table@, state, i as int) == perm_table(seed),
            decreases i,
        {
            let ghost before = table@;
            state = splitmix64(state);
            let j = (state as usize) % (i + 1);
            let a = table[i];
            let b = table[j];
            table.set(i, b);
            table.set(j, a);
            assert(table@ =~= swap_entries(before, i as int, j as int));
            i = i - 1;
        }
        let mut perm: Vec<u8> = Vec::with_capacity(512);
        let mut k: usize = 0;
        while k < 512
            invariant
                k <= 512,
                table@.len() == 256,
                table@ == perm_table(seed),
                perm@.len() == k,
                forall|q: int| 0 <= q < k ==> #[trigger] perm@[q] == table@[q % 256],
            decreases 512 - k,
        {
            perm.push(table[k % 256]);
            k = k + 1;
        }
        Perlin3 { perm }
    }

    /// The doubled permutation table the noise sampler reads.
    pub fn perm(&self) -> (r: &[u8])
        ensures
            r@ == self.spec_perm(),
    {
        self.perm.as_slice()
    }
}

/// Shuffling only swaps entries, so the table stays a permutation of
/// `0..256`: every entry appears exactly once.
pub proof fn lemma_shuffle_permutes(t: Seq<u8>, state: u64, i: int)
    requires
        t.len() == 256,
        t.no_duplicates(),
        i <= 255,
    ensures
        shuffle_down(t, state, i).len() == 256,
        shuffle_down(t, state, i).no_duplicates(),
    decreases i,
{
    if i >= 1 {
        let s = spec_splitmix64(state);
        let j = ((s as usize) as int) % (i + 1);
        let t2 = swap_entries(t, i, j);
        assert(t2.no_duplicates()) by {
            assert forall|a: int, b: int| 0 <= a < t2.len() && 0 <= b < t2.len() && a != b implies t2[a]
                != t2[b] by {
                let pa = if a == j {
                    i
                } else if a == i {
                    j
                } else {
                    a
                };
                let pb = if b == j {
                    i
                } else if b == i {
                    j
                } else {
                    b
                };
                assert(t2[a] == t[pa]);
                assert(t2[b] == t[pb]);
            }
        }
        lemma_shuffle_permutes(t2, s, i - 1);
    }
}

/// The seeded table holds each of `0..256` exactly once.
pub proof fn lemma_perm_table_is_permutation(seed: u64)
    ensures
        perm_table(seed).len() == 256,
        perm_table(seed).no_duplicates(),
        forall|v: u8| perm_table(seed).contains(v),
{
    let id = identity_table();
    assert(id.no_duplicates()) by {
        assert forall|a: int, b: int| 0 <= a < id.len() && 0 <= b < id.len() && a != b implies id[a]
            != id[b] by {
            assert(id[a] == a as u8);
            assert(id[b] == b as u8);
        }
    }
    lemma_shuffle_permutes(id, seed, 255);
    let p = perm_table(seed);
    assert forall|v: u8| p.contains(v) by {
        lemma_no_dup_u8_covers(p, v);
    }
}

/// 256 distinct bytes include every byte.
proof fn lemma_no_dup_u8_covers(p: Seq<u8>, v: u8)
    requires
        p.len() == 256,
        p.no_duplicates(),
    ensures
        p.contains(v),
{
    if !p.contains(v) {
        let f = |k: int| p[k] as int;
        assert forall|k: int| 0 <= k < 256 implies 0 <= #[trigger] f(k) < 256 && f(k) != v as int by {}
        assert forall|m1: int, m2: int| 0 <= m1 < 256 && 0 <= m2 < 256 && m1 != m2 implies #[trigger] f(
            m1,
        ) != #[trigger] f(m2) by {}
        crate::elevation::lemma_injective_range_bound(f, 256, 256, v as int);
    }
}

} // verus!
