//! Minimal deterministic pseudo random number generator.
//!
//! `SplitMix64` is used instead of an outside crate so that the same seed
//! always produces the same lattice, independently of the platform and of any
//! dependency version.

use vstd::prelude::*;
use vstd::arithmetic::div_mod::{
    lemma_fundamental_div_mod_converse,
    lemma_mod_equivalence,
    lemma_mul_mod_noop_left,
    lemma_mul_mod_noop_right,
    lemma_small_mod,
};

verus! {

/// The increment the state advances by on every draw.
pub const GOLDEN: u64 = 0x9E37_79B9_7F4A_7C15;

/// First multiplier of the output mix.
pub const MIX_ONE: u64 = 0xBF58_476D_1CE4_E5B9;

/// Second multiplier of the output mix.
pub const MIX_TWO: u64 = 0x94D0_49BB_1331_11EB;

/// Multiplication modulo 2^64.
pub open spec fn mul64(x: u64, y: u64) -> u64 {
    ((x as nat * y as nat) % 0x1_0000_0000_0000_0000nat) as u64
}

/// Addition modulo 2^64.
pub open spec fn add64(x: u64, y: u64) -> u64 {
    ((x as nat + y as nat) % 0x1_0000_0000_0000_0000nat) as u64
}

/// The output function: the value drawn when the state has just become `z`.
pub open spec fn mix(z: u64) -> u64 {
    let a = mul64(z ^ (z >> 30u64), MIX_ONE);
    let b = mul64(a ^ (a >> 27u64), MIX_TWO);
    b ^ (b >> 31u64)
}

/// The state of a generator seeded with `seed` after `k` draws.
pub open spec fn state_after(seed: u64, k: nat) -> u64
    decreases k,
{
    if k == 0 {
        seed
    } else {
        add64(state_after(seed, (k - 1) as nat), GOLDEN)
    }
}

/// The `k`-th value (counting from 0) drawn from a generator seeded with `seed`.
pub open spec fn draw(seed: u64, k: nat) -> u64 {
    mix(state_after(seed, k + 1))
}

pub struct SplitMix64 {
    state: u64,
}

impl View for SplitMix64 {
    type V = u64;

    closed spec fn view(&self) -> u64 {
        self.state
    }
}

impl SplitMix64 {
    pub fn new(seed: u64) -> (generator: Self)
        ensures
            generator@ == seed,
    {
        Self { state: seed }
    }

    /// Advances the state by [`GOLDEN`] and returns the mixed new state.
    pub fn next_u64(&mut self) -> (value: u64)
        ensures
            final(self)@ == add64(old(self)@, GOLDEN),
            value == mix(final(self)@),
    {
        self.state = self.state.wrapping_add(GOLDEN);
        let mut z = self.state;
        z = (z ^ (z >> 30)).wrapping_mul(MIX_ONE);
        z = (z ^ (z >> 27)).wrapping_mul(MIX_TWO);
        z ^ (z >> 31)
    }
}

/// The seed of the generator that decides where strand `index` of a coat of
/// hair starts and what it looks like: the coat's seed mixed by [`GOLDEN`]
/// rather than offset, so that neighbouring seeds do not hand neighbouring
/// strands the same starting points.
pub fn strand_seed(seed: u64, index: usize) -> (mixed: u64)
    ensures
        mixed == add64(mul64(seed, GOLDEN), index as u64),
{
    seed.wrapping_mul(GOLDEN).wrapping_add(index as u64)
}

/// A generator is fully determined by its seed: the state after `k` draws
/// is the seed advanced by `k` steps of [`GOLDEN`] modulo 2^64, so the `k`-th
/// value drawn depends on nothing but the seed and `k`.
pub proof fn lemma_state_after(seed: u64, k: nat)
    ensures
        state_after(seed, k) as nat == (seed as nat + k * GOLDEN as nat) % 0x1_0000_0000_0000_0000nat,
    decreases k,
{
    if k > 0 {
        lemma_state_after(seed, (k - 1) as nat);
        let m: int = 0x1_0000_0000_0000_0000int;
        let prev: int = seed as int + (k - 1) * GOLDEN as int;
        vstd::arithmetic::div_mod::lemma_add_mod_noop(prev, GOLDEN as int, m);
        vstd::arithmetic::div_mod::lemma_mod_bound(prev, m);
        vstd::arithmetic::div_mod::lemma_small_mod(GOLDEN as nat, m as nat);
        vstd::arithmetic::div_mod::lemma_mod_twice(prev + GOLDEN as int, m);
        assert(prev + GOLDEN as int == seed as int + k * GOLDEN as int) by (nonlinear_arith)
            requires
                prev == seed as int + (k - 1) * GOLDEN as int,
        ;
    }
}


/// `c * inverse` is one more than a multiple of 2^64.
proof fn lemma_inverse(c: nat, inverse: nat, q: nat)
    requires
        c * inverse == q * 0x1_0000_0000_0000_0000nat + 1,
    ensures
        (c * inverse) % 0x1_0000_0000_0000_0000nat == 1,
{
    lemma_fundamental_div_mod_converse(
        (c * inverse) as int,
        0x1_0000_0000_0000_0000int,
        q as int,
        1,
    );
}

/// Multiplying by `c` modulo 2^64 is undone by multiplying by its inverse.
proof fn lemma_mul64_undone(a: u64, c: u64, inverse: u64)
    requires
        (c as nat * inverse as nat) % 0x1_0000_0000_0000_0000nat == 1,
    ensures
        mul64(mul64(a, c), inverse) == a,
{
    let m: int = 0x1_0000_0000_0000_0000int;
    let x = a as int * c as int;
    lemma_mul_mod_noop_left(x, inverse as int, m);
    vstd::arithmetic::mul::lemma_mul_is_associative(a as int, c as int, inverse as int);
    lemma_mul_mod_noop_right(a as int, c as int * inverse as int, m);
    lemma_small_mod(a as nat, m as nat);
    vstd::arithmetic::div_mod::lemma_mod_bound(x, m);
}

/// The output mix is one to one: different states never give the same
/// value. Each of its steps can be undone: the shifts xored in by
/// xoring them in again (a second and third time where the shift is under
/// half a word), and the multiplications by odd constants by multiplying by
/// their inverses modulo 2^64.
pub proof fn lemma_mix_injective(a: u64, b: u64)
    requires
        mix(a) == mix(b),
    ensures
        a == b,
{
    lemma_inverse(MIX_ONE as nat, 0x96DE_1B17_3F11_9089nat, 8125545580553827436nat);
    lemma_inverse(MIX_TWO as nat, 0x319642B2D24D8EC3nat, 2077064247507883091nat);
    assert(forall|x: u64| #![trigger x ^ (x >> 31u64)]
        ((x ^ (x >> 31u64)) ^ ((x ^ (x >> 31u64)) >> 31u64) ^ ((x ^ (x >> 31u64)) >> 62u64)) == x) by (bit_vector);
    assert(forall|x: u64| #![trigger x ^ (x >> 27u64)]
        ((x ^ (x >> 27u64)) ^ ((x ^ (x >> 27u64)) >> 27u64) ^ ((x ^ (x >> 27u64)) >> 54u64)) == x) by (bit_vector);
    assert(forall|x: u64| #![trigger x ^ (x >> 30u64)]
        ((x ^ (x >> 30u64)) ^ ((x ^ (x >> 30u64)) >> 30u64) ^ ((x ^ (x >> 30u64)) >> 60u64)) == x) by (bit_vector);
    let a1 = mul64(a ^ (a >> 30u64), MIX_ONE);
    let b1 = mul64(b ^ (b >> 30u64), MIX_ONE);
    let a2 = mul64(a1 ^ (a1 >> 27u64), MIX_TWO);
    let b2 = mul64(b1 ^ (b1 >> 27u64), MIX_TWO);
    assert(a2 == b2);
    lemma_mul64_undone(a1 ^ (a1 >> 27u64), MIX_TWO, 0x319642B2D24D8EC3u64);
    lemma_mul64_undone(b1 ^ (b1 >> 27u64), MIX_TWO, 0x319642B2D24D8EC3u64);
    assert(a1 ^ (a1 >> 27u64) == b1 ^ (b1 >> 27u64));
    assert(a1 == b1);
    lemma_mul64_undone(a ^ (a >> 30u64), MIX_ONE, 0x96DE_1B17_3F11_9089u64);
    lemma_mul64_undone(b ^ (b >> 30u64), MIX_ONE, 0x96DE_1B17_3F11_9089u64);
    assert(a ^ (a >> 30u64) == b ^ (b >> 30u64));
}

/// The state returns to the seed after exactly 2^64 draws and not before:
/// two states fewer than 2^64 draws apart are different, because the
/// increment is odd.
pub proof fn lemma_states_distinct(seed: u64, j: nat, k: nat)
    requires
        j < k,
        k - j < 0x1_0000_0000_0000_0000nat,
    ensures
        state_after(seed, j) != state_after(seed, k),
{
    let m: int = 0x1_0000_0000_0000_0000int;
    let inverse: int = 0xF1DE_83E1_9937_733Dint;
    lemma_state_after(seed, j);
    lemma_state_after(seed, k);
    lemma_inverse(GOLDEN as nat, inverse as nat, 10771413168148108919nat);
    let d: int = k - j;
    let g: int = GOLDEN as int;
    if state_after(seed, j) == state_after(seed, k) {
        let x = seed as int + k * g;
        let y = seed as int + j * g;
        assert(x - y == d * g) by (nonlinear_arith)
            requires
                x == seed as int + k * g,
                y == seed as int + j * g,
                d == k - j,
        ;
        lemma_mod_equivalence(x, y, m);
        assert((d * g) % m == 0);
        lemma_mul_mod_noop_left(d * g, inverse, m);
        assert(0int * inverse == 0);
        vstd::arithmetic::mul::lemma_mul_is_associative(d, g, inverse);
        lemma_mul_mod_noop_right(d, g * inverse, m);
        lemma_small_mod(d as nat, m as nat);
        assert(false);
    }
}

/// The state comes back to the seed after 2^64 draws.
pub proof fn lemma_period(seed: u64)
    ensures
        state_after(seed, 0x1_0000_0000_0000_0000nat) == seed,
{
    let m: int = 0x1_0000_0000_0000_0000int;
    lemma_state_after(seed, 0x1_0000_0000_0000_0000nat);
    vstd::arithmetic::div_mod::lemma_mod_multiples_vanish(GOLDEN as int, seed as int, m);
    lemma_small_mod(seed as nat, m as nat);
}

/// The first 2^64 values drawn from a generator are all different: the
/// states they are mixed from are, and the mix is one to one.
pub proof fn lemma_draws_distinct(seed: u64, j: nat, k: nat)
    requires
        j < k < 0x1_0000_0000_0000_0000nat,
    ensures
        draw(seed, j) != draw(seed, k),
{
    lemma_states_distinct(seed, j + 1, k + 1);
    if draw(seed, j) == draw(seed, k) {
        lemma_mix_injective(state_after(seed, j + 1), state_after(seed, k + 1));
    }
}

} // verus!
