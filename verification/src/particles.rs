//! Which particle behaviours exist, and how many atlas frames each animates.

use vstd::prelude::*;
use crate::text::str_eq;
use crate::arith::{lemma_tdiv_bounds, tdiv};

verus! {

/// Which particle class a live particle is running. Unknown particle types
/// map to no kind and are dropped rather than drawn as something else.
#[derive(Clone, Copy, Debug, PartialEq, Eq, Hash, Structural)]
pub enum ParticleKind {
    /// `TerrainParticle` — the block-break shards (`minecraft:block`).
    Terrain,
    /// `SmokeParticle` (`minecraft:smoke`).
    Smoke,
    /// `FlameParticle` (`minecraft:flame`).
    Flame,
    /// `SplashParticle` (`minecraft:splash`).
    Splash,
    /// `CritParticle` (`minecraft:crit`).
    Crit,
    /// `ExplodeParticle` (`minecraft:poof`).
    Poof,
}

/// The registry name of each kind.
pub open spec fn registry_name(k: ParticleKind) -> Seq<char> {
    match k {
        ParticleKind::Terrain => "minecraft:block"@,
        ParticleKind::Smoke => "minecraft:smoke"@,
        ParticleKind::Flame => "minecraft:flame"@,
        ParticleKind::Splash => "minecraft:splash"@,
        ParticleKind::Crit => "minecraft:crit"@,
        ParticleKind::Poof => "minecraft:poof"@,
    }
}

/// The six documented registry names are six different strings.
proof fn lemma_registry_names_distinct()
    ensures
        "minecraft:block"@ != "minecraft:smoke"@,
        "minecraft:block"@ != "minecraft:flame"@,
        "minecraft:block"@ != "minecraft:splash"@,
        "minecraft:block"@ != "minecraft:crit"@,
        "minecraft:block"@ != "minecraft:poof"@,
        "minecraft:smoke"@ != "minecraft:flame"@,
        "minecraft:smoke"@ != "minecraft:splash"@,
        "minecraft:smoke"@ != "minecraft:crit"@,
        "minecraft:smoke"@ != "minecraft:poof"@,
        "minecraft:flame"@ != "minecraft:splash"@,
        "minecraft:flame"@ != "minecraft:crit"@,
        "minecraft:flame"@ != "minecraft:poof"@,
        "minecraft:splash"@ != "minecraft:crit"@,
        "minecraft:splash"@ != "minecraft:poof"@,
        "minecraft:crit"@ != "minecraft:poof"@,
{
    reveal_strlit("minecraft:block");
    reveal_strlit("minecraft:smoke");
    reveal_strlit("minecraft:flame");
    reveal_strlit("minecraft:splash");
    reveal_strlit("minecraft:crit");
    reveal_strlit("minecraft:poof");
    assert("minecraft:block"@[10] != "minecraft:smoke"@[10]);
    assert("minecraft:block"@[10] != "minecraft:flame"@[10]);
    assert("minecraft:block"@[10] != "minecraft:splash"@[10]);
    assert("minecraft:block"@[10] != "minecraft:crit"@[10]);
    assert("minecraft:block"@[10] != "minecraft:poof"@[10]);
    assert("minecraft:smoke"@[11] != "minecraft:flame"@[11]);
    assert("minecraft:smoke"@[11] != "minecraft:splash"@[11]);
    assert("minecraft:smoke"@[10] != "minecraft:crit"@[10]);
    assert("minecraft:smoke"@[10] != "minecraft:poof"@[10]);
    assert("minecraft:flame"@[10] != "minecraft:splash"@[10]);
    assert("minecraft:flame"@[10] != "minecraft:crit"@[10]);
    assert("minecraft:flame"@[10] != "minecraft:poof"@[10]);
    assert("minecraft:splash"@[10] != "minecraft:crit"@[10]);
    assert("minecraft:splash"@[10] != "minecraft:poof"@[10]);
    assert("minecraft:crit"@[10] != "minecraft:poof"@[10]);
}

/// Each particle kind answers to its own documented registry name and to
/// no other: a lookup result that meets the lookup's promise is the kind
/// the name documents, for every name.
pub proof fn lemma_lookup_picks_the_documented_kind(name: Seq<char>, r: Option<ParticleKind>)
    requires
        match r {
            Some(k) => registry_name(k) == name,
            None => forall|k: ParticleKind| registry_name(k) != name,
        },
    ensures
        name == "minecraft:block"@ <==> r == Some(ParticleKind::Terrain),
        name == "minecraft:smoke"@ <==> r == Some(ParticleKind::Smoke),
        name == "minecraft:flame"@ <==> r == Some(ParticleKind::Flame),
        name == "minecraft:splash"@ <==> r == Some(ParticleKind::Splash),
        name == "minecraft:crit"@ <==> r == Some(ParticleKind::Crit),
        name == "minecraft:poof"@ <==> r == Some(ParticleKind::Poof),
{
    lemma_registry_names_distinct();
    if name == "minecraft:block"@ { assert(registry_name(ParticleKind::Terrain) == name); }
    if name == "minecraft:smoke"@ { assert(registry_name(ParticleKind::Smoke) == name); }
    if name == "minecraft:flame"@ { assert(registry_name(ParticleKind::Flame) == name); }
    if name == "minecraft:splash"@ { assert(registry_name(ParticleKind::Splash) == name); }
    if name == "minecraft:crit"@ { assert(registry_name(ParticleKind::Crit) == name); }
    if name == "minecraft:poof"@ { assert(registry_name(ParticleKind::Poof) == name); }
}

impl ParticleKind {
    /// Registry id → kind, for `minecraft:particle_type`.
    pub fn from_registry_name(name: &str) -> (r: Option<Self>)
        ensures
            match r {
                Some(k) => registry_name(k) == name@,
                None => forall|k: ParticleKind| registry_name(k) != name@,
            },
            name@ == "minecraft:block"@ ==> r == Some(ParticleKind::Terrain),
            name@ == "minecraft:smoke"@ ==> r == Some(ParticleKind::Smoke),
            name@ == "minecraft:flame"@ ==> r == Some(ParticleKind::Flame),
            name@ == "minecraft:splash"@ ==> r == Some(ParticleKind::Splash),
            name@ == "minecraft:crit"@ ==> r == Some(ParticleKind::Crit),
            name@ == "minecraft:poof"@ ==> r == Some(ParticleKind::Poof),
    {
        proof {
            lemma_registry_names_distinct();
        }
        if str_eq(name, "minecraft:block") {
            Some(ParticleKind::Terrain)
        } else if str_eq(name, "minecraft:smoke") {
            Some(ParticleKind::Smoke)
        } else if str_eq(name, "minecraft:flame") {
            Some(ParticleKind::Flame)
        } else if str_eq(name, "minecraft:splash") {
            Some(ParticleKind::Splash)
        } else if str_eq(name, "minecraft:crit") {
            Some(ParticleKind::Crit)
        } else if str_eq(name, "minecraft:poof") {
            Some(ParticleKind::Poof)
        } else {
            proof {
                assert forall|k: ParticleKind| registry_name(k) != name@ by {
                    match k {
                        ParticleKind::Terrain => {},
                        ParticleKind::Smoke => {},
                        ParticleKind::Flame => {},
                        ParticleKind::Splash => {},
                        ParticleKind::Crit => {},
                        ParticleKind::Poof => {},
                    }
                }
            }
            None
        }
    }

    /// How many atlas frames this kind animates over: the shared 8-frame
    /// strip for smoke and poof, a single sprite for the rest.
    pub fn sprite_frames(self) -> (r: u32)
        ensures
            r == if self == ParticleKind::Smoke || self == ParticleKind::Poof { 8u32 } else { 1u32 },
    {
        match self {
            ParticleKind::Smoke | ParticleKind::Poof => 8,
            ParticleKind::Flame | ParticleKind::Splash | ParticleKind::Crit | ParticleKind::Terrain => 1,
        }
    }
}

/// `java.util.Random`'s multiplier.
pub const MULTIPLIER: u64 = 25_214_903_917;

/// `java.util.Random`'s increment.
pub const INCREMENT: u64 = 11;

/// The 48-bit state mask, `2^48 - 1`.
pub const MODULUS_MASK: u64 = 281_474_976_710_655;

/// The LCG's step on a 48-bit state: `(s * 0x5DEECE66D + 11) mod 2^48`.
pub open spec fn lcg_step(s: int) -> int {
    (s * MULTIPLIER + INCREMENT) % 0x1_0000_0000_0000
}

/// Vanilla's `LegacyRandomSource`: `java.util.Random`'s linear
/// congruential generator over a 48-bit state.
#[derive(Clone, Debug)]
pub struct LegacyRandom {
    seed: u64,
}

impl LegacyRandom {
    /// The 48-bit state.
    pub closed spec fn state(&self) -> u64 {
        self.seed
    }

    pub closed spec fn wf(&self) -> bool {
        self.seed <= MODULUS_MASK
    }

    /// `setSeed`: the seed scrambled with the multiplier and cut to 48 bits.
    pub fn new(seed: i64) -> (r: Self)
        ensures
            r.wf(),
            r.state() == ((seed as u64) ^ MULTIPLIER) & MODULUS_MASK,
    {
        let s = ((seed as u64) ^ MULTIPLIER) & MODULUS_MASK;
        assert(s <= MODULUS_MASK) by (bit_vector)
            requires
                s == ((seed as u64) ^ MULTIPLIER) & MODULUS_MASK,
        ;
        LegacyRandom { seed: s }
    }

    /// `next(bits)`: one step of the generator, answering the state's top
    /// `bits` bits narrowed to an `i32`.
    pub fn next(&mut self, bits: u32) -> (r: i32)
        requires
            old(self).wf(),
            bits <= 48,
        ensures
            final(self).wf(),
            final(self).state() == lcg_step(old(self).state() as int),
            r == (final(self).state() >> ((48 - bits) as u64)) as i32,
    {
        let old_seed = self.seed;
        let p = old_seed.wrapping_mul(MULTIPLIER);
        let q = p.wrapping_add(INCREMENT);
        let s = q & MODULUS_MASK;
        proof {
            let two48: int = 0x1_0000_0000_0000;
            let two64: int = 0x1_0000_0000_0000_0000;
            assert(s == q % 0x1_0000_0000_0000) by (bit_vector)
                requires
                    s == q & MODULUS_MASK,
            ;
            assert(s <= MODULUS_MASK) by (bit_vector)
                requires
                    s == q & MODULUS_MASK,
            ;
            let x = old_seed as int * MULTIPLIER;
            assert(p as int == x % two64);
            assert(q as int == (p as int + INCREMENT) % two64);
            assert(two64 == two48 * 0x10000);
            vstd::arithmetic::div_mod::lemma_mod_mod(p as int + INCREMENT, two48, 0x10000);
            vstd::arithmetic::div_mod::lemma_mod_mod(x, two48, 0x10000);
            vstd::arithmetic::div_mod::lemma_add_mod_noop(p as int, INCREMENT as int, two48);
            vstd::arithmetic::div_mod::lemma_add_mod_noop(x, INCREMENT as int, two48);
            vstd::arithmetic::div_mod::lemma_mod_twice(x, two48);
            assert((INCREMENT as int) % two48 == INCREMENT);
        }
        self.seed = s;
        let shift: u32 = 48 - bits;
        (s >> shift) as i32
    }

    /// `nextLong`: two 32-bit draws, the first as the high half, added
    /// with wrapping.
    pub fn next_long(&mut self) -> (r: i64)
        requires
            old(self).wf(),
        ensures
            final(self).wf(),
            final(self).state() == lcg_step(lcg_step(old(self).state() as int)),
            ({
                let s1 = lcg_step(old(self).state() as int) as u64;
                let s2 = final(self).state();
                let hi = (s1 >> 16u64) as i32;
                let lo = (s2 >> 16u64) as i32;
                let sum = hi as int * 0x1_0000_0000 + lo as int;
                r as int == if sum < i64::MIN { sum + 0x1_0000_0000_0000_0000 } else { sum }
            }),
    {
        let upper = self.next(32) as i64;
        let lower = self.next(32) as i64;
        let shifted = upper << 32;
        assert(shifted == upper * 0x1_0000_0000) by (bit_vector)
            requires
                shifted == upper << 32,
                -0x8000_0000 <= upper < 0x8000_0000,
        ;
        shifted.wrapping_add(lower)
    }

    /// One round of `nextInt(bound)`: a 31-bit draw, and what it answers.
    /// A power-of-two bound always answers; any other bound answers unless
    /// the draw falls in the biased top of the range, in which case the
    /// caller draws again.
    pub fn next_int_round(&mut self, bound: i32) -> (r: Option<i32>)
        requires
            old(self).wf(),
            bound > 0,
        ensures
            final(self).wf(),
            final(self).state() == lcg_step(old(self).state() as int),
            r == next_int_answer(bound as int, (final(self).state() >> 17u64) as i32),
            is_power_of_two(bound as int) ==> r is Some,
            r matches Some(v) ==> 0 <= v < bound,
    {
        let sample = self.next(31);
        let st = self.seed;
        assert(0 <= (st >> 17u64) < 0x8000_0000) by (bit_vector)
            requires
                st <= MODULUS_MASK,
        ;
        assert(0 <= sample);
        let b = bound;
        if b & (b - 1) == 0 {
            assert(bound * sample < 0x8000_0000 * 0x8000_0000) by (nonlinear_arith)
                requires
                    0 <= sample < 0x8000_0000,
                    0 < bound < 0x8000_0000,
            ;
            let prod = (bound as i64) * (sample as i64);
            assert(0 <= prod < bound * 0x8000_0000) by (nonlinear_arith)
                requires
                    prod == bound * sample,
                    0 <= sample < 0x8000_0000,
                    bound > 0,
            ;
            let v = prod / 0x8000_0000i64;
            assert(0 <= v < bound) by (nonlinear_arith)
                requires
                    v == prod / 0x8000_0000,
                    0 <= prod < bound * 0x8000_0000,
            ;
            Some(v as i32)
        } else {
            let modulo = sample % bound;
            let t = (sample as i64) - (modulo as i64) + (bound as i64) - 1;
            if t <= i32::MAX as i64 {
                Some(modulo)
            } else {
                None
            }
        }
    }
}

/// The animation frame a particle `age` ticks into a `lifetime`-tick life
/// shows out of `frames`: `age * (frames - 1) / lifetime`, the division
/// rounding toward zero, cut to a `u32` and held to the last frame. A
/// single-frame kind, or a life of no ticks, leaves the frame alone: `None`.
pub fn sprite_frame_for_age(frames: u32, age: i32, lifetime: i32) -> (r: Option<u32>)
    ensures
        frames <= 1 || lifetime <= 0 ==> r is None,
        frames > 1 && lifetime > 0 ==> r == Some({
            let idx = tdiv(age * (frames - 1), lifetime as int) as u32;
            if idx < frames - 1 { idx } else { (frames - 1) as u32 }
        }),
{
    if frames <= 1 || lifetime <= 0 {
        return None;
    }
    let f = frames as i64 - 1;
    assert(-0x8000_0000 * 0xFFFF_FFFE <= age * f <= 0x8000_0000 * 0xFFFF_FFFE) by (nonlinear_arith)
        requires
            -0x8000_0000 <= age < 0x8000_0000,
            0 <= f <= 0xFFFF_FFFE,
    ;
    let prod = age as i64 * f;
    let q = prod / lifetime as i64;
    proof {
        lemma_tdiv_bounds(prod as int, lifetime as int);
    }
    let idx = #[verifier::truncate] (q as u32);
    Some(if idx < frames - 1 { idx } else { frames - 1 })
}

/// `bound` is a power of two: `bound & (bound - 1) == 0` on an `i32`.
pub open spec fn is_power_of_two(bound: int) -> bool {
    (bound as i32) & ((bound - 1) as i32) == 0
}

/// What one round of `nextInt(bound)` answers for the 31-bit draw
/// `sample`. A power of two takes the draw's top bits:
/// `(bound * sample) >> 31`. Any other bound takes `sample % bound`, unless
/// `sample - sample % bound + (bound - 1)` passes `i32::MAX`, the overflow
/// `java.util.Random` tests for by seeing that sum, computed with `i32`
/// wrapping, turn negative: then the round answers nothing.
pub open spec fn next_int_answer(bound: int, sample: i32) -> Option<i32> {
    if is_power_of_two(bound) {
        Some(((bound * sample) / 0x8000_0000) as i32)
    } else {
        let m = (sample as int) % bound;
        if sample - m + (bound - 1) <= i32::MAX {
            Some(m as i32)
        } else {
            None
        }
    }
}

} // verus!
