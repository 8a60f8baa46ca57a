//! Per-key access frequency with exponential decay.
//!
//! Frequencies are fixed-point numbers with `FREQ_ONE` units per access. Each
//! elapsed second multiplies the frequency by `DECAY_PER_SECOND / FREQ_ONE`,
//! which is e^(-0.2) rounded to the fixed-point grid, rounding down.
use vstd::prelude::*;

use crate::device::sat_add;
use crate::page_manager::Location;

verus! {

/// One access, in fixed-point units.
pub const FREQ_ONE: u64 = 65536;

/// e^(-0.2) in fixed-point units: the decay factor of one second at rate 0.2.
pub const DECAY_PER_SECOND: u64 = 53656;

/// A frequency after one second of decay.
pub open spec fn decay_once(freq: u64) -> u64 {
    (freq as int * DECAY_PER_SECOND as int / FREQ_ONE as int) as u64
}

/// A frequency after `dt` seconds of decay.
pub open spec fn decay(freq: u64, dt: nat) -> u64
    decreases dt,
{
    if dt == 0 {
        freq
    } else {
        decay(decay_once(freq), (dt - 1) as nat)
    }
}

/// Seconds between two timestamps; zero when the clock went back.
pub open spec fn elapsed(last: u64, now: u64) -> nat {
    if now >= last {
        (now - last) as nat
    } else {
        0
    }
}

/// The frequency after an access at `now`: the decayed frequency plus one access.
pub open spec fn next_freq(freq: u64, last: u64, now: u64) -> u64 {
    sat_add(decay(freq, elapsed(last, now)), FREQ_ONE as int)
}

/// Whether a frequency reaches the hot threshold.
pub open spec fn is_hot_freq(freq: u64, hot_threshold: u32) -> bool {
    freq >= hot_threshold * FREQ_ONE
}

pub proof fn lemma_decay_zero(dt: nat)
    ensures
        decay(0, dt) == 0,
    decreases dt,
{
    if dt > 0 {
        lemma_decay_zero((dt - 1) as nat);
    }
}

pub proof fn lemma_decay_step(freq: u64, i: nat)
    ensures
        decay(freq, i + 1) == decay(decay(freq, i), 1),
    decreases i,
{
    if i > 0 {
        lemma_decay_step(decay_once(freq), (i - 1) as nat);
    }
}

/// Access metadata of a key.
#[derive(Debug, Clone, Copy, PartialEq, Eq, Structural)]
pub struct ObjectMetadata {
    pub location: Location,
    pub size: u32,
    /// Decayed access frequency, in `FREQ_ONE` units per access.
    pub freq_accessed: u64,
    /// Time of the last access, in seconds.
    pub last_access: u64,
}

/// Applies `dt` seconds of decay.
pub fn decay_frequency(freq: u64, dt: u64) -> (r: u64)
    ensures
        r == decay(freq, dt as nat),
{
    let mut f: u64 = freq;
    let mut i: u64 = 0;
    while i < dt && f > 0
        invariant
            i <= dt,
            f == decay(freq, i as nat),
        decreases dt - i,
    {
        proof {
            lemma_decay_step(freq, i as nat);
            assert(f as int * 53656 <= 0xffff_ffff_ffff_ffff * 53656) by (nonlinear_arith)
                requires
                    f <= 0xffff_ffff_ffff_ffff,
            ;
        }
        let p: u128 = (f as u128) * (DECAY_PER_SECOND as u128) / (FREQ_ONE as u128);
        assert(p <= f) by (nonlinear_arith)
            requires
                p == f as int * 53656 / 65536,
        ;
        proof {
            reveal_with_fuel(decay, 2);
            assert(decay(f, 1) == decay_once(f));
            assert(p == decay_once(f));
        }
        f = p as u64;
        i = i + 1;
    }
    proof {
        if i < dt {
            assert(f == 0);
            lemma_decay_zero((dt - i) as nat);
            lemma_decay_split(freq, i as nat, (dt - i) as nat);
        }
    }
    f
}

pub proof fn lemma_decay_split(freq: u64, a: nat, b: nat)
    ensures
        decay(freq, a + b) == decay(decay(freq, a), b),
    decreases b,
{
    if b > 0 {
        lemma_decay_split(freq, a, (b - 1) as nat);
        lemma_decay_step(freq, (a + b - 1) as nat);
        lemma_decay_step(decay(freq, a), (b - 1) as nat);
    }
}

impl ObjectMetadata {
    /// Metadata of a key just written at `now`.
    pub fn fresh(location: Location, size: u32, now: u64) -> (r: ObjectMetadata)
        ensures
            r == (ObjectMetadata { location, size, freq_accessed: FREQ_ONE, last_access: now }),
    {
        ObjectMetadata { location, size, freq_accessed: FREQ_ONE, last_access: now }
    }

    /// Records an access at `now`: decays the frequency over the elapsed seconds, adds one
    /// access, and tells whether the key is now hot.
    pub fn update_hotness(&mut self, hot_threshold: u32, now: u64) -> (r: bool)
        ensures
            final(self).freq_accessed == next_freq(
                old(self).freq_accessed,
                old(self).last_access,
                now,
            ),
            final(self).last_access == now,
            final(self).location == old(self).location,
            final(self).size == old(self).size,
            r == is_hot_freq(final(self).freq_accessed, hot_threshold),
    {
        let dt: u64 = if now >= self.last_access {
            now - self.last_access
        } else {
            0
        };
        let decayed = decay_frequency(self.freq_accessed, dt);
        self.freq_accessed = decayed.saturating_add(FREQ_ONE);
        self.last_access = now;
        self.freq_accessed >= hot_threshold as u64 * FREQ_ONE
    }
}

/// Two accesses within the same second add one access each, with no decay.
pub proof fn lemma_same_second(freq: u64, now: u64)
    requires
        freq + 2 * FREQ_ONE <= u64::MAX,
    ensures
        next_freq(freq, now, now) == freq + FREQ_ONE,
        next_freq(next_freq(freq, now, now), now, now) == freq + 2 * FREQ_ONE,
{
}

} // verus!
