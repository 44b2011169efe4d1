//! Integer pieces of the state-space skill model: the sub-X thresholds its
//! simulation summarises for each event, and the SplitMix64 generator that
//! drives that simulation.
use vstd::prelude::*;
use crate::index::str_is_str;

verus! {

/// The sub-X thresholds (centiseconds) summarised for `event`, slowest first;
/// none for an event the model does not cover.
pub open spec fn subs_spec(event: Seq<char>) -> Seq<i32> {
    if event == "222"@ {
        seq![200i32, 150, 100]
    } else if event == "333"@ {
        seq![1000i32, 800, 700, 600, 500]
    } else if event == "444"@ {
        seq![4000i32, 3000, 2500]
    } else if event == "555"@ {
        seq![7000i32, 6000, 5000]
    } else if event == "666"@ {
        seq![13000i32, 11000]
    } else if event == "777"@ {
        seq![19000i32, 16000]
    } else if event == "333oh"@ {
        seq![1500i32, 1200, 1000, 900]
    } else if event == "pyram"@ {
        seq![400i32, 300, 200]
    } else if event == "skewb"@ {
        seq![400i32, 300, 200]
    } else if event == "sq1"@ {
        seq![900i32, 700, 500]
    } else if event == "minx"@ {
        seq![4000i32, 3500, 3000]
    } else {
        Seq::empty()
    }
}

/// The sub-X thresholds for `event`.
pub fn subs_for(event: &str) -> (r: Vec<i32>)
    ensures
        r@ == subs_spec(event@),
{
    if str_is_str(event, "222") {
        vec![200, 150, 100]
    } else if str_is_str(event, "333") {
        vec![1000, 800, 700, 600, 500]
    } else if str_is_str(event, "444") {
        vec![4000, 3000, 2500]
    } else if str_is_str(event, "555") {
        vec![7000, 6000, 5000]
    } else if str_is_str(event, "666") {
        vec![13000, 11000]
    } else if str_is_str(event, "777") {
        vec![19000, 16000]
    } else if str_is_str(event, "333oh") {
        vec![1500, 1200, 1000, 900]
    } else if str_is_str(event, "pyram") {
        vec![400, 300, 200]
    } else if str_is_str(event, "skewb") {
        vec![400, 300, 200]
    } else if str_is_str(event, "sq1") {
        vec![900, 700, 500]
    } else if str_is_str(event, "minx") {
        vec![4000, 3500, 3000]
    } else {
        Vec::new()
    }
}

/// The SplitMix64 increment (the golden ratio in 64-bit fixed point).
pub const GOLDEN_GAMMA: u64 = 0x9E3779B97F4A7C15;

/// The SplitMix64 output function applied to a state.
pub open spec fn splitmix_mix(s: u64) -> u64 {
    let z1 = (s ^ (s >> 30u64)).wrapping_mul(0xBF58476D1CE4E5B9u64);
    let z2 = (z1 ^ (z1 >> 27u64)).wrapping_mul(0x94D049BB133111EBu64);
    z2 ^ (z2 >> 31u64)
}

/// A SplitMix64 pseudo-random generator; the field is its state.
pub struct Rng(pub u64);

impl Rng {
    /// Advances the state by the increment and returns the mixed new state.
    pub fn next_u64(&mut self) -> (r: u64)
        ensures
            final(self).0 == old(self).0.wrapping_add(GOLDEN_GAMMA),
            r == splitmix_mix(final(self).0),
    {
        self.0 = self.0.wrapping_add(GOLDEN_GAMMA);
        let mut z = self.0;
        z = (z ^ (z >> 30u64)).wrapping_mul(0xBF58476D1CE4E5B9u64);
        z = (z ^ (z >> 27u64)).wrapping_mul(0x94D049BB133111EBu64);
        z ^ (z >> 31u64)
    }
}

} // verus!
