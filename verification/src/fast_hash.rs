//! A fast hasher for keys that are small integers.
use std::hash::Hasher;
use vstd::prelude::*;

use crate::encode::xxh3_64;

verus! {

const MIX: u64 = 0x9E37_79B9_7F4A_7C15;

const FINISH_FIRST: u64 = 0xbf58_476d_1ce4_e5b9;

const FINISH_SECOND: u64 = 0x94d0_49bb_1331_11eb;

/// The state after a word has been mixed into it.
pub open spec fn mixed(state: u64, word: u64) -> u64 {
    (state ^ word).wrapping_mul(0x9E37_79B9_7F4A_7C15)
}

/// The hash that a state stands for.
pub open spec fn finished(state: u64) -> u64 {
    let first = (state ^ (state >> 30u64)).wrapping_mul(0xbf58_476d_1ce4_e5b9);
    let second = (first ^ (first >> 27u64)).wrapping_mul(0x94d0_49bb_1331_11eb);
    second ^ (second >> 31u64)
}

/// A hasher that mixes one machine word per value written.
#[derive(Clone, Copy)]
pub struct FastHasher(u64);

impl FastHasher {
    /// What has been mixed in so far.
    pub closed spec fn state(&self) -> u64 {
        self.0
    }

    fn mix(&mut self, value: u64)
        ensures
            final(self).state() == mixed(old(self).state(), value),
    {
        self.0 = (self.0 ^ value).wrapping_mul(MIX);
    }
}

impl Default for FastHasher {
    fn default() -> (hasher: Self)
        ensures
            hasher.state() == 0,
    {
        FastHasher(0)
    }
}

impl Hasher for FastHasher {
    fn finish(&self) -> (hash: u64)
        ensures
            hash == finished(self.state()),
    {
        let first: u64 = (self.0 ^ (self.0 >> 30u64)).wrapping_mul(FINISH_FIRST);
        let second: u64 = (first ^ (first >> 27u64)).wrapping_mul(FINISH_SECOND);
        second ^ (second >> 31u64)
    }

    fn write(&mut self, bytes: &[u8])
        ensures
            final(self).state() == mixed(old(self).state(), crate::encode::xxh3(bytes@)),
    {
        self.mix(xxh3_64(bytes));
    }

    fn write_u8(&mut self, n: u8)
        ensures
            final(self).state() == mixed(old(self).state(), n as u64),
    {
        self.mix(n as u64);
    }

    fn write_u16(&mut self, n: u16)
        ensures
            final(self).state() == mixed(old(self).state(), n as u64),
    {
        self.mix(n as u64);
    }

    fn write_u32(&mut self, n: u32)
        ensures
            final(self).state() == mixed(old(self).state(), n as u64),
    {
        self.mix(n as u64);
    }

    fn write_u64(&mut self, n: u64)
        ensures
            final(self).state() == mixed(old(self).state(), n),
    {
        self.mix(n);
    }

    fn write_u128(&mut self, n: u128)
        ensures
            final(self).state() == mixed(mixed(old(self).state(), n as u64), (n >> 64u128) as u64),
    {
        self.mix(n as u64);
        self.mix((n >> 64u128) as u64);
    }

    fn write_usize(&mut self, n: usize)
        ensures
            final(self).state() == mixed(old(self).state(), n as u64),
    {
        self.mix(n as u64);
    }

    fn write_i8(&mut self, n: i8)
        ensures
            final(self).state() == mixed(old(self).state(), n as u64),
    {
        self.mix(n as u64);
    }

    fn write_i16(&mut self, n: i16)
        ensures
            final(self).state() == mixed(old(self).state(), n as u64),
    {
        self.mix(n as u64);
    }

    fn write_i32(&mut self, n: i32)
        ensures
            final(self).state() == mixed(old(self).state(), n as u64),
    {
        self.mix(n as u64);
    }

    fn write_i64(&mut self, n: i64)
        ensures
            final(self).state() == mixed(old(self).state(), n as u64),
    {
        self.mix(n as u64);
    }

    fn write_i128(&mut self, n: i128)
        ensures
            final(self).state() == mixed(
                mixed(old(self).state(), (n as u128) as u64),
                ((n as u128) >> 64u128) as u64,
            ),
    {
        self.write_u128(n as u128);
    }

    fn write_isize(&mut self, n: isize)
        ensures
            final(self).state() == mixed(old(self).state(), n as u64),
    {
        self.mix(n as u64);
    }
}

} // verus!
