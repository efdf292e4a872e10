use vstd::prelude::*;

use crate::ipc_manager::{IpcReceiveMessage, IpcReplyMessage};

verus! {

/// One step of the xorshift64 generator (shifts 13, 7, 17).
pub open spec fn xorshift64_step(x: u64) -> u64 {
    let a = x ^ (x << 13u64);
    let b = a ^ (a >> 7u64);
    b ^ (b << 17u64)
}

/// A xorshift64 pseudo-random generator.
pub struct Xorshift64(pub u64);

impl Xorshift64 {
    /// A generator in state `seed`.
    pub fn new(seed: u64) -> (rng: Self)
        ensures
            rng.0 == seed,
    {
        Xorshift64(seed)
    }

    /// Advances the state by one step and returns the new state.
    pub fn next(&mut self) -> (value: u64)
        ensures
            value == xorshift64_step(old(self).0),
            final(self).0 == value,
    {
        self.0 = self.0 ^ (self.0 << 13u64);
        self.0 = self.0 ^ (self.0 >> 7u64);
        self.0 = self.0 ^ (self.0 << 17u64);
        self.0
    }
}

/// A generator whose state is not zero never produces zero: each of the
/// three xor-shifts is invertible.
pub proof fn lemma_xorshift64_nonzero(x: u64)
    requires
        x != 0,
    ensures
        xorshift64_step(x) != 0,
{
    let a = x ^ (x << 13u64);
    let b = a ^ (a >> 7u64);
    let c = b ^ (b << 17u64);
    assert(x != 0 ==> (x ^ (x << 13u64)) != 0) by (bit_vector);
    assert(a != 0 ==> (a ^ (a >> 7u64)) != 0) by (bit_vector);
    assert(b != 0 ==> (b ^ (b << 17u64)) != 0) by (bit_vector);
}

/// One step of the linear congruential generator of the random server.
pub open spec fn lcg_step(state: u32) -> u32 {
    vstd::wrapping::u32_specs::wrapping_add(
        vstd::wrapping::u32_specs::wrapping_mul(state, 1103515245u32),
        12345u32,
    )
}

/// Pseudo-random numbers from a linear congruential generator.
pub struct RandomGeneratorServer {
    state: u32,
}

impl RandomGeneratorServer {
    pub closed spec fn spec_state(&self) -> u32 {
        self.state
    }

    /// A generator in state `seed`.
    pub fn new(seed: u32) -> (server: Self)
        ensures
            server.spec_state() == seed,
    {
        RandomGeneratorServer { state: seed }
    }

    /// Advances the state by one step and returns the new state.
    pub fn next(&mut self) -> (value: u32)
        ensures
            value == lcg_step(old(self).spec_state()),
            final(self).spec_state() == value,
    {
        self.state = self.state.wrapping_mul(1103515245).wrapping_add(12345);
        self.state
    }

    /// Two steps joined: the first result in the high half, the second in
    /// the low half.
    pub fn next_u64(&mut self) -> (value: u64)
        ensures
            final(self).spec_state() == lcg_step(lcg_step(old(self).spec_state())),
            value == lcg_step(old(self).spec_state()) as u64 * 0x1_0000_0000 + lcg_step(
                lcg_step(old(self).spec_state()),
            ) as u64,
    {
        let hi = self.next() as u64;
        let lo = self.next() as u64;
        assert((hi << 32u64) | lo == hi * 0x1_0000_0000 + lo) by (bit_vector)
            requires
                hi < 0x1_0000_0000,
                lo < 0x1_0000_0000,
        ;
        (hi << 32u64) | lo
    }

    /// The reply to a request for a random number: the next number, for
    /// the future on which the sender waits.
    pub fn answer(&mut self, message: IpcReceiveMessage) -> (reply: IpcReplyMessage)
        ensures
            reply.value == lcg_step(old(self).spec_state()),
            reply.future == message.future,
            final(self).spec_state() == reply.value,
    {
        let value = self.next();
        IpcReplyMessage { value, future: message.future }
    }

    /// A number in `[min, max]`: `min` plus the next step modulo the size of
    /// the range.
    pub fn next_range(&mut self, min: u32, max: u32) -> (value: u32)
        requires
            min <= max,
            max - min + 1 <= u32::MAX,
        ensures
            final(self).spec_state() == lcg_step(old(self).spec_state()),
            value == min + lcg_step(old(self).spec_state()) % (max - min + 1) as u32,
            min <= value <= max,
    {
        let range = max - min + 1;
        let n = self.next();
        min + (n % range)
    }
}

} // verus!
