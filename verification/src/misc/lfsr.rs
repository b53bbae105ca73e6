use vstd::prelude::*;

verus! {

/// A linear-feedback shift register over a 32-bit state with the fixed
/// maximum-length tap positions {0, 25, 27, 29, 30, 31}.
///
/// Each step outputs the low state bit, computes the feedback bit as the
/// XOR of the tapped bits, and shifts the state right by one with the
/// feedback bit inserted at bit 31. The whole recurrence is deterministic
/// in the seed.
pub struct LFSR {
    state: u32,
}

/// The bit of `s` at position `n`.
pub open spec fn bit_at(s: u32, n: u32) -> u32 {
    (s >> n) & 1
}

/// The feedback bit: the XOR of the tapped state bits.
pub open spec fn tap_xor(s: u32) -> u32 {
    bit_at(s, 0) ^ bit_at(s, 25) ^ bit_at(s, 27) ^ bit_at(s, 29) ^ bit_at(s, 30) ^ bit_at(s, 31)
}

/// One register step: shift right by one, feedback bit into bit 31.
pub open spec fn step(s: u32) -> u32 {
    (s >> 1) | (tap_xor(s) << 31)
}

/// The register after `n` steps from `s`.
pub open spec fn step_n(s: u32, n: nat) -> u32
    decreases n,
{
    if n == 0 {
        s
    } else {
        step(step_n(s, (n - 1) as nat))
    }
}

/// The word assembled from the output bits of the first `n` steps from
/// `s`, the earliest output bit lowest.
pub open spec fn word_of(s: u32, n: nat) -> u32
    decreases n,
{
    if n == 0 {
        0
    } else {
        word_of(s, (n - 1) as nat) | ((step_n(s, (n - 1) as nat) & 1) << (((n - 1) as nat) as u32))
    }
}

impl LFSR {
    /// The current register value.
    pub closed spec fn state_spec(self) -> u32 {
        self.state
    }

    /// Constructs a register with the fixed seed `0xdeadbeef`.
    pub fn new() -> (r: LFSR)
        ensures
            r.state_spec() == 0xdeadbeefu32,
    {
        LFSR { state: 0xdeadbeef }
    }

    /// Constructs a register with the given seed.
    pub fn new_with_state(s: u32) -> (r: LFSR)
        ensures
            r.state_spec() == s,
    {
        LFSR { state: s }
    }

    /// Returns the current 32-bit register value.
    pub fn get_state(&self) -> (r: u32)
        ensures
            r == self.state_spec(),
    {
        self.state
    }

    /// Returns a 32-bit value assembled bit by bit from 32 register steps.
    pub fn rand(&mut self) -> (r: u32)
        ensures
            final(self).state_spec() == step_n(old(self).state_spec(), 32),
            r == word_of(old(self).state_spec(), 32),
    {
        let ghost s0 = self.state;
        let mut num: u32 = 0;
        let mut i: u32 = 0;
        while i < 32
            invariant
                i <= 32,
                self.state_spec() == step_n(s0, i as nat),
                num == word_of(s0, i as nat),
            decreases 32 - i,
        {
            let ith_bit = self.next_bit();
            num = num | (ith_bit << i);
            proof {
                assert((i + 1) as nat - 1 == i as nat);
                assert((((i + 1) as nat - 1) as nat) as u32 == i);
            }
            i = i + 1;
        }
        num
    }

    /// Outputs the low state bit and advances the register one step.
    pub fn next_bit(&mut self) -> (r: u32)
        ensures
            r == old(self).state_spec() & 1,
            final(self).state_spec() == step(old(self).state_spec()),
    {
        let output_bit = self.state & 1;
        let new_bit = self.xor_taps();
        self.cycle(new_bit);
        output_bit
    }

    /// The feedback bit of the current state: the XOR of the tapped bits.
    fn xor_taps(&self) -> (r: u32)
        ensures
            r == tap_xor(self.state_spec()),
    {
        self.nth(0) ^ self.nth(25) ^ self.nth(27) ^ self.nth(29) ^ self.nth(30) ^ self.nth(31)
    }

    /// The state bit at position `n`.
    fn nth(&self, n: u32) -> (r: u32)
        requires
            n < 32,
        ensures
            r == bit_at(self.state_spec(), n),
    {
        (self.state >> n) & 1
    }

    /// Shifts the register right by one, inserting `next` at bit 31.
    fn cycle(&mut self, next: u32)
        ensures
            final(self).state_spec() == (old(self).state_spec() >> 1) | (next << 31),
    {
        self.state = self.state >> 1 | (next << 31);
    }
}

} // verus!
