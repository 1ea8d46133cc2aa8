//! A deterministic pseudo-random generator for test suites.
//!
//! Frozen by golden tests: changing its output would silently invalidate
//! every recorded failing seed.
//!
//! Not cryptographically secure. Never use for keys, nonces or tokens.

use vstd::prelude::*;

verus! {

/// The `SplitMix64` output finaliser, a standalone 64-bit hash mix.
pub open spec fn spec_mix64(z: u64) -> u64 {
    let z1 = (z ^ (z >> 30u64)).wrapping_mul(0xbf58_476d_1ce4_e5b9);
    let z2 = (z1 ^ (z1 >> 27u64)).wrapping_mul(0x94d0_49bb_1331_11eb);
    z2 ^ (z2 >> 31u64)
}

/// The `SplitMix64` output finaliser, usable as a standalone 64-bit hash mix.
pub fn mix64(z: u64) -> (r: u64)
    ensures
        r == spec_mix64(z),
{
    let z = (z ^ (z >> 30)).wrapping_mul(0xbf58_476d_1ce4_e5b9);
    let z = (z ^ (z >> 27)).wrapping_mul(0x94d0_49bb_1331_11eb);
    z ^ (z >> 31)
}

/// The increment `SplitMix64` adds to its state at every step.
pub const SPLITMIX_GAMMA: u64 = 0x9e37_79b9_7f4a_7c15;

/// `SplitMix64` (Steele, Lea, Flood 2014). Expands a single seed into
/// well-mixed state for [`Pcg32`].
pub struct SplitMix64 {
    state: u64,
}

impl View for SplitMix64 {
    type V = u64;

    closed spec fn view(&self) -> u64 {
        self.state
    }
}

impl SplitMix64 {
    pub fn new(seed: u64) -> (sm: Self)
        ensures
            sm@ == seed,
    {
        Self { state: seed }
    }

    pub fn next_u64(&mut self) -> (r: u64)
        ensures
            final(self)@ == old(self)@.wrapping_add(SPLITMIX_GAMMA),
            r == spec_mix64(final(self)@),
    {
        self.state = self.state.wrapping_add(SPLITMIX_GAMMA);
        mix64(self.state)
    }
}

/// The multiplier of the PCG linear congruential step.
pub const PCG_MULT: u64 = 6_364_136_223_846_793_005;

/// One step of the PCG state.
pub open spec fn pcg_step(state: u64, inc: u64) -> u64 {
    state.wrapping_mul(PCG_MULT).wrapping_add(inc)
}

/// `x` rotated right by `r` bits, `r` below 32.
pub open spec fn spec_rotr32(x: u32, r: u32) -> u32 {
    if r == 0 {
        x
    } else {
        (x >> r) | (x << ((32 - r) as u32))
    }
}

/// The output PCG-XSH-RR draws from a state.
pub open spec fn pcg_output(state: u64) -> u32 {
    spec_rotr32((((state >> 18u64) ^ state) >> 27u64) as u32, (state >> 59u64) as u32)
}

/// The state and increment `pcg32_srandom_r(init_state, init_seq)` sets up.
pub open spec fn pcg_init(init_state: u64, init_seq: u64) -> (u64, u64) {
    let inc = (init_seq << 1u64) | 1u64;
    let s1 = pcg_step(0, inc);
    (pcg_step(s1.wrapping_add(init_state), inc), inc)
}

/// The first draw, from a state, whose low half is at least `threshold`, and
/// the state after it: a draw is the high half of the output times `bound`.
/// After `fuel` rejected draws the next one is taken whatever its low half.
pub open spec fn lemire32(state: u64, inc: u64, bound: u32, threshold: u32, fuel: nat) -> (u32, u64)
    decreases fuel,
{
    let m = pcg_output(state) as nat * bound as nat;
    let next = pcg_step(state, inc);
    if m % 0x1_0000_0000 >= threshold || fuel == 0 {
        ((m / 0x1_0000_0000) as u32, next)
    } else {
        lemire32(next, inc, bound, threshold, (fuel - 1) as nat)
    }
}

/// The 64-bit output two draws make, high half first.
pub open spec fn pcg_output64(state: u64, inc: u64) -> u64 {
    ((pcg_output(state) as u64) << 32u64) | (pcg_output(pcg_step(state, inc)) as u64)
}

/// [`lemire32`] for 64-bit draws, which take two steps each.
pub open spec fn lemire64(state: u64, inc: u64, bound: u64, threshold: u64, fuel: nat) -> (u64, u64)
    decreases fuel,
{
    let m = pcg_output64(state, inc) as nat * bound as nat;
    let next = pcg_step(pcg_step(state, inc), inc);
    if m % 0x1_0000_0000_0000_0000 >= threshold || fuel == 0 {
        ((m / 0x1_0000_0000_0000_0000) as u64, next)
    } else {
        lemire64(next, inc, bound, threshold, (fuel - 1) as nat)
    }
}

/// What a generator in state `s` gives for `below(bound)`, and its state
/// after.
pub open spec fn draw_below(s: (u64, u64), bound: u32) -> (u32, (u64, u64)) {
    if bound == 0 {
        (0, s)
    } else {
        let (r, next) = lemire32(s.0, s.1, bound, (0u32.wrapping_sub(bound) % bound) as u32, u64::MAX as nat);
        (r, (next, s.1))
    }
}

/// What a generator in state `s` gives for `below_u64(bound)`, and its state
/// after.
pub open spec fn draw_below_u64(s: (u64, u64), bound: u64) -> (u64, (u64, u64)) {
    if bound == 0 {
        (0, s)
    } else {
        let (r, next) = lemire64(s.0, s.1, bound, (0u64.wrapping_sub(bound) % bound) as u64, u64::MAX as nat);
        (r, (next, s.1))
    }
}

/// What a generator in state `s` gives for `index(len)`, and its state after.
pub open spec fn draw_index(s: (u64, u64), len: usize) -> (usize, (u64, u64)) {
    let (r, next) = draw_below_u64(s, len as u64);
    (r as usize, next)
}

/// What a generator in state `s` gives for `next_u64()`, and its state after.
pub open spec fn draw_u64(s: (u64, u64)) -> (u64, (u64, u64)) {
    (pcg_output64(s.0, s.1), (pcg_step(pcg_step(s.0, s.1), s.1), s.1))
}

/// The state `k` steps after `s`.
pub open spec fn steps(s: (u64, u64), k: nat) -> (u64, u64)
    decreases k,
{
    if k == 0 {
        s
    } else {
        let t = steps(s, (k - 1) as nat);
        (pcg_step(t.0, t.1), t.1)
    }
}

/// Byte `i` of what `fill_bytes` writes from state `s`: the draws' bytes,
/// least significant first.
pub open spec fn fill_byte(s: (u64, u64), i: nat) -> u8 {
    (pcg_output(steps(s, i / 4).0) >> ((8 * (i % 4)) as u32)) as u8
}

/// `x` rotated right by `r` bits.
fn rotr32(x: u32, r: u32) -> (y: u32)
    requires
        r < 32,
    ensures
        y == spec_rotr32(x, r),
{
    if r == 0 {
        x
    } else {
        (x >> r) | (x << (32 - r))
    }
}

/// PCG-XSH-RR 64/32 (O'Neill 2014), matching the reference `pcg32_random_r`.
#[derive(Clone, Debug)]
pub struct Pcg32 {
    state: u64,
    inc: u64,
}

impl View for Pcg32 {
    type V = (u64, u64);

    /// The state, then the increment.
    closed spec fn view(&self) -> (u64, u64) {
        (self.state, self.inc)
    }
}

impl Pcg32 {
    /// Equivalent to the reference `pcg32_srandom_r(init_state, init_seq)`.
    pub fn new(init_state: u64, init_seq: u64) -> (rng: Self)
        ensures
            rng@ == pcg_init(init_state, init_seq),
    {
        let mut rng = Self { state: 0, inc: (init_seq << 1) | 1 };
        rng.step();
        rng.state = rng.state.wrapping_add(init_state);
        rng.step();
        rng
    }

    /// Expands a single seed into state and stream via `SplitMix64`.
    pub fn seed_from_u64(seed: u64) -> (rng: Self)
        ensures
            rng@ == pcg_init(
                spec_mix64(seed.wrapping_add(SPLITMIX_GAMMA)),
                spec_mix64(seed.wrapping_add(SPLITMIX_GAMMA).wrapping_add(SPLITMIX_GAMMA)),
            ),
    {
        let mut sm = SplitMix64::new(seed);
        let state = sm.next_u64();
        let seq = sm.next_u64();
        Self::new(state, seq)
    }

    fn step(&mut self)
        ensures
            final(self)@ == (pcg_step(old(self)@.0, old(self)@.1), old(self)@.1),
    {
        self.state = self.state.wrapping_mul(PCG_MULT).wrapping_add(self.inc);
    }

    pub fn next_u32(&mut self) -> (r: u32)
        ensures
            r == pcg_output(old(self)@.0),
            final(self)@ == (pcg_step(old(self)@.0, old(self)@.1), old(self)@.1),
    {
        let old_state = self.state;
        self.step();
        let xorshifted = (((old_state >> 18) ^ old_state) >> 27) as u32;
        let rot = (old_state >> 59) as u32;
        assert((old_state >> 59u64) < 32) by (bit_vector);
        rotr32(xorshifted, rot)
    }

    pub fn next_u64(&mut self) -> (r: u64)
        ensures
            r == pcg_output64(old(self)@.0, old(self)@.1),
            (r, final(self)@) == draw_u64(old(self)@),
            final(self)@ == (pcg_step(pcg_step(old(self)@.0, old(self)@.1), old(self)@.1), old(
                self,
            )@.1),
    {
        let hi = self.next_u32() as u64;
        let lo = self.next_u32() as u64;
        (hi << 32) | lo
    }

    /// Uniform in `0..bound` (Lemire's nearly-divisionless method).
    /// Returns 0 when `bound == 0`.
    ///
    /// A draw whose low half falls below the rejection threshold is redrawn;
    /// after `u64::MAX` redraws, which a generator of period `2^64` cannot
    /// need, the last draw is taken.
    pub fn below(&mut self, bound: u32) -> (r: u32)
        ensures
            bound == 0 ==> r == 0 && final(self)@ == old(self)@,
            bound > 0 ==> r < bound,
            (r, final(self)@) == draw_below(old(self)@, bound),
            bound > 0 ==> (r, final(self)@.0) == lemire32(
                old(self)@.0,
                old(self)@.1,
                bound,
                (0u32.wrapping_sub(bound) % bound) as u32,
                u64::MAX as nat,
            ),
            final(self)@.1 == old(self)@.1,
    {
        if bound == 0 {
            return 0;
        }
        let ghost inc = self@.1;
        let ghost threshold = (0u32.wrapping_sub(bound) % bound) as u32;
        let x = self.next_u32();
        assert(x as u64 * bound as u64 <= 0xffff_ffff * bound as u64) by (nonlinear_arith)
            requires
                x <= 0xffff_ffff,
        ;
        let mut m = (x as u64) * (bound as u64);
        let mut low = m as u32;
        assert(low == m % 0x1_0000_0000) by (bit_vector)
            requires
                low == m as u32,
        ;
        let ghost mut fuel: nat = u64::MAX as nat;
        let ghost start = old(self)@.0;
        if low < bound {
            let threshold_exec = 0u32.wrapping_sub(bound) % bound;
            let mut tries: u64 = u64::MAX;
            while low < threshold_exec && tries > 0
                invariant
                    threshold_exec == threshold,
                    threshold < bound,
                    self@.1 == inc,
                    fuel == tries as nat,
                    low == m % 0x1_0000_0000,
                    m <= 0xffff_ffff * bound as u64,
                    lemire32(start, inc, bound, threshold, u64::MAX as nat) == (if low >= threshold
                        || fuel == 0 {
                        ((m as nat / 0x1_0000_0000) as u32, self@.0)
                    } else {
                        lemire32(self@.0, inc, bound, threshold, (fuel - 1) as nat)
                    }),
                decreases tries,
            {
                let ghost before = self@.0;
                let x = self.next_u32();
                assert(x as u64 * bound as u64 <= 0xffff_ffff * bound as u64) by (nonlinear_arith)
                    requires
                        x <= 0xffff_ffff,
                ;
                m = (x as u64) * (bound as u64);
                low = m as u32;
                assert(low == m % 0x1_0000_0000) by (bit_vector)
                    requires
                        low == m as u32,
                ;
                tries = tries - 1;
                proof {
                    fuel = (fuel - 1) as nat;
                }
            }
        } else {
            assert(low >= threshold);
        }
        let r = (m >> 32) as u32;
        assert(r == m as nat / 0x1_0000_0000) by (bit_vector)
            requires
                r == (m >> 32) as u32,
        ;
        assert(m as nat / 0x1_0000_0000 < bound) by (nonlinear_arith)
            requires
                m <= 0xffff_ffff * bound as u64,
                bound > 0,
        ;
        r
    }

    /// Uniform in `0..bound` for 64-bit bounds. Returns 0 when `bound == 0`.
    ///
    /// Redraws as [`below`](Pcg32::below) does.
    pub fn below_u64(&mut self, bound: u64) -> (r: u64)
        ensures
            bound == 0 ==> r == 0 && final(self)@ == old(self)@,
            bound > 0 ==> r < bound,
            (r, final(self)@) == draw_below_u64(old(self)@, bound),
            bound > 0 ==> (r, final(self)@.0) == lemire64(
                old(self)@.0,
                old(self)@.1,
                bound,
                (0u64.wrapping_sub(bound) % bound) as u64,
                u64::MAX as nat,
            ),
            final(self)@.1 == old(self)@.1,
    {
        if bound == 0 {
            return 0;
        }
        let ghost inc = self@.1;
        let ghost threshold = (0u64.wrapping_sub(bound) % bound) as u64;
        let x = self.next_u64();
        assert(x as u128 * bound as u128 <= 0xffff_ffff_ffff_ffff * bound as u128) by (nonlinear_arith)
            requires
                x <= 0xffff_ffff_ffff_ffff,
        ;
        let mut m = (x as u128) * (bound as u128);
        let mut low = m as u64;
        assert(low == m % 0x1_0000_0000_0000_0000) by (bit_vector)
            requires
                low == m as u64,
        ;
        let ghost mut fuel: nat = u64::MAX as nat;
        let ghost start = old(self)@.0;
        if low < bound {
            let threshold_exec = 0u64.wrapping_sub(bound) % bound;
            let mut tries: u64 = u64::MAX;
            while low < threshold_exec && tries > 0
                invariant
                    threshold_exec == threshold,
                    threshold < bound,
                    self@.1 == inc,
                    fuel == tries as nat,
                    low == m % 0x1_0000_0000_0000_0000,
                    m <= 0xffff_ffff_ffff_ffff * bound as u128,
                    lemire64(start, inc, bound, threshold, u64::MAX as nat) == (if low >= threshold
                        || fuel == 0 {
                        ((m as nat / 0x1_0000_0000_0000_0000) as u64, self@.0)
                    } else {
                        lemire64(self@.0, inc, bound, threshold, (fuel - 1) as nat)
                    }),
                decreases tries,
            {
                let x = self.next_u64();
                assert(x as u128 * bound as u128 <= 0xffff_ffff_ffff_ffff * bound as u128)
                    by (nonlinear_arith)
                    requires
                        x <= 0xffff_ffff_ffff_ffff,
                ;
                m = (x as u128) * (bound as u128);
                low = m as u64;
                assert(low == m % 0x1_0000_0000_0000_0000) by (bit_vector)
                    requires
                        low == m as u64,
                ;
                tries = tries - 1;
                proof {
                    fuel = (fuel - 1) as nat;
                }
            }
        } else {
            assert(low >= threshold);
        }
        let r = (m >> 64) as u64;
        assert(r == m as nat / 0x1_0000_0000_0000_0000) by (bit_vector)
            requires
                r == (m >> 64) as u64,
        ;
        assert(m as nat / 0x1_0000_0000_0000_0000 < bound) by (nonlinear_arith)
            requires
                m <= 0xffff_ffff_ffff_ffff * bound as u128,
                bound > 0,
        ;
        r
    }

    /// Uniform index into a collection of length `len`. Returns 0 for
    /// `len == 0`.
    pub fn index(&mut self, len: usize) -> (r: usize)
        ensures
            len == 0 ==> r == 0 && final(self)@ == old(self)@,
            len > 0 ==> r < len,
            (r, final(self)@) == draw_index(old(self)@, len),
            len > 0 ==> (r as u64, final(self)@.0) == lemire64(
                old(self)@.0,
                old(self)@.1,
                len as u64,
                (0u64.wrapping_sub(len as u64) % (len as u64)) as u64,
                u64::MAX as nat,
            ),
            final(self)@.1 == old(self)@.1,
    {
        self.below_u64(len as u64) as usize
    }

    /// `true` with probability `num / den`.
    pub fn ratio(&mut self, num: u32, den: u32) -> (r: bool)
        ensures
            (r, final(self)@) == (draw_below(old(self)@, den).0 < num, draw_below(old(self)@, den).1),
            den == 0 ==> r == (0 < num) && final(self)@ == old(self)@,
            den > 0 ==> r == (lemire32(
                old(self)@.0,
                old(self)@.1,
                den,
                (0u32.wrapping_sub(den) % den) as u32,
                u64::MAX as nat,
            ).0 < num),
            den > 0 ==> final(self)@.0 == lemire32(
                old(self)@.0,
                old(self)@.1,
                den,
                (0u32.wrapping_sub(den) % den) as u32,
                u64::MAX as nat,
            ).1,
            final(self)@.1 == old(self)@.1,
    {
        self.below(den) < num
    }

    pub fn bool(&mut self) -> (r: bool)
        ensures
            r == (pcg_output(old(self)@.0) & 1 == 1),
            final(self)@ == (pcg_step(old(self)@.0, old(self)@.1), old(self)@.1),
    {
        self.next_u32() & 1 == 1
    }
    /// Fills `out` with the bytes of successive draws, least significant
    /// byte first; a last partial draw gives its low bytes.
    pub fn fill_bytes(&mut self, out: &mut [u8])
        ensures
            final(out)@.len() == old(out)@.len(),
            forall|i: int| 0 <= i < old(out)@.len() ==> #[trigger] final(out)@[i] == fill_byte(old(self)@, i as nat),
            final(self)@ == steps(old(self)@, ((old(out)@.len() + 3) / 4) as nat),
    {
        let ghost start = self@;
        let n = out.len();
        let mut i: usize = 0;
        while i < n
            invariant
                i <= n,
                n == out@.len(),
                n == old(out)@.len(),
                i % 4 == 0 || i == n,
                self@ == steps(start, ((i + 3) / 4) as nat),
                forall|j: int| 0 <= j < i ==> #[trigger] out@[j] == fill_byte(start, j as nat),
            decreases n - i,
        {
            let ghost k: nat = (i / 4) as nat;
            assert((i + 3) / 4 == i / 4);
            let w = self.next_u32();
            assert(w == pcg_output(steps(start, k).0));
            assert(self@ == steps(start, k + 1));
            let mut j: usize = 0;
            while j < 4 && i + j < n
                invariant
                    j <= 4,
                    i + j <= n,
                    i % 4 == 0,
                    k == i / 4,
                    n == out@.len(),
                    w == pcg_output(steps(start, k).0),
                    forall|m: int| 0 <= m < i + j ==> #[trigger] out@[m] == fill_byte(start, m as nat),
                decreases 4 - j,
            {
                let b = (w >> (8 * j as u32)) as u8;
                assert((i + j) as nat / 4 == k && (i + j) as nat % 4 == j) by (nonlinear_arith)
                    requires
                        i % 4 == 0,
                        k == i / 4,
                        j < 4,
                ;
                out[i + j] = b;
                j = j + 1;
            }
            if j == 4 {
                assert((i + 4 + 3) / 4 == k + 1);
            } else {
                assert(i + j == n);
                assert((n + 3) / 4 == k + 1) by (nonlinear_arith)
                    requires
                        i % 4 == 0,
                        k == i / 4,
                        j < 4,
                        i + j == n,
                        i < n,
                ;
            }
            i = i + j;
        }
    }

    /// One of `items`, picked uniformly; `None` when there are none.
    pub fn pick<'a, T>(&mut self, items: &'a [T]) -> (r: Option<&'a T>)
        ensures
            items@.len() == 0 ==> r is None && final(self)@ == old(self)@,
            items@.len() > 0 ==> r == Some(&items@[draw_index(old(self)@, items@.len() as usize).0 as int])
                && final(self)@ == draw_index(old(self)@, items@.len() as usize).1,
    {
        if items.len() == 0 {
            None
        } else {
            let i = self.index(items.len());
            Some(&items[i])
        }
    }
}

} // verus!
