//! Small portable generators whose exact output is part of the scenario.

use crate::value::F32Bits;
use vstd::prelude::*;

verus! {

/// A SplitMix64 generator. Its whole sequence follows from the seed, so every implementation
/// that starts from the same seed starts from the same state.
pub struct SplitMix64 {
    state: u64,
}

/// The step by which the state of a SplitMix64 generator advances.
pub const GAMMA: u64 = 0x9E37_79B9_7F4A_7C15;

/// The output of a SplitMix64 generator in state `z`.
pub open spec fn mix(z: u64) -> u64 {
    let a = (z ^ (z >> 30)).wrapping_mul(0xBF58_476D_1CE4_E5B9);
    let b = (a ^ (a >> 27)).wrapping_mul(0x94D0_49BB_1331_11EB);
    b ^ (b >> 31)
}

/// The state after `n` draws from `seed`.
pub open spec fn state_after(seed: u64, n: nat) -> u64
    decreases n,
{
    if n == 0 {
        seed
    } else {
        state_after(seed, (n - 1) as nat).wrapping_add(GAMMA)
    }
}

/// Draw number `n` from `seed`, counted from zero.
pub open spec fn draw(seed: u64, n: nat) -> u64 {
    mix(state_after(seed, n + 1))
}

/// `x` is the `f32` whose value is exactly `n` divided by two to the power of 23. It is a
/// normal number of that sign, magnitude and exponent, or the positive zero.
pub open spec fn is_signed_unit(x: F32Bits, n: int) -> bool {
    let sign = x.bits / 0x8000_0000;
    let exponent = (x.bits / 0x80_0000) % 0x100;
    let fraction = x.bits % 0x80_0000;
    if n == 0 {
        x.bits == 0
    } else {
        &&& sign == (if n < 0 {
            1int
        } else {
            0int
        })
        &&& 0 < exponent <= 127
        &&& 0x80_0000 + fraction == (if n < 0 {
            -n
        } else {
            n
        }) * vstd::arithmetic::power2::pow2((127 - exponent) as nat)
    }
}

/// No two floats have the same such value: `n` determines `x`.
pub proof fn law_signed_units_are_determined(x: F32Bits, y: F32Bits, n: int)
    requires
        is_signed_unit(x, n),
        is_signed_unit(y, n),
    ensures
        x == y,
{
    if n != 0 {
        let m = if n < 0 {
            -n
        } else {
            n
        };
        let a = (127 - (x.bits / 0x80_0000) % 0x100) as nat;
        let b = (127 - (y.bits / 0x80_0000) % 0x100) as nat;
        lemma_one_scale(m as nat, a, b);
        lemma_one_scale(m as nat, b, a);
        assert(a == b);
        lemma_bits_of_parts(x.bits);
        lemma_bits_of_parts(y.bits);
    }
}

/// Scaled up by more, a magnitude that has reached 24 bits has left them.
proof fn lemma_one_scale(m: nat, a: nat, b: nat)
    requires
        0x80_0000 <= m * vstd::arithmetic::power2::pow2(a),
        m * vstd::arithmetic::power2::pow2(b) < 0x100_0000,
    ensures
        b <= a,
{
    if a < b {
        let p = vstd::arithmetic::power2::pow2(a);
        let q = vstd::arithmetic::power2::pow2((b - a) as nat);
        vstd::arithmetic::power2::lemma_pow2_adds(a, (b - a) as nat);
        vstd::arithmetic::power2::lemma_pow2_unfold((b - a) as nat);
        vstd::arithmetic::power2::lemma_pow2_pos((b - a - 1) as nat);
        assert(m * (p * q) >= 2 * (m * p)) by (nonlinear_arith)
            requires
                q >= 2,
                m >= 0,
                p >= 0,
        ;
    }
}

/// A word is its sign, its exponent and its fraction.
proof fn lemma_bits_of_parts(x: u32)
    ensures
        x == (x / 0x8000_0000) * 0x8000_0000 + ((x / 0x80_0000) % 0x100) * 0x80_0000 + x
            % 0x80_0000,
{
    assert(x == (x / 0x8000_0000) * 0x8000_0000 + ((x / 0x80_0000) % 0x100) * 0x80_0000 + x
        % 0x80_0000) by (bit_vector);
}

/// The numerator of draw number `n`: the top 24 bits of the output, moved from `[0, 2^24)` to
/// `[-2^23, 2^23)`.
pub open spec fn numerator(output: u64) -> int {
    (output >> 40) as int - 0x80_0000
}

/// The `f32` with the value `n` divided by two to the power of 23, for the top 24 bits
/// `n + 2^23` of an output.
fn signed_unit(bits: u32) -> (r: F32Bits)
    requires
        bits < 0x100_0000,
    ensures
        is_signed_unit(r, bits as int - 0x80_0000),
{
    if bits == 0x80_0000 {
        return F32Bits { bits: 0 };
    }
    let (sign, magnitude): (u32, u32) = if bits < 0x80_0000 {
        (1, 0x80_0000 - bits)
    } else {
        (0, bits - 0x80_0000)
    };
    let mut scaled: u32 = magnitude;
    let mut exponent: u32 = 127;
    let ghost mut shift: nat = 0;
    proof {
        vstd::arithmetic::power2::lemma2_to64();
        assert(magnitude * vstd::arithmetic::power2::pow2(0) == magnitude) by (nonlinear_arith)
            requires
                vstd::arithmetic::power2::pow2(0) == 1,
        ;
    }
    while scaled < 0x80_0000
        invariant
            0 < magnitude <= 0x80_0000,
            0 < scaled < 0x100_0000,
            shift <= 23,
            exponent == 127 - shift,
            scaled == magnitude * vstd::arithmetic::power2::pow2(shift),
            vstd::arithmetic::power2::pow2(shift) <= scaled,
        decreases 0x100_0000 - scaled,
    {
        proof {
            vstd::arithmetic::power2::lemma_pow2_unfold(shift + 1);
            vstd::arithmetic::power2::lemma2_to64();
            assert(magnitude * vstd::arithmetic::power2::pow2(shift + 1) == 2 * (magnitude * vstd::arithmetic::power2::pow2(shift)))
                by (nonlinear_arith)
                requires
                    vstd::arithmetic::power2::pow2(shift + 1) == 2 * vstd::arithmetic::power2::pow2(shift),
            ;
            shift = shift + 1;
        }
        scaled = 2 * scaled;
        exponent = exponent - 1;
    }
    let fraction = scaled - 0x80_0000;
    let r = F32Bits { bits: sign * 0x8000_0000 + exponent * 0x80_0000 + fraction };
    proof {
        lemma_parts(r.bits, sign, exponent, fraction);
    }
    r
}

proof fn lemma_parts(bits: u32, sign: u32, exponent: u32, fraction: u32)
    requires
        sign <= 1,
        exponent < 0x100,
        fraction < 0x80_0000,
        bits == sign * 0x8000_0000 + exponent * 0x80_0000 + fraction,
    ensures
        bits / 0x8000_0000 == sign,
        (bits / 0x80_0000) % 0x100 == exponent,
        bits % 0x80_0000 == fraction,
{
    assert(bits == (sign * 0x100 + exponent) * 0x80_0000 + fraction);
    assert(bits / 0x80_0000 == sign * 0x100 + exponent);
}

impl SplitMix64 {
    /// The state that the next draw starts from.
    pub closed spec fn state(&self) -> u64 {
        self.state
    }

    /// A generator seeded with `seed`.
    pub fn new(seed: u64) -> (r: SplitMix64)
        ensures
            r.state() == seed,
    {
        SplitMix64 { state: seed }
    }

    /// Advance the generator and return the next output.
    pub fn next_u64(&mut self) -> (r: u64)
        ensures
            final(self).state() == old(self).state().wrapping_add(GAMMA),
            r == mix(final(self).state()),
    {
        self.state = self.state.wrapping_add(GAMMA);
        let mut z = self.state;
        z = (z ^ (z >> 30)).wrapping_mul(0xBF58_476D_1CE4_E5B9);
        z = (z ^ (z >> 27)).wrapping_mul(0x94D0_49BB_1331_11EB);
        z ^ (z >> 31)
    }

    /// The next `f32` in `[-1.0, 1.0)`, built from the top 24 bits of the output.
    pub fn next_f32_signed(&mut self) -> (r: F32Bits)
        ensures
            final(self).state() == old(self).state().wrapping_add(GAMMA),
            is_signed_unit(r, numerator(mix(final(self).state()))),
    {
        let output = self.next_u64();
        assert(output >> 40 < 0x100_0000) by (bit_vector);
        signed_unit((output >> 40) as u32)
    }
}

/// Every draw lies in `[-1, 1)`: its numerator over two to the power of 23 does.
pub proof fn law_draws_are_in_range(seed: u64, n: nat)
    ensures
        -0x80_0000 <= numerator(draw(seed, n)) < 0x80_0000,
{
    let output = draw(seed, n);
    assert(output >> 40 < 0x100_0000) by (bit_vector);
}

/// The successor of a state of the xorshift generator with shifts 13, 17 and 5.
pub open spec fn xorshift_next(s: u32) -> u32 {
    let a = s ^ (s << 13);
    let b = a ^ (a >> 17);
    b ^ (b << 5)
}

/// The state of the xorshift generator `n` steps behind `seed`.
pub open spec fn xorshift_after(seed: u32, n: nat) -> u32
    decreases n,
{
    if n == 0 {
        seed
    } else {
        xorshift_next(xorshift_after(seed, (n - 1) as nat))
    }
}

/// The first `n` states behind `seed`.
pub fn xorshift_run(seed: u32, n: usize) -> (r: Vec<u32>)
    ensures
        r@.len() == n,
        forall|i: int| 0 <= i < n ==> #[trigger] r@[i] == xorshift_after(seed, (i + 1) as nat),
{
    let mut r: Vec<u32> = Vec::new();
    let mut s: u32 = seed;
    let mut i: usize = 0;
    while i < n
        invariant
            i <= n,
            r@.len() == i,
            s == xorshift_after(seed, i as nat),
            forall|k: int| 0 <= k < i ==> #[trigger] r@[k] == xorshift_after(seed, (k + 1) as nat),
        decreases n - i,
    {
        s = s ^ (s << 13);
        s = s ^ (s >> 17);
        s = s ^ (s << 5);
        r.push(s);
        i += 1;
    }
    r
}

// ---------------------------------------------------------------------------------------
// What holds of the generators.
// ---------------------------------------------------------------------------------------

/// The state of a SplitMix64 generator counts: after `n` draws it is the seed and `n` times the
/// step, and drawing on from there is drawing on from the seed.
pub proof fn law_draws_go_on(seed: u64, n: nat, m: nat)
    ensures
        state_after(seed, n) as int == (seed + n * 0x9E37_79B9_7F4A_7C15) % 0x1_0000_0000_0000_0000,
        state_after(seed, n + m) == state_after(state_after(seed, n), m),
        draw(seed, n + m) == draw(state_after(seed, n), m),
    decreases n + m,
{
    lemma_state_counts(seed, n);
    lemma_state_goes_on(seed, n, m);
    lemma_state_goes_on(seed, n, m + 1);
}

proof fn lemma_state_counts(seed: u64, n: nat)
    ensures
        state_after(seed, n) as int == (seed + n * 0x9E37_79B9_7F4A_7C15) % 0x1_0000_0000_0000_0000,
    decreases n,
{
    let w: int = 0x1_0000_0000_0000_0000;
    if n > 0 {
        let m = (n - 1) as nat;
        lemma_state_counts(seed, m);
        let before = seed + m * 0x9E37_79B9_7F4A_7C15;
        assert(n * 0x9E37_79B9_7F4A_7C15 == m * 0x9E37_79B9_7F4A_7C15 + 0x9E37_79B9_7F4A_7C15);
        vstd::arithmetic::div_mod::lemma_add_mod_noop(before, 0x9E37_79B9_7F4A_7C15, w);
        vstd::arithmetic::div_mod::lemma_small_mod(0x9E37_79B9_7F4A_7C15, w as nat);
        assert((before % w + 0x9E37_79B9_7F4A_7C15) % w == (before + 0x9E37_79B9_7F4A_7C15) % w);
    } else {
        vstd::arithmetic::div_mod::lemma_small_mod(seed as nat, w as nat);
    }
}

proof fn lemma_state_goes_on(seed: u64, n: nat, m: nat)
    ensures
        state_after(seed, n + m) == state_after(state_after(seed, n), m),
    decreases m,
{
    if m > 0 {
        lemma_state_goes_on(seed, n, (m - 1) as nat);
    }
}

/// No two states give the same output: what is drawn tells the state that it was drawn in.
pub proof fn law_outputs_tell_states_apart(x: u64, y: u64)
    requires
        mix(x) == mix(y),
    ensures
        x == y,
{
    let a = (x ^ (x >> 30)).wrapping_mul(0xBF58_476D_1CE4_E5B9);
    let b = (a ^ (a >> 27)).wrapping_mul(0x94D0_49BB_1331_11EB);
    let c = (y ^ (y >> 30)).wrapping_mul(0xBF58_476D_1CE4_E5B9);
    let d = (c ^ (c >> 27)).wrapping_mul(0x94D0_49BB_1331_11EB);
    assert(b ^ (b >> 31) == d ^ (d >> 31) ==> b == d) by (bit_vector);
    lemma_odd_factor(
        a ^ (a >> 27),
        c ^ (c >> 27),
        0x94D0_49BB_1331_11EB,
        0x3196_42B2_D24D_8EC3,
        0x1CD3_36ED_A85F_1453,
    );
    assert(a ^ (a >> 27) == c ^ (c >> 27) ==> a == c) by (bit_vector);
    lemma_odd_factor(
        x ^ (x >> 30),
        y ^ (y >> 30),
        0xBF58_476D_1CE4_E5B9,
        0x96DE_1B17_3F11_9089,
        0x70C3_BCA7_8F27_F46C,
    );
    assert(x ^ (x >> 30) == y ^ (y >> 30) ==> x == y) by (bit_vector);
}

/// A factor that has an inverse keeps numbers apart.
proof fn lemma_odd_factor(x: u64, y: u64, factor: u64, inverse: u64, wraps: int)
    requires
        factor * inverse == wraps * 0x1_0000_0000_0000_0000 + 1,
        x.wrapping_mul(factor) == y.wrapping_mul(factor),
    ensures
        x == y,
{
    lemma_undone(x, factor, inverse, wraps);
    lemma_undone(y, factor, inverse, wraps);
}

proof fn lemma_undone(x: u64, factor: u64, inverse: u64, wraps: int)
    requires
        factor * inverse == wraps * 0x1_0000_0000_0000_0000 + 1,
    ensures
        x.wrapping_mul(factor) as int * inverse % 0x1_0000_0000_0000_0000 == x,
{
    let w: int = 0x1_0000_0000_0000_0000;
    let p = x * factor;
    let r = x.wrapping_mul(factor) as int;
    assert(r == p % w);
    vstd::arithmetic::div_mod::lemma_mul_mod_noop_left(p, inverse as int, w);
    assert(p * inverse == (x * wraps) * w + x) by (nonlinear_arith)
        requires
            p == x * factor,
            factor * inverse == wraps * w + 1,
    ;
    vstd::arithmetic::div_mod::lemma_mod_multiples_vanish(x * wraps, x as int, w);
    assert(w * (x * wraps) + x == (x * wraps) * w + x) by (nonlinear_arith);
    vstd::arithmetic::div_mod::lemma_small_mod(x as nat, w as nat);
}

/// The numerator is the upper 24 bits of an output, moved down by half their range: outputs that
/// agree in these bits have one numerator, and the next value of these bits has the next.
pub proof fn law_numerators_are_the_upper_bits(x: u64, y: u64)
    ensures
        numerator(x) == x / 0x100_0000_0000 - 0x80_0000,
        numerator(0) == -0x80_0000,
        x / 0x100_0000_0000 == y / 0x100_0000_0000 <==> numerator(x) == numerator(y),
        x <= y ==> numerator(x) <= numerator(y),
{
    assert(x >> 40 == x / 0x100_0000_0000) by (bit_vector);
    assert(y >> 40 == y / 0x100_0000_0000) by (bit_vector);
    assert(0u64 >> 40 == 0) by (bit_vector);
    if x <= y {
        assert(x / 0x100_0000_0000 <= y / 0x100_0000_0000) by (nonlinear_arith)
            requires
                x <= y,
        ;
    }
}

/// The sign bit is the sign, and nothing else: a float with another sign bit has the opposite
/// value.
pub proof fn law_signs_are_opposite(x: F32Bits, y: F32Bits, n: int)
    requires
        n != 0,
        x.bits < 0x8000_0000,
        y.bits == x.bits + 0x8000_0000,
    ensures
        is_signed_unit(x, n) <==> is_signed_unit(y, -n),
        is_signed_unit(x, n) ==> n > 0,
{
    lemma_bits_of_parts(x.bits);
    let e = (x.bits / 0x80_0000) % 0x100;
    let f = x.bits % 0x80_0000;
    lemma_parts(x.bits, 0, e, f);
    lemma_parts(y.bits, 1, e, f);
}

/// Floats are ordered as their values are: of two that are not negative, the one with the greater
/// bits has the greater value.
pub proof fn law_greater_values_have_greater_bits(x: F32Bits, y: F32Bits, m: int, n: int)
    requires
        0 <= m < n,
        is_signed_unit(x, m),
        is_signed_unit(y, n),
    ensures
        x.bits < y.bits,
{
    lemma_bits_of_parts(x.bits);
    lemma_bits_of_parts(y.bits);
    if m > 0 {
        let a = (127 - (x.bits / 0x80_0000) % 0x100) as nat;
        let b = (127 - (y.bits / 0x80_0000) % 0x100) as nat;
        let p = vstd::arithmetic::power2::pow2(a);
        let q = vstd::arithmetic::power2::pow2(b);
        assert(n * q < 0x100_0000);
        assert(m * q <= n * q) by (nonlinear_arith)
            requires
                m < n,
                q >= 0,
        ;
        lemma_one_scale(m as nat, a, b);
        if a == b {
            vstd::arithmetic::power2::lemma_pow2_pos(a);
            assert(m * p < n * p) by (nonlinear_arith)
                requires
                    m < n,
                    p > 0,
            ;
        }
    }
}

/// The xorshift generator goes on from where it is, never comes to rest at zero, and tells its
/// states apart: no two have one successor.
pub proof fn law_xorshift_goes_on(seed: u32, other: u32, n: nat, m: nat)
    ensures
        xorshift_after(seed, 0) == seed,
        xorshift_after(seed, n + m) == xorshift_after(xorshift_after(seed, n), m),
        xorshift_after(seed, n) == 0 <==> seed == 0,
        xorshift_after(seed, n) == xorshift_after(other, n) <==> seed == other,
    decreases n + m,
{
    lemma_xorshift_on(seed, n, m);
    lemma_xorshift_apart(seed, other, n);
    lemma_xorshift_apart(seed, 0, n);
    lemma_xorshift_zero(n);
}

proof fn lemma_xorshift_on(seed: u32, n: nat, m: nat)
    ensures
        xorshift_after(seed, n + m) == xorshift_after(xorshift_after(seed, n), m),
    decreases m,
{
    if m > 0 {
        lemma_xorshift_on(seed, n, (m - 1) as nat);
    }
}

proof fn lemma_xorshift_zero(n: nat)
    ensures
        xorshift_after(0, n) == 0,
    decreases n,
{
    if n > 0 {
        lemma_xorshift_zero((n - 1) as nat);
        assert(0u32 ^ (0u32 << 13) == 0) by (bit_vector);
        assert(0u32 ^ (0u32 >> 17) == 0) by (bit_vector);
        assert(0u32 ^ (0u32 << 5) == 0) by (bit_vector);
    }
}

proof fn lemma_xorshift_apart(seed: u32, other: u32, n: nat)
    ensures
        xorshift_after(seed, n) == xorshift_after(other, n) ==> seed == other,
    decreases n,
{
    if n > 0 && xorshift_after(seed, n) == xorshift_after(other, n) {
        let s = xorshift_after(seed, (n - 1) as nat);
        let t = xorshift_after(other, (n - 1) as nat);
        let (a, c) = (s ^ (s << 13), t ^ (t << 13));
        let (b, d) = (a ^ (a >> 17), c ^ (c >> 17));
        assert(b ^ (b << 5) == d ^ (d << 5) ==> b == d) by (bit_vector);
        assert(a ^ (a >> 17) == c ^ (c >> 17) ==> a == c) by (bit_vector);
        assert(s ^ (s << 13) == t ^ (t << 13) ==> s == t) by (bit_vector);
        lemma_xorshift_apart(seed, other, (n - 1) as nat);
    }
}

} // verus!
