//! PCM samples, and what is left of them in a wire format.
//!
//! A sample is an IEEE-754 single, full scale at 1.0, held by its bit pattern. What
//! a pattern stands for is taken exactly, as a whole number of 2^-149, the least
//! that a single can tell apart; full scale is then 2^149, and one 16-bit step
//! 2^134.
use vstd::arithmetic::div_mod;
use vstd::arithmetic::power2;
use vstd::bits;
use vstd::prelude::*;

use crate::wire;
use crate::wire::WireFormat;

verus! {

/// The sign bit of a sample.
pub const SIGN: u32 = 0x8000_0000;

/// The sample at full scale.
pub const FULL_SCALE: u32 = 0x3f80_0000;

/// The first pattern that is not a finite sample; those beyond it are not numbers.
pub const INFINITE: u32 = 0x7f80_0000;

/// The patterns of one exponent, and the bit that a significand has beyond its
/// fraction.
pub const FRACTIONS: u32 = 0x80_0000;

/// The largest 16-bit sample.
pub const S16_TOP: u32 = 32_767;

/// The pattern without its sign.
pub open spec fn unsigned(bits: u32) -> int {
    if bits >= SIGN {
        bits - SIGN
    } else {
        bits as int
    }
}

/// Whether the sample is a number, and not infinite.
pub open spec fn is_finite(bits: u32) -> bool {
    unsigned(bits) < INFINITE
}

pub open spec fn exponent(bits: u32) -> int {
    unsigned(bits) / (FRACTIONS as int)
}

/// The digits of a sample. The least exponent has samples with fewer digits.
pub open spec fn significand(bits: u32) -> int {
    let fraction = unsigned(bits) % (FRACTIONS as int);
    if exponent(bits) == 0 {
        fraction
    } else {
        fraction + FRACTIONS
    }
}

/// The weight of the last digit of a sample.
pub open spec fn weight(bits: u32) -> int {
    if exponent(bits) == 0 {
        1
    } else {
        power2::pow2((exponent(bits) - 1) as nat) as int
    }
}

/// With the sign of a sample.
pub open spec fn with_sign(bits: u32, size: int) -> int {
    if bits >= SIGN {
        -size
    } else {
        size
    }
}

/// What a finite sample stands for, in units of 2^-149.
pub open spec fn value(bits: u32) -> int {
    with_sign(bits, significand(bits) * weight(bits))
}

/// The multiple of `unit` that is nearest to `n`; of two, the even one.
pub open spec fn nearest(n: int, unit: int) -> int {
    let q = n / unit;
    let rest = n % unit;
    if 2 * rest < unit || (2 * rest == unit && q % 2 == 0) {
        q * unit
    } else {
        (q + 1) * unit
    }
}

/// What the last of the 24 digits of a single's product weighs.
pub open spec fn last_digit(product: int) -> int {
    if product < 0x40_0000_0000 {
        0x4000
    } else {
        0x8000
    }
}

/// How many 16-bit steps a sample between 0 and full scale has: it times 32767, as
/// singles multiply, without what is left of a step.
pub open spec fn steps(bits: u32) -> int {
    let product = significand(bits) * S16_TOP;
    if exponent(bits) == 0 {
        0
    } else {
        nearest(product, last_digit(product)) / power2::pow2(
            (150 - exponent(bits)) as nat,
        ) as int
    }
}

/// The 16-bit sample that a sample becomes. What is beyond full scale is cut off
/// there, and what is not a number becomes silence.
pub open spec fn quantized(bits: u32) -> int {
    with_sign(
        bits,
        if unsigned(bits) > INFINITE {
            0
        } else if unsigned(bits) >= FULL_SCALE {
            S16_TOP as int
        } else {
            steps(bits)
        },
    )
}

/// A number as a 16-bit two's complement word.
pub open spec fn s16_word(n: int) -> u32 {
    if n < 0 {
        (n + 0x1_0000) as u32
    } else {
        n as u32
    }
}

/// The number that the low half of a word stands for.
pub open spec fn s16_number(word: u32) -> int {
    let low = word as int % 0x1_0000;
    if low < 0x8000 {
        low
    } else {
        low - 0x1_0000
    }
}

/// Whether a sample stands for a number of 16-bit steps (zero without a sign).
pub open spec fn stands_for(bits: u32, n: int) -> bool {
    &&& is_finite(bits)
    &&& value(bits) == n * power2::pow2(134)
    &&& n == 0 ==> bits == 0
}

/// A nearest multiple is a multiple, at most half the unit away.
proof fn lemma_nearest(n: int, unit: int)
    requires
        0 <= n,
        unit == 0x4000 || unit == 0x8000,
    ensures
        nearest(n, unit) % unit == 0,
        n - unit / 2 <= nearest(n, unit) <= n + unit / 2,
        nearest(n, unit) >= 0,
{
    if unit == 0x4000 {
        assert(nearest(n, 0x4000) % 0x4000 == 0);
    } else {
        assert(nearest(n, 0x8000) % 0x8000 == 0);
    }
}

/// Powers of two from the 24th on are multiples of what a product is rounded to.
proof fn lemma_scale(s: nat)
    requires
        s >= 24,
    ensures
        power2::pow2(s) >= 0x100_0000,
        power2::pow2(s) % 0x4000 == 0,
        power2::pow2(s) % 0x8000 == 0,
        s >= 40 ==> power2::pow2(s) >= 0x100_0000_0000,
{
    power2::lemma2_to64();
    power2::lemma2_to64_rest();
    if s > 24 {
        power2::lemma_pow2_strictly_increases(24, s);
    }
    if s > 40 {
        power2::lemma_pow2_strictly_increases(40, s);
    }
    power2::lemma_pow2_adds(15, (s - 15) as nat);
    let rest = power2::pow2((s - 15) as nat);
    assert(power2::pow2(s) == 0x8000 * rest);
    assert((0x8000 * rest) % 0x8000 == 0);
    assert((0x8000 * rest) % 0x4000 == 0);
}

/// Short of full scale there are fewer than 32767 steps, and none far below it.
proof fn lemma_steps_bounded(bits: u32)
    requires
        unsigned(bits) < FULL_SCALE,
    ensures
        0 <= steps(bits) < S16_TOP,
        exponent(bits) <= 110 ==> steps(bits) == 0,
{
    let m = significand(bits);
    let p = m * S16_TOP;
    let near = nearest(p, last_digit(p));
    lemma_nearest(p, last_digit(p));
    if exponent(bits) > 0 {
        let s = (150 - exponent(bits)) as nat;
        lemma_scale(s);
        let scale = power2::pow2(s) as int;
        assert(0 <= near < 0x100_0000 * S16_TOP);
        let w = near / scale;
        vstd::arithmetic::div_mod::lemma_fundamental_div_mod(near, scale);
        vstd::arithmetic::div_mod::lemma_mod_bound(near, scale);
        assert(0 <= w < S16_TOP) by (nonlinear_arith)
            requires
                0 <= near < 0x100_0000 * 32_767,
                scale >= 0x100_0000,
                near == scale * w + near % scale,
                0 <= near % scale < scale,
                S16_TOP == 32_767,
        ;
        if exponent(bits) <= 110 {
            assert(near < scale);
            vstd::arithmetic::div_mod::lemma_basic_div(near, scale);
        }
    }
}

/// The steps of a sample short of full scale make up for it but for less than two.
proof fn lemma_steps_close(bits: u32)
    requires
        unsigned(bits) < FULL_SCALE,
    ensures
        ({
            let rest = significand(bits) * weight(bits) - steps(bits) * power2::pow2(134);
            0 <= rest < 2 * power2::pow2(134)
        }),
{
    let m = significand(bits);
    let v = power2::pow2(134) as int;
    power2::lemma2_to64();
    power2::lemma_pow2_strictly_increases(24, 134);
    if exponent(bits) > 0 {
        let e = exponent(bits);
        let s = (150 - e) as nat;
        let p = m * S16_TOP;
        let unit = last_digit(p);
        let near = nearest(p, unit);
        let scale = power2::pow2(s) as int;
        let u = weight(bits);
        let w = near / scale;
        lemma_nearest(p, unit);
        lemma_scale(s);
        power2::lemma_pow2_pos((e - 1) as nat);
        // One unit of the scaled product weighs 2^-15 of a step.
        power2::lemma_pow2_adds((e - 1) as nat, s);
        power2::lemma_pow2_adds(15, 134);
        assert(u * scale == 0x8000 * v);
        vstd::arithmetic::div_mod::lemma_fundamental_div_mod(near, scale);
        vstd::arithmetic::div_mod::lemma_mod_bound(near, scale);
        assert(near == scale * w + near % scale);
        assert(near < scale * (w + 1)) by (nonlinear_arith)
            requires
                near == scale * w + near % scale,
                near % scale < scale,
        ;
        // Both are multiples of the unit, so a whole one lies between them.
        let a = near / unit;
        let b = scale / unit;
        assert(near == a * unit && scale == b * unit);
        assert(near + unit <= scale * (w + 1)) by (nonlinear_arith)
            requires
                near == a * unit,
                scale == b * unit,
                near < scale * (w + 1),
                unit > 0,
        {
            assert(scale * (w + 1) == (b * (w + 1)) * unit);
            assert(a < b * (w + 1));
        }
        assert(p < scale * (w + 1));
        assert(scale * w <= 0x8000 * m);
        let x = m * u;
        assert(x < 0x8000 * v) by (nonlinear_arith)
            requires
                x == m * u,
                m < 0x100_0000,
                scale >= 0x100_0000,
                u > 0,
                u * scale == 0x8000 * v,
        ;
        assert(32_767 * x < 0x8000 * (v * (w + 1))) by (nonlinear_arith)
            requires
                x == m * u,
                p == m * 32_767,
                p < scale * (w + 1),
                u > 0,
                u * scale == 0x8000 * v,
        {
            assert(u * p < u * (scale * (w + 1)));
            assert(u * (scale * (w + 1)) == (u * scale) * (w + 1));
            assert(u * p == 32_767 * x);
        }
        assert(0x8000 * (v * w) <= 0x8000 * x) by (nonlinear_arith)
            requires
                x == m * u,
                scale * w <= 0x8000 * m,
                u > 0,
                u * scale == 0x8000 * v,
        {
            assert(u * (scale * w) <= u * (0x8000 * m));
            assert(u * (scale * w) == (u * scale) * w);
        }
        assert(v * (w + 1) == v * w + v) by (nonlinear_arith);
        assert(w * v == v * w) by (nonlinear_arith);
    }
}

/// A sample of at most full scale comes back from 16 bits less than two steps away.
proof fn lemma_quantized_close(bits: u32)
    requires
        in_scale(bits),
    ensures
        -S16_TOP <= quantized(bits) <= S16_TOP,
        ({
            let error = quantized(bits) * power2::pow2(134) - value(bits);
            -2 * power2::pow2(134) < error < 2 * power2::pow2(134)
        }),
{
    let v = power2::pow2(134) as int;
    let m = significand(bits);
    power2::lemma2_to64();
    power2::lemma_pow2_pos(134);
    power2::lemma_pow2_adds(15, 134);
    power2::lemma_pow2_adds(23, 126);
    if unsigned(bits) >= FULL_SCALE {
        let e = exponent(bits);
        assert(e >= 127);
        if e > 127 {
            power2::lemma_pow2_strictly_increases(126, (e - 1) as nat);
            power2::lemma_pow2_unfold(127);
            if e > 128 {
                power2::lemma_pow2_strictly_increases(127, (e - 1) as nat);
            }
            assert(m * weight(bits) > power2::pow2(149)) by (nonlinear_arith)
                requires
                    m >= 0x80_0000,
                    weight(bits) >= 2 * power2::pow2(126),
                    power2::pow2(149) == 0x80_0000 * power2::pow2(126),
                    power2::pow2(126) > 0,
            ;
        }
        assert(m == FRACTIONS) by (nonlinear_arith)
            requires
                m >= FRACTIONS,
                m * power2::pow2(126) <= FRACTIONS * power2::pow2(126),
                power2::pow2(126) > 0,
        ;
        assert(value(bits) == with_sign(bits, 0x8000 * v));
        assert(quantized(bits) * v == with_sign(bits, S16_TOP * v)) by (nonlinear_arith)
            requires
                quantized(bits) == with_sign(bits, S16_TOP as int),
        ;
    } else {
        lemma_steps_bounded(bits);
        lemma_steps_close(bits);
        let w = steps(bits);
        assert(quantized(bits) * v == with_sign(bits, w * v)) by (nonlinear_arith)
            requires
                quantized(bits) == with_sign(bits, w),
        ;
    }
}

/// Quantize a sample to a 16-bit word.
fn to_s16(bits: u32) -> (word: u32)
    ensures
        word == s16_word(quantized(bits)),
        word < 0x1_0000,
{
    let size: u32 = if bits >= SIGN {
        bits - SIGN
    } else {
        bits
    };
    let steps: u32 = if size > INFINITE {
        0
    } else if size >= FULL_SCALE {
        S16_TOP
    } else {
        proof {
            lemma_steps_bounded(bits);
        }
        let e: u32 = size / FRACTIONS;
        if e <= 110 {
            0
        } else {
            let m: u64 = (size % FRACTIONS + FRACTIONS) as u64;
            let product: u64 = m * 32_767;
            let unit: u64 = if product < 0x40_0000_0000 {
                0x4000
            } else {
                0x8000
            };
            let q: u64 = product / unit;
            let rest: u64 = product % unit;
            let near: u64 = if 2 * rest < unit || (2 * rest == unit && q % 2 == 0) {
                q * unit
            } else {
                (q + 1) * unit
            };
            let s: u64 = (150 - e) as u64;
            proof {
                bits::lemma_u64_shr_is_div(near, s);
                assert(near == nearest(product as int, unit as int));
            }
            (near >> s) as u32
        }
    };
    if steps > 0 && bits >= SIGN {
        0x1_0000 - steps
    } else {
        steps
    }
}

/// The sample that a 16-bit word stands for.
fn from_s16(word: u32) -> (bits: u32)
    ensures
        stands_for(bits, s16_number(word)),
{
    let low: u32 = word % 0x1_0000;
    let size: u32 = if low < 0x8000 {
        low
    } else {
        0x1_0000 - low
    };
    if size == 0 {
        proof {
            assert(0 * power2::pow2(134) == 0) by (nonlinear_arith);
        }
        return 0;
    }
    // Shifted until the leading digit is in its place.
    let mut m: u32 = size;
    let mut e: u32 = 135;
    proof {
        power2::lemma2_to64();
        assert(size * power2::pow2(0) == size);
    }
    while m < FRACTIONS
        invariant
            0 < size <= 0x8000,
            m < 2 * FRACTIONS,
            112 <= e <= 135,
            m == size * power2::pow2((135 - e) as nat),
        decreases e,
    {
        proof {
            power2::lemma2_to64();
            if e == 112 {
                assert(size * 0x80_0000 >= 0x80_0000) by (nonlinear_arith)
                    requires
                        size > 0,
                ;
            }
            let at = (135 - e) as nat;
            power2::lemma_pow2_unfold(at + 1);
            assert(2 * (size * power2::pow2(at)) == size * (2 * power2::pow2(at)))
                by (nonlinear_arith);
        }
        m = 2 * m;
        e = e - 1;
    }
    let bits: u32 = e * FRACTIONS + (m - FRACTIONS);
    let signed: u32 = if low < 0x8000 {
        bits
    } else {
        bits + SIGN
    };
    proof {
        assert(unsigned(signed) == bits);
        assert(exponent(signed) == e);
        assert(significand(signed) == m);
        let a = power2::pow2((135 - e) as nat);
        let b = power2::pow2((e - 1) as nat);
        power2::lemma_pow2_adds((135 - e) as nat, (e - 1) as nat);
        assert((size * a) * b == size * (a * b)) by (nonlinear_arith);
        let v = power2::pow2(134);
        assert(value(signed) == with_sign(signed, size * v));
        assert((-(size as int)) * v == -(size * v)) by (nonlinear_arith);
    }
    signed
}

impl WireFormat {
    /// The word of a sample in this format.
    pub open spec fn word_of(self, bits: u32) -> u32 {
        match self {
            WireFormat::F32Le => bits,
            WireFormat::S16Le => s16_word(quantized(bits)),
        }
    }

    /// The words of samples in this format.
    pub open spec fn words_of(self, samples: Seq<u32>) -> Seq<u32> {
        samples.map_values(|b: u32| self.word_of(b))
    }

    /// Whether a sample is what a word of this format stands for.
    pub open spec fn reads_as(self, bits: u32, word: u32) -> bool {
        match self {
            WireFormat::F32Le => bits == word,
            WireFormat::S16Le => stands_for(bits, s16_number(word)),
        }
    }

    /// Whether the samples are what the words stand for, one for one.
    pub open spec fn read_as(self, samples: Seq<u32>, words: Seq<u32>) -> bool {
        &&& samples.len() == words.len()
        &&& forall|i: int|
            0 <= i < samples.len() ==> self.reads_as(#[trigger] samples[i], words[i])
    }

    /// The words of samples, to be encoded.
    pub fn words(self, samples: &Vec<u32>) -> (out: Vec<u32>)
        ensures
            out@ == self.words_of(samples@),
            forall|i: int| 0 <= i < out@.len() ==> self.holds(#[trigger] out@[i]),
    {
        let mut out: Vec<u32> = Vec::new();
        let mut i: usize = 0;
        while i < samples.len()
            invariant
                i <= samples@.len(),
                out@.len() == i,
                forall|j: int|
                    0 <= j < i ==> #[trigger] out@[j] == self.word_of(samples@[j]) && self.holds(
                        out@[j],
                    ),
            decreases samples@.len() - i,
        {
            let word: u32 = match self {
                WireFormat::F32Le => samples[i],
                WireFormat::S16Le => to_s16(samples[i]),
            };
            out.push(word);
            i = i + 1;
        }
        proof {
            assert(out@ =~= self.words_of(samples@));
        }
        out
    }

    /// The samples that decoded words stand for.
    pub fn samples(self, words: &Vec<u32>) -> (out: Vec<u32>)
        ensures
            self.read_as(out@, words@),
    {
        let mut out: Vec<u32> = Vec::new();
        let mut i: usize = 0;
        while i < words.len()
            invariant
                i <= words@.len(),
                out@.len() == i,
                forall|j: int| 0 <= j < i ==> self.reads_as(#[trigger] out@[j], words@[j]),
            decreases words@.len() - i,
        {
            let bits: u32 = match self {
                WireFormat::F32Le => words[i],
                WireFormat::S16Le => from_s16(words[i]),
            };
            out.push(bits);
            i = i + 1;
        }
        out
    }
}

/// Two finite samples that stand for one number are one sample, unless they stand
/// for zero, which has one of either sign.
pub proof fn samples_are_told_apart(a: u32, b: u32)
    requires
        is_finite(a),
        is_finite(b),
        value(a) == value(b),
        value(a) != 0,
    ensures
        a == b,
{
    lemma_value_positive(a);
    lemma_value_positive(b);
    if exponent(a) < exponent(b) {
        lemma_larger_exponent(a, b);
    } else if exponent(b) < exponent(a) {
        lemma_larger_exponent(b, a);
    }
    let w = weight(a);
    let (x, y) = (significand(a), significand(b));
    assert(x == y) by (nonlinear_arith)
        requires
            x * w == y * w,
            w > 0,
    ;
}

/// Without its sign, no sample is below zero.
proof fn lemma_value_positive(bits: u32)
    ensures
        weight(bits) > 0,
        significand(bits) * weight(bits) >= 0,
{
    if exponent(bits) > 0 {
        power2::lemma_pow2_pos((exponent(bits) - 1) as nat);
    }
    let (m, w) = (significand(bits), weight(bits));
    assert(m * w >= 0) by (nonlinear_arith)
        requires
            m >= 0,
            w > 0,
    ;
}

/// A sample with a larger exponent is larger, but for the signs.
proof fn lemma_larger_exponent(a: u32, b: u32)
    requires
        exponent(a) < exponent(b),
    ensures
        significand(a) * weight(a) < significand(b) * weight(b),
{
    lemma_value_positive(a);
    lemma_value_positive(b);
    let (m, w) = (significand(a), weight(a));
    let (n, x) = (significand(b), weight(b));
    power2::lemma2_to64();
    if exponent(a) > 0 {
        power2::lemma_pow2_unfold(exponent(a) as nat);
        if exponent(a) < exponent(b) - 1 {
            power2::lemma_pow2_strictly_increases(exponent(a) as nat, (exponent(b) - 1) as nat);
        }
        assert(x >= 2 * w);
        assert(m * w < n * x) by (nonlinear_arith)
            requires
                0 <= m < 0x100_0000,
                n >= 0x80_0000,
                x >= 2 * w,
                w > 0,
        ;
    } else {
        assert(m * 1 < n * x) by (nonlinear_arith)
            requires
                0 <= m < 0x80_0000,
                n >= 0x80_0000,
                x > 0,
        ;
    }
}

/// Whether a sample is a number of at most full scale.
pub open spec fn in_scale(bits: u32) -> bool {
    is_finite(bits) && -power2::pow2(149) <= value(bits) <= power2::pow2(149)
}

/// Whether two samples are numbers that lie less than two 16-bit steps (2 / 32768)
/// apart.
pub open spec fn within_two_steps(a: u32, b: u32) -> bool {
    is_finite(a) && is_finite(b) && -2 * power2::pow2(134) < value(a) - value(b) < 2
        * power2::pow2(134)
}

/// Samples that went over the wire: `F32Le` gives back every one, bit for bit;
/// `S16Le` gives back as many, and each that is a number of at most full scale less
/// than two 16-bit steps away.
pub proof fn samples_survive_the_wire(f: WireFormat, sent: Seq<u32>, heard: Seq<u32>)
    requires
        f.read_as(heard, f.decoded(f.encoded(f.words_of(sent)))),
    ensures
        heard.len() == sent.len(),
        f == WireFormat::F32Le ==> heard == sent,
        f == WireFormat::S16Le ==> forall|i: int|
            0 <= i < sent.len() && in_scale(sent[i]) ==> within_two_steps(
                #[trigger] heard[i],
                sent[i],
            ),
{
    let words = f.words_of(sent);
    lemma_words_held(f, sent);
    wire::decode_undoes_encode(f, words);
    assert forall|i: int| 0 <= i < sent.len() implies match f {
        WireFormat::F32Le => #[trigger] heard[i] == sent[i],
        WireFormat::S16Le => in_scale(sent[i]) ==> within_two_steps(heard[i], sent[i]),
    } by {
        assert(f.reads_as(heard[i], words[i]));
        if f == WireFormat::S16Le && in_scale(sent[i]) {
            lemma_survives(sent[i], heard[i]);
        }
    }
    if f == WireFormat::F32Le {
        assert(heard =~= sent);
    }
}

/// A sample that is read back from its own 16-bit word is close to it.
proof fn lemma_survives(sent: u32, heard: u32)
    requires
        in_scale(sent),
        stands_for(heard, s16_number(s16_word(quantized(sent)))),
    ensures
        within_two_steps(heard, sent),
{
    lemma_quantized_close(sent);
    assert(s16_number(s16_word(quantized(sent))) == quantized(sent));
}

/// The words of samples are words of the format.
pub proof fn lemma_words_held(f: WireFormat, samples: Seq<u32>)
    ensures
        f.words_of(samples).len() == samples.len(),
        forall|i: int|
            0 <= i < samples.len() ==> f.holds(#[trigger] f.words_of(samples)[i]),
{
    assert forall|i: int| 0 <= i < samples.len() implies f.holds(
        #[trigger] f.words_of(samples)[i],
    ) by {
        let bits = samples[i];
        if unsigned(bits) < FULL_SCALE {
            lemma_steps_bounded(bits);
        }
    }
}

/// Rounding goes to a multiple of the unit that is no further away than half of it, and
/// half way to the even one.
pub proof fn rounding_goes_to_the_nearest(n: int, unit: int)
    requires
        0 <= n,
        0 < unit,
    ensures
        -unit <= 2 * (nearest(n, unit) - n) <= unit,
        exists|q: int| nearest(n, unit) == #[trigger] (q * unit) && (2 * (n % unit) == unit ==> q
            % 2 == 0),
{
    let q = n / unit;
    let rest = n % unit;
    div_mod::lemma_fundamental_div_mod(n, unit);
    assert((q + 1) * unit == q * unit + unit && q * unit == n - rest) by (nonlinear_arith)
        requires
            n == unit * q + rest,
    ;
    if 2 * rest < unit || (2 * rest == unit && q % 2 == 0) {
        assert(nearest(n, unit) == q * unit);
    } else {
        assert(nearest(n, unit) == (q + 1) * unit);
    }
}

/// A sample below full scale becomes the number of whole steps, of which 32767 make
/// full scale, that it has, up to what multiplying singles rounds off: one part in
/// 2^24.
pub proof fn samples_become_whole_steps(bits: u32)
    requires
        unsigned(bits) < 0x3f80_0000,
        exponent(bits) > 0,
    ensures
        ({
            let size = significand(bits) * weight(bits);
            let n = steps(bits) * power2::pow2(149);
            let next = (steps(bits) + 1) * power2::pow2(149);
            &&& 0x100_0000 * n <= 0x100_0001 * (32767 * size)
            &&& 0x0ff_ffff * (32767 * size) < 0x100_0000 * next
        }),
{
    let e = exponent(bits);
    let m = significand(bits);
    let w = weight(bits);
    let p = m * 32767;
    let unit = last_digit(p);
    let near = nearest(p, unit);
    assert(0x80_0000 <= m < 0x100_0000);
    lemma_nearest(p, unit);
    assert(0x80_0000 * unit <= p);
    assert(0x100_0000 * near <= 0x100_0001 * p);
    assert(0x0ff_ffff * p <= 0x100_0000 * near);
    let s = (150 - e) as nat;
    let scale = power2::pow2(s) as int;
    power2::lemma_pow2_pos(s);
    power2::lemma_pow2_pos((e - 1) as nat);
    power2::lemma_pow2_adds(s, (e - 1) as nat);
    let v = power2::pow2(149) as int;
    assert(scale * w == v);
    let k = near / scale;
    assert(k == steps(bits));
    div_mod::lemma_fundamental_div_mod(near, scale);
    assert(k * scale <= near < (k + 1) * scale) by (nonlinear_arith)
        requires
            near == scale * k + near % scale,
            0 <= near % scale < scale,
    ;
    let size = m * w;
    assert(k * v == (k * scale) * w && (k + 1) * v == ((k + 1) * scale) * w && 32767 * size == p
        * w) by (nonlinear_arith)
        requires
            scale * w == v,
            size == m * w,
            p == m * 32767,
    ;
    assert((k * scale) * w <= near * w < ((k + 1) * scale) * w) by (nonlinear_arith)
        requires
            k * scale <= near < (k + 1) * scale,
            w > 0,
    ;
    assert(0x100_0000 * (near * w) <= 0x100_0001 * (p * w) && 0x0ff_ffff * (p * w) <= 0x100_0000 * (
    near * w)) by (nonlinear_arith)
        requires
            0x100_0000 * near <= 0x100_0001 * p,
            0x0ff_ffff * p <= 0x100_0000 * near,
            w > 0,
    ;
}

/// Samples of either sign become numbers of either sign, those of full scale and beyond
/// the highest, those too small for a step and those that are no number zero.
pub proof fn samples_beyond_scale_are_cut(bits: u32)
    ensures
        bits < 0x8000_0000 ==> quantized((bits + 0x8000_0000) as u32) == -quantized(bits),
        bits < 0x8000_0000 ==> quantized(bits) >= 0,
        0x3f80_0000 <= bits <= 0x7f80_0000 ==> quantized(bits) == 32767,
        0x7f80_0000 < bits < 0x8000_0000 ==> quantized(bits) == 0,
        bits < 0x80_0000 ==> quantized(bits) == 0,
        bits < 0x3f80_0000 ==> quantized(bits) == steps(bits),
{
    if bits < 0x8000_0000 {
        let other = (bits + 0x8000_0000) as u32;
        assert(unsigned(other) == unsigned(bits));
        if bits < 0x3f80_0000 {
            lemma_steps_bounded(bits);
        }
    }
}

/// A number of 16 bits is its word's low half, in two's complement.
pub proof fn numbers_are_twos_complement(n: int)
    requires
        -0x8000 <= n < 0x8000,
    ensures
        s16_number(s16_word(n)) == n,
        s16_word(n) < 0x1_0000,
        n >= 0 ==> s16_word(n) == n,
        n < 0 ==> s16_word(n) - n == 0x1_0000,
{
}

/// Words are read back as they stand, or as so many 32768ths of full scale.
pub proof fn words_stand_for_steps(f: WireFormat, bits: u32, word: u32)
    requires
        f.reads_as(bits, word),
    ensures
        f == WireFormat::F32Le ==> bits == word,
        f == WireFormat::S16Le ==> is_finite(bits) && 0x8000 * value(bits) == s16_number(word)
            * power2::pow2(149),
        f == WireFormat::S16Le && s16_number(word) == 0 ==> bits == 0,
        f.word_of(bits) == if f == WireFormat::F32Le {
            bits
        } else {
            s16_word(quantized(bits))
        },
{
    power2::lemma_pow2_adds(15, 134);
    power2::lemma2_to64();
    if f == WireFormat::S16Le {
        let n = s16_number(word);
        let v = power2::pow2(134) as int;
        assert(0x8000 * (n * v) == n * (0x8000 * v)) by (nonlinear_arith);
    }
}

} // verus!
