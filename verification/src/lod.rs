//! Level of detail: how coarse a macrocell to ask of the engine at a given
//! zoom, so that one macrocell covers about one pixel.

use vstd::prelude::*;
use vstd::arithmetic::power2::*;
use crate::lattice::lemma_pow2_monotone;

verus! {

/// The bit pattern of positive infinity in IEEE 754 single precision. Every
/// positive finite number has a smaller pattern.
pub const INFINITY_BITS: u32 = 0x7F80_0000;

/// The bit pattern of the largest finite number.
pub const LARGEST_BITS: u32 = 0x7F7F_FFFF;

/// The bit pattern of the zoom factor that stands in for one that is not
/// positive: `2^-23`, the machine epsilon.
pub const EPSILON_BITS: u32 = 0x3400_0000;

/// Two to the power 23: the weight of the hidden bit of a significand.
pub const HIDDEN_BIT: u32 = 0x80_0000;

/// A zoom factor in pixels per cell: a positive, finite number in IEEE 754
/// single precision, held by its bit pattern.
///
/// The number it stands for is `significand * 2^(exponent - 150)`. Only its
/// magnitude is ever read.
#[derive(Clone, Copy, Debug)]
pub struct Scale {
    bits: u32,
}

/// Scaling by a power of two keeps order, and a number between two
/// neighbouring powers of two stays between their multiples.
proof fn lemma_scaled_between(s: nat, k: nat, j: nat)
    requires
        k >= 1,
        pow2((k - 1) as nat) <= s < pow2(k),
    ensures
        pow2((k - 1 + j) as nat) <= s * pow2(j) < pow2(k + j),
        s == pow2((k - 1) as nat) ==> s * pow2(j) == pow2((k - 1 + j) as nat),
        s > pow2((k - 1) as nat) ==> s * pow2(j) > pow2((k - 1 + j) as nat),
{
    lemma_pow2_adds((k - 1) as nat, j);
    lemma_pow2_adds(k, j);
    lemma_pow2_pos(j);
    let low = pow2((k - 1) as nat);
    let high = pow2(k);
    let unit = pow2(j);
    assert(low * unit <= s * unit) by (nonlinear_arith)
        requires
            low <= s,
            unit > 0,
    ;
    assert(s * unit < high * unit) by (nonlinear_arith)
        requires
            s < high,
            unit > 0,
    ;
    if s > low {
        assert(s * unit > low * unit) by (nonlinear_arith)
            requires
                s > low,
                unit > 0,
        ;
    }
}

impl Scale {
    /// What holds of every zoom factor a program holds.
    #[verifier::type_invariant]
    pub open spec fn inv(self) -> bool {
        self.wf()
    }

    /// The bit pattern of the zoom factor.
    pub closed spec fn spec_bits(self) -> u32 {
        self.bits
    }

    /// A zoom factor is positive and finite: its pattern is above that of
    /// zero and below that of infinity, with the sign bit clear.
    pub open spec fn wf(self) -> bool {
        0 < self.spec_bits() < INFINITY_BITS
    }

    /// The integer significand: the 23 stored bits, with the hidden bit on
    /// top unless the number is subnormal.
    pub open spec fn significand(self) -> nat {
        let stored = (self.spec_bits() % HIDDEN_BIT) as nat;
        if self.spec_bits() < HIDDEN_BIT {
            stored
        } else {
            stored + HIDDEN_BIT as nat
        }
    }

    /// The biased exponent, where a subnormal number counts as having the
    /// smallest normal exponent.
    pub open spec fn exponent(self) -> nat {
        if self.spec_bits() < HIDDEN_BIT {
            1
        } else {
            (self.spec_bits() / HIDDEN_BIT) as nat
        }
    }

    /// The zoom factor times `2^150`, which is a whole number.
    pub open spec fn magnified(self) -> nat {
        self.significand() * pow2(self.exponent())
    }

    /// Whether the edge of a macrocell of the given depth, `2^depth` cells,
    /// spans at most one pixel at this zoom: `scale * 2^depth <= 1`.
    pub open spec fn within_pixel(self, depth: nat) -> bool {
        self.magnified() * pow2(depth) <= pow2(150)
    }

    /// The deepest macrocell, from `from` upwards, that is reached through
    /// depths that all span at most one pixel.
    pub open spec fn deepest_from(self, from: nat) -> nat
        decreases 150 - from,
    {
        if from < 150 && self.within_pixel(from + 1) {
            self.deepest_from(from + 1)
        } else {
            from
        }
    }

    /// The level of detail at this zoom: the greatest depth whose macrocells
    /// span at most one pixel, `floor(log2(1 / scale))`, and zero when even a
    /// single cell is larger than a pixel.
    pub open spec fn spec_min_depth(self) -> nat {
        self.deepest_from(0)
    }

    /// The pattern a zoom factor is held to: its own while it is positive and
    /// finite, that of the largest finite number once it has grown to
    /// infinity, and that of the epsilon once it is zero, negative or not a
    /// number.
    pub open spec fn spec_clamped(bits: u32) -> u32 {
        if 0 < bits < INFINITY_BITS {
            bits
        } else if bits == INFINITY_BITS {
            LARGEST_BITS
        } else {
            EPSILON_BITS
        }
    }

    /// The zoom factor that the number with the given bit pattern is held
    /// to, so that the zoom stays positive and finite whatever an update made
    /// of it.
    pub fn clamped(bits: u32) -> (scale: Scale)
        ensures
            scale.wf(),
            scale.spec_bits() == Self::spec_clamped(bits),
    {
        if 0 < bits && bits < INFINITY_BITS {
            Scale { bits }
        } else if bits == INFINITY_BITS {
            Scale { bits: LARGEST_BITS }
        } else {
            Scale { bits: EPSILON_BITS }
        }
    }

    /// The zoom factor with the given bit pattern, if that is the pattern of
    /// a positive finite number.
    pub fn from_bits(bits: u32) -> (scale: Option<Scale>)
        ensures
            scale is Some <==> 0 < bits < INFINITY_BITS,
            scale matches Some(s) ==> s.wf() && s.spec_bits() == bits,
    {
        if 0 < bits && bits < INFINITY_BITS {
            Some(Scale { bits })
        } else {
            None
        }
    }

    /// The bit pattern of the zoom factor.
    pub fn bits(&self) -> (bits: u32)
        ensures
            bits == self.spec_bits(),
            self.wf(),
    {
        proof {
            use_type_invariant(self);
        }
        self.bits
    }

    /// A larger macrocell spans more: what is within a pixel at one depth is
    /// within a pixel at every smaller depth.
    pub proof fn lemma_within_pixel_downward(self, shallow: nat, deep: nat)
        requires
            shallow <= deep,
            self.within_pixel(deep),
        ensures
            self.within_pixel(shallow),
    {
        lemma_pow2_monotone(shallow, deep);
        let m = self.magnified();
        let a = pow2(shallow);
        let b = pow2(deep);
        assert(m * a <= m * b) by (nonlinear_arith)
            requires
                a <= b,
        ;
    }

    /// The level of detail is the one depth that is within a pixel (or zero)
    /// while the next depth is not.
    pub proof fn lemma_min_depth_greatest(self, depth: nat)
        requires
            self.wf(),
            depth == 0 || self.within_pixel(depth),
            !self.within_pixel(depth + 1),
        ensures
            self.spec_min_depth() == depth,
    {
        self.lemma_exceeds_pixel_at(150);
        if depth >= 150 {
            self.lemma_within_pixel_downward(150, depth);
        }
        self.lemma_deepest_from(0, depth);
    }

    /// No zoom factor keeps a macrocell of depth 150 or more within a pixel.
    proof fn lemma_exceeds_pixel_at(self, depth: nat)
        requires
            self.wf(),
            depth >= 150,
        ensures
            !self.within_pixel(depth),
    {
        let m = self.magnified();
        let s = self.significand();
        let e = pow2(self.exponent());
        lemma_pow2_monotone(1, self.exponent());
        lemma2_to64();
        assert(s >= 1);
        assert(m >= 2) by (nonlinear_arith)
            requires
                m == s * e,
                s >= 1,
                e >= 2,
        ;
        lemma_pow2_monotone(150, depth);
        let p = pow2(depth);
        lemma_pow2_pos(150);
        assert(m * p > pow2(150)) by (nonlinear_arith)
            requires
                m >= 2,
                p >= pow2(150),
                pow2(150) > 0,
        ;
    }

    proof fn lemma_deepest_from(self, from: nat, depth: nat)
        requires
            from <= depth < 150,
            depth == 0 || self.within_pixel(depth),
            !self.within_pixel(depth + 1),
        ensures
            self.deepest_from(from) == depth,
        decreases depth - from,
    {
        if from < depth {
            self.lemma_within_pixel_downward(from + 1, depth);
            self.lemma_deepest_from(from + 1, depth);
        }
    }

    /// The level of detail satisfies its defining property.
    pub proof fn lemma_min_depth_property(self)
        requires
            self.wf(),
        ensures
            self.spec_min_depth() == 0 || self.within_pixel(self.spec_min_depth()),
            !self.within_pixel(self.spec_min_depth() + 1),
            self.spec_min_depth() < 150,
    {
        self.lemma_exceeds_pixel_at(150);
        self.lemma_deepest_property(0);
    }

    proof fn lemma_deepest_property(self, from: nat)
        requires
            from <= 150,
            !self.within_pixel(150),
            from == 0 || self.within_pixel(from),
        ensures
            self.deepest_from(from) == 0 || self.within_pixel(self.deepest_from(from)),
            !self.within_pixel(self.deepest_from(from) + 1),
            self.deepest_from(from) < 150,
        decreases 150 - from,
    {
        if from < 150 && self.within_pixel(from + 1) {
            self.lemma_deepest_property(from + 1);
        } else if from == 150 {
        } else {
        }
    }

    /// With `k` the bit length of the significand, a macrocell of the given
    /// depth is within a pixel exactly when `depth + k + exponent` does not
    /// exceed 150, or 151 where the significand is a power of two.
    proof fn lemma_within_pixel_iff(self, k: nat, depth: nat)
        requires
            k >= 1,
            pow2((k - 1) as nat) <= self.significand() < pow2(k),
        ensures
            self.within_pixel(depth) <==> depth + k + self.exponent() <= (if self.significand()
                == pow2((k - 1) as nat) {
                151nat
            } else {
                150nat
            }),
    {
        let s = self.significand();
        let e = self.exponent();
        let shift = e + depth;
        lemma_pow2_adds(e, depth);
        let pe = pow2(e);
        let pd = pow2(depth);
        assert(s * pe * pd == s * (pe * pd)) by (nonlinear_arith);
        assert(self.magnified() * pow2(depth) == s * pow2(shift));
        lemma_scaled_between(s, k, shift);
        if k - 1 + shift <= 150 {
            lemma_pow2_monotone((k - 1 + shift) as nat, 150);
        } else {
            lemma_pow2_strictly_increases(150, (k - 1 + shift) as nat);
        }
        if k + shift <= 150 {
            lemma_pow2_monotone(k + shift, 150);
        }
    }

    /// The level of detail at this zoom: the depth of the largest macrocell
    /// whose edge spans at most one pixel, and zero when a single cell is
    /// already larger than a pixel.
    pub fn min_depth(&self) -> (depth: usize)
        ensures
            depth == self.spec_min_depth(),
            depth == 0 || self.within_pixel(depth as nat),
            !self.within_pixel(depth as nat + 1),
            depth < 150,
    {
        proof {
            use_type_invariant(self);
            lemma2_to64();
        }
        let stored: u32 = self.bits % HIDDEN_BIT;
        let subnormal: bool = self.bits < HIDDEN_BIT;
        let significand: u32 = if subnormal {
            stored
        } else {
            stored + HIDDEN_BIT
        };
        let exponent: u32 = if subnormal {
            1
        } else {
            self.bits / HIDDEN_BIT
        };
        assert(significand == self.significand());
        assert(exponent == self.exponent());
        let mut length: u32 = 0;
        let mut above: u32 = 1;
        while above <= significand
            invariant
                1 <= significand < 0x100_0000,
                length <= 24,
                above == pow2(length as nat),
                length == 0 || pow2((length - 1) as nat) <= significand,
            decreases 0x200_0000 - above,
        {
            proof {
                lemma2_to64();
                lemma_pow2_pos(length as nat);
                lemma_pow2_unfold((length + 1) as nat);
                if length >= 24 {
                    lemma_pow2_monotone(24, length as nat);
                }
            }
            above = above * 2;
            length = length + 1;
        }
        let power: bool = significand == above / 2;
        let room: u32 = if power {
            151
        } else {
            150
        };
        let used: u32 = length + exponent;
        let depth: usize = if used >= room {
            0
        } else {
            (room - used) as usize
        };
        proof {
            lemma_pow2_unfold(length as nat);
            self.lemma_within_pixel_iff(length as nat, depth as nat);
            self.lemma_within_pixel_iff(length as nat, depth as nat + 1);
            self.lemma_min_depth_greatest(depth as nat);
        }
        depth
    }

    /// Coarser detail when zoomed out: of two zoom factors, the smaller never
    /// has the lesser level of detail.
    pub proof fn lemma_min_depth_antitone(self, larger: Scale)
        requires
            self.wf(),
            larger.wf(),
            self.magnified() <= larger.magnified(),
        ensures
            self.spec_min_depth() >= larger.spec_min_depth(),
    {
        self.lemma_min_depth_property();
        larger.lemma_min_depth_property();
        let mine = self.spec_min_depth();
        let theirs = larger.spec_min_depth();
        if theirs > mine {
            larger.lemma_within_pixel_downward(mine + 1, theirs);
            let a = self.magnified();
            let b = larger.magnified();
            let p = pow2(mine + 1);
            assert(a * p <= b * p) by (nonlinear_arith)
                requires
                    a <= b,
            ;
        }
    }

    /// Positive numbers are ordered as their bit patterns are: the zoom
    /// factor with the smaller pattern is the smaller number.
    pub proof fn lemma_order_by_bits(self, larger: Scale)
        requires
            self.wf(),
            larger.wf(),
            self.spec_bits() < larger.spec_bits(),
        ensures
            self.magnified() < larger.magnified(),
    {
        let sa = self.significand();
        let sb = larger.significand();
        let ea = self.exponent();
        let eb = larger.exponent();
        let pa = pow2(ea);
        let pb = pow2(eb);
        lemma_pow2_pos(ea);
        assert(ea <= eb);
        if ea == eb {
            assert(sa < sb);
            assert(sa * pa < sb * pa) by (nonlinear_arith)
                requires
                    sa < sb,
                    pa > 0,
            ;
        } else {
            assert(sa < 0x100_0000);
            assert(sb >= 0x80_0000);
            lemma_pow2_unfold(ea + 1);
            lemma_pow2_monotone(ea + 1, eb);
            assert(sa * pa < sb * pb) by (nonlinear_arith)
                requires
                    sa < 0x100_0000,
                    sb >= 0x80_0000,
                    2 * pa <= pb,
                    pa > 0,
            ;
        }
    }
}

} // verus!
