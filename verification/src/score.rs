use vstd::prelude::*;
use vstd::std_specs::bits::u16_leading_zeros;
use vstd::std_specs::bits::u8_leading_zeros;
use vstd::std_specs::bits::axiom_u16_leading_zeros;
use vstd::std_specs::bits::axiom_u8_leading_zeros;
use vstd::std_specs::cmp::PartialOrdSpecImpl;
use core::cmp::Ordering;
use crate::settings::Settings;

verus! {

/// How good a finished macro is: its quality up to the recipe's maximum,
/// the seconds it takes, the number of its moves, and the quality beyond
/// the maximum.
#[derive(Debug, Clone, Copy, PartialEq, Eq, Structural)]
pub struct Score {
    pub quality: u16,
    pub duration: u8,
    pub steps: u8,
    pub quality_overflow: u16,
}

/// `radix_heap::Radix::radix_similarity` on two `u16`: the number of high
/// bits the two share, that is the leading zeros of their exclusive or.
#[verifier::external_body]
fn similarity_u16(a: u16, b: u16) -> (r: u32)
    ensures
        r == u16_leading_zeros(a ^ b),
{
    radix_heap::Radix::radix_similarity(&a, &b)
}

/// `radix_heap::Radix::radix_similarity` on two `u8`: the number of high
/// bits the two share, that is the leading zeros of their exclusive or.
#[verifier::external_body]
fn similarity_u8(a: u8, b: u8) -> (r: u32)
    ensures
        r == u8_leading_zeros(a ^ b),
{
    radix_heap::Radix::radix_similarity(&a, &b)
}

impl Score {
    /// The score of a macro that reaches `quality` in `duration` seconds and
    /// `steps` moves.
    pub fn new(quality: u16, duration: u8, steps: u8, settings: &Settings) -> (r: Score)
        ensures
            r.quality == (if quality <= settings.max_quality {
                quality
            } else {
                settings.max_quality
            }),
            r.duration == duration,
            r.steps == steps,
            r.quality_overflow == (if quality <= settings.max_quality {
                0
            } else {
                quality - settings.max_quality
            }),
            r.quality + r.quality_overflow == quality,
    {
        if quality <= settings.max_quality {
            Score { quality, duration, steps, quality_overflow: 0 }
        } else {
            Score {
                quality: settings.max_quality,
                duration,
                steps,
                quality_overflow: quality - settings.max_quality,
            }
        }
    }

    /// The order of scores: more quality is greater; at equal quality the
    /// shorter macro, then the one of fewer moves, then the one of more
    /// quality beyond the maximum.
    pub open spec fn order(self, other: Score) -> Ordering {
        if self.quality != other.quality {
            if self.quality < other.quality {
                Ordering::Less
            } else {
                Ordering::Greater
            }
        } else if self.duration != other.duration {
            if self.duration > other.duration {
                Ordering::Less
            } else {
                Ordering::Greater
            }
        } else if self.steps != other.steps {
            if self.steps > other.steps {
                Ordering::Less
            } else {
                Ordering::Greater
            }
        } else if self.quality_overflow != other.quality_overflow {
            if self.quality_overflow < other.quality_overflow {
                Ordering::Less
            } else {
                Ordering::Greater
            }
        } else {
            Ordering::Equal
        }
    }

    /// `self` is at most `other` in the order of scores.
    pub open spec fn at_most(self, other: Score) -> bool {
        self.order(other) != Ordering::Greater
    }

    pub fn cmp(&self, other: &Score) -> (r: Ordering)
        ensures
            r == self.order(*other),
    {
        if self.quality != other.quality {
            if self.quality < other.quality {
                Ordering::Less
            } else {
                Ordering::Greater
            }
        } else if self.duration != other.duration {
            if self.duration > other.duration {
                Ordering::Less
            } else {
                Ordering::Greater
            }
        } else if self.steps != other.steps {
            if self.steps > other.steps {
                Ordering::Less
            } else {
                Ordering::Greater
            }
        } else if self.quality_overflow != other.quality_overflow {
            if self.quality_overflow < other.quality_overflow {
                Ordering::Less
            } else {
                Ordering::Greater
            }
        } else {
            Ordering::Equal
        }
    }

    /// `self` is greater than `other` in the order of scores.
    pub open spec fn beats(self, other: Score) -> bool {
        self.order(other) == Ordering::Greater
    }

    /// Whether `self` is greater than `other` in the order of scores.
    pub fn is_better_than(&self, other: &Score) -> (r: bool)
        ensures
            r == self.beats(*other),
    {
        match self.cmp(other) {
            Ordering::Greater => true,
            _ => false,
        }
    }

    /// The score as one 48-bit key: quality in the top 16 bits, then 8 bits
    /// of duration, 8 of steps, and the overflow in the low 16.
    pub open spec fn packed_key(self) -> u64 {
        ((self.quality as u64) << 32) | ((self.duration as u64) << 24) | ((self.steps as u64)
            << 16) | (self.quality_overflow as u64)
    }

    /// The number of high bits on which the keys of two scores agree, field
    /// by field from the top.
    pub open spec fn spec_radix_similarity(self, other: Score) -> u32 {
        if self.quality != other.quality {
            u16_leading_zeros(self.quality ^ other.quality)
        } else if self.duration != other.duration {
            (u8_leading_zeros(self.duration ^ other.duration) + 16) as u32
        } else if self.steps != other.steps {
            (u8_leading_zeros(self.steps ^ other.steps) + 24) as u32
        } else {
            (u16_leading_zeros(self.quality_overflow ^ other.quality_overflow) + 32) as u32
        }
    }

    /// Number of bits of the packed key.
    pub fn radix_bits() -> (r: u32)
        ensures
            r == 48,
    {
        48
    }

    pub fn radix_similarity(&self, other: &Score) -> (r: u32)
        ensures
            r == self.spec_radix_similarity(*other),
            r <= 48,
    {
        proof {
            axiom_u16_leading_zeros(self.quality ^ other.quality);
            axiom_u8_leading_zeros(self.duration ^ other.duration);
            axiom_u8_leading_zeros(self.steps ^ other.steps);
            axiom_u16_leading_zeros(self.quality_overflow ^ other.quality_overflow);
            lemma_xor_zero(
                self.quality,
                other.quality,
                self.duration,
                other.duration,
                self.steps,
                other.steps,
            );
        }
        if self.quality != other.quality {
            similarity_u16(self.quality, other.quality)
        } else if self.duration != other.duration {
            similarity_u8(self.duration, other.duration) + 16
        } else if self.steps != other.steps {
            similarity_u8(self.steps, other.steps) + 24
        } else {
            similarity_u16(self.quality_overflow, other.quality_overflow) + 32
        }
    }
}

impl PartialOrd for Score {
    fn partial_cmp(&self, other: &Score) -> (r: Option<Ordering>) {
        Some(self.cmp(other))
    }
}

impl PartialOrdSpecImpl for Score {
    open spec fn obeys_partial_cmp_spec() -> bool {
        true
    }

    open spec fn partial_cmp_spec(&self, other: &Score) -> Option<Ordering> {
        Some(self.order(*other))
    }
}

proof fn lemma_xor_zero(q1: u16, q2: u16, d1: u8, d2: u8, s1: u8, s2: u8)
    by (bit_vector)
    ensures
        q1 ^ q2 == 0 <==> q1 == q2,
        d1 ^ d2 == 0 <==> d1 == d2,
        s1 ^ s2 == 0 <==> s1 == s2,
{
}

/// Every score is at most itself.
pub proof fn lemma_order_reflexive(a: Score)
    ensures
        a.at_most(a),
        a.order(a) == Ordering::Equal,
{
}

/// Two scores that are at most each other are the same score.
pub proof fn lemma_order_antisymmetric(a: Score, b: Score)
    requires
        a.at_most(b),
        b.at_most(a),
    ensures
        a == b,
{
}

/// The order of scores is transitive.
pub proof fn lemma_order_transitive(a: Score, b: Score, c: Score)
    requires
        a.at_most(b),
        b.at_most(c),
    ensures
        a.at_most(c),
{
}

/// What beats a score that beats a third beats the third.
pub proof fn lemma_beats_transitive(a: Score, b: Score, c: Score)
    requires
        b.beats(a),
        c.beats(b),
    ensures
        c.beats(a),
{
}

/// What does not beat a score does not beat a score that beats it.
pub proof fn lemma_not_beaten_stays(x: Score, b: Score, s: Score)
    requires
        !x.beats(b),
        s.beats(b),
    ensures
        !x.beats(s),
{
}

/// Any two scores are comparable, and swapping them mirrors the outcome.
pub proof fn lemma_order_total(a: Score, b: Score)
    ensures
        a.at_most(b) || b.at_most(a),
        a.order(b) == Ordering::Less <==> b.order(a) == Ordering::Greater,
        a.order(b) == Ordering::Equal <==> a == b,
{
}

proof fn lemma_pack_xor(q1: u16, q2: u16, d1: u8, d2: u8, s1: u8, s2: u8, o1: u16, o2: u16)
    by (bit_vector)
    ensures
        (((q1 as u64) << 32) | ((d1 as u64) << 24) | ((s1 as u64) << 16) | (o1 as u64)) ^ (((
        q2 as u64) << 32) | ((d2 as u64) << 24) | ((s2 as u64) << 16) | (o2 as u64)) == (((q1
            ^ q2) as u64) << 32) | (((d1 ^ d2) as u64) << 24) | (((s1 ^ s2) as u64) << 16) | ((o1
            ^ o2) as u64),
{
}

proof fn lemma_high_zero(q: u16, d: u8, s: u8, o: u16, k: u64)
    by (bit_vector)
    ensures
        k <= 16 && (q >> (k as u16)) == 0 ==> ((((q as u64) << 32) | ((d as u64) << 24) | ((
        s as u64) << 16) | (o as u64)) >> (k + 32)) == 0,
        k <= 8 && q == 0 && (d >> (k as u8)) == 0 ==> ((((q as u64) << 32) | ((d as u64) << 24)
            | ((s as u64) << 16) | (o as u64)) >> (k + 24)) == 0,
        k <= 8 && q == 0 && d == 0 && (s >> (k as u8)) == 0 ==> ((((q as u64) << 32) | ((
        d as u64) << 24) | ((s as u64) << 16) | (o as u64)) >> (k + 16)) == 0,
        k <= 16 && q == 0 && d == 0 && s == 0 && (o >> (k as u16)) == 0 ==> ((((q as u64) << 32)
            | ((d as u64) << 24) | ((s as u64) << 16) | (o as u64)) >> k) == 0,
{
}

proof fn lemma_high_one(q: u16, d: u8, s: u8, o: u16, j: u64)
    by (bit_vector)
    ensures
        j < 16 && (q >> (j as u16)) & 1u16 != 0u16 ==> ((((q as u64) << 32) | ((d as u64) << 24)
            | ((s as u64) << 16) | (o as u64)) >> (j + 32)) & 1u64 == 1u64,
        j < 8 && (d >> (j as u8)) & 1u8 != 0u8 ==> ((((q as u64) << 32) | ((d as u64) << 24) | ((
        s as u64) << 16) | (o as u64)) >> (j + 24)) & 1u64 == 1u64,
        j < 8 && (s >> (j as u8)) & 1u8 != 0u8 ==> ((((q as u64) << 32) | ((d as u64) << 24) | ((
        s as u64) << 16) | (o as u64)) >> (j + 16)) & 1u64 == 1u64,
        j < 16 && (o >> (j as u16)) & 1u16 != 0u16 ==> ((((q as u64) << 32) | ((d as u64) << 24)
            | ((s as u64) << 16) | (o as u64)) >> j) & 1u64 == 1u64,
{
}

proof fn lemma_below_set_bit(x: u64, y: u64, k: u64, j: u64)
    by (bit_vector)
    requires
        k <= j,
        j < 64,
        x >> k == 0,
        (y >> j) & 1u64 == 1u64,
    ensures
        x < y,
{
}

/// The similarity of two scores is the number of high bits, out of 48, on
/// which their packed keys agree: above that position the exclusive or of
/// the keys is zero, and unless the scores are equal its next bit is set.
pub proof fn lemma_similarity_counts_common_bits(a: Score, b: Score)
    ensures
        a.spec_radix_similarity(b) <= 48,
        a.spec_radix_similarity(b) == 48 <==> a == b,
        (a.packed_key() ^ b.packed_key()) >> ((48 - a.spec_radix_similarity(b)) as u64) == 0,
        a.spec_radix_similarity(b) < 48 ==> ((a.packed_key() ^ b.packed_key()) >> ((47
            - a.spec_radix_similarity(b)) as u64)) & 1u64 == 1u64,
{
    let q = a.quality ^ b.quality;
    let d = a.duration ^ b.duration;
    let s = a.steps ^ b.steps;
    let o = a.quality_overflow ^ b.quality_overflow;
    lemma_pack_xor(
        a.quality,
        b.quality,
        a.duration,
        b.duration,
        a.steps,
        b.steps,
        a.quality_overflow,
        b.quality_overflow,
    );
    lemma_xor_zero(a.quality, b.quality, a.duration, b.duration, a.steps, b.steps);
    lemma_xor_zero(a.quality_overflow, b.quality_overflow, 0, 0, 0, 0);
    axiom_u16_leading_zeros(q);
    axiom_u8_leading_zeros(d);
    axiom_u8_leading_zeros(s);
    axiom_u16_leading_zeros(o);
    let sim = a.spec_radix_similarity(b);
    if a.quality != b.quality {
        let z = u16_leading_zeros(q);
        lemma_high_zero(q, d, s, o, (16 - z) as u64);
        lemma_high_one(q, d, s, o, (15 - z) as u64);
    } else if a.duration != b.duration {
        let z = u8_leading_zeros(d);
        lemma_high_zero(q, d, s, o, (8 - z) as u64);
        lemma_high_one(q, d, s, o, (7 - z) as u64);
    } else if a.steps != b.steps {
        let z = u8_leading_zeros(s);
        lemma_high_zero(q, d, s, o, (8 - z) as u64);
        lemma_high_one(q, d, s, o, (7 - z) as u64);
    } else {
        let z = u16_leading_zeros(o);
        lemma_high_zero(q, d, s, o, (16 - z) as u64);
        if z < 16 {
            lemma_high_one(q, d, s, o, (15 - z) as u64);
        }
    }
}

/// A higher similarity means a smaller exclusive or of the packed keys.
pub proof fn lemma_similarity_orders_xor(a: Score, b: Score, c: Score, d: Score)
    requires
        a.spec_radix_similarity(b) > c.spec_radix_similarity(d),
    ensures
        (a.packed_key() ^ b.packed_key()) < (c.packed_key() ^ d.packed_key()),
{
    lemma_similarity_counts_common_bits(a, b);
    lemma_similarity_counts_common_bits(c, d);
    lemma_below_set_bit(
        a.packed_key() ^ b.packed_key(),
        c.packed_key() ^ d.packed_key(),
        (48 - a.spec_radix_similarity(b)) as u64,
        (47 - c.spec_radix_similarity(d)) as u64,
    );
}

/// A smaller exclusive or of the packed keys means a similarity that is at
/// least as high.
pub proof fn lemma_xor_orders_similarity(a: Score, b: Score, c: Score, d: Score)
    requires
        (a.packed_key() ^ b.packed_key()) < (c.packed_key() ^ d.packed_key()),
    ensures
        a.spec_radix_similarity(b) >= c.spec_radix_similarity(d),
{
    if a.spec_radix_similarity(b) < c.spec_radix_similarity(d) {
        lemma_similarity_orders_xor(c, d, a, b);
    }
}

proof fn lemma_between_bits16(
    x: u16,
    y: u16,
    z: u16,
    a: u16,
    b: u16,
    c: u16,
    ka: u16,
    kb: u16,
    kc: u16,
)
    by (bit_vector)
    requires
        (x <= y && y <= z) || (x >= y && y >= z),
        a <= 16 && b <= 16 && c <= 16,
        a + ka == 16 && b + kb == 16 && c + kc == 16,
        (x ^ y) >> ka == 0 && (y ^ z) >> kb == 0 && (x ^ z) >> kc == 0,
        a < 16 ==> ((x ^ y) >> (ka - 1u16) as u16) & 1u16 != 0u16,
        b < 16 ==> ((y ^ z) >> (kb - 1u16) as u16) & 1u16 != 0u16,
        c < 16 ==> ((x ^ z) >> (kc - 1u16) as u16) & 1u16 != 0u16,
    ensures
        c == (if a <= b {
            a
        } else {
            b
        }),
{
}

proof fn lemma_between_bits8(x: u8, y: u8, z: u8, a: u8, b: u8, c: u8, ka: u8, kb: u8, kc: u8)
    by (bit_vector)
    requires
        (x <= y && y <= z) || (x >= y && y >= z),
        a <= 8 && b <= 8 && c <= 8,
        a + ka == 8 && b + kb == 8 && c + kc == 8,
        (x ^ y) >> ka == 0 && (y ^ z) >> kb == 0 && (x ^ z) >> kc == 0,
        a < 8 ==> ((x ^ y) >> (ka - 1u8) as u8) & 1u8 != 0u8,
        b < 8 ==> ((y ^ z) >> (kb - 1u8) as u8) & 1u8 != 0u8,
        c < 8 ==> ((x ^ z) >> (kc - 1u8) as u8) & 1u8 != 0u8,
    ensures
        c == (if a <= b {
            a
        } else {
            b
        }),
{
}

/// Of three numbers in a row, ascending or descending, the outer two share
/// as many high bits as the fewer of what each shares with the middle one.
proof fn lemma_shared_bits_between16(x: u16, y: u16, z: u16)
    requires
        (x <= y && y <= z) || (x >= y && y >= z),
    ensures
        u16_leading_zeros(x ^ z) == (if u16_leading_zeros(x ^ y) <= u16_leading_zeros(y ^ z) {
            u16_leading_zeros(x ^ y)
        } else {
            u16_leading_zeros(y ^ z)
        }),
{
    axiom_u16_leading_zeros(x ^ y);
    axiom_u16_leading_zeros(y ^ z);
    axiom_u16_leading_zeros(x ^ z);
    let a = u16_leading_zeros(x ^ y) as u16;
    let b = u16_leading_zeros(y ^ z) as u16;
    let c = u16_leading_zeros(x ^ z) as u16;
    lemma_between_bits16(
        x,
        y,
        z,
        a,
        b,
        c,
        (16 - a) as u16,
        (16 - b) as u16,
        (16 - c) as u16,
    );
}

/// Of three numbers in a row, ascending or descending, the outer two share
/// as many high bits as the fewer of what each shares with the middle one.
proof fn lemma_shared_bits_between8(x: u8, y: u8, z: u8)
    requires
        (x <= y && y <= z) || (x >= y && y >= z),
    ensures
        u8_leading_zeros(x ^ z) == (if u8_leading_zeros(x ^ y) <= u8_leading_zeros(y ^ z) {
            u8_leading_zeros(x ^ y)
        } else {
            u8_leading_zeros(y ^ z)
        }),
{
    axiom_u8_leading_zeros(x ^ y);
    axiom_u8_leading_zeros(y ^ z);
    axiom_u8_leading_zeros(x ^ z);
    let a = u8_leading_zeros(x ^ y) as u8;
    let b = u8_leading_zeros(y ^ z) as u8;
    let c = u8_leading_zeros(x ^ z) as u8;
    lemma_between_bits8(x, y, z, a, b, c, (8 - a) as u8, (8 - b) as u8, (8 - c) as u8);
}

/// Similarity agrees with the order: of three scores in ascending order,
/// the outer two are as similar as the less similar of the two neighbouring
/// pairs. This is what lets a heap that sorts by similarity serve scores in
/// their order.
pub proof fn lemma_similarity_of_ascending(a: Score, b: Score, c: Score)
    requires
        a.at_most(b),
        b.at_most(c),
    ensures
        a.spec_radix_similarity(c) == (if a.spec_radix_similarity(b) <= b.spec_radix_similarity(c) {
            a.spec_radix_similarity(b)
        } else {
            b.spec_radix_similarity(c)
        }),
{
    lemma_order_transitive(a, b, c);
    axiom_u16_leading_zeros(a.quality ^ b.quality);
    axiom_u16_leading_zeros(b.quality ^ c.quality);
    axiom_u16_leading_zeros(a.quality ^ c.quality);
    axiom_u8_leading_zeros(a.duration ^ b.duration);
    axiom_u8_leading_zeros(b.duration ^ c.duration);
    axiom_u8_leading_zeros(a.duration ^ c.duration);
    axiom_u8_leading_zeros(a.steps ^ b.steps);
    axiom_u8_leading_zeros(b.steps ^ c.steps);
    axiom_u8_leading_zeros(a.steps ^ c.steps);
    axiom_u16_leading_zeros(a.quality_overflow ^ b.quality_overflow);
    axiom_u16_leading_zeros(b.quality_overflow ^ c.quality_overflow);
    axiom_u16_leading_zeros(a.quality_overflow ^ c.quality_overflow);
    lemma_xor_zero(a.quality, b.quality, a.duration, b.duration, a.steps, b.steps);
    lemma_xor_zero(b.quality, c.quality, b.duration, c.duration, b.steps, c.steps);
    lemma_xor_zero(a.quality, c.quality, a.duration, c.duration, a.steps, c.steps);
    lemma_shared_bits_between16(a.quality, b.quality, c.quality);
    if a.quality == c.quality {
        assert(b.quality == a.quality);
        lemma_shared_bits_between8(a.duration, b.duration, c.duration);
        if a.duration == c.duration {
            assert(b.duration == a.duration);
            lemma_shared_bits_between8(a.steps, b.steps, c.steps);
            if a.steps == c.steps {
                assert(b.steps == a.steps);
                lemma_shared_bits_between16(
                    a.quality_overflow,
                    b.quality_overflow,
                    c.quality_overflow,
                );
            }
        }
    }
}

} // verus!
