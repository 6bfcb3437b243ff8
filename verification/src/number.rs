//! Numbers as they arrive from JSON: IEEE-754 binary64 values, carried by
//! their bit pattern and read with integer arithmetic only.
//!
//! Every finite binary64 value is a whole multiple of 2^-1074, the spacing
//! of the smallest values. Counting in that unit gives each finite value an
//! exact integer, and the contracts below are stated over it.

use vstd::arithmetic::div_mod::{
    lemma_div_by_multiple,
    lemma_fundamental_div_mod,
    lemma_mod_multiples_basic,
    lemma_small_mod,
};
use vstd::arithmetic::mul::{
    lemma_mul_equality_converse,
    lemma_mul_inequality,
    lemma_mul_is_associative,
    lemma_mul_is_commutative,
    lemma_mul_strict_inequality,
    lemma_mul_strictly_positive,
};
use vstd::arithmetic::power2::{
    lemma2_to64,
    lemma2_to64_rest,
    lemma_pow2_adds,
    lemma_pow2_pos,
    lemma_pow2_strictly_increases,
    pow2,
};
use vstd::bits::{lemma_u64_shl_is_mul, lemma_u64_shr_is_div};
use vstd::prelude::*;

verus! {

/// 2^52: the weight of the implicit leading bit of a normal value.
pub const HIDDEN_BIT: u64 = 0x10_0000_0000_0000;

/// 2^63: the weight of the sign bit.
pub const SIGN_BIT: u64 = 0x8000_0000_0000_0000;

/// The largest value of the exponent field; it marks infinities and NaNs.
pub const EXPONENT_MAX: u64 = 0x7ff;

/// The sign bit of a pattern.
pub open spec fn sign_of(bits: u64) -> bool {
    bits >= SIGN_BIT
}

/// The eleven-bit exponent field of a pattern.
pub open spec fn exponent_of(bits: u64) -> nat {
    ((bits / HIDDEN_BIT) % 0x800) as nat
}

/// The 52-bit fraction field of a pattern.
pub open spec fn fraction_of(bits: u64) -> nat {
    (bits % HIDDEN_BIT) as nat
}

/// How many units of 2^-1074 make up 1.
pub open spec fn one() -> nat {
    pow2(1074)
}

/// The absolute value that a pattern stands for, in units of 2^-1074. An
/// infinity counts as 2^1024, one step above every finite value.
pub open spec fn magnitude_of(bits: u64) -> nat {
    if exponent_of(bits) == 0 {
        fraction_of(bits)
    } else {
        (HIDDEN_BIT as nat + fraction_of(bits)) * pow2((exponent_of(bits) - 1) as nat)
    }
}

/// A binary64 number, held by its bit pattern.
#[derive(Clone, Copy, Debug)]
pub struct Number {
    pub bits: u64,
}

/// What the three fields of a pattern are, in shifts and masks.
proof fn lemma_fields(bits: u64)
    ensures
        ((bits >> 52) & 0x7ff) == exponent_of(bits),
        (bits & 0xf_ffff_ffff_ffff) == fraction_of(bits),
        ((bits >> 63) != 0) == sign_of(bits),
        (bits & 0x7fff_ffff_ffff_ffff) == bits % SIGN_BIT,
        bits % SIGN_BIT == exponent_of(bits) * HIDDEN_BIT + fraction_of(bits),
        exponent_of(bits) <= EXPONENT_MAX,
        fraction_of(bits) < HIDDEN_BIT,
{
    assert(((bits >> 52) & 0x7ff) == (bits / 0x10_0000_0000_0000) % 0x800) by (bit_vector);
    assert((bits & 0xf_ffff_ffff_ffff) == bits % 0x10_0000_0000_0000) by (bit_vector);
    assert(((bits >> 63) != 0) == (bits >= 0x8000_0000_0000_0000)) by (bit_vector);
    assert((bits & 0x7fff_ffff_ffff_ffff) == bits % 0x8000_0000_0000_0000) by (bit_vector);
    assert(bits % 0x8000_0000_0000_0000 == ((bits / 0x10_0000_0000_0000) % 0x800)
        * 0x10_0000_0000_0000 + bits % 0x10_0000_0000_0000) by (bit_vector);
}

/// A multiple of a positive `d` divides evenly, and only a multiple does.
proof fn lemma_multiple(x: int, n: int, d: int)
    requires
        0 < d,
        0 <= n,
    ensures
        x == n * d <==> (x % d == 0 && x / d == n),
{
    if x == n * d {
        lemma_mod_multiples_basic(n, d);
        lemma_div_by_multiple(n, d);
    }
    if x % d == 0 && x / d == n {
        lemma_fundamental_div_mod(x, d);
        lemma_mul_is_commutative(d, n);
    }
}

/// A normal value's magnitude, split at the unit: the significand times a
/// power of two on one side, a whole count of units on the other.
proof fn lemma_scale(sig: nat, e: nat, lo: nat, hi: nat)
    requires
        e >= 1,
        (e - 1) + lo == 1074 + hi,
    ensures
        (sig * pow2(hi)) * pow2(1074) == (sig * pow2((e - 1) as nat)) * pow2(lo),
{
    lemma_pow2_adds((e - 1) as nat, lo);
    lemma_pow2_adds(1074, hi);
    lemma_mul_is_associative(sig as int, pow2(hi) as int, pow2(1074) as int);
    lemma_mul_is_associative(sig as int, pow2((e - 1) as nat) as int, pow2(lo) as int);
    lemma_mul_is_commutative(pow2(hi) as int, pow2(1074) as int);
}

/// Magnitudes are ordered as the 63 bits below the sign are: a larger
/// pattern stands for a larger absolute value, and equal patterns for equal
/// ones.
pub proof fn lemma_magnitude_order(a: u64, b: u64)
    ensures
        a % SIGN_BIT < b % SIGN_BIT ==> magnitude_of(a) < magnitude_of(b),
        a % SIGN_BIT == b % SIGN_BIT ==> magnitude_of(a) == magnitude_of(b),
{
    lemma_fields(a);
    lemma_fields(b);
    let ea = exponent_of(a);
    let eb = exponent_of(b);
    let ma = fraction_of(a);
    let mb = fraction_of(b);
    if a % SIGN_BIT < b % SIGN_BIT {
        if ea == eb {
            if ea > 0 {
                lemma_pow2_pos((ea - 1) as nat);
                lemma_mul_strict_inequality(
                    (HIDDEN_BIT + ma) as int,
                    (HIDDEN_BIT + mb) as int,
                    pow2((ea - 1) as nat) as int,
                );
            }
        } else {
            // below 2^52 * 2^(eb - 1), which the other side reaches
            let floor = HIDDEN_BIT * pow2((eb - 1) as nat);
            lemma_pow2_pos((eb - 1) as nat);
            lemma_mul_inequality(
                HIDDEN_BIT as int,
                (HIDDEN_BIT + mb) as int,
                pow2((eb - 1) as nat) as int,
            );
            if ea == 0 {
                lemma_mul_inequality(1, pow2((eb - 1) as nat) as int, HIDDEN_BIT as int);
                lemma_mul_is_commutative(HIDDEN_BIT as int, pow2((eb - 1) as nat) as int);
            } else {
                lemma_pow2_pos((ea - 1) as nat);
                lemma_mul_strict_inequality(
                    (HIDDEN_BIT + ma) as int,
                    2 * HIDDEN_BIT,
                    pow2((ea - 1) as nat) as int,
                );
                lemma_pow2_adds(1, (ea - 1) as nat);
                lemma2_to64();
                lemma_mul_is_associative(
                    HIDDEN_BIT as int,
                    2,
                    pow2((ea - 1) as nat) as int,
                );
                if ea < eb - 1 {
                    lemma_pow2_strictly_increases(ea, (eb - 1) as nat);
                }
                lemma_mul_inequality(
                    pow2(ea) as int,
                    pow2((eb - 1) as nat) as int,
                    HIDDEN_BIT as int,
                );
                lemma_mul_is_commutative(HIDDEN_BIT as int, pow2((eb - 1) as nat) as int);
                lemma_mul_is_commutative(HIDDEN_BIT as int, pow2(ea) as int);
            }
            assert(magnitude_of(a) < floor);
            assert(floor <= magnitude_of(b));
        }
    }
}

impl Number {
    /// The pattern stands for no number.
    pub open spec fn spec_is_nan(&self) -> bool {
        exponent_of(self.bits) == EXPONENT_MAX && fraction_of(self.bits) != 0
    }

    /// The pattern stands for a number that is not infinite.
    pub open spec fn spec_is_finite(&self) -> bool {
        exponent_of(self.bits) < EXPONENT_MAX
    }

    /// The value in units of 2^-1074, with its sign. It is the exact value
    /// of a finite number; an infinity counts as plus or minus 2^1024.
    pub open spec fn scaled(&self) -> int {
        if sign_of(self.bits) {
            -(magnitude_of(self.bits) as int)
        } else {
            magnitude_of(self.bits) as int
        }
    }

    /// The value, where it is a whole number that is not negative.
    #[verifier::opaque]
    pub open spec fn whole(&self) -> Option<nat> {
        if self.spec_is_finite() && self.scaled() >= 0 && self.scaled() % (one() as int) == 0 {
            Some((self.scaled() / (one() as int)) as nat)
        } else {
            None
        }
    }

    /// The number with the given bit pattern.
    pub fn from_bits(bits: u64) -> (number: Number)
        ensures
            number.bits == bits,
    {
        Number { bits }
    }

    /// The bit pattern of the number.
    pub fn to_bits(&self) -> (bits: u64)
        ensures
            bits == self.bits,
    {
        self.bits
    }

    /// Whether the pattern stands for no number.
    pub fn is_nan(&self) -> (nan: bool)
        ensures
            nan == self.spec_is_nan(),
    {
        proof {
            lemma_fields(self.bits);
        }
        (self.bits >> 52) & 0x7ff == EXPONENT_MAX && self.bits & 0xf_ffff_ffff_ffff != 0
    }

    /// Whether this number is at most `other`. A pattern that stands for no
    /// number is in no order with anything.
    pub fn le(&self, other: &Number) -> (below: bool)
        ensures
            below == (!self.spec_is_nan() && !other.spec_is_nan() && self.scaled()
                <= other.scaled()),
    {
        if self.is_nan() || other.is_nan() {
            return false;
        }
        let negative: bool = (self.bits >> 63) != 0;
        let other_negative: bool = (other.bits >> 63) != 0;
        let magnitude: u64 = self.bits & 0x7fff_ffff_ffff_ffff;
        let other_magnitude: u64 = other.bits & 0x7fff_ffff_ffff_ffff;
        proof {
            lemma_fields(self.bits);
            lemma_fields(other.bits);
            lemma_magnitude_order(self.bits, other.bits);
            lemma_magnitude_order(other.bits, self.bits);
            lemma_magnitude_order(0, self.bits);
            lemma_magnitude_order(0, other.bits);
        }
        if negative {
            if other_negative {
                other_magnitude <= magnitude
            } else {
                true
            }
        } else {
            if other_negative {
                magnitude == 0 && other_magnitude == 0
            } else {
                magnitude <= other_magnitude
            }
        }
    }

    /// The number as an index: its value, where that is a whole number from
    /// 0 to the largest `usize`.
    pub fn as_index(&self) -> (index: Option<usize>)
        ensures
            index == match self.whole() {
                Some(n) => if n <= usize::MAX {
                    Some(n as usize)
                } else {
                    None
                },
                None => None,
            },
    {
        let bits: u64 = self.bits;
        let e: u64 = (bits >> 52) & 0x7ff;
        let m: u64 = bits & 0xf_ffff_ffff_ffff;
        let negative: bool = (bits >> 63) != 0;
        proof {
            reveal(Number::whole);
            lemma_fields(bits);
            lemma2_to64();
            lemma2_to64_rest();
            lemma_pow2_pos(1074);
        }
        if e == 0 && m == 0 {
            proof {
                lemma_multiple(0, 0, one() as int);
            }
            return Some(0);
        }
        if e == EXPONENT_MAX {
            return None;
        }
        if e == 0 {
            proof {
                lemma_pow2_strictly_increases(52, 1074);
                if !negative {
                    lemma_small_mod(m as nat, one());
                }
            }
            return None;
        }
        let sig: u64 = HIDDEN_BIT + m;
        proof {
            lemma_pow2_pos((e - 1) as nat);
            lemma_mul_strictly_positive(sig as int, pow2((e - 1) as nat) as int);
        }
        if negative {
            return None;
        }
        if e >= 1075 {
            let shift: u64 = e - 1075;
            proof {
                lemma_scale(sig as nat, e as nat, 0, shift as nat);
                lemma_multiple(self.scaled(), (sig * pow2(shift as nat)) as int, one() as int);
            }
            if shift > 11 {
                proof {
                    // sig * 2^shift >= 2^52 * 2^12
                    if shift > 12 {
                        lemma_pow2_strictly_increases(12, shift as nat);
                    }
                    lemma_mul_inequality(pow2(12) as int, pow2(shift as nat) as int, sig as int);
                    lemma_mul_is_commutative(sig as int, pow2(shift as nat) as int);
                    lemma_mul_is_commutative(sig as int, pow2(12) as int);
                }
                return None;
            }
            proof {
                if shift < 11 {
                    lemma_pow2_strictly_increases(shift as nat, 11);
                }
                lemma_mul_inequality(pow2(shift as nat) as int, pow2(11) as int, sig as int);
                lemma_mul_is_commutative(sig as int, pow2(shift as nat) as int);
                lemma_mul_is_commutative(sig as int, pow2(11) as int);
                lemma_u64_shl_is_mul(sig, shift);
            }
            let n: u64 = sig << shift;
            if n <= usize::MAX as u64 {
                Some(n as usize)
            } else {
                None
            }
        } else {
            let k: u64 = 1075 - e;
            if k > 52 {
                proof {
                    // sig * 2^(e-1) < 2^53 * 2^(e-1) <= 2^1074
                    lemma_pow2_adds(53, (e - 1) as nat);
                    if 53 + (e - 1) < 1074 {
                        lemma_pow2_strictly_increases((53 + (e - 1)) as nat, 1074);
                    }
                    lemma_mul_strict_inequality(
                        sig as int,
                        pow2(53) as int,
                        pow2((e - 1) as nat) as int,
                    );
                    lemma_small_mod(magnitude_of(bits), one());
                }
                return None;
            }
            proof {
                lemma_u64_shr_is_div(sig, k);
                lemma_pow2_pos(k as nat);
                lemma_fundamental_div_mod(sig as int, pow2(k as nat) as int);
                lemma_mul_is_commutative(pow2(k as nat) as int, (sig as int) / (pow2(k as nat) as int));
            }
            let n: u64 = sig >> k;
            proof {
                lemma_u64_shl_is_mul(n, k);
            }
            if (n << k) == sig {
                proof {
                    // sig == n * 2^k, so sig * 2^(e-1) == n * 2^1074
                    lemma_mul_is_associative(
                        n as int,
                        pow2(k as nat) as int,
                        pow2((e - 1) as nat) as int,
                    );
                    lemma_pow2_adds(k as nat, (e - 1) as nat);
                    lemma_multiple(self.scaled(), n as int, one() as int);
                }
                if n <= usize::MAX as u64 {
                    Some(n as usize)
                } else {
                    None
                }
            } else {
                proof {
                    if self.scaled() % (one() as int) == 0 {
                        let q: int = self.scaled() / (one() as int);
                        lemma_fundamental_div_mod(self.scaled(), one() as int);
                        lemma_pow2_adds(k as nat, (e - 1) as nat);
                        // sig * 2^(e-1) == 2^1074 * q == (q * 2^k) * 2^(e-1)
                        lemma_mul_is_commutative(one() as int, q);
                        lemma_mul_is_associative(
                            q,
                            pow2(k as nat) as int,
                            pow2((e - 1) as nat) as int,
                        );
                        lemma_mul_is_commutative(sig as int, pow2((e - 1) as nat) as int);
                        lemma_mul_is_commutative(
                            q * pow2(k as nat),
                            pow2((e - 1) as nat) as int,
                        );
                        lemma_mul_equality_converse(
                            pow2((e - 1) as nat) as int,
                            sig as int,
                            q * pow2(k as nat),
                        );
                        lemma_multiple(sig as int, q, pow2(k as nat) as int);
                    }
                }
                None
            }
        }
    }
}

} // verus!
