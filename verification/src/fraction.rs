//! The sampling fraction and the number of rows it asks for.
//!
//! A fraction arrives as the bit pattern of an IEEE 754 double and is held
//! as a dyadic rational, `mantissa / 2^shift`. The number of rows to draw
//! from a table is the product of the row count and the fraction, rounded to
//! the nearest double (ties to even) and then cut off at the decimal point:
//! what double-precision hardware gives for the same product.

use vstd::prelude::*;
use vstd::arithmetic::power2::*;
use crate::error::SampleError;

verus! {

/// Two to the 52nd: the implicit leading bit of a normal double's significand.
pub const HIDDEN_BIT: u64 = 0x10_0000_0000_0000;

/// Two to the 53rd: no significand reaches it.
pub const SIGNIFICAND_LIMIT: u128 = 0x20_0000_0000_0000;

/// The bit pattern of the double 1.0.
pub const ONE_BITS: u64 = 0x3FF0_0000_0000_0000;

/// Shift of the doubles below the normal range.
pub const SUBNORMAL_SHIFT: u32 = 1074;

/// Whether the double with this bit pattern is above zero and at most one.
/// Among the non-negative doubles the bit patterns ascend with the values;
/// negative numbers, infinities and NaNs all lie above the pattern of 1.0.
pub open spec fn in_unit_interval(bits: u64) -> bool {
    0 < bits <= ONE_BITS
}

/// The biased exponent field of a non-negative double.
pub open spec fn bits_exponent(bits: u64) -> nat {
    (bits / HIDDEN_BIT) as nat
}

/// The significand of a non-negative double, as an integer.
pub open spec fn bits_mantissa(bits: u64) -> nat {
    if bits_exponent(bits) == 0 {
        (bits % HIDDEN_BIT) as nat
    } else {
        (HIDDEN_BIT + bits % HIDDEN_BIT) as nat
    }
}

/// The power of two that the significand of a non-negative double is
/// divided by: the double is `bits_mantissa / 2^bits_shift`.
pub open spec fn bits_shift(bits: u64) -> nat {
    if bits_exponent(bits) == 0 {
        SUBNORMAL_SHIFT as nat
    } else {
        (SUBNORMAL_SHIFT + 1 - bits_exponent(bits)) as nat
    }
}

/// Whether `mantissa / 2^shift` is the form in which a double above zero and
/// at most one is held.
pub open spec fn is_unit_fraction(mantissa: nat, shift: nat) -> bool {
    &&& 1 <= mantissa < SIGNIFICAND_LIMIT
    &&& 52 <= shift <= SUBNORMAL_SHIFT
    &&& mantissa <= pow2(shift)
}

/// A double above zero and at most one is held in the form that
/// `is_unit_fraction` asks for.
pub proof fn lemma_bits_unit_fraction(bits: u64)
    requires
        in_unit_interval(bits),
    ensures
        is_unit_fraction(bits_mantissa(bits), bits_shift(bits)),
{
    lemma2_to64_rest();
    let shift = bits_shift(bits);
    if shift > 53 {
        lemma_pow2_strictly_increases(53, shift);
    }
    if shift == 52 {
        assert(bits % HIDDEN_BIT == 0);
    }
}

/// How many low bits a product loses when it is rounded to a double: none
/// while it is below two to the 53rd, else one more than its half loses.
pub open spec fn rounding_shift(p: nat) -> nat
    decreases p,
{
    if p < SIGNIFICAND_LIMIT {
        0
    } else {
        1 + rounding_shift(p / 2)
    }
}

/// The integer `p` rounded to the nearest multiple of `2^rounding_shift(p)`,
/// a tie going to the even multiple.
pub open spec fn round_nearest_even(p: nat) -> nat {
    let unit = pow2(rounding_shift(p));
    let q = p / unit;
    let r = p % unit;
    if 2 * r > unit || (2 * r == unit && q % 2 == 1) {
        (q + 1) * unit
    } else {
        q * unit
    }
}

/// Rows to draw from `rows` rows at the fraction `mantissa / 2^shift`.
pub open spec fn sample_size(rows: nat, mantissa: nat, shift: nat) -> nat {
    round_nearest_even(rows * mantissa) / pow2(shift)
}

/// A product below `2^53 * 2^j` loses at most `j` bits.
pub proof fn lemma_rounding_shift_bound(p: nat, j: nat)
    requires
        p < SIGNIFICAND_LIMIT * pow2(j),
    ensures
        rounding_shift(p) <= j,
    decreases p,
{
    if p >= SIGNIFICAND_LIMIT {
        if j == 0 {
            lemma2_to64();
        } else {
            lemma_pow2_unfold(j);
            let h = pow2((j - 1) as nat);
            assert(p / 2 < SIGNIFICAND_LIMIT * h) by (nonlinear_arith)
                requires
                    p < SIGNIFICAND_LIMIT * (2 * h),
            ;
            lemma_rounding_shift_bound(p / 2, (j - 1) as nat);
        }
    }
}

/// Rounding never lifts a value over a bound that is a multiple of the
/// rounding unit.
pub proof fn lemma_round_below_multiple(p: nat, unit: nat, c: nat)
    requires
        unit == pow2(rounding_shift(p)),
        p <= c * unit,
    ensures
        round_nearest_even(p) <= c * unit,
{
    lemma_pow2_pos(rounding_shift(p));
    let q = p / unit;
    let r = p % unit;
    vstd::arithmetic::div_mod::lemma_fundamental_div_mod(p as int, unit as int);
    assert(p == unit * q + r);
    assert(0 <= r < unit) by {
        vstd::arithmetic::div_mod::lemma_mod_bound(p as int, unit as int);
    }
    if q < c {
        assert((q + 1) * unit <= c * unit) by (nonlinear_arith)
            requires
                q + 1 <= c,
        ;
        assert(q * unit <= (q + 1) * unit) by (nonlinear_arith);
    } else {
        assert(q * unit >= c * unit) by (nonlinear_arith)
            requires
                q >= c,
        ;
        assert(unit * q == q * unit) by (nonlinear_arith);
        assert(r == 0);
        assert(q * unit == c * unit);
    }
}

/// A sample is never larger than the table it is drawn from: with fewer than
/// two to the 32nd rows and a fraction of at most one, the size is at most
/// the number of rows.
pub proof fn lemma_sample_size_bounded(rows: nat, mantissa: nat, shift: nat)
    requires
        rows < 0x1_0000_0000,
        is_unit_fraction(mantissa, shift),
    ensures
        sample_size(rows, mantissa, shift) <= rows,
{
    let p = rows * mantissa;
    let d = rounding_shift(p);
    let unit = pow2(d);
    lemma2_to64();
    assert(p < SIGNIFICAND_LIMIT * pow2(32)) by (nonlinear_arith)
        requires
            p == rows * mantissa,
            rows < 0x1_0000_0000,
            mantissa < SIGNIFICAND_LIMIT,
            pow2(32) == 0x1_0000_0000,
    ;
    lemma_rounding_shift_bound(p, 32);
    assert(d <= 32 <= shift);
    let rest = pow2((shift - d) as nat);
    lemma_pow2_adds((shift - d) as nat, d);
    assert(rest * unit == pow2(shift));
    lemma_pow2_pos(shift);
    let c = rows * rest;
    assert(c * unit == rows * pow2(shift)) by (nonlinear_arith)
        requires
            c == rows * rest,
            rest * unit == pow2(shift),
    ;
    assert(p <= rows * pow2(shift)) by (nonlinear_arith)
        requires
            p == rows * mantissa,
            mantissa <= pow2(shift),
    ;
    lemma_round_below_multiple(p, unit, c);
    let rounded = round_nearest_even(p);
    assert(rounded <= rows * pow2(shift));
    vstd::arithmetic::div_mod::lemma_div_is_ordered(
        rounded as int,
        (rows * pow2(shift)) as int,
        pow2(shift) as int,
    );
    vstd::arithmetic::div_mod::lemma_div_multiples_vanish(rows as int, pow2(shift) as int);
    assert(rows * pow2(shift) == pow2(shift) * rows) by (nonlinear_arith);
}

/// A sampling fraction above zero and at most one.
#[derive(Clone, Copy, Debug, PartialEq, Eq)]
pub struct Fraction {
    mantissa: u64,
    shift: u32,
}

impl Fraction {
    #[verifier::type_invariant]
    spec fn well_formed(self) -> bool {
        is_unit_fraction(self.mantissa as nat, self.shift as nat)
    }

    /// The numerator of the fraction.
    pub closed spec fn mantissa(&self) -> nat {
        self.mantissa as nat
    }

    /// The power of two under the fraction.
    pub closed spec fn shift(&self) -> nat {
        self.shift as nat
    }

    /// Rows that this fraction asks of a table of `rows` rows.
    pub open spec fn size_of(&self, rows: nat) -> nat {
        sample_size(rows, self.mantissa(), self.shift())
    }

    /// Reads the fraction from the bit pattern of a double. Succeeds exactly
    /// on the doubles above zero and at most one.
    pub fn from_bits(bits: u64) -> (parsed: Result<Fraction, SampleError>)
        ensures
            in_unit_interval(bits) ==> parsed is Ok && parsed->Ok_0.mantissa() == bits_mantissa(
                bits,
            ) && parsed->Ok_0.shift() == bits_shift(bits),
            !in_unit_interval(bits) ==> parsed == Err::<Fraction, SampleError>(
                SampleError::FractionOutOfRange,
            ),
            parsed is Ok ==> is_unit_fraction(parsed->Ok_0.mantissa(), parsed->Ok_0.shift()),
    {
        if bits == 0 || bits > ONE_BITS {
            return Err(SampleError::FractionOutOfRange);
        }
        proof {
            lemma_bits_unit_fraction(bits);
        }
        let exponent: u64 = bits / HIDDEN_BIT;
        let low: u64 = bits % HIDDEN_BIT;
        if exponent == 0 {
            Ok(Fraction { mantissa: low, shift: SUBNORMAL_SHIFT })
        } else {
            let shift: u32 = SUBNORMAL_SHIFT + 1 - (exponent as u32);
            Ok(Fraction { mantissa: HIDDEN_BIT + low, shift })
        }
    }

    /// The number of rows to draw from a table of `rows` rows.
    pub fn count(&self, rows: u32) -> (n: u32)
        ensures
            n == self.size_of(rows as nat),
            n <= rows,
    {
        proof {
            use_type_invariant(self);
            lemma_sample_size_bounded(rows as nat, self.mantissa as nat, self.shift as nat);
            lemma2_to64();
        }
        assert(rows * self.mantissa < SIGNIFICAND_LIMIT * pow2(32)) by (nonlinear_arith)
            requires
                rows < 0x1_0000_0000,
                self.mantissa < SIGNIFICAND_LIMIT,
                pow2(32) == 0x1_0000_0000,
        ;
        let product: u128 = (rows as u128) * (self.mantissa as u128);
        let ghost p = product as nat;
        proof {
            lemma_rounding_shift_bound(p, 32);
        }
        let mut rest: u128 = product;
        let mut unit: u128 = 1;
        let ghost mut lost: nat = 0;
        while rest >= SIGNIFICAND_LIMIT
            invariant
                unit == pow2(lost),
                rounding_shift(p) == lost + rounding_shift(rest as nat),
                rounding_shift(p) <= 32,
                pow2(32) == 0x1_0000_0000,
            decreases rest,
        {
            proof {
                lemma_pow2_unfold(lost + 1);
                if lost + 1 < 32 {
                    lemma_pow2_strictly_increases(lost + 1, 32);
                }
            }
            rest = rest / 2;
            unit = unit * 2;
            proof {
                lost = lost + 1;
            }
        }
        assert(unit == pow2(rounding_shift(p)));
        proof {
            if rounding_shift(p) < 32 {
                lemma_pow2_strictly_increases(rounding_shift(p), 32);
            }
        }
        let q: u128 = product / unit;
        let r: u128 = product % unit;
        proof {
            vstd::arithmetic::div_mod::lemma_fundamental_div_mod(product as int, unit as int);
            assert(q * unit <= product) by (nonlinear_arith)
                requires
                    product == unit * q + r,
                    r >= 0,
            ;
            assert((q + 1) * unit == q * unit + unit) by (nonlinear_arith);
        }
        let rounded: u128 = if 2 * r > unit || (2 * r == unit && q % 2 == 1) {
            (q + 1) * unit
        } else {
            q * unit
        };
        assert(rounded == round_nearest_even(p));
        assert(rounded <= product + unit);
        if self.shift >= 100 {
            proof {
                lemma2_to64_rest();
                lemma_pow2_adds(64, 36);
                assert(pow2(100) == 0x10_0000_0000_0000_0000_0000_0000);
                if self.shift > 100 {
                    lemma_pow2_strictly_increases(100, self.shift as nat);
                }
                vstd::arithmetic::div_mod::lemma_basic_div(
                    rounded as int,
                    pow2(self.shift as nat) as int,
                );
            }
            return 0;
        }
        proof {
            lemma2_to64_rest();
            lemma_pow2_adds(64, 35);
            assert(pow2(99) == 0x8_0000_0000_0000_0000_0000_0000);
        }
        let mut divisor: u128 = 1;
        let mut i: u32 = 0;
        while i < self.shift
            invariant
                i <= self.shift < 100,
                divisor == pow2(i as nat),
                divisor <= 0x8_0000_0000_0000_0000_0000_0000,
                pow2(99) == 0x8_0000_0000_0000_0000_0000_0000,
            decreases self.shift - i,
        {
            proof {
                lemma_pow2_unfold((i + 1) as nat);
                if i + 1 < 99 {
                    lemma_pow2_strictly_increases((i + 1) as nat, 99);
                }
            }
            divisor = divisor * 2;
            i += 1;
        }
        let n: u128 = rounded / divisor;
        n as u32
    }
}

} // verus!
