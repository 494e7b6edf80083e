//! IEEE-754 binary64 values, held as the bit patterns that `f64::to_bits` gives.
use vstd::arithmetic::div_mod::{lemma_div_denominator, lemma_div_by_multiple_is_strongly_ordered, lemma_div_is_ordered, lemma_div_multiples_vanish};
use vstd::arithmetic::power2::{lemma2_to64, lemma2_to64_rest, lemma_pow2_pos, lemma_pow2_strictly_increases, lemma_pow2_unfold, pow2};
use vstd::prelude::*;

verus! {

/// The sign bit.
pub const SIGN_BIT: u64 = 0x8000_0000_0000_0000;

/// Positive infinity; every magnitude at or above it is infinite or not a number.
pub const INFINITY_BITS: u64 = 0x7FF0_0000_0000_0000;

/// Negative infinity.
pub const NEG_INFINITY_BITS: u64 = 0xFFF0_0000_0000_0000;

/// The value one.
pub const ONE_BITS: u64 = 0x3FF0_0000_0000_0000;

/// One unit of the biased exponent: the significand has 52 stored bits.
pub const EXPONENT_UNIT: u64 = 0x10_0000_0000_0000;

pub open spec fn is_negative(b: u64) -> bool {
    b >= SIGN_BIT
}

/// The bits with the sign cleared: the bit pattern of the absolute value.
pub open spec fn magnitude(b: u64) -> u64 {
    if b >= SIGN_BIT {
        (b - SIGN_BIT) as u64
    } else {
        b
    }
}

/// Neither infinite nor a NaN.
pub open spec fn is_finite(b: u64) -> bool {
    magnitude(b) < INFINITY_BITS
}

/// Either zero, positive or negative.
pub open spec fn is_zero(b: u64) -> bool {
    magnitude(b) == 0
}

/// Where a finite value lies on the number line: binary64 encodes magnitudes in increasing
/// order, so two finite values compare as these integers do (both zeros sit at 0).
pub open spec fn position(b: u64) -> int {
    if is_negative(b) {
        -(magnitude(b) as int)
    } else {
        magnitude(b) as int
    }
}

/// The value lies in the closed interval from zero to one.
pub open spec fn in_unit(b: u64) -> bool {
    is_zero(b) || (!is_negative(b) && b <= ONE_BITS)
}

/// A value strictly between zero and one, written as `significand / 2^scale`.
pub open spec fn significand(b: u64) -> nat {
    let e = b / EXPONENT_UNIT;
    let f = b % EXPONENT_UNIT;
    if e == 0 {
        f as nat
    } else {
        (f + EXPONENT_UNIT) as nat
    }
}

pub open spec fn scale(b: u64) -> nat {
    let e = b / EXPONENT_UNIT;
    if e == 0 {
        1074
    } else {
        (1075 - e) as nat
    }
}

/// The lower of two finite values, the first one on a tie.
pub open spec fn lesser(a: u64, b: u64) -> u64 {
    if position(b) < position(a) {
        b
    } else {
        a
    }
}

/// The greater of two finite values, the first one on a tie.
pub open spec fn greater(a: u64, b: u64) -> u64 {
    if position(a) < position(b) {
        b
    } else {
        a
    }
}

/// `⌊q · m⌋`, computed exactly for a `q` strictly between zero and one.
pub open spec fn scaled_floor(q: u64, m: nat) -> nat {
    (significand(q) * m) as nat / pow2(scale(q))
}

pub fn magnitude_of(b: u64) -> (r: u64)
    ensures
        r == magnitude(b),
{
    if b >= SIGN_BIT {
        b - SIGN_BIT
    } else {
        b
    }
}

pub fn is_finite_bits(b: u64) -> (r: bool)
    ensures
        r == is_finite(b),
{
    magnitude_of(b) < INFINITY_BITS
}

pub fn in_unit_bits(b: u64) -> (r: bool)
    ensures
        r == in_unit(b),
{
    magnitude_of(b) == 0 || (b < SIGN_BIT && b <= ONE_BITS)
}

/// Whether `a` lies strictly below `b` on the number line.
pub fn precedes(a: u64, b: u64) -> (r: bool)
    ensures
        r == (position(a) < position(b)),
{
    let ma = magnitude_of(a);
    let mb = magnitude_of(b);
    if a >= SIGN_BIT {
        if b >= SIGN_BIT {
            mb < ma
        } else {
            ma != 0 || mb != 0
        }
    } else {
        if b >= SIGN_BIT {
            false
        } else {
            ma < mb
        }
    }
}

proof fn lemma_halve_step(x: nat, k: nat)
    ensures
        x / pow2(k) / 2 == x / pow2(k + 1),
{
    lemma_pow2_pos(k);
    lemma_pow2_unfold(k + 1);
    lemma_div_denominator(x as int, pow2(k) as int, 2);
}

/// For `q` strictly between zero and one, `⌊q · m⌋` is at most `m`, and below it when `m > 0`.
pub proof fn lemma_scaled_floor_bound(q: u64, m: nat)
    requires
        !is_negative(q),
        !is_zero(q),
        q < ONE_BITS,
    ensures
        scaled_floor(q, m) <= m,
        m > 0 ==> scaled_floor(q, m) < m,
{
    let s = significand(q);
    let k = scale(q);
    lemma2_to64();
    assert(s < 0x20_0000_0000_0000);
    lemma2_to64_rest();
    assert(s < pow2(53));
    assert(k >= 53);
    if k > 53 {
        lemma_pow2_strictly_increases(53, k);
    }
    let p = pow2(k);
    lemma_pow2_pos(k);
    assert(s * m <= p * m) by (nonlinear_arith)
        requires
            s < p,
    ;
    lemma_div_is_ordered((s * m) as int, (p * m) as int, p as int);
    lemma_div_multiples_vanish(m as int, p as int);
    if m > 0 {
        assert(s * m < m * p) by (nonlinear_arith)
            requires
                s < p,
                m > 0,
        ;
        lemma_div_by_multiple_is_strongly_ordered((s * m) as int, (m * p) as int, m as int, p as int);
        assert(m * p == p * m) by (nonlinear_arith);
    }
}

/// `⌊q · m⌋` for a `q` strictly between zero and one.
pub fn scaled_floor_exec(q: u64, m: u64) -> (r: u64)
    requires
        !is_negative(q),
        !is_zero(q),
        q < ONE_BITS,
    ensures
        r == scaled_floor(q, m as nat),
{
    let e = q / EXPONENT_UNIT;
    let f = q % EXPONENT_UNIT;
    let sig: u64 = if e == 0 {
        f
    } else {
        f + EXPONENT_UNIT
    };
    let k: u64 = if e == 0 {
        1074
    } else {
        1075 - e
    };
    assert(sig < 0x20_0000_0000_0000);
    assert((sig as u128) * (m as u128) < 0x20_0000_0000_0000 * 0x1_0000_0000_0000_0000) by (nonlinear_arith)
        requires
            sig < 0x20_0000_0000_0000,
            m < 0x1_0000_0000_0000_0000,
    ;
    let mut x: u128 = (sig as u128) * (m as u128);
    let ghost prod: nat = (sig * m) as nat;
    let mut i: u64 = 0;
    proof {
        lemma2_to64();
        assert(prod / pow2(0) == prod);
    }
    while i < k
        invariant
            i <= k,
            x == prod / pow2(i as nat),
            k == scale(q),
            sig == significand(q),
            prod == sig * m,
        decreases k - i,
    {
        proof {
            lemma_halve_step(prod, i as nat);
        }
        x = x / 2;
        i = i + 1;
    }
    proof {
        lemma_scaled_floor_bound(q, m as nat);
    }
    x as u64
}

} // verus!
