//! Numbers given as IEEE 754 single-precision bit patterns.
//!
//! A pattern holds a sign bit, eight bits of exponent and twenty-three bits
//! of fraction. This module reads a pattern with integer arithmetic alone and
//! gives the nearest [`Fixed`]: a tie goes away from zero, a number beyond
//! the range saturates, an infinity gives the end of the range on its side,
//! and a pattern that is no number gives zero.

use crate::fixed::{saturate, Fixed, LIMIT, SCALE};
use vstd::prelude::*;

verus! {

/// Two to the power `n`.
pub open spec fn two_to(n: nat) -> nat
    decreases n,
{
    if n == 0 {
        1
    } else {
        2 * two_to((n - 1) as nat)
    }
}

/// The sign bit of the pattern is set.
pub open spec fn sign_of(bits: u32) -> bool {
    bits >= 0x8000_0000
}

/// The exponent field of the pattern.
pub open spec fn exponent_of(bits: u32) -> nat {
    ((bits as nat) / 0x80_0000) % 256
}

/// The fraction field of the pattern.
pub open spec fn fraction_of(bits: u32) -> nat {
    (bits as nat) % 0x80_0000
}

/// The size, in millionths rounded to the nearest, of the finite number
/// with the exponent field `e` and the fraction field `f`. The number is
/// `m * 2^(q - 150)`, where a zero exponent field means `m = f` and `q = 1`,
/// any other `m = f + 2^23` and `q = e`.
pub open spec fn millionths(e: nat, f: nat) -> nat {
    let m = if e == 0 {
        f
    } else {
        f + 0x80_0000
    };
    let q = if e == 0 {
        1
    } else {
        e
    };
    if q >= 150 {
        m * (SCALE as nat) * two_to((q - 150) as nat)
    } else {
        (m * (SCALE as nat) + two_to((149 - q) as nat)) / two_to((150 - q) as nat)
    }
}

/// The raw value of the [`Fixed`] that stands for the pattern.
pub open spec fn decoded(bits: u32) -> int {
    let e = exponent_of(bits);
    let f = fraction_of(bits);
    let size = if e == 255 {
        if f == 0 {
            LIMIT as int
        } else {
            0
        }
    } else {
        saturate(millionths(e, f) as int)
    };
    if sign_of(bits) {
        -size
    } else {
        size
    }
}

/// The powers of two grow.
pub proof fn lemma_two_to_grows(a: nat, b: nat)
    requires
        a <= b,
    ensures
        two_to(a) <= two_to(b),
        two_to(a) > 0,
    decreases b,
{
    if a < b {
        lemma_two_to_grows(a, (b - 1) as nat);
    } else if a > 0 {
        lemma_two_to_grows((a - 1) as nat, (a - 1) as nat);
    }
}

/// The power of a sum is the product of the powers.
pub proof fn lemma_two_to_sum(a: nat, b: nat)
    ensures
        two_to(a + b) == two_to(a) * two_to(b),
    decreases b,
{
    if b > 0 {
        lemma_two_to_sum(a, (b - 1) as nat);
        assert(two_to(a + b) == 2 * two_to((a + b - 1) as nat));
        assert(2 * (two_to(a) * two_to((b - 1) as nat)) == two_to(a) * (2 * two_to((b - 1) as nat)))
            by (nonlinear_arith);
    } else {
        assert(two_to(a) * 1 == two_to(a)) by (nonlinear_arith);
    }
}

/// Some powers of two.
pub proof fn lemma_two_to_values()
    ensures
        two_to(20) == 0x10_0000,
        two_to(21) == 0x20_0000,
        two_to(45) == 0x2000_0000_0000,
        two_to(64) == 0x1_0000_0000_0000_0000,
{
    reveal_with_fuel(two_to, 6);
    assert(two_to(5) == 32);
    lemma_two_to_sum(5, 5);
    assert(two_to(10) == 1024);
    lemma_two_to_sum(10, 10);
    assert(two_to(20) == 0x10_0000);
    lemma_two_to_sum(20, 20);
    assert(two_to(40) == 0x100_0000_0000);
    lemma_two_to_sum(40, 5);
    lemma_two_to_sum(40, 20);
    assert(two_to(60) == 0x1000_0000_0000_0000);
    lemma_two_to_sum(60, 4);
    assert(two_to(4) == 16);
}

/// Two to the power `n`, for `n` up to 64.
fn power_of_two(n: u32) -> (r: u128)
    requires
        n <= 64,
    ensures
        r == two_to(n as nat),
        r <= 0x1_0000_0000_0000_0000,
{
    let mut r: u128 = 1;
    let mut i: u32 = 0;
    proof {
        lemma_two_to_values();
    }
    while i < n
        invariant
            i <= n <= 64,
            r == two_to(i as nat),
            r <= two_to(64),
        decreases n - i,
    {
        proof {
            lemma_two_to_grows((i + 1) as nat, 64);
            lemma_two_to_values();
        }
        r = r * 2;
        i = i + 1;
    }
    proof {
        lemma_two_to_values();
    }
    r
}

impl Fixed {
    /// The number nearest to the one that the single-precision pattern
    /// `bits` holds.
    pub fn from_binary32(bits: u32) -> (r: Fixed)
        ensures
            r@ == decoded(bits),
    {
        let negative: bool = bits >= 0x8000_0000;
        let e: u32 = (bits / 0x80_0000) % 256;
        let f: u32 = bits % 0x80_0000;
        let size: i64 = if e == 255 {
            if f == 0 {
                LIMIT
            } else {
                0
            }
        } else {
            let m: u128 = if e == 0 {
                f as u128
            } else {
                (f + 0x80_0000) as u128
            };
            let q: u32 = if e == 0 {
                1
            } else {
                e
            };
            assert(m <= 0xff_ffff);
            assert(e != 0 ==> m >= 0x80_0000);
            assert(m * 1_000_000 <= 0xff_ffff * 1_000_000) by (nonlinear_arith)
                requires
                    m <= 0xff_ffff,
            ;
            let scaled: u128 = m * (SCALE as u128);
            if q >= 150 {
                let up: u32 = q - 150;
                if up > 20 {
                    proof {
                        lemma_two_to_grows(21, up as nat);
                        lemma_two_to_values();
                        assert(scaled * two_to(up as nat) > LIMIT as int) by (nonlinear_arith)
                            requires
                                scaled >= 0x80_0000 * 1_000_000,
                                two_to(up as nat) >= 0x20_0000,
                                LIMIT == 0x7fff_ffff_ffff_ffff,
                        ;
                    }
                    LIMIT
                } else {
                    let unit: u128 = power_of_two(up);
                    proof {
                        lemma_two_to_grows(up as nat, 20);
                        lemma_two_to_values();
                        assert(scaled * unit <= 0x100_0000 * 1_000_000 * 0x10_0000) by (
                            nonlinear_arith)
                            requires
                                scaled <= 0x100_0000 * 1_000_000,
                                unit <= 0x10_0000,
                        ;
                    }
                    let wide: u128 = scaled * unit;
                    if wide > LIMIT as u128 {
                        LIMIT
                    } else {
                        wide as i64
                    }
                }
            } else {
                let down: u32 = 150 - q;
                if down > 45 {
                    proof {
                        lemma_two_to_grows(45, (down - 1) as nat);
                        lemma_two_to_values();
                        let half = two_to((down - 1) as nat) as int;
                        let top = scaled as int;
                        assert(two_to(down as nat) == 2 * half);
                        assert((top + half) / (2 * half) == 0) by (nonlinear_arith)
                            requires
                                0 <= top < half,
                        ;
                    }
                    0
                } else {
                    let unit: u128 = power_of_two(down);
                    let half: u128 = power_of_two(down - 1);
                    proof {
                        lemma_two_to_grows(0, down as nat);
                        assert(unit == 2 * half);
                        lemma_two_to_grows(down as nat, 45);
                        lemma_two_to_values();
                        let n = scaled as int + half as int;
                        let d = unit as int;
                        assert(0 <= n / d <= n) by (nonlinear_arith)
                            requires
                                n >= 0,
                                d >= 1,
                        ;
                    }
                    ((scaled + half) / unit) as i64
                }
            }
        };
        if negative {
            Fixed { raw: -size }
        } else {
            Fixed { raw: size }
        }
    }
}

} // verus!
