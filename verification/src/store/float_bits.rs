//! Floating-point numbers by their IEEE 754 bits: their order, and which of them
//! are integers.

use vstd::prelude::*;

verus! {

/// The bit of the sign.
pub const SIGN: u64 = 0x8000_0000_0000_0000;

/// One more than the largest fraction.
pub const FRACTION: u64 = 0x10_0000_0000_0000;

/// The bits of the one not-a-number that stands for all.
pub const NAN: u64 = 0x7ff8_0000_0000_0000;

/// The number 1, in units of the smallest positive number.
pub open spec fn one() -> nat {
    vstd::arithmetic::power2::pow2(1074)
}

/// The size of a number without its sign, in units of the smallest positive
/// one. Infinity and not-a-number come after all others, in this order.
pub open spec fn magnitude(bits: int) -> nat {
    let e = bits / FRACTION as int;
    let m = bits % FRACTION as int;
    if e <= 0 {
        m as nat
    } else {
        (((FRACTION + m) as nat) * vstd::arithmetic::power2::pow2((e - 1) as nat)) as nat
    }
}

/// The number of some bits, in units of the smallest positive one.
pub open spec fn float_number(bits: u64) -> int {
    if bits < SIGN {
        magnitude(bits as int) as int
    } else {
        -(magnitude(bits - SIGN) as int)
    }
}

/// The number of an integer, in the same units.
pub open spec fn int_number(n: int) -> int {
    n * one()
}

proof fn powers()
    ensures
        vstd::arithmetic::power2::pow2(10) == 1024,
        vstd::arithmetic::power2::pow2(52) == FRACTION,
        vstd::arithmetic::power2::pow2(53) == 2 * FRACTION,
        vstd::arithmetic::power2::pow2(63) == SIGN,
        vstd::arithmetic::power2::pow2(64) == 2 * SIGN,
{
    vstd::arithmetic::power2::lemma2_to64();
    vstd::arithmetic::power2::lemma_pow2_adds(32, 20);
    vstd::arithmetic::power2::lemma_pow2_adds(32, 21);
    vstd::arithmetic::power2::lemma_pow2_adds(32, 31);
}

proof fn magnitude_step(a: int, b: int)
    requires
        0 <= a < b,
    ensures
        magnitude(a) < magnitude(b),
{
    let f = FRACTION as int;
    let (ea, ma) = (a / f, a % f);
    let (eb, mb) = (b / f, b % f);
    assert(a == ea * f + ma && b == eb * f + mb) by {
        vstd::arithmetic::div_mod::lemma_fundamental_div_mod(a, f);
        vstd::arithmetic::div_mod::lemma_fundamental_div_mod(b, f);
    }
    assert(ea <= eb);
    if ea == eb {
        assert(ma < mb);
        if ea > 0 {
            let p = vstd::arithmetic::power2::pow2((ea - 1) as nat) as int;
            vstd::arithmetic::power2::lemma_pow2_pos((ea - 1) as nat);
            assert((f + ma) * p < (f + mb) * p) by (nonlinear_arith)
                requires
                    ma < mb,
                    p > 0,
            ;
        }
    } else {
        let q = vstd::arithmetic::power2::pow2((eb - 1) as nat) as int;
        vstd::arithmetic::power2::lemma_pow2_pos((eb - 1) as nat);
        assert((f + mb) * q >= f * q) by (nonlinear_arith)
            requires
                mb >= 0,
                q > 0,
        ;
        if ea <= 0 {
            assert(f * q >= f) by (nonlinear_arith)
                requires
                    q >= 1,
                    f > 0,
            ;
        } else {
            let p = vstd::arithmetic::power2::pow2((ea - 1) as nat) as int;
            vstd::arithmetic::power2::lemma_pow2_pos((ea - 1) as nat);
            vstd::arithmetic::power2::lemma_pow2_unfold(ea as nat);
            if ea < eb - 1 {
                vstd::arithmetic::power2::lemma_pow2_strictly_increases(
                    ea as nat,
                    (eb - 1) as nat,
                );
            }
            assert(q >= 2 * p);
            assert((f + ma) * p < f * q) by (nonlinear_arith)
                requires
                    ma < f,
                    q >= 2 * p,
                    p > 0,
                    f > 0,
            ;
        }
    }
}

/// Bits without a sign are in the order of their numbers.
pub proof fn magnitude_order(a: int, b: int)
    requires
        0 <= a,
        0 <= b,
    ensures
        a < b <==> magnitude(a) < magnitude(b),
{
    if a < b {
        magnitude_step(a, b);
    } else if b < a {
        magnitude_step(b, a);
    }
}

/// A power of two.
fn power_of_two(n: u64) -> (r: u64)
    requires
        n < 64,
    ensures
        r == vstd::arithmetic::power2::pow2(n as nat),
        r > 0,
{
    let mut p: u64 = 1;
    let mut i: u64 = 0;
    proof {
        vstd::arithmetic::power2::lemma2_to64();
    }
    while i < n
        invariant
            i <= n < 64,
            p == vstd::arithmetic::power2::pow2(i as nat),
            p > 0,
        decreases n - i,
    {
        proof {
            powers();
            vstd::arithmetic::power2::lemma_pow2_unfold((i + 1) as nat);
            if i + 1 < 63 {
                vstd::arithmetic::power2::lemma_pow2_strictly_increases((i + 1) as nat, 63);
            }
            vstd::arithmetic::power2::lemma_pow2_unfold(64);
        }
        p = p * 2;
        i = i + 1;
    }
    p
}

/// The whole part of a size, and whether there is no other part. Nothing where
/// the size is 2 to the 63rd or more.
pub open spec fn whole_part(bits: int, whole: int, exact: bool) -> bool {
    &&& whole * one() <= magnitude(bits) < (whole + 1) * one()
    &&& exact == (whole * one() == magnitude(bits))
}

/// The whole part of a number without its sign.
fn split(bits: u64) -> (r: Option<(u64, bool)>)
    requires
        bits < SIGN,
    ensures
        match r {
            Some((whole, exact)) => whole < SIGN && whole_part(bits as int, whole as int, exact),
            None => magnitude(bits as int) >= SIGN * one(),
        },
{
    let e: u64 = bits / FRACTION;
    let m: u64 = bits % FRACTION;
    proof {
        vstd::arithmetic::power2::lemma_pow2_pos(1074);
    }
    if e == 0 {
        proof {
            powers();
            vstd::arithmetic::power2::lemma_pow2_strictly_increases(52, 1074);
            vstd::arithmetic::power2::lemma_pow2_unfold(53);
            assert(m < one());
        }
        return Some((0, m == 0));
    }
    let mant: u64 = FRACTION + m;
    if e >= 1086 {
        proof {
            let p = vstd::arithmetic::power2::pow2((e - 1) as nat) as int;
            powers();
            vstd::arithmetic::power2::lemma_pow2_adds(52, 1085);
            vstd::arithmetic::power2::lemma_pow2_adds(63, 1074);
            if e > 1086 {
                vstd::arithmetic::power2::lemma_pow2_strictly_increases(1085, (e - 1) as nat);
            }
            let p0 = vstd::arithmetic::power2::pow2(1085) as int;
            assert(mant * p >= FRACTION * p0) by (nonlinear_arith)
                requires
                    mant >= FRACTION,
                    p >= p0,
                    p0 >= 0,
            ;
            assert(FRACTION * p0 == vstd::arithmetic::power2::pow2(1137));
            assert(SIGN * one() == vstd::arithmetic::power2::pow2(1137));
        }
        return None;
    }
    if e >= 1075 {
        let f = power_of_two(e - 1075);
        proof {
            vstd::arithmetic::power2::lemma_pow2_adds((e - 1075) as nat, 1074);
            powers();
            if e < 1085 {
                vstd::arithmetic::power2::lemma_pow2_strictly_increases((e - 1075) as nat, 10);
            }
            assert(f <= 1024);
            assert(mant * f < SIGN) by (nonlinear_arith)
                requires
                    mant < 2 * FRACTION,
                    f <= 1024,
                    FRACTION == 0x10_0000_0000_0000,
                    SIGN == 0x8000_0000_0000_0000,
            ;
            let o = one() as int;
            assert(mant * (f * o) == (mant * f) * o) by (nonlinear_arith);
            assert((mant * f + 1) * o == (mant * f) * o + o) by (nonlinear_arith);
        }
        return Some((mant * f, true));
    }
    let d: u64 = 1075 - e;
    if d >= 63 {
        proof {
            let p = vstd::arithmetic::power2::pow2((e - 1) as nat) as int;
            let q = vstd::arithmetic::power2::pow2(d as nat) as int;
            vstd::arithmetic::power2::lemma_pow2_adds((e - 1) as nat, d as nat);
            vstd::arithmetic::power2::lemma_pow2_pos((e - 1) as nat);
            powers();
            vstd::arithmetic::power2::lemma_pow2_strictly_increases(53, d as nat);
            vstd::arithmetic::power2::lemma_pow2_unfold(53);
            assert(mant < q);
            assert(mant * p < p * q) by (nonlinear_arith)
                requires
                    mant < q,
                    p > 0,
            ;
            assert(mant * p > 0) by (nonlinear_arith)
                requires
                    mant > 0,
                    p > 0,
            ;
            let o = one() as int;
            assert(o == p * q);
            assert(magnitude(bits as int) == mant * p);
            assert(0 * o == 0 && (0 + 1) * o == o) by (nonlinear_arith);
            assert(whole_part(bits as int, 0, false));
        }
        return Some((0, false));
    }
    let q = power_of_two(d);
    let whole: u64 = mant / q;
    let rest: u64 = mant % q;
    proof {
        let p = vstd::arithmetic::power2::pow2((e - 1) as nat) as int;
        vstd::arithmetic::power2::lemma_pow2_adds((e - 1) as nat, d as nat);
        vstd::arithmetic::power2::lemma_pow2_pos((e - 1) as nat);
        let o = one() as int;
        vstd::arithmetic::div_mod::lemma_fundamental_div_mod(mant as int, q as int);
        assert(o == p * q);
        assert(mant == whole * q + rest) by (nonlinear_arith)
            requires
                mant == q * whole + rest,
        ;
        assert((whole * q + rest) * p == whole * (p * q) + rest * p) by (nonlinear_arith);
        assert(0 <= rest * p < p * q) by (nonlinear_arith)
            requires
                0 <= rest < q,
                p > 0,
        ;
        assert(rest * p == 0 <==> rest == 0) by (nonlinear_arith)
            requires
                p > 0,
        ;
        assert((whole + 1) * o == whole * o + o) by (nonlinear_arith);
        assert(whole <= mant) by (nonlinear_arith)
            requires
                mant == whole * q + rest,
                q >= 1,
                rest >= 0,
                whole >= 0,
        ;
    }
    Some((whole, rest == 0))
}

/// The integer that a number is, where it is one that `i64` holds.
pub fn exact_integer(bits: u64) -> (r: Option<i64>)
    ensures
        match r {
            Some(n) => float_number(bits) == int_number(n as int),
            None => forall|n: i64| float_number(bits) != #[trigger] int_number(n as int),
        },
{
    let negative = bits >= SIGN;
    let size: u64 = if negative {
        bits - SIGN
    } else {
        bits
    };
    proof {
        vstd::arithmetic::power2::lemma_pow2_pos(1074);
    }
    let ghost o = one() as int;
    match split(size) {
        Some((whole, exact)) => {
            if exact {
                if negative {
                    let r = -(whole as i64);
                    assert((-whole) * o == -(whole * o)) by (nonlinear_arith);
                    Some(r)
                } else {
                    Some(whole as i64)
                }
            } else {
                proof {
                    assert forall|n: i64| float_number(bits) != #[trigger] int_number(
                        n as int,
                    ) by {
                        let a = if negative {
                            -n
                        } else {
                            n as int
                        };
                        assert((-n) * o == -(n * o)) by (nonlinear_arith);
                        if a <= whole {
                            assert(a * o <= whole * o) by (nonlinear_arith)
                                requires
                                    a <= whole,
                                    o > 0,
                            ;
                        } else {
                            assert(a * o >= (whole + 1) * o) by (nonlinear_arith)
                                requires
                                    a >= whole + 1,
                                    o > 0,
                            ;
                        }
                    }
                }
                None
            }
        },
        None => {
            // Minus 2 to the 63rd is the one integer of this size.
            if bits == 0xc3e0_0000_0000_0000 {
                proof {
                    powers();
                    vstd::arithmetic::power2::lemma_pow2_adds(52, 1085);
                    vstd::arithmetic::power2::lemma_pow2_adds(63, 1074);
                    assert(magnitude(size as int) == SIGN * one());
                    assert((-(SIGN as int)) * o == -(SIGN * o)) by (nonlinear_arith);
                }
                return Some(i64::MIN);
            }
            proof {
                let edge = 0x43e0_0000_0000_0000int;
                powers();
                vstd::arithmetic::power2::lemma_pow2_adds(52, 1085);
                vstd::arithmetic::power2::lemma_pow2_adds(63, 1074);
                assert(magnitude(edge) == SIGN * one());
                magnitude_order(edge, size as int);
                magnitude_order(size as int, edge);
                assert forall|n: i64| float_number(bits) != #[trigger] int_number(n as int) by {
                    assert((-n) * o == -(n * o)) by (nonlinear_arith);
                    if negative {
                        assert((-n) * o <= SIGN * o) by (nonlinear_arith)
                            requires
                                -n <= SIGN,
                                o > 0,
                        ;
                    } else {
                        assert(n * o < SIGN * o) by (nonlinear_arith)
                            requires
                                n < SIGN,
                                o > 0,
                        ;
                    }
                }
            }
            None
        },
    }
}

/// Whether an integer comes before a number.
pub fn int_below(n: i64, bits: u64) -> (r: bool)
    ensures
        r == (int_number(n as int) < float_number(bits)),
{
    let negative = bits >= SIGN;
    let size: u64 = if negative {
        bits - SIGN
    } else {
        bits
    };
    let ghost o = one() as int;
    proof {
        vstd::arithmetic::power2::lemma_pow2_pos(1074);
        assert((-n) * o == -(n * o)) by (nonlinear_arith);
    }
    match split(size) {
        None => {
            proof {
                assert(n * o < SIGN * o) by (nonlinear_arith)
                    requires
                        n < SIGN,
                        o > 0,
                ;
                assert((-n) * o <= SIGN * o) by (nonlinear_arith)
                    requires
                        -n <= SIGN,
                        o > 0,
                ;
            }
            !negative
        },
        Some((whole, exact)) => {
            if !negative {
                // n < f exactly where n < whole, or n is the whole part of more.
                proof {
                    below_whole(n as int, whole as int, magnitude(size as int) as int, exact);
                }
                n < whole as i64 || (n == whole as i64 && !exact)
            } else {
                proof {
                    below_whole(-n, whole as int, magnitude(size as int) as int, exact);
                }
                // n < -f exactly where f < -n.
                let w: i128 = whole as i128;
                let a: i128 = -(n as i128);
                w < a
            }
        },
    }
}

proof fn below_whole(a: int, whole: int, size: int, exact: bool)
    requires
        whole * one() <= size < (whole + 1) * one(),
        exact == (whole * one() == size),
    ensures
        a * one() < size <==> a < whole || (a == whole && !exact),
        size < a * one() <==> whole < a,
{
    let o = one() as int;
    vstd::arithmetic::power2::lemma_pow2_pos(1074);
    if a < whole {
        assert(a * o < whole * o) by (nonlinear_arith)
            requires
                a < whole,
                o > 0,
        ;
    } else if a > whole {
        assert(a * o >= (whole + 1) * o) by (nonlinear_arith)
            requires
                a >= whole + 1,
                o > 0,
        ;
    }
}

} // verus!
