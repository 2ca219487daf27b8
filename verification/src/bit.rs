//! Problems on the bits of integers.
use vstd::prelude::*;

verus! {

/// The flips that the bit `i`, a power of two, costs: where `c` has the
/// bit, one flip if neither `a` nor `b` has it; where `c` lacks it, one flip
/// for each of `a` and `b` that has it.
pub open spec fn bit_cost(a: i32, b: i32, c: i32, i: i32) -> int {
    if (c & i) == i {
        if ((a | b) & i) != i {
            1
        } else {
            0
        }
    } else {
        (if (a & i) == i {
            1int
        } else {
            0int
        }) + (if (b & i) == i {
            1int
        } else {
            0int
        })
    }
}

/// The flips that the bits below `i`, a power of two, cost together.
pub open spec fn flips_below(a: i32, b: i32, c: i32, i: int) -> int
    decreases i,
{
    if i <= 1 {
        0
    } else {
        flips_below(a, b, c, i / 2) + bit_cost(a, b, c, (i / 2) as i32)
    }
}

/// The least power of two that is greater than `m`.
pub open spec fn power_above(m: int) -> int
    decreases m,
{
    if m < 1 {
        1
    } else {
        2 * power_above(m / 2)
    }
}

/// The greatest of three numbers.
pub open spec fn greatest(a: i32, b: i32, c: i32) -> i32 {
    if a >= b && a >= c {
        a
    } else if b >= c {
        b
    } else {
        c
    }
}

/// The least number of bits to flip in `a` and `b` so that `a | b` becomes
/// `c`, counted over the bits up to and including the least power of two
/// above the greatest of the three. All three must be below 2^30.
pub fn min_flips(a: i32, b: i32, c: i32) -> (flips: i32)
    requires
        a < 0x4000_0000,
        b < 0x4000_0000,
        c < 0x4000_0000,
    ensures
        flips == flips_below(a, b, c, 2 * power_above(greatest(a, b, c) as int)),
{
    let mut i: i32 = 1;
    let max = if a >= b && a >= c {
        a
    } else if b >= c {
        b
    } else {
        c
    };
    let mut flips: i32 = 0;
    let ghost mut bits: nat = 0;
    proof {
        vstd::arithmetic::power2::lemma2_to64();
    }
    loop
        invariant_except_break
            0 <= flips <= 2 * bits,
            flips == flips_below(a, b, c, i as int),
            power_above(max as int) == i * power_above(max as int / i as int),
        invariant
            max == greatest(a, b, c),
            max < 0x4000_0000,
            i == vstd::arithmetic::power2::pow2(bits),
            1 <= i <= 0x4000_0000,
            bits <= 30,
            bits > 0 ==> i <= 2 * max,
        ensures
            flips == flips_below(a, b, c, 2 * power_above(max as int)),
        decreases 0x4000_0000 - i,
    {
        proof {
            assert(flips_below(a, b, c, 2 * i) == flips_below(a, b, c, i as int) + bit_cost(
                a,
                b,
                c,
                i,
            )) by {
                assert((2 * i) / 2 == i);
            }
        }
        if (c & i) == i {
            if ((a | b) & i) != i {
                flips += 1;
            }
        } else {
            if (a & i) == i {
                flips += 1;
            }
            if (b & i) == i {
                flips += 1;
            }
        }
        if i > max || i == i32::MAX {
            proof {
                if max >= 0 {
                    assert(max as int / i as int == 0) by (nonlinear_arith)
                        requires
                            0 <= max < i,
                    ;
                } else {
                    vstd::arithmetic::power2::lemma2_to64();
                    assert(i == 1);
                }
            }
            break ;
        }
        proof {
            let m = max as int;
            let d = i as int;
            assert(m / d >= 1 && (m / d) / 2 == m / (2 * d)) by (nonlinear_arith)
                requires
                    1 <= d <= m,
            ;
            assert(d * (2 * power_above(m / (2 * d))) == (2 * d) * power_above(m / (2 * d)))
                by (nonlinear_arith);
            vstd::arithmetic::power2::lemma2_to64();
            vstd::arithmetic::power2::lemma_pow2_unfold(bits + 1);
            if bits + 1 < 30 {
                vstd::arithmetic::power2::lemma_pow2_strictly_increases(bits + 1, 30);
            }
            bits = bits + 1;
        }
        i = i * 2;
    }
    flips
}

} // verus!
