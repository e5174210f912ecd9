//! An integer stored where the column holds binary64 numbers.
//!
//! Nothing here computes with a binary64 number: the nearest one to an integer
//! is an integer itself, so it is found, placed and written down in integers.

use vstd::prelude::*;
use vstd::arithmetic::power2::pow2;

use crate::values::{Real, STEP};

verus! {

/// What a 53-bit significand stays below.
pub const LIMIT: u64 = 0x20_0000_0000_0000;

/// The least significand whose leading bit is written down by the exponent.
pub const HIDDEN: u64 = 0x10_0000_0000_0000;

/// How many low bits of a number a 53-bit significand cannot hold.
pub open spec fn excess(number: nat) -> nat
    decreases number,
{
    if number < LIMIT {
        0
    } else {
        1 + excess(number / 2)
    }
}

/// Whether a number is rounded up when its low bits are dropped: to the nearest
/// significand, and to the even one of two as near.
pub open spec fn rounds_up(number: nat, dropped: nat) -> bool {
    let unit = pow2(dropped);
    let kept = number / unit;
    let lost = number % unit;
    dropped > 0 && (2 * lost > unit || (2 * lost == unit && kept % 2 == 1))
}

/// The significand of the binary64 number nearest to a number.
pub open spec fn significand(number: nat) -> nat {
    number / pow2(excess(number)) + if rounds_up(number, excess(number)) {
        1nat
    } else {
        0nat
    }
}

/// The binary64 number nearest to a number.
pub open spec fn nearest(number: nat) -> nat {
    significand(number) * pow2(excess(number))
}

/// The bits of a significand times a power of two, below the sign.
pub open spec fn magnitude_bits(significand: nat, exponent: int) -> int
    decreases LIMIT - significand,
{
    if significand == 0 {
        0
    } else if significand < HIDDEN {
        magnitude_bits(2 * significand, exponent - 1)
    } else if significand >= LIMIT {
        (exponent + 1 + 1075) * HIDDEN + (significand / 2 - HIDDEN)
    } else {
        (exponent + 1075) * HIDDEN + (significand - HIDDEN)
    }
}

/// How far an integer is from zero.
pub open spec fn distance(number: int) -> nat {
    if number < 0 {
        (-number) as nat
    } else {
        number as nat
    }
}

/// The binary64 number nearest to an integer, as an integer.
pub open spec fn nearest_int(number: int) -> int {
    if number < 0 {
        -(nearest(distance(number)) as int)
    } else {
        nearest(distance(number)) as int
    }
}

/// What an integer becomes where the column holds binary64 numbers.
pub open spec fn as_real(number: i64) -> Real {
    let bits = magnitude_bits(
        significand(distance(number as int)),
        excess(distance(number as int)) as int,
    );
    Real {
        place: (nearest_int(number as int) * STEP) as i128,
        bits: (if number < 0 {
            bits + 0x8000_0000_0000_0000
        } else {
            bits
        }) as u64,
    }
}

/// A 64-bit number has at most eleven bits too many, and what is left fits.
proof fn excess_is_small(number: nat, bits: nat)
    requires
        number < LIMIT * pow2(bits),
    ensures
        excess(number) <= bits,
        number / pow2(excess(number)) < LIMIT,
        excess(number) > 0 ==> number / pow2(excess(number)) >= HIDDEN,
    decreases bits,
{
    vstd::arithmetic::power2::lemma2_to64();
    if number < LIMIT {
        assert(number / 1 == number);
    } else {
        if bits == 0 {
            assert(false);
        }
        let fewer = (bits - 1) as nat;
        vstd::arithmetic::power2::lemma_pow2_unfold(bits);
        let p = pow2(fewer) as int;
        assert(LIMIT * (2 * p) == 2 * (LIMIT * p)) by (nonlinear_arith);
        excess_is_small(number / 2, fewer);
        let less = excess(number / 2);
        vstd::arithmetic::power2::lemma_pow2_unfold(less + 1);
        vstd::arithmetic::power2::lemma_pow2_pos(less);
        vstd::arithmetic::div_mod::lemma_div_denominator(number as int, 2, pow2(less) as int);
        if less == 0 {
            assert(number / 2 / 1 == number / 2);
        }
    }
}

/// Returns the binary64 number nearest to an integer.
pub fn real_from_int(number: i64) -> (made: Real)
    ensures
        made == as_real(number),
{
    let size: u64 = if number < 0 {
        (-(number as i128)) as u64
    } else {
        number as u64
    };
    assert(size == distance(number as int));
    let ghost dropped = excess(size as nat);
    proof {
        vstd::arithmetic::power2::lemma2_to64();
        assert(LIMIT * pow2(10) == 0x8000_0000_0000_0000);
        assert(LIMIT * pow2(11) == 0x1_0000_0000_0000_0000) by {
            assert(pow2(11) == 2048);
        }
        excess_is_small(size as nat, 11);
    }
    let mut kept: u64 = size;
    let mut shift: u64 = 0;
    let mut unit: u64 = 1;
    while kept >= LIMIT
        invariant
            unit == pow2(shift as nat),
            shift <= 11,
            kept == size as nat / pow2(shift as nat),
            excess(size as nat) == shift + excess(kept as nat),
            excess(size as nat) <= 11,
        decreases kept,
    {
        proof {
            vstd::arithmetic::power2::lemma_pow2_unfold(shift as nat + 1);
            vstd::arithmetic::power2::lemma_pow2_pos(shift as nat);
            vstd::arithmetic::div_mod::lemma_div_denominator(
                size as int,
                pow2(shift as nat) as int,
                2,
            );
            vstd::arithmetic::power2::lemma_pow2_strictly_increases(shift as nat, 12);
            assert(pow2(12) == 4096) by {
                vstd::arithmetic::power2::lemma2_to64();
            }
            let p = pow2(shift as nat) as int;
            assert(p * 2 == 2 * p) by (nonlinear_arith);
        }
        kept = kept / 2;
        shift = shift + 1;
        unit = unit * 2;
    }
    assert(excess(kept as nat) == 0);
    assert(shift == dropped);
    let lost: u64 = size % unit;
    proof {
        vstd::arithmetic::power2::lemma_pow2_pos(dropped);
        vstd::arithmetic::div_mod::lemma_mod_bound(size as int, unit as int);
        vstd::arithmetic::power2::lemma2_to64();
        if dropped < 11 {
            vstd::arithmetic::power2::lemma_pow2_strictly_increases(dropped, 11);
        }
    }
    let up: bool = shift > 0 && (2 * lost > unit || (2 * lost == unit && kept % 2 == 1));
    let rounded: u64 = if up {
        kept + 1
    } else {
        kept
    };
    assert(rounded == significand(size as nat));
    proof {
        assert(rounded * unit <= 0x20_0000_0000_0000 * 2048) by (nonlinear_arith)
            requires
                rounded <= 0x20_0000_0000_0000,
                unit <= 2048,
        ;
        vstd::arithmetic::div_mod::lemma_fundamental_div_mod(size as int, unit as int);
        let k = kept as int;
        let u = unit as int;
        assert(u * k == k * u) by (nonlinear_arith);
        assert((k + 1) * u == k * u + u) by (nonlinear_arith);
    }
    let near: u128 = rounded as u128 * unit as u128;
    proof {
        assert(near == nearest(size as nat));
        nearest_fits(size as nat);
    }
    let signed: i128 = if number < 0 {
        -(near as i128)
    } else {
        near as i128
    };
    let bits: u64 = write_bits(rounded, shift);
    Real {
        place: signed * STEP,
        bits: if number < 0 {
            bits + 0x8000_0000_0000_0000
        } else {
            bits
        },
    }
}

/// The number nearest to one no greater than two to the sixty-third is no
/// greater either.
proof fn nearest_fits(number: nat)
    requires
        number <= 0x8000_0000_0000_0000,
    ensures
        nearest(number) <= 0x8000_0000_0000_0000,
{
    vstd::arithmetic::power2::lemma2_to64();
    assert(LIMIT * pow2(11) == 0x1_0000_0000_0000_0000) by {
        assert(pow2(11) == 2048);
    }
    excess_is_small(number, 11);
    let dropped = excess(number);
    let unit = pow2(dropped) as int;
    let kept = number as int / unit;
    vstd::arithmetic::power2::lemma_pow2_pos(dropped);
    vstd::arithmetic::div_mod::lemma_fundamental_div_mod(number as int, unit);
    assert(unit * kept == kept * unit) by (nonlinear_arith);
    if number == 0x8000_0000_0000_0000nat {
        whole_has_no_remainder();
    } else {
        below_the_top(number);
    }
}

/// Two to the sixty-third is its own nearest number.
proof fn whole_has_no_remainder()
    ensures
        excess(0x8000_0000_0000_0000) == 11,
        nearest(0x8000_0000_0000_0000) == 0x8000_0000_0000_0000,
{
    vstd::arithmetic::power2::lemma2_to64();
    reveal_with_fuel(excess, 13);
    assert(excess(0x8000_0000_0000_0000) == 11);
    assert(pow2(11) == 2048);
    assert(0x8000_0000_0000_0000nat / 2048 == HIDDEN);
    assert(0x8000_0000_0000_0000nat % 2048 == 0);
}

/// A number below two to the sixty-third is rounded to no more than it.
proof fn below_the_top(number: nat)
    requires
        number < 0x8000_0000_0000_0000,
    ensures
        nearest(number) <= 0x8000_0000_0000_0000,
{
    vstd::arithmetic::power2::lemma2_to64();
    assert(LIMIT * pow2(10) == 0x8000_0000_0000_0000) by {
        assert(pow2(10) == 1024);
    }
    excess_is_small(number, 10);
    let dropped = excess(number);
    let unit = pow2(dropped) as int;
    if dropped < 10 {
        vstd::arithmetic::power2::lemma_pow2_strictly_increases(dropped, 10);
    }
    assert(significand(number) <= LIMIT);
    assert(significand(number) * unit <= LIMIT * 1024) by (nonlinear_arith)
        requires
            significand(number) <= LIMIT,
            0 <= unit <= 1024,
    ;
}

/// Writes a significand times a power of two as bits, below the sign.
fn write_bits(significand: u64, shift: u64) -> (bits: u64)
    requires
        significand <= LIMIT,
        shift <= 11,
    ensures
        bits == magnitude_bits(significand as nat, shift as int),
        bits < 0x8000_0000_0000_0000,
{
    if significand == 0 {
        return 0;
    }
    let mut moved: u64 = significand;
    let mut exponent: i64 = shift as i64;
    let mut steps: u64 = 0;
    assert(1 * pow2(0) == 1) by {
        vstd::arithmetic::power2::lemma2_to64();
    }
    while moved < HIDDEN
        invariant
            0 < moved <= LIMIT,
            shift <= 11,
            steps <= 52,
            pow2(steps as nat) <= moved,
            exponent == shift - steps,
            magnitude_bits(significand as nat, shift as int) == magnitude_bits(
                moved as nat,
                exponent as int,
            ),
        decreases LIMIT - moved,
    {
        proof {
            if steps >= 52 {
                vstd::arithmetic::power2::lemma2_to64();
                assert(pow2(52) == 0x10_0000_0000_0000) by {
                    vstd::arithmetic::power2::lemma_pow2_adds(32, 20);
                }
            }
            vstd::arithmetic::power2::lemma_pow2_unfold(steps as nat + 1);
        }
        moved = moved * 2;
        exponent = exponent - 1;
        steps = steps + 1;
    }
    if moved >= LIMIT {
        let field: u64 = (exponent + 1 + 1075) as u64;
        assert(field * HIDDEN <= 2047 * HIDDEN) by (nonlinear_arith)
            requires
                field <= 2047,
        ;
        field * HIDDEN + (moved / 2 - HIDDEN)
    } else {
        let field: u64 = (exponent + 1075) as u64;
        assert(field * HIDDEN <= 2047 * HIDDEN) by (nonlinear_arith)
            requires
                field <= 2047,
        ;
        field * HIDDEN + (moved - HIDDEN)
    }
}

/// A number that has no more than 53 bits is its own nearest number. Any other is
/// kept to the unit that leaves it 53 bits: the nearest number is a multiple of the
/// unit, no more than half a unit off, and of two as near the even multiple.
pub proof fn the_nearest_number_is_near(number: nat) -> (dropped: nat)
    requires
        number <= 0x8000_0000_0000_0000,
    ensures
        dropped <= 11,
        number < 0x20_0000_0000_0000 * pow2(dropped),
        dropped > 0 ==> number >= 0x10_0000_0000_0000 * pow2(dropped),
        number < 0x20_0000_0000_0000 ==> dropped == 0 && nearest(number) == number,
        dropped == excess(number),
        nearest(number) == significand(number) * pow2(dropped),
        -(pow2(dropped) as int) <= 2 * (nearest(number) - number) <= pow2(dropped),
        dropped > 0 && (2 * (nearest(number) - number) == pow2(dropped) || 2 * (number - nearest(
            number,
        )) == pow2(dropped)) ==> significand(number) % 2 == 0,
        significand(number) <= 0x20_0000_0000_0000,
{
    vstd::arithmetic::power2::lemma2_to64();
    assert(LIMIT * pow2(11) == 0x1_0000_0000_0000_0000) by {
        assert(pow2(11) == 2048);
    }
    excess_is_small(number, 11);
    let dropped = excess(number);
    let unit = pow2(dropped) as int;
    let kept = number as int / unit;
    let lost = number as int % unit;
    vstd::arithmetic::power2::lemma_pow2_pos(dropped);
    vstd::arithmetic::div_mod::lemma_fundamental_div_mod(number as int, unit);
    vstd::arithmetic::div_mod::lemma_mod_bound(number as int, unit);
    assert(unit * kept == kept * unit) by (nonlinear_arith);
    assert((kept + 1) * unit == kept * unit + unit) by (nonlinear_arith);
    assert(kept * unit + unit <= 0x20_0000_0000_0000 * unit) by (nonlinear_arith)
        requires
            kept + 1 <= 0x20_0000_0000_0000,
            unit > 0,
    ;
    if dropped > 0 {
        assert(kept * unit >= 0x10_0000_0000_0000 * unit) by (nonlinear_arith)
            requires
                kept >= 0x10_0000_0000_0000,
                unit > 0,
        ;
    } else {
        assert(unit == 1);
        assert(kept * 1 == kept);
        assert(lost == 0);
    }
    dropped
}

/// The bits of a significand times a power of two say the product: the low 52 of them
/// after a leading one, times two to what the others say, is the product in units of
/// two to the power of minus 1075.
proof fn bits_say_the_product(significand: nat, exponent: int, steps: nat)
    requires
        0 < significand <= 0x20_0000_0000_0000,
        significand * pow2(steps) >= 0x10_0000_0000_0000,
        exponent + 1075 >= steps,
    ensures
        ({
            let bits = magnitude_bits(significand, exponent);
            &&& bits >= 0
            &&& bits / 0x10_0000_0000_0000 <= exponent + 1076
            &&& (0x10_0000_0000_0000 + bits % 0x10_0000_0000_0000) * pow2(
                (bits / 0x10_0000_0000_0000) as nat,
            ) == significand * pow2((exponent + 1075) as nat)
        }),
    decreases LIMIT - significand,
{
    let bits = magnitude_bits(significand, exponent);
    if significand < HIDDEN {
        vstd::arithmetic::power2::lemma2_to64();
        if steps == 0 {
            assert(significand * pow2(0) == significand);
        }
        let fewer = (steps - 1) as nat;
        vstd::arithmetic::power2::lemma_pow2_unfold(steps);
        let p = pow2(fewer) as int;
        let n = significand as int;
        assert(n * (2 * p) == (2 * n) * p) by (nonlinear_arith);
        bits_say_the_product(2 * significand, exponent - 1, fewer);
        vstd::arithmetic::power2::lemma_pow2_unfold((exponent + 1075) as nat);
        let q = pow2((exponent + 1074) as nat) as int;
        assert(n * (2 * q) == (2 * n) * q) by (nonlinear_arith);
    } else if significand >= LIMIT {
        let field = exponent + 1 + 1075;
        assert(field * HIDDEN >= 0) by (nonlinear_arith)
            requires
                field >= 0,
        ;
        vstd::arithmetic::div_mod::lemma_fundamental_div_mod_converse(
            bits,
            HIDDEN as int,
            field,
            0,
        );
        vstd::arithmetic::power2::lemma_pow2_unfold(field as nat);
        let p = pow2((exponent + 1075) as nat) as int;
        assert(0x10_0000_0000_0000 * (2 * p) == 0x20_0000_0000_0000 * p) by (nonlinear_arith);
    } else {
        let field = exponent + 1075;
        assert(field * HIDDEN >= 0) by (nonlinear_arith)
            requires
                field >= 0,
        ;
        vstd::arithmetic::div_mod::lemma_fundamental_div_mod_converse(
            bits,
            HIDDEN as int,
            field,
            significand - HIDDEN,
        );
    }
}

/// An integer kept as a binary64 number is the nearest one: itself where it has no
/// more than 53 bits, and else no more than half a unit of its last bit off. Where it
/// stands and the bits it is written in both say that number, sign and all.
pub proof fn an_integer_is_kept_as_the_nearest(number: i64) -> (near: (int, nat))
    ensures
        as_real(number).place == near.0 * STEP,
        -0x20_0000_0000_0000 < number < 0x20_0000_0000_0000 ==> near.0 == number,
        -(pow2(near.1) as int) <= 2 * (near.0 - number) <= pow2(near.1),
        near.1 > 0 ==> number >= 0x10_0000_0000_0000 * pow2(near.1) || number
            <= -0x10_0000_0000_0000 * pow2(near.1),
        number < 0 <==> near.0 < 0,
        number < 0 <==> as_real(number).bits >= 0x8000_0000_0000_0000,
        number == 0 ==> as_real(number).bits == 0,
        number != 0 ==> {
            let bits = as_real(number).bits as int % 0x8000_0000_0000_0000;
            (0x10_0000_0000_0000 + bits % 0x10_0000_0000_0000) * pow2(
                (bits / 0x10_0000_0000_0000) as nat,
            ) == (if number < 0 {
                -near.0
            } else {
                near.0
            }) * pow2(1075)
        },
{
    let size = distance(number as int);
    let dropped = the_nearest_number_is_near(size);
    nearest_fits(size);
    let near = nearest_int(number as int);
    assert(near * STEP <= 0x8000_0000_0000_0000 * STEP && near * STEP >= -0x8000_0000_0000_0000
        * STEP) by (nonlinear_arith)
        requires
            -0x8000_0000_0000_0000 <= near <= 0x8000_0000_0000_0000,
            STEP == 0x4000_0000_0000_0000,
    ;
    vstd::arithmetic::power2::lemma2_to64();
    vstd::arithmetic::power2::lemma_pow2_pos(dropped);
    let sig = significand(size);
    if size > 0 {
        assert(sig > 0) by {
            if sig == 0 {
                assert(0 * pow2(dropped) == 0);
            }
        }
        assert(pow2(52) == 0x10_0000_0000_0000) by {
            vstd::arithmetic::power2::lemma_pow2_adds(32, 20);
        }
        assert(sig * pow2(52) >= 0x10_0000_0000_0000) by (nonlinear_arith)
            requires
                sig > 0,
                pow2(52) == 0x10_0000_0000_0000,
        ;
        bits_say_the_product(sig, dropped as int, 52);
        let bits = magnitude_bits(sig, dropped as int);
        vstd::arithmetic::div_mod::lemma_fundamental_div_mod(bits, 0x10_0000_0000_0000);
        assert(bits < 0x8000_0000_0000_0000);
        vstd::arithmetic::power2::lemma_pow2_adds(dropped, 1075);
        let p = pow2(dropped) as int;
        let q = pow2(1075) as int;
        let n = sig as int;
        assert(n * (p * q) == (n * p) * q) by (nonlinear_arith);
    }
    (near, dropped)
}

} // verus!
