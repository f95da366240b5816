//! YCbCr to RGB conversion and final sample clamping, in 16-bit
//! fixed-point integer arithmetic.

use vstd::prelude::*;

verus! {

/// Multiply by a 16-bit fixed-point coefficient and round to nearest.
/// The large offset shifts the product into nonnegative range so that
/// machine division rounds like the mathematical floor.
pub open spec fn fixed_scale_spec(v: int, coef: int) -> int {
    (v * coef + 32768 + 1125899906842624) / 65536 - 17179869184
}

/// The red channel: `y + 1.402 * cr`, with 1.402 = 2 - 2 * 0.299 held as
/// the 16-bit fixed-point value 91881.
pub open spec fn ycc_red(y: int, cr: int) -> int {
    y + fixed_scale_spec(cr, 91881)
}

/// The blue channel: `y + 1.772 * cb`, with 1.772 = 2 - 2 * 0.114 held as
/// the 16-bit fixed-point value 116130.
pub open spec fn ycc_blue(y: int, cb: int) -> int {
    y + fixed_scale_spec(cb, 116130)
}

/// The green channel, recovered from the other two:
/// `(y - 0.114 * b - 0.299 * r) / 0.587`, with the three BT.601
/// coefficients held as the 16-bit fixed-point values 7471, 19595 and
/// 38470, rounded to nearest via the half-divisor 19235; the offset term
/// is `38470 * 2^35`, a multiple of the divisor, so it shifts the
/// dividend into nonnegative range without changing the quotient shape.
pub open spec fn ycc_green(y: int, r: int, b: int) -> int {
    (y * 65536 - 7471 * b - 19595 * r + 19235 + 1321819135016960) / 38470 - 34359738368
}

/// Clamp a finished sample into the 8-bit range.
pub open spec fn clamp255(v: int) -> int {
    if v < 0 {
        0
    } else if v > 255 {
        255
    } else {
        v
    }
}

fn fixed_scale(v: i64, coef: i64) -> (r: i64)
    requires
        -134217728 <= v <= 134217728,
        0 <= coef <= 131072,
    ensures
        r == fixed_scale_spec(v as int, coef as int),
        -268435456 <= r <= 268435456,
{
    proof {
        assert(-17592186044416 <= v * coef <= 17592186044416) by (nonlinear_arith)
            requires
                -134217728 <= v <= 134217728,
                0 <= coef <= 131072,
        ;
    }
    let t: i64 = v * coef + 32768 + 1125899906842624;
    let tu: u64 = t as u64;
    let qu: u64 = tu / 65536;
    proof {
        assert(17179869184 - 268435456 <= qu <= 17179869184 + 268435456) by (nonlinear_arith)
            requires
                qu == tu as int / 65536,
                1108307720830976 <= tu as int <= 1143492092919808,
        ;
    }
    (qu as i64) - 17179869184
}

/// Convert one level-shifted (zero-centered) YCbCr triple to a
/// zero-centered RGB triple, per the BT.601-derived fixed-point formulas.
/// The +128 re-shift and the clamp to 0..=255 happen afterwards, exactly
/// once, when pixels are finished.
pub fn y_cb_cr_to_rgb(y: i32, cb: i32, cr: i32) -> (rgb: (i32, i32, i32))
    requires
        -134217728 <= y <= 134217728,
        -134217728 <= cb <= 134217728,
        -134217728 <= cr <= 134217728,
    ensures
        rgb.0 as int == ycc_red(y as int, cr as int),
        rgb.2 as int == ycc_blue(y as int, cb as int),
        rgb.1 as int == ycc_green(y as int, rgb.0 as int, rgb.2 as int),
        -536870912 <= rgb.0 <= 536870912,
        -536870912 <= rgb.1 <= 536870912,
        -536870912 <= rgb.2 <= 536870912,
{
    let r64: i64 = (y as i64) + fixed_scale(cr as i64, 91881);
    let b64: i64 = (y as i64) + fixed_scale(cb as i64, 116130);
    let num: i64 = (y as i64) * 65536 - 7471 * b64 - 19595 * r64 + 19235;
    proof {
        assert(-8796093022208 <= (y as i64) * 65536 <= 8796093022208) by (nonlinear_arith)
            requires
                -134217728 <= y as i64 <= 134217728,
        ;
        assert(-3008222512046 <= 7471 * b64 <= 3008222512046) by (nonlinear_arith)
            requires
                -402653184 <= b64 <= 402653184,
        ;
        assert(-7889989183480 <= 19595 * r64 <= 7889989183480) by (nonlinear_arith)
            requires
                -402653184 <= r64 <= 402653184,
        ;
    }
    let tg: i64 = num + 1321819135016960;
    let tgu: u64 = tg as u64;
    let qgu: u64 = tgu / 38470;
    proof {
        assert(34359738368 - 536870912 <= qgu <= 34359738368 + 536870912) by (nonlinear_arith)
            requires
                qgu == tgu as int / 38470,
                1302124830302326 <= tgu as int <= 1341513439731594,
        ;
    }
    let g64: i64 = (qgu as i64) - 34359738368;
    ((r64 as i32), (g64 as i32), (b64 as i32))
}

/// Clamp a finished sample into 0..=255.
pub fn clamp_to_u8(v: i32) -> (r: u8)
    ensures
        r as int == clamp255(v as int),
{
    if v < 0 {
        0
    } else if v > 255 {
        255
    } else {
        v as u8
    }
}

} // verus!
