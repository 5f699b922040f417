//! The scanline rasterizer: linear interpolation, line drawing, and filled
//! triangles with a per-pixel depth buffer.
//!
//! Screen coordinates are fixed-point canvas coordinates centered on the
//! canvas (see [`crate::geometry::Vec2`]); pixel loops truncate them to
//! integer steps exactly as the contracts state.

use vstd::prelude::*;
use crate::fixed::{
    FX_ONE, fx_trunc, fx_div, mag, div_trunc, fx_trunc_e, div_trunc_i128,
    lemma_div_trunc_fundamental,
};
use vstd::arithmetic::mul::lemma_mul_is_distributive_add_other_way;

verus! {

/// Width and height of the square pixel canvas.
pub const CANVAS_SIZE: u32 = 900;

/// Bytes in an RGBA8 frame buffer covering the canvas.
pub const FRAME_LEN: usize = 3240000;

/// The slope used by [`interpolate`]: the dependent delta divided by the
/// (fixed-point) independent delta, truncated toward zero.
pub open spec fn islope(i0: int, d0: int, i1: int, d1: int) -> int {
    fx_div(d1 - d0, i1 - i0)
}

/// The value the interpolation holds after `k` integer steps.
pub open spec fn ival(i0: int, d0: int, i1: int, d1: int, k: int) -> int {
    d0 + k * islope(i0, d0, i1, d1)
}

/// How many integer steps the interpolation takes: the difference of the
/// truncated endpoints.
pub open spec fn isteps(i0: int, i1: int) -> int {
    fx_trunc(i1) - fx_trunc(i0)
}

/// Magnitude bound on every coordinate a drawing routine accepts.
pub const COORD_LIM: i64 = 0x100_0000_0000;

/// Column of the pixel that byte `i` of the frame belongs to.
pub open spec fn px_col(i: int) -> int {
    (i / 4) % 900
}

/// Row of the pixel that byte `i` of the frame belongs to.
pub open spec fn px_row(i: int) -> int {
    (i / 4) / 900
}

/// Channel (0 red, 1 green, 2 blue, 3 alpha) of byte `i` of the frame.
pub open spec fn px_ch(i: int) -> int {
    i % 4
}

/// Byte `ch` of an RGBA pixel holding `color` with opaque alpha.
pub open spec fn color_byte(color: Seq<u8>, ch: int) -> u8 {
    if ch == 0 {
        color[0]
    } else if ch == 1 {
        color[1]
    } else if ch == 2 {
        color[2]
    } else {
        0xffu8
    }
}

/// Every frame byte splits uniquely into a row, a column and a channel.
pub proof fn lemma_pixel_split(i: int)
    requires
        0 <= i < FRAME_LEN,
    ensures
        0 <= px_col(i) < 900,
        0 <= px_row(i) < 900,
        0 <= px_ch(i) < 4,
        i == 4 * (px_row(i) * 900 + px_col(i)) + px_ch(i),
{
    let q = i / 4;
    vstd::arithmetic::div_mod::lemma_fundamental_div_mod(i, 4);
    vstd::arithmetic::div_mod::lemma_remainder_lower(i, 4);
    vstd::arithmetic::div_mod::lemma_remainder_upper(i, 4);
    vstd::arithmetic::div_mod::lemma_div_pos_is_pos(i, 4);
    vstd::arithmetic::div_mod::lemma_div_is_ordered(i, 3239999, 4);
    vstd::arithmetic::div_mod::lemma_fundamental_div_mod(q, 900);
    vstd::arithmetic::div_mod::lemma_div_pos_is_pos(q, 900);
    vstd::arithmetic::div_mod::lemma_div_is_ordered(q, 809999, 900);
    vstd::arithmetic::div_mod::lemma_mod_division_less_than_divisor(i, 4);
    vstd::arithmetic::div_mod::lemma_mod_division_less_than_divisor(q, 900);
}

/// Conversely, a row, column and channel name one frame byte.
pub proof fn lemma_pixel_make(row: int, col: int, ch: int)
    requires
        0 <= row < 900,
        0 <= col < 900,
        0 <= ch < 4,
    ensures
        0 <= 4 * (row * 900 + col) + ch < FRAME_LEN,
        px_col(4 * (row * 900 + col) + ch) == col,
        px_row(4 * (row * 900 + col) + ch) == row,
        px_ch(4 * (row * 900 + col) + ch) == ch,
{
    let q = row * 900 + col;
    let i = 4 * q + ch;
    assert(0 <= q <= 809999) by (nonlinear_arith)
        requires
            0 <= row < 900,
            0 <= col < 900,
            q == row * 900 + col,
    ;
    vstd::arithmetic::div_mod::lemma_fundamental_div_mod_converse_div(i, 4, q, ch);
    vstd::arithmetic::div_mod::lemma_fundamental_div_mod_converse_mod(i, 4, q, ch);
    vstd::arithmetic::div_mod::lemma_fundamental_div_mod_converse_div(q, 900, row, col);
    vstd::arithmetic::div_mod::lemma_fundamental_div_mod_converse_mod(q, 900, row, col);
}

/// Bounds on the interpolation slope and values, from a shared magnitude
/// bound on the four endpoints.
pub proof fn lemma_ival_bound(i0: int, d0: int, i1: int, d1: int, m: int)
    requires
        mag(i0) <= m,
        mag(i1) <= m,
        mag(d0) <= m,
        mag(d1) <= m,
        0 <= m,
    ensures
        mag(islope(i0, d0, i1, d1)) <= 2 * m * FX_ONE,
        forall|k: int|
            0 <= k <= isteps(i0, i1) ==> mag(#[trigger] ival(i0, d0, i1, d1, k)) <= 3 * m + 4 * m
                * FX_ONE,
{
    let o = FX_ONE as int;
    let dd = d1 - d0;
    let ii = i1 - i0;
    let a = islope(i0, d0, i1, d1);
    let n = isteps(i0, i1);
    assert(mag(dd * o) == mag(dd) * o) by (nonlinear_arith)
        requires
            o > 0,
    ;
    if ii == 0 {
        assert(a == 0);
        assert(n == 0);
        assert forall|k: int| 0 <= k <= n implies #[trigger] ival(i0, d0, i1, d1, k) == d0 by {
            assert(k == 0);
        }
    } else {
        assert(mag(a) == mag(dd * o) / mag(ii));
        vstd::arithmetic::div_mod::lemma_div_is_ordered(mag(dd * o), 2 * m * o, mag(ii));
        vstd::arithmetic::div_mod::lemma_div_nonincreasing(2 * m * o, mag(ii));
        assert(mag(a) <= 2 * m * o);
        if n > 0 {
            // With at least one whole step, i1 exceeds i0; relate the raw
            // span to the step count and bound k * slope through it.
            assert(ii > 0) by {
                if i1 <= i0 {
                    crate::fixed::lemma_fx_trunc_monotone(i1, i0);
                }
            }
            lemma_div_trunc_fundamental(dd * o, ii);
            assert(mag(a) * mag(ii) <= mag(dd) * o);
            lemma_div_trunc_fundamental(i0, o);
            lemma_div_trunc_fundamental(i1, o);
            let t0 = fx_trunc(i0);
            let t1 = fx_trunc(i1);
            assert(mag(i0 - t0 * o) < o);
            assert(mag(i1 - t1 * o) < o);
            assert(n * o <= ii + 2 * o) by (nonlinear_arith)
                requires
                    n == t1 - t0,
                    mag(i0 - t0 * o) < o,
                    mag(i1 - t1 * o) < o,
                    ii == i1 - i0,
                    o > 0,
            ;
            assert forall|k: int| 0 <= k <= n implies mag(#[trigger] ival(i0, d0, i1, d1, k)) <= 3
                * m + 4 * m * o by {
                assert(mag(k * a) * o <= (2 * m + 4 * m * o) * o) by (nonlinear_arith)
                    requires
                        0 <= k <= n,
                        n * o <= ii + 2 * o,
                        mag(a) * mag(ii) <= mag(dd) * o,
                        mag(dd) <= 2 * m,
                        mag(a) <= 2 * m * o,
                        ii > 0,
                        mag(ii) == ii,
                        o > 0,
                        0 <= m,
                ;
                assert(mag(k * a) <= 2 * m + 4 * m * o) by {
                    vstd::arithmetic::mul::lemma_mul_inequality_converse(
                        mag(k * a),
                        2 * m + 4 * m * o,
                        o,
                    );
                }
                assert(mag(d0 + k * a) <= mag(d0) + mag(k * a));
            }
        } else {
            assert forall|k: int| 0 <= k <= n implies #[trigger] ival(i0, d0, i1, d1, k) == d0 by {
                assert(k == 0);
            }
        }
    }
}

/// Linear interpolation: one dependent value for each integer step of the
/// independent variable from `i0` to `i1`, inclusive. The dependent value
/// starts at `d0` and grows by the truncated slope `(d1-d0)/(i1-i0)` each
/// step. If the endpoints truncate to the same integer, the result is the
/// single value `d0`; if they are given in descending order, it is empty.
#[verifier::loop_isolation(false)]
pub fn interpolate(i0: i64, d0: i64, i1: i64, d1: i64) -> (r: Vec<i64>)
    requires
        mag(islope(i0 as int, d0 as int, i1 as int, d1 as int)) <= 0x4000_0000_0000_0000,
        forall|k: int|
            0 <= k <= isteps(i0 as int, i1 as int) ==> mag(
                #[trigger] ival(i0 as int, d0 as int, i1 as int, d1 as int, k),
            ) <= 0x4000_0000_0000_0000,
    ensures
        isteps(i0 as int, i1 as int) == 0 ==> r@ =~= seq![d0],
        isteps(i0 as int, i1 as int) > 0 ==> r@.len() == isteps(i0 as int, i1 as int) + 1,
        isteps(i0 as int, i1 as int) < 0 ==> r@.len() == 0,
        forall|k: int|
            0 <= k < r@.len() ==> #[trigger] r@[k] == ival(
                i0 as int,
                d0 as int,
                i1 as int,
                d1 as int,
                k,
            ),
{
    let t0: i64 = fx_trunc_e(i0);
    let t1: i64 = fx_trunc_e(i1);
    if t0 == t1 {
        let mut values: Vec<i64> = Vec::new();
        values.push(d0);
        proof {
            assert(ival(i0 as int, d0 as int, i1 as int, d1 as int, 0) == d0);
        }
        return values;
    }
    let dd: i128 = (d1 as i128) - (d0 as i128);
    let ii: i128 = (i1 as i128) - (i0 as i128);
    proof {
        assert(ii != 0);
        assert(dd * 65536 == (d1 as int - d0 as int) * (FX_ONE as int));
    }
    let a128: i128 = div_trunc_i128(dd * 65536, ii);
    proof {
        assert(a128 == islope(i0 as int, d0 as int, i1 as int, d1 as int));
    }
    let a: i64 = a128 as i64;
    let mut values: Vec<i64> = Vec::new();
    if t1 < t0 {
        return values;
    }
    proof {
        assert(mag(t0 as int) <= 0x1_0000_0000_0000 && mag(t1 as int) <= 0x1_0000_0000_0000);
    }
    let n: i64 = t1 - t0;
    let mut d: i64 = d0;
    let mut k: i64 = 0;
    proof {
        assert(ival(i0 as int, d0 as int, i1 as int, d1 as int, 0) == d0);
    }
    while k <= n
        invariant
            0 <= k <= n + 1,
            values@.len() == k,
            forall|j: int|
                0 <= j < k ==> #[trigger] values@[j] == ival(
                    i0 as int,
                    d0 as int,
                    i1 as int,
                    d1 as int,
                    j,
                ),
            k <= n ==> d == ival(i0 as int, d0 as int, i1 as int, d1 as int, k as int),
        decreases n + 1 - k,
    {
        values.push(d);
        if k < n {
            proof {
                lemma_mul_is_distributive_add_other_way(a as int, k as int, 1);
                assert(ival(i0 as int, d0 as int, i1 as int, d1 as int, k + 1) == d + a);
                assert(mag(ival(i0 as int, d0 as int, i1 as int, d1 as int, k + 1))
                    <= 0x4000_0000_0000_0000);
            }
            d = d + a;
        }
        k = k + 1;
    }
    values
}

/// Exchange the contents of two places.
pub fn swap<T: Copy>(x0: &mut T, x1: &mut T)
    ensures
        *final(x0) == *old(x1),
        *final(x1) == *old(x0),
{
    let temp: T = *x0;
    *x0 = *x1;
    *x1 = temp;
}

/// Flattened pixel index of canvas column `x`, row `y` (row-major,
/// top-left origin).
pub fn x_y_to_i(x: u32, y: u32) -> (r: usize)
    requires
        x < CANVAS_SIZE,
        y < CANVAS_SIZE,
    ensures
        r == y * 900 + x,
{
    (y * CANVAS_SIZE + x) as usize
}

/// Whether a buffer coordinate lies outside the canvas.
pub fn check_if_out_of_canvas(x: i32, y: i32) -> (r: bool)
    ensures
        r == !(0 <= x < 900 && 0 <= y < 900),
{
    x < 0 || y < 0 || x >= CANVAS_SIZE as i32 || y >= CANVAS_SIZE as i32
}

/// Write one RGBA pixel: the three color channels and an opaque alpha.
pub fn put_pixel(frame: &mut Vec<u8>, x: u32, y: u32, color: [u8; 3])
    requires
        old(frame).len() == FRAME_LEN,
        x < 900,
        y < 900,
    ensures
        final(frame).len() == FRAME_LEN,
        forall|i: int|
            0 <= i < FRAME_LEN && !(4 * (y * 900 + x) <= i < 4 * (y * 900 + x) + 4)
                ==> final(frame)@[i] == old(frame)@[i],
        final(frame)@[4 * (y * 900 + x)] == color@[0],
        final(frame)@[4 * (y * 900 + x) + 1] == color@[1],
        final(frame)@[4 * (y * 900 + x) + 2] == color@[2],
        final(frame)@[4 * (y * 900 + x) + 3] == 0xffu8,
{
    let idx: usize = x_y_to_i(x, y) * 4;
    frame[idx] = color[0];
    frame[idx + 1] = color[1];
    frame[idx + 2] = color[2];
    frame[idx + 3] = 0xff;
}

/// Zero the color channels of every pixel, leaving each alpha byte as it was.
#[verifier::loop_isolation(false)]
pub fn clear_screen(frame: &mut Vec<u8>)
    requires
        old(frame).len() == FRAME_LEN,
    ensures
        final(frame).len() == FRAME_LEN,
        forall|i: int| 0 <= i < FRAME_LEN && i % 4 != 3 ==> final(frame)@[i] == 0u8,
        forall|i: int| 0 <= i < FRAME_LEN && i % 4 == 3 ==> final(frame)@[i] == old(frame)@[i],
{
    let mut p: usize = 0;
    while p < FRAME_LEN
        invariant
            p % 4 == 0,
            0 <= p <= FRAME_LEN,
            frame.len() == FRAME_LEN,
            forall|i: int| 0 <= i < p && i % 4 != 3 ==> frame@[i] == 0u8,
            forall|i: int| p <= i < FRAME_LEN ==> frame@[i] == old(frame)@[i],
            forall|i: int| 0 <= i < FRAME_LEN && i % 4 == 3 ==> frame@[i] == old(frame)@[i],
        decreases FRAME_LEN - p,
    {
        frame[p] = 0x00;
        frame[p + 1] = 0x00;
        frame[p + 2] = 0x00;
        p = p + 4;
    }
}

/// The parity with which pixel `i` of the debug pattern is painted: the
/// parity flips once per pixel, and once more at every 64th pixel.
pub open spec fn pixel_parity(i: int) -> bool
    decreases i,
{
    let st = if i <= 0 {
        true
    } else {
        !pixel_parity(i - 1)
    };
    if i % 64 == 0 {
        !st
    } else {
        st
    }
}

/// The RGBA bytes of pixel `i` of the debug pattern.
pub open spec fn pattern_byte(i: int, ch: int) -> u8 {
    if ch == 3 {
        0xffu8
    } else if pixel_parity(i) {
        if ch == 0 {
            0x48u8
        } else if ch == 1 {
            0xb2u8
        } else {
            0xe8u8
        }
    } else {
        if ch == 0 {
            0x5eu8
        } else if ch == 1 {
            0x48u8
        } else {
            0xe8u8
        }
    }
}

/// Fill the frame with an alternating two-color pattern that makes single
/// pixels visible.
#[verifier::loop_isolation(false)]
pub fn show_individual_pixels(frame: &mut Vec<u8>)
    requires
        old(frame).len() == FRAME_LEN,
    ensures
        final(frame).len() == FRAME_LEN,
        forall|i: int|
            0 <= i < FRAME_LEN ==> final(frame)@[i] == pattern_byte(i / 4, i % 4),
{
    let mut pog: bool = true;
    let mut i: usize = 0;
    while i < FRAME_LEN / 4
        invariant
            0 <= i <= FRAME_LEN / 4,
            frame.len() == FRAME_LEN,
            pog == (if i == 0 {
                true
            } else {
                !pixel_parity(i - 1)
            }),
            forall|j: int|
                0 <= j < 4 * i ==> #[trigger] frame@[j] == pattern_byte(j / 4, j % 4),
        decreases FRAME_LEN / 4 - i,
    {
        if i % 64 == 0 {
            pog = !pog;
        }
        let rgba: [u8; 4] = if pog {
            [0x48, 0xb2, 0xe8, 0xff]
        } else {
            [0x5e, 0x48, 0xe8, 0xff]
        };
        proof {
            assert(pog == pixel_parity(i as int));
        }
        pog = !pog;
        frame[4 * i] = rgba[0];
        frame[4 * i + 1] = rgba[1];
        frame[4 * i + 2] = rgba[2];
        frame[4 * i + 3] = rgba[3];
        proof {
            assert forall|j: int| 0 <= j < 4 * (i + 1) implies #[trigger] frame@[j] == pattern_byte(
                j / 4,
                j % 4,
            ) by {
                if j >= 4 * i {
                    assert(j / 4 == i && (j % 4 == j - 4 * i)) by (nonlinear_arith)
                        requires
                            4 * i <= j < 4 * (i + 1),
                    ;
                }
            }
        }
        i = i + 1;
    }
}

} // verus!

use crate::geometry::Vec2;
use crate::fixed::{lemma_fx_trunc_monotone, fx_of_int, fx_of_int_e};

verus! {

/// Whether the line from `a` to `b` runs more horizontally than vertically.
pub open spec fn line_is_horizontal(a: Vec2, b: Vec2) -> bool {
    mag(b.x - a.x) > mag(b.y - a.y)
}

/// The endpoint the pixel walk starts from: the one with the smaller
/// dominant-axis coordinate.
pub open spec fn line_start(a: Vec2, b: Vec2) -> Vec2 {
    if line_is_horizontal(a, b) {
        if a.x > b.x {
            b
        } else {
            a
        }
    } else {
        if a.y > b.y {
            b
        } else {
            a
        }
    }
}

/// The endpoint the pixel walk ends at.
pub open spec fn line_end(a: Vec2, b: Vec2) -> Vec2 {
    if line_is_horizontal(a, b) {
        if a.x > b.x {
            a
        } else {
            b
        }
    } else {
        if a.y > b.y {
            a
        } else {
            b
        }
    }
}

/// Whether drawing the line from `a` to `b` writes the canvas pixel at
/// buffer column `col`, row `row`: the pixel must lie on one integer step of
/// the dominant axis, and the interpolated other axis must land on it after
/// the canvas-center offset and the vertical flip.
pub open spec fn line_pixel_written(a: Vec2, b: Vec2, col: int, row: int) -> bool {
    let q0 = line_start(a, b);
    let q1 = line_end(a, b);
    if line_is_horizontal(a, b) {
        let k = col - 450 - fx_trunc(q0.x as int);
        &&& 0 <= k <= isteps(q0.x as int, q1.x as int)
        &&& row == fx_trunc(29491200 - ival(q0.x as int, q0.y as int, q1.x as int, q1.y as int, k))
    } else {
        let k = 450 - row - fx_trunc(q0.y as int);
        &&& 0 <= k <= isteps(q0.y as int, q1.y as int)
        &&& col == fx_trunc(ival(q0.y as int, q0.x as int, q1.y as int, q1.x as int, k) + 29491200)
    }
}

/// The frame buffer after drawing the line from `a` to `b` over frame `f`:
/// each pixel the line writes takes `color` and an opaque alpha; every
/// other byte is unchanged.
pub open spec fn line_apply_seq(a: Vec2, b: Vec2, f: Seq<u8>, color: Seq<u8>) -> Seq<u8> {
    Seq::new(
        f.len(),
        |i: int|
            if 0 <= i < FRAME_LEN && line_pixel_written(a, b, px_col(i), px_row(i)) {
                color_byte(color, px_ch(i))
            } else {
                f[i]
            },
    )
}

/// Draw the line from `p0` to `p1`: walk the dominant axis one pixel at a
/// time, interpolate the other axis, and write every resulting pixel that
/// lies on the canvas.
#[verifier::loop_isolation(false)]
#[verifier::rlimit(60)]
pub fn draw_line(p0: Vec2, p1: Vec2, frame: &mut Vec<u8>, color: [u8; 3])
    requires
        old(frame).len() == FRAME_LEN,
        mag(p0.x as int) <= COORD_LIM,
        mag(p0.y as int) <= COORD_LIM,
        mag(p1.x as int) <= COORD_LIM,
        mag(p1.y as int) <= COORD_LIM,
    ensures
        final(frame).len() == FRAME_LEN,
        forall|i: int|
            0 <= i < FRAME_LEN ==> final(frame)@[i] == (if line_pixel_written(
                p0,
                p1,
                px_col(i),
                px_row(i),
            ) {
                color_byte(color@, px_ch(i))
            } else {
                old(frame)@[i]
            }),
        final(frame)@ == line_apply_seq(p0, p1, old(frame)@, color@),
{
    let ghost a0 = p0;
    let ghost b0 = p1;
    let ghost f0 = old(frame)@;
    let mut p0 = p0;
    let mut p1 = p1;
    let dx = if p1.x >= p0.x {
        p1.x - p0.x
    } else {
        p0.x - p1.x
    };
    let dy = if p1.y >= p0.y {
        p1.y - p0.y
    } else {
        p0.y - p1.y
    };
    if dx > dy {
        if p0.x > p1.x {
            swap(&mut p0, &mut p1);
        }
        proof {
            assert(p0 == line_start(a0, b0) && p1 == line_end(a0, b0));
            lemma_ival_bound(p0.x as int, p0.y as int, p1.x as int, p1.y as int, COORD_LIM as int);
            lemma_fx_trunc_monotone(p0.x as int, p1.x as int);
        }
        let t0 = fx_trunc_e(p0.x);
        let t1 = fx_trunc_e(p1.x);
        let ys = interpolate(p0.x, p0.y, p1.x, p1.y);
        let mut x = t0;
        while x <= t1
            invariant
                t0 <= x <= t1 + 1,
                frame.len() == FRAME_LEN,
                forall|i: int|
                    0 <= i < FRAME_LEN ==> #[trigger] frame@[i] == (if line_pixel_written(
                        a0,
                        b0,
                        px_col(i),
                        px_row(i),
                    ) && px_col(i) - 450 < x {
                        color_byte(color@, px_ch(i))
                    } else {
                        old(frame)@[i]
                    }),
            decreases t1 + 1 - x,
        {
            let ghost n = isteps(p0.x as int, p1.x as int);
            let k = (x - t0) as usize;
            let yv = ys[k];
            proof {
                assert(n == t1 - t0);
                assert(yv == ival(p0.x as int, p0.y as int, p1.x as int, p1.y as int, k as int));
                assert(mag(yv as int) <= 3 * COORD_LIM + 4 * COORD_LIM * FX_ONE);
            }
            let row64: i64 = fx_trunc_e(29491200 - yv);
            let col64: i64 = x + 450;
            let drawn: bool = 0 <= col64 && col64 < 900 && 0 <= row64 && row64 < 900;
            if drawn {
                put_pixel(frame, col64 as u32, row64 as u32, color);
            }
            proof {
                assert forall|i: int| 0 <= i < FRAME_LEN implies frame@[i] == (
                if line_pixel_written(a0, b0, px_col(i), px_row(i)) && px_col(i) - 450 < x + 1 {
                    color_byte(color@, px_ch(i))
                } else {
                    old(frame)@[i]
                }) by {
                    lemma_pixel_split(i);
                    let col = px_col(i);
                    let row = px_row(i);
                    let ch = px_ch(i);
                    if drawn {
                        let base = 4 * (row64 * 900 + col64);
                        if col == col64 && row == row64 {
                            assert(i == base + ch);
                            assert(line_pixel_written(a0, b0, col, row));
                            assert(frame@[i] == color_byte(color@, ch));
                        } else {
                            assert(!(base <= i < base + 4)) by {
                                if base <= i < base + 4 {
                                    lemma_pixel_make(row64 as int, col64 as int, i - base);
                                }
                            }
                            assert(frame@[i] == old(frame)@[i] || frame@[i] == color_byte(
                                color@,
                                ch,
                            ));
                            if col == col64 {
                                assert(col - 450 - fx_trunc(p0.x as int) == k as int);
                                assert(!line_pixel_written(a0, b0, col, row));
                            }
                        }
                    } else {
                        if col == col64 {
                            assert(col - 450 - fx_trunc(p0.x as int) == k as int);
                            if line_pixel_written(a0, b0, col, row) {
                                assert(row == row64);
                                assert(false);
                            }
                        }
                    }
                }
            }
            x = x + 1;
        }
        proof {
            assert forall|i: int| 0 <= i < FRAME_LEN implies final(frame)@[i] == (
            if line_pixel_written(a0, b0, px_col(i), px_row(i)) {
                color_byte(color@, px_ch(i))
            } else {
                old(frame)@[i]
            }) by {
                lemma_pixel_split(i);
            }
            assert(frame@ =~= line_apply_seq(a0, b0, f0, color@));
        }
    } else {
        if p0.y > p1.y {
            swap(&mut p0, &mut p1);
        }
        proof {
            assert(p0 == line_start(a0, b0) && p1 == line_end(a0, b0));
            lemma_ival_bound(p0.y as int, p0.x as int, p1.y as int, p1.x as int, COORD_LIM as int);
            lemma_fx_trunc_monotone(p0.y as int, p1.y as int);
        }
        let t0 = fx_trunc_e(p0.y);
        let t1 = fx_trunc_e(p1.y);
        let xs = interpolate(p0.y, p0.x, p1.y, p1.x);
        let mut y = t0;
        while y <= t1
            invariant
                t0 <= y <= t1 + 1,
                frame.len() == FRAME_LEN,
                forall|i: int|
                    0 <= i < FRAME_LEN ==> #[trigger] frame@[i] == (if line_pixel_written(
                        a0,
                        b0,
                        px_col(i),
                        px_row(i),
                    ) && 450 - px_row(i) < y {
                        color_byte(color@, px_ch(i))
                    } else {
                        old(frame)@[i]
                    }),
            decreases t1 + 1 - y,
        {
            let ghost n = isteps(p0.y as int, p1.y as int);
            let k = (y - t0) as usize;
            let xv = xs[k];
            proof {
                assert(n == t1 - t0);
                assert(xv == ival(p0.y as int, p0.x as int, p1.y as int, p1.x as int, k as int));
                assert(mag(xv as int) <= 3 * COORD_LIM + 4 * COORD_LIM * FX_ONE);
            }
            let col64: i64 = fx_trunc_e(xv + 29491200);
            let row64: i64 = 450 - y;
            let drawn: bool = 0 <= col64 && col64 < 900 && 0 <= row64 && row64 < 900;
            if drawn {
                put_pixel(frame, col64 as u32, row64 as u32, color);
            }
            proof {
                assert forall|i: int| 0 <= i < FRAME_LEN implies frame@[i] == (
                if line_pixel_written(a0, b0, px_col(i), px_row(i)) && 450 - px_row(i) < y + 1 {
                    color_byte(color@, px_ch(i))
                } else {
                    old(frame)@[i]
                }) by {
                    lemma_pixel_split(i);
                    let col = px_col(i);
                    let row = px_row(i);
                    let ch = px_ch(i);
                    if drawn {
                        let base = 4 * (row64 * 900 + col64);
                        if col == col64 && row == row64 {
                            assert(i == base + ch);
                            assert(450 - row - fx_trunc(p0.y as int) == k as int);
                            assert(line_pixel_written(a0, b0, col, row));
                            assert(frame@[i] == color_byte(color@, ch));
                        } else {
                            assert(!(base <= i < base + 4)) by {
                                if base <= i < base + 4 {
                                    lemma_pixel_make(row64 as int, col64 as int, i - base);
                                }
                            }
                            if row == row64 {
                                assert(450 - row - fx_trunc(p0.y as int) == k as int);
                                if line_pixel_written(a0, b0, col, row) {
                                    assert(col == col64);
                                    assert(false);
                                }
                            }
                        }
                    } else {
                        if row == row64 {
                            assert(450 - row - fx_trunc(p0.y as int) == k as int);
                            if line_pixel_written(a0, b0, col, row) {
                                assert(col == col64);
                                assert(false);
                            }
                        }
                    }
                }
            }
            y = y + 1;
        }
        proof {
            assert forall|i: int| 0 <= i < FRAME_LEN implies final(frame)@[i] == (
            if line_pixel_written(a0, b0, px_col(i), px_row(i)) {
                color_byte(color@, px_ch(i))
            } else {
                old(frame)@[i]
            }) by {
                lemma_pixel_split(i);
            }
            assert(frame@ =~= line_apply_seq(a0, b0, f0, color@));
        }
    }
}

} // verus!

verus! {

/// One pixel depth cell per canvas pixel, row-major.
pub const DEPTH_LEN: usize = 810000;

/// A depth buffer: per pixel, either empty or the nearest camera-space depth
/// written so far this frame.
pub type Buffer = Vec<Option<i64>>;

/// A triangle's three screen points with their camera-space depths, sorted
/// by ascending y.
pub struct STri {
    pub q0: Vec2,
    pub q1: Vec2,
    pub q2: Vec2,
    pub w0: i64,
    pub w1: i64,
    pub w2: i64,
}

/// Sort the triangle's vertices by ascending y, each keeping its depth.
/// Mirrors the three-exchange sorting network the rasterizer performs.
pub open spec fn tri_sort(p0: Vec2, p1: Vec2, p2: Vec2, z0: i64, z1: i64, z2: i64) -> STri {
    let (a, az, b, bz) = if p0.y > p1.y {
        (p1, z1, p0, z0)
    } else {
        (p0, z0, p1, z1)
    };
    let (b2, b2z, c2, c2z) = if b.y > p2.y {
        (p2, z2, b, bz)
    } else {
        (b, bz, p2, z2)
    };
    let (a3, a3z, b3, b3z) = if a.y > b2.y {
        (b2, b2z, a, az)
    } else {
        (a, az, b2, b2z)
    };
    STri { q0: a3, q1: b3, q2: c2, w0: a3z, w1: b3z, w2: c2z }
}

/// Truncated y of the triangle's top vertex.
pub open spec fn tri_ty0(t: STri) -> int {
    fx_trunc(t.q0.y as int)
}

/// Truncated y of the triangle's middle vertex.
pub open spec fn tri_ty1(t: STri) -> int {
    fx_trunc(t.q1.y as int)
}

/// Truncated y of the triangle's bottom vertex.
pub open spec fn tri_ty2(t: STri) -> int {
    fx_trunc(t.q2.y as int)
}

/// Scanline count of the triangle's upper part.
pub open spec fn tri_j01(t: STri) -> int {
    tri_ty1(t) - tri_ty0(t)
}

/// Scanline count of the whole triangle (its last scanline is excluded).
pub open spec fn tri_rows(t: STri) -> int {
    tri_ty2(t) - tri_ty0(t)
}

/// x of the two-part boundary (top-to-middle, then middle-to-bottom) at
/// scanline step `j`.
pub open spec fn tri_x012_at(t: STri, j: int) -> int {
    if j < tri_j01(t) {
        ival(t.q0.y as int, t.q0.x as int, t.q1.y as int, t.q1.x as int, j)
    } else {
        ival(t.q1.y as int, t.q1.x as int, t.q2.y as int, t.q2.x as int, j - tri_j01(t))
    }
}

/// x of the long boundary (top directly to bottom) at scanline step `j`.
pub open spec fn tri_x02_at(t: STri, j: int) -> int {
    ival(t.q0.y as int, t.q0.x as int, t.q2.y as int, t.q2.x as int, j)
}

/// Depth along the two-part boundary at scanline step `j`.
pub open spec fn tri_z012_at(t: STri, j: int) -> int {
    if j < tri_j01(t) {
        ival(t.q0.y as int, t.w0 as int, t.q1.y as int, t.w1 as int, j)
    } else {
        ival(t.q1.y as int, t.w1 as int, t.q2.y as int, t.w2 as int, j - tri_j01(t))
    }
}

/// Depth along the long boundary at scanline step `j`.
pub open spec fn tri_z02_at(t: STri, j: int) -> int {
    ival(t.q0.y as int, t.w0 as int, t.q2.y as int, t.w2 as int, j)
}

/// The scanline step at which the two boundaries are compared to decide
/// which one is the left edge for the whole triangle.
pub open spec fn tri_mid(t: STri) -> int {
    (tri_rows(t) + 1) / 2
}

/// Whether the two-part boundary is the left edge.
pub open spec fn tri_left012(t: STri) -> bool {
    !(tri_x012_at(t, tri_mid(t)) > tri_x02_at(t, tri_mid(t)))
}

/// x of the left edge at scanline step `j`.
pub open spec fn tri_xl_at(t: STri, j: int) -> int {
    if tri_left012(t) {
        tri_x012_at(t, j)
    } else {
        tri_x02_at(t, j)
    }
}

/// x of the right edge at scanline step `j`.
pub open spec fn tri_xr_at(t: STri, j: int) -> int {
    if tri_left012(t) {
        tri_x02_at(t, j)
    } else {
        tri_x012_at(t, j)
    }
}

/// Depth at the left edge at scanline step `j`.
pub open spec fn tri_zl_at(t: STri, j: int) -> int {
    if tri_left012(t) {
        tri_z012_at(t, j)
    } else {
        tri_z02_at(t, j)
    }
}

/// Depth at the right edge at scanline step `j`.
pub open spec fn tri_zr_at(t: STri, j: int) -> int {
    if tri_left012(t) {
        tri_z02_at(t, j)
    } else {
        tri_z012_at(t, j)
    }
}

/// Truncated x of the left edge at scanline step `j`: the first pixel column
/// (canvas-centered) the scanline fills.
pub open spec fn tri_xlt(t: STri, j: int) -> int {
    fx_trunc(tri_xl_at(t, j))
}

/// Truncated x of the right edge at scanline step `j`: the fill stops before
/// this column.
pub open spec fn tri_xrt(t: STri, j: int) -> int {
    fx_trunc(tri_xr_at(t, j))
}

/// Whether filling the (sorted) triangle writes the pixel at buffer column
/// `col`, row `row`, before any depth test.
pub open spec fn tri_covered(t: STri, col: int, row: int) -> bool {
    let j = 450 - row - tri_ty0(t);
    let x = col - 450;
    &&& 0 <= j < tri_rows(t)
    &&& tri_xlt(t, j) <= x < tri_xrt(t, j)
}

/// The interpolated camera-space depth of the covered pixel at buffer column
/// `col`, row `row`: depth runs linearly between the scanline's left-edge and
/// right-edge depths, one step per pixel column.
pub open spec fn tri_depth_at(t: STri, col: int, row: int) -> int {
    let j = 450 - row - tri_ty0(t);
    ival(
        fx_of_int(tri_xlt(t, j)),
        tri_zl_at(t, j),
        fx_of_int(tri_xrt(t, j)),
        tri_zr_at(t, j),
        col - 450 - tri_xlt(t, j),
    )
}

/// Whether the pixel's interpolated depth passes the depth test against the
/// buffer `dv`: an empty cell always passes, a filled one only if the new
/// depth is at least as near.
pub open spec fn tri_pass(t: STri, dv: Seq<Option<i64>>, col: int, row: int) -> bool {
    match dv[row * 900 + col] {
        Option::None => true,
        Option::Some(d) => tri_depth_at(t, col, row) <= d,
    }
}

/// The frame buffer after filling the triangle over frame `f` with depth
/// buffer `dv`: each covered pixel that passes the depth test takes `color`
/// and an opaque alpha; every other byte is unchanged.
pub open spec fn tri_apply_frame_seq(t: STri, dv: Seq<Option<i64>>, f: Seq<u8>, color: Seq<u8>) -> Seq<u8> {
    Seq::new(
        f.len(),
        |i: int|
            if 0 <= i < FRAME_LEN && tri_covered(t, px_col(i), px_row(i)) && tri_pass(
                t,
                dv,
                px_col(i),
                px_row(i),
            ) {
                color_byte(color, px_ch(i))
            } else {
                f[i]
            },
    )
}

/// The depth buffer after filling the triangle: each covered pixel that
/// passes the depth test records its interpolated depth; every other cell is
/// unchanged.
pub open spec fn tri_apply_depth_seq(t: STri, dv: Seq<Option<i64>>) -> Seq<Option<i64>> {
    Seq::new(
        dv.len(),
        |p: int|
            if tri_covered(t, p % 900, p / 900) && tri_pass(t, dv, p % 900, p / 900) {
                Option::Some(tri_depth_at(t, p % 900, p / 900) as i64)
            } else {
                dv[p]
            },
    )
}

/// Every depth cell splits uniquely into a row and a column.
pub proof fn lemma_cell_split(p: int)
    requires
        0 <= p < DEPTH_LEN,
    ensures
        0 <= p % 900 < 900,
        0 <= p / 900 < 900,
        p == (p / 900) * 900 + (p % 900),
{
    vstd::arithmetic::div_mod::lemma_fundamental_div_mod(p, 900);
    vstd::arithmetic::div_mod::lemma_div_pos_is_pos(p, 900);
    vstd::arithmetic::div_mod::lemma_div_is_ordered(p, 809999, 900);
    vstd::arithmetic::div_mod::lemma_mod_division_less_than_divisor(p, 900);
}

/// Conversely, a row and a column name one depth cell.
pub proof fn lemma_cell_make(row: int, col: int)
    requires
        0 <= row < 900,
        0 <= col < 900,
    ensures
        0 <= row * 900 + col < DEPTH_LEN,
        (row * 900 + col) % 900 == col,
        (row * 900 + col) / 900 == row,
{
    vstd::arithmetic::div_mod::lemma_fundamental_div_mod_converse_div(
        row * 900 + col,
        900,
        row,
        col,
    );
    vstd::arithmetic::div_mod::lemma_fundamental_div_mod_converse_mod(
        row * 900 + col,
        900,
        row,
        col,
    );
}

/// Interpolation bounds for endpoints aligned on whole integer steps: the
/// step count is exactly the integer span, the slope no larger than the
/// dependent delta, and every value within one delta of the start.
pub proof fn lemma_ival_bound_aligned(u: int, d0: int, v: int, d1: int, m: int)
    requires
        mag(d0) <= m,
        mag(d1) <= m,
        0 <= m,
    ensures
        fx_trunc(u * FX_ONE) == u,
        fx_trunc(v * FX_ONE) == v,
        isteps(u * FX_ONE, v * FX_ONE) == v - u,
        mag(islope(u * FX_ONE, d0, v * FX_ONE, d1)) <= 2 * m,
        forall|k: int|
            0 <= k <= v - u ==> mag(#[trigger] ival(u * FX_ONE, d0, v * FX_ONE, d1, k)) <= 3 * m,
{
    let o = FX_ONE as int;
    lemma_fx_trunc_of_int(u);
    lemma_fx_trunc_of_int(v);
    let dd = d1 - d0;
    let ii = v * o - u * o;
    let a = islope(u * o, d0, v * o, d1);
    assert(ii == (v - u) * o) by (nonlinear_arith)
        requires
            ii == v * o - u * o,
    ;
    if v == u {
        assert(a == 0);
        assert forall|k: int| 0 <= k <= v - u implies mag(
            #[trigger] ival(u * o, d0, v * o, d1, k),
        ) <= 3 * m by {
            assert(k == 0);
        }
    } else {
        assert(a == div_trunc(dd * o, (v - u) * o));
        crate::fixed::lemma_div_trunc_scale(dd, v - u, o);
        assert(o * dd == dd * o && o * (v - u) == (v - u) * o) by (nonlinear_arith);
        assert(a == div_trunc(dd, v - u));
        assert(mag(a) == mag(dd) / mag(v - u));
        vstd::arithmetic::div_mod::lemma_div_nonincreasing(mag(dd), mag(v - u));
        assert(mag(a) <= 2 * m);
        if v > u {
            lemma_div_trunc_fundamental(dd, v - u);
            assert(mag(a) * mag(v - u) <= mag(dd));
            assert forall|k: int| 0 <= k <= v - u implies mag(
                #[trigger] ival(u * o, d0, v * o, d1, k),
            ) <= 3 * m by {
                assert(mag(k * a) <= mag(dd)) by (nonlinear_arith)
                    requires
                        0 <= k <= v - u,
                        mag(a) * mag(v - u) <= mag(dd),
                        v > u,
                        mag(v - u) == v - u,
                ;
                assert(mag(d0 + k * a) <= mag(d0) + mag(k * a));
            }
        } else {
            assert forall|k: int| 0 <= k <= v - u implies mag(
                #[trigger] ival(u * o, d0, v * o, d1, k),
            ) <= 3 * m by {
            }
        }
    }
}

/// Truncating a whole number of units recovers the number.
pub proof fn lemma_fx_trunc_of_int(u: int)
    ensures
        fx_trunc(u * FX_ONE) == u,
{
    let o = FX_ONE as int;
    assert(mag(u * o) == mag(u) * o) by (nonlinear_arith)
        requires
            o > 0,
    ;
    vstd::arithmetic::div_mod::lemma_div_by_multiple(mag(u), o);
    assert(mag(u) * o == o * mag(u)) by (nonlinear_arith);
    assert((mag(u) * o) / o == mag(u));
    assert(((u * o) >= 0) == (u >= 0)) by (nonlinear_arith)
        requires
            o > 0,
    ;
}

} // verus!

verus! {

/// Fill one scanline of a sorted triangle: walk the pixel columns from the
/// left edge (inclusive) to the right edge (exclusive), depth-test each
/// pixel against the buffer, and write color and depth where the test
/// passes. `zseg` holds the pixel depths of this scanline.
#[verifier::loop_isolation(false)]
#[verifier::rlimit(100)]
fn fill_scanline(
    Ghost(t): Ghost<STri>,
    Ghost(dv0): Ghost<Seq<Option<i64>>>,
    Ghost(f0): Ghost<Seq<u8>>,
    y: i64,
    xlt: i64,
    xrt: i64,
    zseg: &Vec<i64>,
    depth_buffer: &mut Buffer,
    frame: &mut Vec<u8>,
    color: [u8; 3],
)
    requires
        old(frame).len() == FRAME_LEN,
        old(depth_buffer).len() == DEPTH_LEN,
        tri_ty0(t) <= y < tri_ty2(t),
        xlt == tri_xlt(t, y - tri_ty0(t)),
        xrt == tri_xrt(t, y - tri_ty0(t)),
        mag(y as int) <= 0x1_0000_0000,
        mag(xlt as int) <= 0x1000_0000_0000,
        mag(xrt as int) <= 0x1000_0000_0000,
        forall|k: int|
            0 <= k < xrt - xlt ==> k < zseg.len() && #[trigger] zseg@[k] == tri_depth_at(
                t,
                xlt + k + 450,
                450 - y,
            ),
        forall|i: int|
            0 <= i < FRAME_LEN ==> #[trigger] old(frame)@[i] == (if tri_covered(
                t,
                px_col(i),
                px_row(i),
            ) && tri_pass(t, dv0, px_col(i), px_row(i)) && 450 - px_row(i) < y {
                color_byte(color@, px_ch(i))
            } else {
                f0[i]
            }),
        forall|p: int|
            0 <= p < DEPTH_LEN ==> #[trigger] old(depth_buffer)@[p] == (if tri_covered(
                t,
                p % 900,
                p / 900,
            ) && tri_pass(t, dv0, p % 900, p / 900) && 450 - p / 900 < y {
                Option::Some(tri_depth_at(t, p % 900, p / 900) as i64)
            } else {
                dv0[p]
            }),
    ensures
        final(frame).len() == FRAME_LEN,
        final(depth_buffer).len() == DEPTH_LEN,
        forall|i: int|
            0 <= i < FRAME_LEN ==> #[trigger] final(frame)@[i] == (if tri_covered(
                t,
                px_col(i),
                px_row(i),
            ) && tri_pass(t, dv0, px_col(i), px_row(i)) && 450 - px_row(i) < y + 1 {
                color_byte(color@, px_ch(i))
            } else {
                f0[i]
            }),
        forall|p: int|
            0 <= p < DEPTH_LEN ==> #[trigger] final(depth_buffer)@[p] == (if tri_covered(
                t,
                p % 900,
                p / 900,
            ) && tri_pass(t, dv0, p % 900, p / 900) && 450 - p / 900 < y + 1 {
                Option::Some(tri_depth_at(t, p % 900, p / 900) as i64)
            } else {
                dv0[p]
            }),
{
    let ghost j = y - tri_ty0(t);
    let row64: i64 = 450 - y;
    let mut x = xlt;
    while x < xrt
        invariant
            xlt <= x,
            frame.len() == FRAME_LEN,
            depth_buffer.len() == DEPTH_LEN,
            forall|i: int|
                0 <= i < FRAME_LEN ==> #[trigger] frame@[i] == (if tri_covered(
                    t,
                    px_col(i),
                    px_row(i),
                ) && tri_pass(t, dv0, px_col(i), px_row(i)) && (450 - px_row(i) < y || (450
                    - px_row(i) == y && px_col(i) - 450 < x)) {
                    color_byte(color@, px_ch(i))
                } else {
                    f0[i]
                }),
            forall|p: int|
                0 <= p < DEPTH_LEN ==> #[trigger] depth_buffer@[p] == (if tri_covered(
                    t,
                    p % 900,
                    p / 900,
                ) && tri_pass(t, dv0, p % 900, p / 900) && (450 - p / 900 < y || (450 - p / 900 == y
                    && p % 900 - 450 < x)) {
                    Option::Some(tri_depth_at(t, p % 900, p / 900) as i64)
                } else {
                    dv0[p]
                }),
        decreases xrt - x,
    {
        proof {
            assert(zseg@[x - xlt] == tri_depth_at(t, xlt + (x - xlt) + 450, 450 - y));
            assert(0 <= x - xlt < zseg.len());
        }
        let kk = (x - xlt) as usize;
        let zv = zseg[kk];
        let col64: i64 = x + 450;
        proof {
            assert(zv == tri_depth_at(t, col64 as int, row64 as int));
        }
        if 0 <= col64 && col64 < 900 && 0 <= row64 && row64 < 900 {
            let pidx = (row64 as usize) * 900 + (col64 as usize);
            proof {
                lemma_cell_make(row64 as int, col64 as int);
                assert(450 - (row64 as int) - tri_ty0(t) == j);
                assert(tri_covered(t, col64 as int, row64 as int));
                assert(depth_buffer@[pidx as int] == dv0[pidx as int]);
            }
            let cur = depth_buffer[pidx];
            let write: bool = match cur {
                Option::None => true,
                Option::Some(dcur) => zv <= dcur,
            };
            proof {
                assert(write == tri_pass(t, dv0, col64 as int, row64 as int));
            }
            if write {
                put_pixel(frame, col64 as u32, row64 as u32, color);
                depth_buffer[pidx] = Option::Some(zv);
            }
            proof {
                assert forall|i: int| 0 <= i < FRAME_LEN implies #[trigger] frame@[i] == (
                if tri_covered(t, px_col(i), px_row(i)) && tri_pass(t, dv0, px_col(i), px_row(i))
                    && (450 - px_row(i) < y || (450 - px_row(i) == y && px_col(i) - 450 < x + 1)) {
                    color_byte(color@, px_ch(i))
                } else {
                    f0[i]
                }) by {
                    lemma_pixel_split(i);
                    let col = px_col(i);
                    let row = px_row(i);
                    let ch = px_ch(i);
                    if write {
                        let base = 4 * ((row64 as int) * 900 + (col64 as int));
                        if col == col64 && row == row64 {
                            assert(i == base + ch);
                            assert(frame@[i] == color_byte(color@, ch));
                        } else {
                            assert(!(base <= i < base + 4)) by {
                                if base <= i < base + 4 {
                                    lemma_pixel_make(row64 as int, col64 as int, i - base);
                                }
                            }
                        }
                    }
                }
                assert forall|p: int| 0 <= p < DEPTH_LEN implies #[trigger] depth_buffer@[p] == (
                if tri_covered(t, p % 900, p / 900) && tri_pass(t, dv0, p % 900, p / 900) && (450 - p
                    / 900 < y || (450 - p / 900 == y && p % 900 - 450 < x + 1)) {
                    Option::Some(tri_depth_at(t, p % 900, p / 900) as i64)
                } else {
                    dv0[p]
                }) by {
                    lemma_cell_split(p);
                }
            }
        } else {
            proof {
                assert forall|i: int| 0 <= i < FRAME_LEN implies #[trigger] frame@[i] == (
                if tri_covered(t, px_col(i), px_row(i)) && tri_pass(t, dv0, px_col(i), px_row(i))
                    && (450 - px_row(i) < y || (450 - px_row(i) == y && px_col(i) - 450 < x + 1)) {
                    color_byte(color@, px_ch(i))
                } else {
                    f0[i]
                }) by {
                    lemma_pixel_split(i);
                }
                assert forall|p: int| 0 <= p < DEPTH_LEN implies #[trigger] depth_buffer@[p] == (
                if tri_covered(t, p % 900, p / 900) && tri_pass(t, dv0, p % 900, p / 900) && (450 - p
                    / 900 < y || (450 - p / 900 == y && p % 900 - 450 < x + 1)) {
                    Option::Some(tri_depth_at(t, p % 900, p / 900) as i64)
                } else {
                    dv0[p]
                }) by {
                    lemma_cell_split(p);
                }
            }
        }
        x = x + 1;
    }
    proof {
        assert forall|i: int| 0 <= i < FRAME_LEN implies #[trigger] frame@[i] == (if tri_covered(
            t,
            px_col(i),
            px_row(i),
        ) && tri_pass(t, dv0, px_col(i), px_row(i)) && 450 - px_row(i) < y + 1 {
            color_byte(color@, px_ch(i))
        } else {
            f0[i]
        }) by {
            lemma_pixel_split(i);
            if 450 - px_row(i) == y && tri_covered(t, px_col(i), px_row(i)) {
                assert(px_col(i) - 450 < tri_xrt(t, j));
            }
        }
        assert forall|p: int| 0 <= p < DEPTH_LEN implies #[trigger] depth_buffer@[p] == (
        if tri_covered(t, p % 900, p / 900) && tri_pass(t, dv0, p % 900, p / 900) && 450 - p / 900
            < y + 1 {
            Option::Some(tri_depth_at(t, p % 900, p / 900) as i64)
        } else {
            dv0[p]
        }) by {
            lemma_cell_split(p);
            if 450 - p / 900 == y && tri_covered(t, p % 900, p / 900) {
                assert(p % 900 - 450 < tri_xrt(t, j));
            }
        }
    }
}

} // verus!

verus! {

/// Fill the triangle `p0 p1 p2` whose vertices carry camera-space depths
/// `verts_z`, resolving overlap through the depth buffer: the vertices are
/// sorted by ascending y, the two boundary x and depth sequences are
/// interpolated down the scanlines, the boundaries are told apart once at
/// the vertical midpoint, and each scanline is filled left to right. A pixel
/// is written only when its interpolated depth is at least as near as the
/// depth already recorded for it; writing updates both buffers.
#[verifier::loop_isolation(false)]
#[verifier::rlimit(100)]
pub fn draw_triangle(
    p0: Vec2,
    p1: Vec2,
    p2: Vec2,
    verts_z: (i64, i64, i64),
    depth_buffer: &mut Buffer,
    frame: &mut Vec<u8>,
    color: [u8; 3],
)
    requires
        old(frame).len() == FRAME_LEN,
        old(depth_buffer).len() == DEPTH_LEN,
        mag(p0.x as int) <= COORD_LIM,
        mag(p0.y as int) <= COORD_LIM,
        mag(p1.x as int) <= COORD_LIM,
        mag(p1.y as int) <= COORD_LIM,
        mag(p2.x as int) <= COORD_LIM,
        mag(p2.y as int) <= COORD_LIM,
        mag(verts_z.0 as int) <= COORD_LIM,
        mag(verts_z.1 as int) <= COORD_LIM,
        mag(verts_z.2 as int) <= COORD_LIM,
    ensures
        final(frame)@ == tri_apply_frame_seq(
            tri_sort(p0, p1, p2, verts_z.0, verts_z.1, verts_z.2),
            old(depth_buffer)@,
            old(frame)@,
            color@,
        ),
        final(depth_buffer)@ == tri_apply_depth_seq(
            tri_sort(p0, p1, p2, verts_z.0, verts_z.1, verts_z.2),
            old(depth_buffer)@,
        ),
        final(frame).len() == FRAME_LEN,
        final(depth_buffer).len() == DEPTH_LEN,
{
    let ghost t = tri_sort(p0, p1, p2, verts_z.0, verts_z.1, verts_z.2);
    let ghost f0 = old(frame)@;
    let ghost dv0 = old(depth_buffer)@;
    let ghost vlim: int = 3 * (COORD_LIM as int) + 4 * (COORD_LIM as int) * (FX_ONE as int);
    let mut p0 = p0;
    let mut p1 = p1;
    let mut p2 = p2;
    let (mut z0, mut z1, mut z2) = verts_z;
    if p0.y > p1.y {
        swap(&mut p0, &mut p1);
        swap(&mut z0, &mut z1);
    }
    if p1.y > p2.y {
        swap(&mut p1, &mut p2);
        swap(&mut z1, &mut z2);
    }
    if p0.y > p1.y {
        swap(&mut p0, &mut p1);
        swap(&mut z0, &mut z1);
    }
    proof {
        assert(p0 == t.q0 && p1 == t.q1 && p2 == t.q2 && z0 == t.w0 && z1 == t.w1 && z2 == t.w2);
        assert(p0.y <= p1.y && p1.y <= p2.y);
        lemma_fx_trunc_monotone(p0.y as int, p1.y as int);
        lemma_fx_trunc_monotone(p1.y as int, p2.y as int);
        lemma_ival_bound(p0.y as int, p0.x as int, p1.y as int, p1.x as int, COORD_LIM as int);
        lemma_ival_bound(p1.y as int, p1.x as int, p2.y as int, p2.x as int, COORD_LIM as int);
        lemma_ival_bound(p0.y as int, p0.x as int, p2.y as int, p2.x as int, COORD_LIM as int);
        lemma_ival_bound(p0.y as int, z0 as int, p1.y as int, z1 as int, COORD_LIM as int);
        lemma_ival_bound(p1.y as int, z1 as int, p2.y as int, z2 as int, COORD_LIM as int);
        lemma_ival_bound(p0.y as int, z0 as int, p2.y as int, z2 as int, COORD_LIM as int);
    }
    let ty0 = fx_trunc_e(p0.y);
    let ty1 = fx_trunc_e(p1.y);
    let ty2 = fx_trunc_e(p2.y);
    let mut x01 = interpolate(p0.y, p0.x, p1.y, p1.x);
    let mut x12 = interpolate(p1.y, p1.x, p2.y, p2.x);
    let x02 = interpolate(p0.y, p0.x, p2.y, p2.x);
    let mut z01 = interpolate(p0.y, z0, p1.y, z1);
    let mut z12 = interpolate(p1.y, z1, p2.y, z2);
    let z02 = interpolate(p0.y, z0, p2.y, z2);
    let ghost x12v = x12@;
    let ghost z12v = z12@;
    x01.pop();
    x01.append(&mut x12);
    let x012 = x01;
    z01.pop();
    z01.append(&mut z12);
    let z012 = z01;
    let ghost n = tri_rows(t);
    let ghost j01 = tri_j01(t);
    proof {
        assert(n == ty2 - ty0 && j01 == ty1 - ty0);
        assert(0 <= j01 && j01 <= n);
        assert(x012@.len() == n + 1 && z012@.len() == n + 1);
        assert(x02@.len() == n + 1 && z02@.len() == n + 1);
        assert forall|j: int| 0 <= j <= n implies #[trigger] x012@[j] == tri_x012_at(t, j)
            && #[trigger] z012@[j] == tri_z012_at(t, j) && mag(tri_x012_at(t, j)) <= vlim && mag(
            tri_z012_at(t, j),
        ) <= vlim by {
            if j < j01 {
                assert(x012@[j] == ival(p0.y as int, p0.x as int, p1.y as int, p1.x as int, j));
                assert(z012@[j] == ival(p0.y as int, z0 as int, p1.y as int, z1 as int, j));
            } else {
                assert(x012@[j] == x12v[j - j01]);
                assert(z012@[j] == z12v[j - j01]);
                assert(x012@[j] == ival(
                    p1.y as int,
                    p1.x as int,
                    p2.y as int,
                    p2.x as int,
                    j - j01,
                ));
                assert(z012@[j] == ival(p1.y as int, z1 as int, p2.y as int, z2 as int, j - j01));
            }
        }
        assert forall|j: int| 0 <= j <= n implies #[trigger] x02@[j] == tri_x02_at(t, j)
            && #[trigger] z02@[j] == tri_z02_at(t, j) && mag(tri_x02_at(t, j)) <= vlim && mag(
            tri_z02_at(t, j),
        ) <= vlim by {
            assert(x02@[j] == ival(p0.y as int, p0.x as int, p2.y as int, p2.x as int, j));
            assert(z02@[j] == ival(p0.y as int, z0 as int, p2.y as int, z2 as int, j));
        }
    }
    let m = x02.len() / 2;
    proof {
        assert(m == tri_mid(t));
        if n > 0 {
            vstd::arithmetic::div_mod::lemma_div_is_ordered(n + 1, 2 * n, 2);
            vstd::arithmetic::div_mod::lemma_div_multiples_vanish(n, 2);
        }
        assert(m <= n);
    }
    let left012: bool = !(x012[m] > x02[m]);
    proof {
        assert(left012 == tri_left012(t));
    }
    let mut y = ty0;
    while y < ty2
        invariant
            ty0 <= y <= ty2,
            frame.len() == FRAME_LEN,
            depth_buffer.len() == DEPTH_LEN,
            forall|i: int|
                0 <= i < FRAME_LEN ==> #[trigger] frame@[i] == (if tri_covered(
                    t,
                    px_col(i),
                    px_row(i),
                ) && tri_pass(t, dv0, px_col(i), px_row(i)) && 450 - px_row(i) < y {
                    color_byte(color@, px_ch(i))
                } else {
                    f0[i]
                }),
            forall|p: int|
                0 <= p < DEPTH_LEN ==> #[trigger] depth_buffer@[p] == (if tri_covered(
                    t,
                    p % 900,
                    p / 900,
                ) && tri_pass(t, dv0, p % 900, p / 900) && 450 - p / 900 < y {
                    Option::Some(tri_depth_at(t, p % 900, p / 900) as i64)
                } else {
                    dv0[p]
                }),
        decreases ty2 - y,
    {
        let ghost j = (y - ty0) as int;
        let jj = (y - ty0) as usize;
        let xl = if left012 {
            x012[jj]
        } else {
            x02[jj]
        };
        let xr = if left012 {
            x02[jj]
        } else {
            x012[jj]
        };
        let zl = if left012 {
            z012[jj]
        } else {
            z02[jj]
        };
        let zr = if left012 {
            z02[jj]
        } else {
            z012[jj]
        };
        proof {
            assert(xl as int == tri_xl_at(t, j) && xr as int == tri_xr_at(t, j));
            assert(zl as int == tri_zl_at(t, j) && zr as int == tri_zr_at(t, j));
            assert(mag(xl as int) <= vlim && mag(xr as int) <= vlim);
            assert(mag(zl as int) <= vlim && mag(zr as int) <= vlim);
        }
        let xlt = fx_trunc_e(xl);
        let xrt = fx_trunc_e(xr);
        proof {
            assert(xlt as int == tri_xlt(t, j) && xrt as int == tri_xrt(t, j));
            lemma_ival_bound_aligned(xlt as int, zl as int, xrt as int, zr as int, vlim);
        }
        let il = fx_of_int_e(xlt);
        let ir = fx_of_int_e(xrt);
        let zseg = interpolate(il, zl, ir, zr);
        proof {
            assert forall|k: int| 0 <= k < xrt - xlt implies k < zseg.len()
                && #[trigger] zseg@[k] == tri_depth_at(t, xlt + k + 450, 450 - y) by {
                assert(isteps(il as int, ir as int) == xrt - xlt);
                assert(zseg@[k] == ival(il as int, zl as int, ir as int, zr as int, k));
                assert(450 - (450 - y) - tri_ty0(t) == j);
                assert((xlt + k + 450) - 450 - tri_xlt(t, j) == k);
            }
        }
        fill_scanline(
            Ghost(t),
            Ghost(dv0),
            Ghost(f0),
            y,
            xlt,
            xrt,
            &zseg,
            depth_buffer,
            frame,
            color,
        );
        y = y + 1;
    }
    proof {
        assert forall|i: int| 0 <= i < FRAME_LEN implies #[trigger] frame@[i]
            == tri_apply_frame_seq(t, dv0, f0, color@)[i] by {
            lemma_pixel_split(i);
            if tri_covered(t, px_col(i), px_row(i)) {
                assert(450 - px_row(i) < ty2);
            }
        }
        assert(frame@ =~= tri_apply_frame_seq(t, dv0, f0, color@));
        assert forall|p: int| 0 <= p < DEPTH_LEN implies #[trigger] depth_buffer@[p]
            == tri_apply_depth_seq(t, dv0)[p] by {
            lemma_cell_split(p);
            if tri_covered(t, p % 900, p / 900) {
                assert(450 - p / 900 < ty2);
            }
        }
        assert(depth_buffer@ =~= tri_apply_depth_seq(t, dv0));
    }
}

} // verus!

verus! {

/// A triangle whose three vertices carry the same depth has that depth at
/// every covered pixel.
pub proof fn lemma_const_depth(t: STri, col: int, row: int)
    requires
        t.w0 == t.w1,
        t.w1 == t.w2,
        tri_covered(t, col, row),
    ensures
        tri_depth_at(t, col, row) == t.w0,
{
    let j = 450 - row - tri_ty0(t);
    assert(tri_z012_at(t, j) == t.w0) by {
        assert(islope(t.q0.y as int, t.w0 as int, t.q1.y as int, t.w1 as int) == 0);
        assert(islope(t.q1.y as int, t.w1 as int, t.q2.y as int, t.w2 as int) == 0);
        if j < tri_j01(t) {
            assert(ival(t.q0.y as int, t.w0 as int, t.q1.y as int, t.w1 as int, j) == t.w0);
        } else {
            assert(ival(t.q1.y as int, t.w1 as int, t.q2.y as int, t.w2 as int, j - tri_j01(t))
                == t.w1);
        }
    }
    assert(tri_z02_at(t, j) == t.w0) by {
        assert(islope(t.q0.y as int, t.w0 as int, t.q2.y as int, t.w2 as int) == 0);
    }
    assert(tri_zl_at(t, j) == t.w0 && tri_zr_at(t, j) == t.w0);
    assert(islope(
        fx_of_int(tri_xlt(t, j)),
        tri_zl_at(t, j),
        fx_of_int(tri_xrt(t, j)),
        tri_zr_at(t, j),
    ) == 0);
}

/// Depth-buffer occlusion is draw-order independent: when two triangles of
/// constant depths cover the same pixel of a frame whose depth cell is still
/// empty, the pixel ends up with the nearer triangle's color whichever
/// triangle is drawn first.
pub proof fn lemma_depth_occlusion(
    ta: STri,
    ca: Seq<u8>,
    tb: STri,
    cb: Seq<u8>,
    f0: Seq<u8>,
    dv0: Seq<Option<i64>>,
    i: int,
)
    requires
        f0.len() == FRAME_LEN,
        dv0.len() == DEPTH_LEN,
        ta.w0 == ta.w1 && ta.w1 == ta.w2,
        tb.w0 == tb.w1 && tb.w1 == tb.w2,
        ta.w0 < tb.w0,
        0 <= i < FRAME_LEN,
        tri_covered(ta, px_col(i), px_row(i)),
        tri_covered(tb, px_col(i), px_row(i)),
        dv0[px_row(i) * 900 + px_col(i)] is None,
    ensures
        tri_apply_frame_seq(tb, tri_apply_depth_seq(ta, dv0), tri_apply_frame_seq(ta, dv0, f0, ca), cb)[i]
            == color_byte(ca, px_ch(i)),
        tri_apply_frame_seq(ta, tri_apply_depth_seq(tb, dv0), tri_apply_frame_seq(tb, dv0, f0, cb), ca)[i]
            == color_byte(ca, px_ch(i)),
{
    let col = px_col(i);
    let row = px_row(i);
    lemma_pixel_split(i);
    lemma_cell_make(row, col);
    let p = row * 900 + col;
    lemma_const_depth(ta, col, row);
    lemma_const_depth(tb, col, row);
    // Drawing the nearer triangle first: its depth blocks the farther one.
    let d1 = tri_apply_depth_seq(ta, dv0);
    assert(tri_pass(ta, dv0, col, row));
    assert(d1[p] == Option::Some(ta.w0));
    assert(!tri_pass(tb, d1, col, row));
    assert(tri_apply_frame_seq(ta, dv0, f0, ca)[i] == color_byte(ca, px_ch(i)));
    // Drawing the farther triangle first: the nearer one overwrites it.
    let d2 = tri_apply_depth_seq(tb, dv0);
    assert(tri_pass(tb, dv0, col, row));
    assert(d2[p] == Option::Some(tb.w0));
    assert(tri_pass(ta, d2, col, row));
}

} // verus!

verus! {

/// How close the interpolation's last value comes to `d1`: over a positive
/// whole-step span it differs from `d1` by at most two slope steps plus one
/// raw tick per step. (The first value is `d0` exactly, and the value count
/// is the step count plus one, by [`interpolate`]'s contract.)
pub proof fn lemma_interpolate_span(i0: int, d0: int, i1: int, d1: int)
    requires
        isteps(i0, i1) > 0,
    ensures
        ival(i0, d0, i1, d1, 0) == d0,
        mag(d1 - ival(i0, d0, i1, d1, isteps(i0, i1))) <= isteps(i0, i1) + 2 * mag(
            islope(i0, d0, i1, d1),
        ) + 2,
{
    let o = FX_ONE as int;
    let dd = d1 - d0;
    let ii = i1 - i0;
    let a = islope(i0, d0, i1, d1);
    let n = isteps(i0, i1);
    let t0 = fx_trunc(i0);
    let t1 = fx_trunc(i1);
    assert(ii > 0) by {
        if i1 <= i0 {
            lemma_fx_trunc_monotone(i1, i0);
        }
    }
    lemma_div_trunc_fundamental(dd * o, ii);
    lemma_div_trunc_fundamental(i0, o);
    lemma_div_trunc_fundamental(i1, o);
    let r = dd * o - a * ii;
    let e = n * o - ii;
    assert(mag(r) < ii);
    assert(mag(e) < 2 * o) by (nonlinear_arith)
        requires
            e == n * o - ii,
            n == t1 - t0,
            ii == i1 - i0,
            mag(i0 - t0 * o) < o,
            mag(i1 - t1 * o) < o,
            o > 0,
    ;
    // (dd - n*a) * ii = -dd*e + n*r, so its magnitude is under
    // 2*o*mag(dd) + n*ii, which the slope's division identity turns into
    // (2*mag(a) + 2 + n) * ii.
    let kbound = n + 2 * mag(a) + 2;
    assert(mag(dd * o) == mag(dd) * o) by (nonlinear_arith)
        requires
            o > 0,
    ;
    assert(mag(dd * o) < ii * (mag(a) + 1)) by {
        assert(mag(a) == mag(dd * o) / ii);
        vstd::arithmetic::div_mod::lemma_fundamental_div_mod(mag(dd * o), ii);
        assert(mag(dd * o) == ii * mag(a) + mag(dd * o) % ii);
        vstd::arithmetic::div_mod::lemma_mod_division_less_than_divisor(mag(dd * o), ii);
        assert(ii * mag(a) + ii == ii * (mag(a) + 1)) by (nonlinear_arith);
    }
    assert((dd - n * a) * ii == -dd * e + n * r) by (nonlinear_arith)
        requires
            r == dd * o - a * ii,
            e == n * o - ii,
    ;
    assert(mag(-dd * e + n * r) <= mag(dd) * (2 * o) + n * ii) by (nonlinear_arith)
        requires
            mag(r) < ii,
            mag(e) < 2 * o,
            n > 0,
            ii > 0,
    ;
    assert(mag(dd) * (2 * o) + n * ii < kbound * ii) by (nonlinear_arith)
        requires
            mag(dd) * o < ii * (mag(a) + 1),
            kbound == n + 2 * mag(a) + 2,
            n > 0,
            ii > 0,
            o > 0,
    ;
    assert(mag((dd - n * a) * ii) == mag(dd - n * a) * ii) by (nonlinear_arith)
        requires
            ii > 0,
    ;
    assert(mag(dd - n * a) * ii <= kbound * ii);
    assert(mag(dd - n * a) <= kbound) by {
        vstd::arithmetic::mul::lemma_mul_inequality_converse(mag(dd - n * a), kbound, ii);
    }
    assert(d1 - ival(i0, d0, i1, d1, n) == dd - n * a);
}

/// One channel of a shaded color: the base channel scaled by the fixed-point
/// intensity `h`, truncated to an integer and clamped to the byte range.
pub open spec fn shade_channel(c: u8, h: int) -> u8 {
    let v = div_trunc(c as int * h, FX_ONE as int);
    if v < 0 {
        0u8
    } else if v > 255 {
        255u8
    } else {
        v as u8
    }
}

/// Byte `ch` of an RGBA pixel holding `color` scaled by intensity `h`, with
/// an opaque alpha.
pub open spec fn shade_byte(color: Seq<u8>, h: int, ch: int) -> u8 {
    if ch == 3 {
        0xffu8
    } else {
        shade_channel(color[ch], h)
    }
}

/// The frame buffer after drawing the shaded triangle over frame `f`: each
/// covered pixel takes the base color scaled by the pixel's interpolated
/// intensity; every other byte is unchanged.
pub open spec fn shade_apply_frame_seq(t: STri, f: Seq<u8>, color: Seq<u8>) -> Seq<u8> {
    Seq::new(
        f.len(),
        |i: int|
            if 0 <= i < FRAME_LEN && tri_covered(t, px_col(i), px_row(i)) {
                shade_byte(color, tri_depth_at(t, px_col(i), px_row(i)), px_ch(i))
            } else {
                f[i]
            },
    )
}

/// Scale one color channel by the fixed-point intensity `h`, truncating and
/// clamping to the byte range.
pub fn shade_channel_e(c: u8, h: i64) -> (r: u8)
    ensures
        r == shade_channel(c, h as int),
{
    proof {
        assert(-0x8000_0000_0000_0000_0000 <= (c as int) * (h as int)
            <= 0x8000_0000_0000_0000_0000) by (nonlinear_arith)
            requires
                0 <= c <= 255,
                i64::MIN <= h <= i64::MAX,
        ;
    }
    let p: i128 = (c as i128) * (h as i128);
    let v: i128 = div_trunc_i128(p, 65536);
    if v < 0 {
        0
    } else if v > 255 {
        255
    } else {
        v as u8
    }
}

} // verus!

verus! {

/// Fill one scanline of a sorted shaded triangle: every on-canvas pixel of
/// the span takes the base color scaled by its interpolated intensity.
#[verifier::loop_isolation(false)]
#[verifier::rlimit(100)]
fn fill_scanline_shaded(
    Ghost(t): Ghost<STri>,
    Ghost(f0): Ghost<Seq<u8>>,
    y: i64,
    xlt: i64,
    xrt: i64,
    hseg: &Vec<i64>,
    frame: &mut Vec<u8>,
    color: [u8; 3],
)
    requires
        old(frame).len() == FRAME_LEN,
        tri_ty0(t) <= y < tri_ty2(t),
        xlt == tri_xlt(t, y - tri_ty0(t)),
        xrt == tri_xrt(t, y - tri_ty0(t)),
        mag(y as int) <= 0x1_0000_0000,
        mag(xlt as int) <= 0x1000_0000_0000,
        mag(xrt as int) <= 0x1000_0000_0000,
        forall|k: int|
            0 <= k < xrt - xlt ==> k < hseg.len() && #[trigger] hseg@[k] == tri_depth_at(
                t,
                xlt + k + 450,
                450 - y,
            ),
        forall|i: int|
            0 <= i < FRAME_LEN ==> #[trigger] old(frame)@[i] == (if tri_covered(
                t,
                px_col(i),
                px_row(i),
            ) && 450 - px_row(i) < y {
                shade_byte(color@, tri_depth_at(t, px_col(i), px_row(i)), px_ch(i))
            } else {
                f0[i]
            }),
    ensures
        final(frame).len() == FRAME_LEN,
        forall|i: int|
            0 <= i < FRAME_LEN ==> #[trigger] final(frame)@[i] == (if tri_covered(
                t,
                px_col(i),
                px_row(i),
            ) && 450 - px_row(i) < y + 1 {
                shade_byte(color@, tri_depth_at(t, px_col(i), px_row(i)), px_ch(i))
            } else {
                f0[i]
            }),
{
    let ghost j = y - tri_ty0(t);
    let row64: i64 = 450 - y;
    let mut x = xlt;
    while x < xrt
        invariant
            xlt <= x,
            frame.len() == FRAME_LEN,
            forall|i: int|
                0 <= i < FRAME_LEN ==> #[trigger] frame@[i] == (if tri_covered(
                    t,
                    px_col(i),
                    px_row(i),
                ) && (450 - px_row(i) < y || (450 - px_row(i) == y && px_col(i) - 450 < x)) {
                    shade_byte(color@, tri_depth_at(t, px_col(i), px_row(i)), px_ch(i))
                } else {
                    f0[i]
                }),
        decreases xrt - x,
    {
        proof {
            assert(hseg@[x - xlt] == tri_depth_at(t, xlt + (x - xlt) + 450, 450 - y));
            assert(0 <= x - xlt < hseg.len());
        }
        let kk = (x - xlt) as usize;
        let hv = hseg[kk];
        let col64: i64 = x + 450;
        proof {
            assert(hv == tri_depth_at(t, col64 as int, row64 as int));
        }
        if 0 <= col64 && col64 < 900 && 0 <= row64 && row64 < 900 {
            let shaded: [u8; 3] = [
                shade_channel_e(color[0], hv),
                shade_channel_e(color[1], hv),
                shade_channel_e(color[2], hv),
            ];
            proof {
                assert(450 - (row64 as int) - tri_ty0(t) == j);
                assert(tri_covered(t, col64 as int, row64 as int));
            }
            put_pixel(frame, col64 as u32, row64 as u32, shaded);
            proof {
                assert forall|i: int| 0 <= i < FRAME_LEN implies #[trigger] frame@[i] == (
                if tri_covered(t, px_col(i), px_row(i)) && (450 - px_row(i) < y || (450 - px_row(i)
                    == y && px_col(i) - 450 < x + 1)) {
                    shade_byte(color@, tri_depth_at(t, px_col(i), px_row(i)), px_ch(i))
                } else {
                    f0[i]
                }) by {
                    lemma_pixel_split(i);
                    let col = px_col(i);
                    let row = px_row(i);
                    let ch = px_ch(i);
                    let base = 4 * ((row64 as int) * 900 + (col64 as int));
                    if col == col64 && row == row64 {
                        assert(i == base + ch);
                        assert(frame@[i] == color_byte(shaded@, ch));
                        assert(color_byte(shaded@, ch) == shade_byte(color@, hv as int, ch));
                    } else {
                        assert(!(base <= i < base + 4)) by {
                            if base <= i < base + 4 {
                                lemma_pixel_make(row64 as int, col64 as int, i - base);
                            }
                        }
                    }
                }
            }
        } else {
            proof {
                assert forall|i: int| 0 <= i < FRAME_LEN implies #[trigger] frame@[i] == (
                if tri_covered(t, px_col(i), px_row(i)) && (450 - px_row(i) < y || (450 - px_row(i)
                    == y && px_col(i) - 450 < x + 1)) {
                    shade_byte(color@, tri_depth_at(t, px_col(i), px_row(i)), px_ch(i))
                } else {
                    f0[i]
                }) by {
                    lemma_pixel_split(i);
                }
            }
        }
        x = x + 1;
    }
    proof {
        assert forall|i: int| 0 <= i < FRAME_LEN implies #[trigger] frame@[i] == (if tri_covered(
            t,
            px_col(i),
            px_row(i),
        ) && 450 - px_row(i) < y + 1 {
            shade_byte(color@, tri_depth_at(t, px_col(i), px_row(i)), px_ch(i))
        } else {
            f0[i]
        }) by {
            lemma_pixel_split(i);
            if 450 - px_row(i) == y && tri_covered(t, px_col(i), px_row(i)) {
                assert(px_col(i) - 450 < tri_xrt(t, j));
            }
        }
    }
}

/// Fill the triangle `p0 p1 p2` whose vertices carry shading intensities
/// `h`: the same scanline structure as the depth-tested fill, but each
/// pixel's color is the base color scaled by the intensity interpolated
/// across the triangle, with no depth test.
#[verifier::loop_isolation(false)]
#[verifier::rlimit(100)]
pub fn draw_shaded_triangle(
    p0: Vec2,
    p1: Vec2,
    p2: Vec2,
    h: (i64, i64, i64),
    frame: &mut Vec<u8>,
    color: [u8; 3],
)
    requires
        old(frame).len() == FRAME_LEN,
        mag(p0.x as int) <= COORD_LIM,
        mag(p0.y as int) <= COORD_LIM,
        mag(p1.x as int) <= COORD_LIM,
        mag(p1.y as int) <= COORD_LIM,
        mag(p2.x as int) <= COORD_LIM,
        mag(p2.y as int) <= COORD_LIM,
        mag(h.0 as int) <= COORD_LIM,
        mag(h.1 as int) <= COORD_LIM,
        mag(h.2 as int) <= COORD_LIM,
    ensures
        final(frame)@ == shade_apply_frame_seq(
            tri_sort(p0, p1, p2, h.0, h.1, h.2),
            old(frame)@,
            color@,
        ),
        final(frame).len() == FRAME_LEN,
{
    let ghost t = tri_sort(p0, p1, p2, h.0, h.1, h.2);
    let ghost f0 = old(frame)@;
    let ghost vlim: int = 3 * (COORD_LIM as int) + 4 * (COORD_LIM as int) * (FX_ONE as int);
    let mut p0 = p0;
    let mut p1 = p1;
    let mut p2 = p2;
    let (mut h0, mut h1, mut h2) = h;
    if p0.y > p1.y {
        swap(&mut p0, &mut p1);
        swap(&mut h0, &mut h1);
    }
    if p1.y > p2.y {
        swap(&mut p1, &mut p2);
        swap(&mut h1, &mut h2);
    }
    if p0.y > p1.y {
        swap(&mut p0, &mut p1);
        swap(&mut h0, &mut h1);
    }
    proof {
        assert(p0 == t.q0 && p1 == t.q1 && p2 == t.q2 && h0 == t.w0 && h1 == t.w1 && h2 == t.w2);
        assert(p0.y <= p1.y && p1.y <= p2.y);
        lemma_fx_trunc_monotone(p0.y as int, p1.y as int);
        lemma_fx_trunc_monotone(p1.y as int, p2.y as int);
        lemma_ival_bound(p0.y as int, p0.x as int, p1.y as int, p1.x as int, COORD_LIM as int);
        lemma_ival_bound(p1.y as int, p1.x as int, p2.y as int, p2.x as int, COORD_LIM as int);
        lemma_ival_bound(p0.y as int, p0.x as int, p2.y as int, p2.x as int, COORD_LIM as int);
        lemma_ival_bound(p0.y as int, h0 as int, p1.y as int, h1 as int, COORD_LIM as int);
        lemma_ival_bound(p1.y as int, h1 as int, p2.y as int, h2 as int, COORD_LIM as int);
        lemma_ival_bound(p0.y as int, h0 as int, p2.y as int, h2 as int, COORD_LIM as int);
    }
    let ty0 = fx_trunc_e(p0.y);
    let ty2 = fx_trunc_e(p2.y);
    let ty1 = fx_trunc_e(p1.y);
    let mut x01 = interpolate(p0.y, p0.x, p1.y, p1.x);
    let mut x12 = interpolate(p1.y, p1.x, p2.y, p2.x);
    let x02 = interpolate(p0.y, p0.x, p2.y, p2.x);
    let mut h01 = interpolate(p0.y, h0, p1.y, h1);
    let mut h12 = interpolate(p1.y, h1, p2.y, h2);
    let h02 = interpolate(p0.y, h0, p2.y, h2);
    let ghost x12v = x12@;
    let ghost h12v = h12@;
    x01.pop();
    x01.append(&mut x12);
    let x012 = x01;
    h01.pop();
    h01.append(&mut h12);
    let h012 = h01;
    let ghost n = tri_rows(t);
    let ghost j01 = tri_j01(t);
    proof {
        assert(n == ty2 - ty0 && j01 == ty1 - ty0);
        assert(0 <= j01 && j01 <= n);
        assert(x012@.len() == n + 1 && h012@.len() == n + 1);
        assert(x02@.len() == n + 1 && h02@.len() == n + 1);
        assert forall|j: int| 0 <= j <= n implies #[trigger] x012@[j] == tri_x012_at(t, j)
            && #[trigger] h012@[j] == tri_z012_at(t, j) && mag(tri_x012_at(t, j)) <= vlim && mag(
            tri_z012_at(t, j),
        ) <= vlim by {
            if j < j01 {
                assert(x012@[j] == ival(p0.y as int, p0.x as int, p1.y as int, p1.x as int, j));
                assert(h012@[j] == ival(p0.y as int, h0 as int, p1.y as int, h1 as int, j));
            } else {
                assert(x012@[j] == x12v[j - j01]);
                assert(h012@[j] == h12v[j - j01]);
                assert(x012@[j] == ival(
                    p1.y as int,
                    p1.x as int,
                    p2.y as int,
                    p2.x as int,
                    j - j01,
                ));
                assert(h012@[j] == ival(p1.y as int, h1 as int, p2.y as int, h2 as int, j - j01));
            }
        }
        assert forall|j: int| 0 <= j <= n implies #[trigger] x02@[j] == tri_x02_at(t, j)
            && #[trigger] h02@[j] == tri_z02_at(t, j) && mag(tri_x02_at(t, j)) <= vlim && mag(
            tri_z02_at(t, j),
        ) <= vlim by {
            assert(x02@[j] == ival(p0.y as int, p0.x as int, p2.y as int, p2.x as int, j));
            assert(h02@[j] == ival(p0.y as int, h0 as int, p2.y as int, h2 as int, j));
        }
    }
    let m = x02.len() / 2;
    proof {
        assert(m == tri_mid(t));
        if n > 0 {
            vstd::arithmetic::div_mod::lemma_div_is_ordered(n + 1, 2 * n, 2);
            vstd::arithmetic::div_mod::lemma_div_multiples_vanish(n, 2);
        }
        assert(m <= n);
    }
    let left012: bool = !(x012[m] > x02[m]);
    proof {
        assert(left012 == tri_left012(t));
    }
    let mut y = ty0;
    while y < ty2
        invariant
            ty0 <= y <= ty2,
            frame.len() == FRAME_LEN,
            forall|i: int|
                0 <= i < FRAME_LEN ==> #[trigger] frame@[i] == (if tri_covered(
                    t,
                    px_col(i),
                    px_row(i),
                ) && 450 - px_row(i) < y {
                    shade_byte(color@, tri_depth_at(t, px_col(i), px_row(i)), px_ch(i))
                } else {
                    f0[i]
                }),
        decreases ty2 - y,
    {
        let ghost j = (y - ty0) as int;
        let jj = (y - ty0) as usize;
        let xl = if left012 {
            x012[jj]
        } else {
            x02[jj]
        };
        let xr = if left012 {
            x02[jj]
        } else {
            x012[jj]
        };
        let hl = if left012 {
            h012[jj]
        } else {
            h02[jj]
        };
        let hr = if left012 {
            h02[jj]
        } else {
            h012[jj]
        };
        proof {
            assert(xl as int == tri_xl_at(t, j) && xr as int == tri_xr_at(t, j));
            assert(hl as int == tri_zl_at(t, j) && hr as int == tri_zr_at(t, j));
            assert(mag(xl as int) <= vlim && mag(xr as int) <= vlim);
            assert(mag(hl as int) <= vlim && mag(hr as int) <= vlim);
        }
        let xlt = fx_trunc_e(xl);
        let xrt = fx_trunc_e(xr);
        proof {
            assert(xlt as int == tri_xlt(t, j) && xrt as int == tri_xrt(t, j));
            lemma_ival_bound_aligned(xlt as int, hl as int, xrt as int, hr as int, vlim);
        }
        let il = fx_of_int_e(xlt);
        let ir = fx_of_int_e(xrt);
        let hseg = interpolate(il, hl, ir, hr);
        proof {
            assert forall|k: int| 0 <= k < xrt - xlt implies k < hseg.len()
                && #[trigger] hseg@[k] == tri_depth_at(t, xlt + k + 450, 450 - y) by {
                assert(isteps(il as int, ir as int) == xrt - xlt);
                assert(hseg@[k] == ival(il as int, hl as int, ir as int, hr as int, k));
                assert(450 - (450 - y) - tri_ty0(t) == j);
                assert((xlt + k + 450) - 450 - tri_xlt(t, j) == k);
            }
        }
        fill_scanline_shaded(Ghost(t), Ghost(f0), y, xlt, xrt, &hseg, frame, color);
        y = y + 1;
    }
    proof {
        assert forall|i: int| 0 <= i < FRAME_LEN implies #[trigger] frame@[i]
            == shade_apply_frame_seq(t, f0, color@)[i] by {
            lemma_pixel_split(i);
            if tri_covered(t, px_col(i), px_row(i)) {
                assert(450 - px_row(i) < ty2);
            }
        }
        assert(frame@ =~= shade_apply_frame_seq(t, f0, color@));
    }
}

} // verus!
