use vstd::prelude::*;
use crate::BufferMux;
use vstd::arithmetic::div_mod::{lemma_div_multiples_vanish, lemma_fundamental_div_mod, lemma_mod_pos_bound, lemma_div_nonincreasing, lemma_div_is_strictly_smaller, lemma_fundamental_div_mod_converse};

verus! {

pub open spec fn abs(a: int) -> int {
    if a < 0 { -a } else { a }
}

/// The remainder of `a` by `b` as Rust's `%` computes it on signed integers:
/// the magnitude is `|a| mod |b|` and the sign is that of `a`.
pub open spec fn trunc_rem(a: int, b: int) -> int {
    if a >= 0 { abs(a) % abs(b) } else { -(abs(a) % abs(b)) }
}

/// The quotient of `a` by `b` as Rust's `/` computes it on signed integers:
/// the exact quotient rounded toward zero.
pub open spec fn trunc_div(a: int, b: int) -> int {
    if (a >= 0) == (b > 0) { abs(a) / abs(b) } else { -(abs(a) / abs(b)) }
}

/// Division rounded toward zero and its remainder recompose the dividend,
/// and the remainder is smaller than the divisor in magnitude.
pub proof fn lemma_trunc_div_rem(a: int, b: int)
    requires
        b != 0,
    ensures
        trunc_div(a, b) * b + trunc_rem(a, b) == a,
        abs(trunc_rem(a, b)) < abs(b),
{
    let (aa, bb) = (abs(a), abs(b));
    lemma_fundamental_div_mod(aa, bb);
    lemma_mod_pos_bound(aa, bb);
    let (q, r) = (aa / bb, aa % bb);
    if b < 0 {
        assert(q * b == -(bb * q)) by (nonlinear_arith)
            requires bb == -b;
        assert((-q) * b == bb * q) by (nonlinear_arith)
            requires bb == -b;
    } else {
        assert(q * b == bb * q) by (nonlinear_arith)
            requires bb == b;
        assert((-q) * b == -(bb * q)) by (nonlinear_arith)
            requires bb == b;
    }
}

/// Removing the remainder from `a` leaves a multiple of the positive `d`,
/// whose quotient rounded toward zero is the one of `a`.
proof fn lemma_exact_quotient(a: int, d: int)
    requires
        d > 0,
    ensures
        a - trunc_rem(a, d) >= 0 ==> (a - trunc_rem(a, d)) / d == trunc_div(a, d),
        a - trunc_rem(a, d) < 0 ==> -((trunc_rem(a, d) - a) / d) == trunc_div(a, d),
{
    lemma_fundamental_div_mod(abs(a), d);
    lemma_mod_pos_bound(abs(a), d);
    let q = abs(a) / d;
    lemma_div_multiples_vanish(q, d);
    if a >= 0 {
        assert(a - trunc_rem(a, d) == d * q);
    } else {
        assert(trunc_rem(a, d) - a == d * q);
    }
}

/// Bytes per pixel of the canvas: red, green, blue and alpha.
pub const CHANNELS: usize = 4;

/// A canvas of `4 * pixels` zero bytes: every pixel black and transparent.
pub fn blank_canvas(pixels: usize) -> (r: Vec<u8>)
    requires
        CHANNELS * pixels <= usize::MAX,
    ensures
        r@.len() == CHANNELS * pixels,
        forall|i: int| 0 <= i < r@.len() ==> r@[i] == 0,
{
    let n = CHANNELS * pixels;
    let mut buf: Vec<u8> = Vec::with_capacity(n);
    while buf.len() < n
        invariant
            buf@.len() <= n,
            forall|i: int| 0 <= i < buf@.len() ==> buf@[i] == 0,
        decreases n - buf@.len(),
    {
        buf.push(0);
    }
    buf
}

/// The canvas that a render fills: `canv_width * canv_height` pixels, row by
/// row, four bytes each, shared between the render threads.
pub struct RenderTarget {
    pub buff_mux: BufferMux,
    pub canv_width: i32,
    pub canv_height: i32,
}

impl RenderTarget {
    /// Turns the index of a pixel in the row-major canvas buffer into its
    /// `(column, row)` position.
    pub fn chunk_to_pix(&self, idx: i32) -> (r: (i32, i32))
        requires
            self.canv_width != 0,
            !(idx == i32::MIN && self.canv_width == -1),
        ensures
            r.0 == trunc_rem(idx as int, self.canv_width as int),
            r.1 == trunc_div(idx as int, self.canv_width as int),
            r.1 * self.canv_width + r.0 == idx,
    {
        let w = self.canv_width as i64;
        let width_len = if w < 0 { -w } else { w };
        let i = idx as i64;
        let x = i % width_len;
        let rows = (i - x) / width_len;
        let y = if w < 0 { -rows } else { rows };
        proof {
            lemma_trunc_div_rem(idx as int, self.canv_width as int);
            lemma_exact_quotient(i as int, width_len as int);
            assert(x == trunc_rem(i as int, width_len as int));
            assert(rows == trunc_div(i as int, width_len as int));
            lemma_div_nonincreasing(abs(i as int), width_len as int);
            if width_len > 1 && i != 0 {
                lemma_div_is_strictly_smaller(abs(i as int), width_len as int);
            }
            assert(i32::MIN <= y <= i32::MAX);
            assert(y == trunc_div(idx as int, self.canv_width as int));
        }
        (x as i32, y as i32)
    }
}

}

verus! {

/// Every index of a pixel of a `w` by `h` canvas names a column below `w`
/// and a row below `h`.
pub proof fn lemma_pixel_in_canvas(idx: int, w: int, h: int)
    requires
        w > 0,
        h > 0,
        0 <= idx < w * h,
    ensures
        0 <= trunc_rem(idx, w) < w,
        0 <= trunc_div(idx, w) < h,
{
    lemma_fundamental_div_mod(idx, w);
    lemma_mod_pos_bound(idx, w);
    let (q, r) = (idx / w, idx % w);
    assert(q >= 0) by (nonlinear_arith)
        requires idx == w * q + r, 0 <= r < w, idx >= 0, w > 0;
    assert(q < h) by (nonlinear_arith)
        requires idx == w * q + r, 0 <= r, idx < w * h, w > 0;
}

/// The pixel at column `x` and row `y` of a canvas `w` pixels wide has the
/// index `y * w + x`, and that index leads back to it.
pub proof fn lemma_pixel_roundtrip(x: int, y: int, w: int)
    requires
        w > 0,
        0 <= x < w,
        0 <= y,
    ensures
        trunc_rem(y * w + x, w) == x,
        trunc_div(y * w + x, w) == y,
{
    assert(y * w + x >= 0) by (nonlinear_arith)
        requires w > 0, 0 <= x, 0 <= y;
    lemma_fundamental_div_mod_converse(y * w + x, w, y, x);
}

}
