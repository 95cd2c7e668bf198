//! The int8 inference kernel: convolution, pooling, dense layers and softmax.
//!
//! Weights are stored as `i8` with one `scale` per tensor (symmetric, zero point 0): the real
//! value is about `scale * q`. The multiply-accumulate primitives are pure integer arithmetic,
//! summed into an `i32`; a separate step folds the scales back in. The accumulator wraps around
//! at 32 bits; [`law_accumulator_does_not_wrap`] says how many terms it holds without that.
use crate::elementary::Fn1;
use crate::float::{num, F32};
use crate::sort::sort_indices;
use crate::stroke::{ONE, ZERO};
use vstd::arithmetic::div_mod::*;
use vstd::arithmetic::mul::*;
use vstd::prelude::*;

verus! {

/// `-infinity`.
pub const NEG_INFINITY: u32 = 0xff80_0000;

/// 127.
pub const Q_MAX: u32 = 0x42fe_0000;

/// -127.
pub const Q_MIN: u32 = 0xc2fe_0000;

// ---------------------------------------------------------------------------------------------
// Accumulators
// ---------------------------------------------------------------------------------------------
/// The `i32` that differs from `v` by a multiple of `2^32`.
pub open spec fn wrapped(v: int) -> i32 {
    let m = v % 0x1_0000_0000;
    if m > i32::MAX {
        (m - 0x1_0000_0000) as i32
    } else {
        m as i32
    }
}

/// Adding to a wrapped sum wraps the sum.
proof fn lemma_wrapped_add(sum: int, x: i32)
    ensures
        wrapped(sum).wrapping_add(x) == wrapped(sum + x),
{
}

/// A value in the range of `i32` stays as it is.
pub proof fn lemma_wrapped_small(v: int)
    requires
        i32::MIN <= v <= i32::MAX,
    ensures
        wrapped(v) == v,
{
}

/// `acc + w * x`, wrapping.
fn accumulate(acc: i32, w: i8, x: i8, Ghost(sum): Ghost<int>) -> (r: i32)
    requires
        acc == wrapped(sum),
    ensures
        r == wrapped(sum + w * x),
{
    assert(-0x4000 <= w * x <= 0x4000) by (nonlinear_arith)
        requires
            -128 <= w <= 127,
            -128 <= x <= 127,
    ;
    proof {
        lemma_wrapped_add(sum, (w * x) as i32);
    }
    acc.wrapping_add(w as i32 * x as i32)
}

/// Entry `i` of a bias, or 0 past its end.
pub open spec fn bias_at(bias: Seq<i32>, i: int) -> int {
    if i < bias.len() {
        bias[i] as int
    } else {
        0
    }
}

fn get_bias(bias: &[i32], i: usize) -> (r: i32)
    ensures
        r == bias_at(bias@, i as int),
{
    if i < bias.len() {
        bias[i]
    } else {
        0
    }
}

// ---------------------------------------------------------------------------------------------
// Convolution
// ---------------------------------------------------------------------------------------------
/// The operands of a convolution: activations `[in_c][in_h][in_w]`, weights
/// `[out_c][in_c][kh][kw]`, both row-major.
pub struct Conv {
    pub input: Seq<i8>,
    pub in_c: int,
    pub in_h: int,
    pub in_w: int,
    pub weights: Seq<i8>,
    pub kh: int,
    pub kw: int,
    pub stride: int,
    pub pad: int,
}

impl Conv {
    /// The activation at channel `ic`, row `iy`, column `ix`; 0 in the padding.
    pub open spec fn x(self, ic: int, iy: int, ix: int) -> int {
        if 0 <= iy < self.in_h && 0 <= ix < self.in_w {
            self.input[(ic * self.in_h + iy) * self.in_w + ix] as int
        } else {
            0
        }
    }

    /// The weight from input channel `ic` to output channel `oc` at row `ky`, column `kx`.
    pub open spec fn w(self, oc: int, ic: int, ky: int, kx: int) -> int {
        self.weights[((oc * self.in_c + ic) * self.kh + ky) * self.kw + kx] as int
    }

    /// One product of the sum for output `(oc, oy, ox)`.
    pub open spec fn tap(self, oc: int, oy: int, ox: int, ic: int, ky: int, kx: int) -> int {
        self.w(oc, ic, ky, kx) * self.x(
            ic,
            oy * self.stride + ky - self.pad,
            ox * self.stride + kx - self.pad,
        )
    }

    /// The first `n` taps of kernel row `ky`.
    pub open spec fn row(self, oc: int, oy: int, ox: int, ic: int, ky: int, n: nat) -> int
        decreases n,
    {
        if n == 0 {
            0
        } else {
            self.row(oc, oy, ox, ic, ky, (n - 1) as nat) + self.tap(oc, oy, ox, ic, ky, n - 1)
        }
    }

    /// The first `n` kernel rows of input channel `ic`.
    pub open spec fn plane(self, oc: int, oy: int, ox: int, ic: int, n: nat) -> int
        decreases n,
    {
        if n == 0 {
            0
        } else {
            self.plane(oc, oy, ox, ic, (n - 1) as nat) + self.row(
                oc,
                oy,
                ox,
                ic,
                n - 1,
                self.kw as nat,
            )
        }
    }

    /// The first `n` input channels.
    pub open spec fn sum(self, oc: int, oy: int, ox: int, n: nat) -> int
        decreases n,
    {
        if n == 0 {
            0
        } else {
            self.sum(oc, oy, ox, (n - 1) as nat) + self.plane(
                oc,
                oy,
                ox,
                n - 1,
                self.kh as nat,
            )
        }
    }

    /// The number of output rows.
    pub open spec fn out_h(self) -> int {
        (self.in_h + 2 * self.pad - self.kh) / self.stride + 1
    }

    /// The number of output columns.
    pub open spec fn out_w(self) -> int {
        (self.in_w + 2 * self.pad - self.kw) / self.stride + 1
    }

    /// The exact sum for output `(oc, oy, ox)`.
    pub open spec fn exact(self, bias: Seq<i32>, oc: int, oy: int, ox: int) -> int {
        bias_at(bias, oc) + self.sum(oc, oy, ox, self.in_c as nat)
    }

    /// Do the operands have the sizes that they claim?
    pub open spec fn fits(self, out_c: int) -> bool {
        &&& self.in_c >= 0
        &&& self.in_h >= 0
        &&& self.in_w >= 0
        &&& self.kh >= 0
        &&& self.kw >= 0
        &&& self.stride >= 1
        &&& self.pad >= 0
        &&& self.in_c * self.in_h * self.in_w <= self.input.len()
        &&& out_c * self.in_c * self.kh * self.kw <= self.weights.len()
        &&& self.kh <= self.in_h + 2 * self.pad <= isize::MAX
        &&& self.kw <= self.in_w + 2 * self.pad <= isize::MAX
    }
}

/// The operands as they are passed to [`conv2d_i8`].
pub open spec fn operands(
    input: Seq<i8>,
    in_c: usize,
    in_h: usize,
    in_w: usize,
    weights: Seq<i8>,
    kh: usize,
    kw: usize,
    stride: usize,
    pad: usize,
) -> Conv {
    Conv {
        input,
        in_c: in_c as int,
        in_h: in_h as int,
        in_w: in_w as int,
        weights,
        kh: kh as int,
        kw: kw as int,
        stride: stride as int,
        pad: pad as int,
    }
}

/// The accumulators of a convolution, row-major `[out_c][out_h][out_w]`.
pub open spec fn convolved(c: Conv, out_c: int, bias: Seq<i32>) -> Seq<i32> {
    Seq::new(
        (out_c * c.out_h() * c.out_w()) as nat,
        |k: int|
            wrapped(
                c.exact(
                    bias,
                    k / c.out_w() / c.out_h(),
                    k / c.out_w() % c.out_h(),
                    k % c.out_w(),
                ),
            ),
    )
}

/// A row-major position in three dimensions, and back.
pub(super) proof fn lemma_position(a: int, b: int, c: int, bb: int, cc: int)
    requires
        0 <= a,
        0 <= b < bb,
        0 <= c < cc,
    ensures
        ({
            let k = (a * bb + b) * cc + c;
            &&& k / cc / bb == a
            &&& k / cc % bb == b
            &&& k % cc == c
            &&& 0 <= k
        }),
{
    let r = a * bb + b;
    let k = r * cc + c;
    assert(r >= 0) by (nonlinear_arith)
        requires
            r == a * bb + b,
            a >= 0,
            bb > 0,
            b >= 0,
    ;
    lemma_fundamental_div_mod_converse(k, cc, r, c);
    lemma_fundamental_div_mod_converse(r, bb, a, b);
    assert(k >= 0) by (nonlinear_arith)
        requires
            k == r * cc + c,
            r >= 0,
            cc > 0,
            c >= 0,
    ;
}

/// A row-major index stays below the size.
pub(super) proof fn lemma_index(a: int, aa: int, b: int, bb: int)
    requires
        0 <= a < aa,
        0 <= b < bb,
    ensures
        0 <= a * bb + b < aa * bb,
{
    assert(a * bb + b < aa * bb) by (nonlinear_arith)
        requires
            0 <= a,
            a + 1 <= aa,
            0 <= b < bb,
    ;
    assert(a * bb >= 0) by (nonlinear_arith)
        requires
            a >= 0,
            bb > 0,
    ;
}

/// One accumulator of a convolution.
fn conv_at(
    input: &[i8],
    in_c: usize,
    in_h: usize,
    in_w: usize,
    weights: &[i8],
    out_c: usize,
    kh: usize,
    kw: usize,
    bias: &[i32],
    stride: usize,
    pad: usize,
    oc: usize,
    oy: usize,
    ox: usize,
) -> (r: i32)
    requires
        ({
            let c = operands(input@, in_c, in_h, in_w, weights@, kh, kw, stride, pad);
            &&& c.fits(out_c as int)
            &&& oc < out_c
            &&& oy < c.out_h()
            &&& ox < c.out_w()
        }),
    ensures
        ({
            let c = operands(input@, in_c, in_h, in_w, weights@, kh, kw, stride, pad);
            r == wrapped(c.exact(bias@, oc as int, oy as int, ox as int))
        }),
{
    let ghost c = operands(input@, in_c, in_h, in_w, weights@, kh, kw, stride, pad);
    let ghost goc = oc as int;
    let ghost goy = oy as int;
    let ghost gox = ox as int;
    let mut acc: i32 = get_bias(bias, oc);
    let ghost base = bias_at(bias@, goc);
    proof {
        lemma_wrapped_small(base);
        // the window starts within the padded input
        lemma_window(in_h as int + 2 * pad as int, kh as int, stride as int, goy);
        lemma_window(in_w as int + 2 * pad as int, kw as int, stride as int, gox);
    }
    let mut ic: usize = 0;
    while ic < in_c
        invariant
            ic <= in_c,
            c == operands(input@, in_c, in_h, in_w, weights@, kh, kw, stride, pad),
            c.fits(out_c as int),
            oc < out_c,
            goc == oc,
            goy == oy,
            gox == ox,
            0 <= oy * stride <= in_h + 2 * pad - kh,
            0 <= ox * stride <= in_w + 2 * pad - kw,
            acc == wrapped(base + c.sum(goc, goy, gox, ic as nat)),
        decreases in_c - ic,
    {
        let mut ky: usize = 0;
        let ghost before = base + c.sum(goc, goy, gox, ic as nat);
        while ky < kh
            invariant
                ky <= kh,
                ic < in_c,
                c == operands(input@, in_c, in_h, in_w, weights@, kh, kw, stride, pad),
                c.fits(out_c as int),
                oc < out_c,
                goc == oc,
                goy == oy,
                gox == ox,
                0 <= oy * stride <= in_h + 2 * pad - kh,
                0 <= ox * stride <= in_w + 2 * pad - kw,
                acc == wrapped(before + c.plane(goc, goy, gox, ic as int, ky as nat)),
            decreases kh - ky,
        {
            let y: usize = oy * stride + ky;
            let ghost above = before + c.plane(goc, goy, gox, ic as int, ky as nat);
            if y >= pad && y - pad < in_h {
                let iy: usize = y - pad;
                let mut kx: usize = 0;
                while kx < kw
                    invariant
                        kx <= kw,
                        ky < kh,
                        ic < in_c,
                        c == operands(input@, in_c, in_h, in_w, weights@, kh, kw, stride, pad),
                        c.fits(out_c as int),
                        oc < out_c,
                        goc == oc,
                        goy == oy,
                        gox == ox,
                        y == oy * stride + ky,
                        iy == y - pad,
                        iy < in_h,
                        0 <= ox * stride <= in_w + 2 * pad - kw,
                        acc == wrapped(
                            above + c.row(goc, goy, gox, ic as int, ky as int, kx as nat),
                        ),
                    decreases kw - kx,
                {
                    let x: usize = ox * stride + kx;
                    let ghost sum = above + c.row(goc, goy, gox, ic as int, ky as int, kx as nat);
                    if x >= pad && x - pad < in_w {
                        let ix: usize = x - pad;
                        assert(weights.len() <= usize::MAX && input.len() <= usize::MAX);
                        proof {
                            // ((oc * in_c + ic) * kh + ky) * kw + kx is an index of weights
                            lemma_index(goc, out_c as int, ic as int, in_c as int);
                            lemma_index(
                                goc * in_c + ic,
                                out_c * in_c,
                                ky as int,
                                kh as int,
                            );
                            lemma_index(
                                (goc * in_c + ic) * kh + ky,
                                out_c * in_c * kh,
                                kx as int,
                                kw as int,
                            );
                            assert(goc * in_c >= 0) by (nonlinear_arith)
                                requires
                                    goc >= 0,
                                    in_c >= 0,
                            ;
                            lemma_below(goc * in_c, goc * in_c + ic, kh as int, ky as int);
                            lemma_below(
                                (goc * in_c + ic) * kh,
                                (goc * in_c + ic) * kh + ky,
                                kw as int,
                                kx as int,
                            );
                            lemma_index(ic as int, in_c as int, iy as int, in_h as int);
                            lemma_index(
                                ic * in_h + iy,
                                in_c * in_h,
                                ix as int,
                                in_w as int,
                            );
                            lemma_below(ic * in_h, ic * in_h + iy, in_w as int, ix as int);
                        }
                        let wi: usize = ((oc * in_c + ic) * kh + ky) * kw + kx;
                        let xi: usize = (ic * in_h + iy) * in_w + ix;
                        acc = accumulate(acc, weights[wi], input[xi], Ghost(sum));
                    } else {
                        assert(c.tap(goc, goy, gox, ic as int, ky as int, kx as int) == 0);
                    }
                    kx = kx + 1;
                }
            } else {
                proof {
                    lemma_row_in_padding(c, goc, goy, gox, ic as int, ky as int, kw as nat);
                }
            }
            ky = ky + 1;
        }
        ic = ic + 1;
    }
    acc
}

/// The parts of a row-major index are not larger than the index.
proof fn lemma_below(p: int, q: int, n: int, r: int)
    requires
        0 <= p <= q,
        n >= 1,
        r >= 0,
    ensures
        p <= q * n + r,
        q <= q * n,
        q <= q * n + r,
        q * n <= q * n + r,
{
    assert(q <= q * n) by (nonlinear_arith)
        requires
            q >= 0,
            n >= 1,
    ;
}

/// A kernel row that lies in the padding adds nothing.
proof fn lemma_row_in_padding(c: Conv, oc: int, oy: int, ox: int, ic: int, ky: int, n: nat)
    requires
        !(0 <= oy * c.stride + ky - c.pad < c.in_h),
    ensures
        c.row(oc, oy, ox, ic, ky, n) == 0,
    decreases n,
{
    if n > 0 {
        lemma_row_in_padding(c, oc, oy, ox, ic, ky, (n - 1) as nat);
        assert(c.w(oc, ic, ky, n - 1) * 0 == 0);
    }
}

/// The last window still fits.
proof fn lemma_window(room: int, k: int, stride: int, o: int)
    requires
        k <= room,
        stride >= 1,
        0 <= o < (room - k) / stride + 1,
    ensures
        0 <= o * stride <= room - k,
{
    let q = (room - k) / stride;
    lemma_fundamental_div_mod(room - k, stride);
    lemma_mod_bound(room - k, stride);
    assert(0 <= o * stride <= q * stride) by (nonlinear_arith)
        requires
            0 <= o <= q,
            stride >= 1,
    ;
    assert(stride * q == q * stride) by (nonlinear_arith);
}

/// Integer convolution: `i8` activations and `i8` weights to `i32` accumulators.
///
/// Layout (row-major): input `[in_c][in_h][in_w]`; weights `[out_c][in_c][kh][kw]`; `bias[out_c]`
/// is at the accumulator's scale. Returns `(acc, out_h, out_w)` with `acc` as
/// `[out_c][out_h][out_w]`.
pub fn conv2d_i8(
    input: &[i8],
    in_c: usize,
    in_h: usize,
    in_w: usize,
    weights: &[i8],
    out_c: usize,
    kh: usize,
    kw: usize,
    bias: &[i32],
    stride: usize,
    pad: usize,
) -> (r: (Vec<i32>, usize, usize))
    requires
        operands(input@, in_c, in_h, in_w, weights@, kh, kw, stride, pad).fits(out_c as int),
    ensures
        ({
            let c = operands(input@, in_c, in_h, in_w, weights@, kh, kw, stride, pad);
            &&& r.1 == c.out_h()
            &&& r.2 == c.out_w()
            &&& r.0@ == convolved(c, out_c as int, bias@)
        }),
{
    let ghost c = operands(input@, in_c, in_h, in_w, weights@, kh, kw, stride, pad);
    proof {
        lemma_div_is_ordered_by_denominator(in_h as int + 2 * pad as int - kh as int, 1, stride as int);
        lemma_div_is_ordered_by_denominator(in_w as int + 2 * pad as int - kw as int, 1, stride as int);
        lemma_div_pos_is_pos(in_h as int + 2 * pad as int - kh as int, stride as int);
        lemma_div_pos_is_pos(in_w as int + 2 * pad as int - kw as int, stride as int);
    }
    let out_h: usize = (in_h + 2 * pad - kh) / stride + 1;
    let out_w: usize = (in_w + 2 * pad - kw) / stride + 1;
    let mut out: Vec<i32> = Vec::new();
    let ghost want = |k: int| wrapped(
        c.exact(bias@, k / c.out_w() / c.out_h(), k / c.out_w() % c.out_h(), k % c.out_w()),
    );
    let mut oc: usize = 0;
    assert(0 * out_h as int * out_w as int == 0) by (nonlinear_arith);
    while oc < out_c
        invariant
            oc <= out_c,
            c == operands(input@, in_c, in_h, in_w, weights@, kh, kw, stride, pad),
            c.fits(out_c as int),
            out_h == c.out_h(),
            out_w == c.out_w(),
            out.len() == oc * out_h * out_w,
            forall|k: int|
                0 <= k < out.len() ==> #[trigger] out[k] == wrapped(
                    c.exact(
                        bias@,
                        k / c.out_w() / c.out_h(),
                        k / c.out_w() % c.out_h(),
                        k % c.out_w(),
                    ),
                ),
        decreases out_c - oc,
    {
        let mut oy: usize = 0;
        assert(oc * out_h * out_w == (oc * out_h + 0) * out_w) by (nonlinear_arith);
        while oy < out_h
            invariant
                oc < out_c,
                oy <= out_h,
                c == operands(input@, in_c, in_h, in_w, weights@, kh, kw, stride, pad),
                c.fits(out_c as int),
                out_h == c.out_h(),
                out_w == c.out_w(),
                out.len() == (oc * out_h + oy) * out_w,
                forall|k: int|
                    0 <= k < out.len() ==> #[trigger] out[k] == wrapped(
                        c.exact(
                            bias@,
                            k / c.out_w() / c.out_h(),
                            k / c.out_w() % c.out_h(),
                            k % c.out_w(),
                        ),
                    ),
            decreases out_h - oy,
        {
            let mut ox: usize = 0;
            while ox < out_w
                invariant
                    oc < out_c,
                    oy < out_h,
                    ox <= out_w,
                    c == operands(input@, in_c, in_h, in_w, weights@, kh, kw, stride, pad),
                    c.fits(out_c as int),
                    out_h == c.out_h(),
                    out_w == c.out_w(),
                    out.len() == (oc * out_h + oy) * out_w + ox,
                    forall|k: int|
                        0 <= k < out.len() ==> #[trigger] out[k] == wrapped(
                            c.exact(
                                bias@,
                                k / c.out_w() / c.out_h(),
                                k / c.out_w() % c.out_h(),
                                k % c.out_w(),
                            ),
                        ),
                decreases out_w - ox,
            {
                let acc = conv_at(
                    input,
                    in_c,
                    in_h,
                    in_w,
                    weights,
                    out_c,
                    kh,
                    kw,
                    bias,
                    stride,
                    pad,
                    oc,
                    oy,
                    ox,
                );
                proof {
                    lemma_position(oc as int, oy as int, ox as int, out_h as int, out_w as int);
                }
                out.push(acc);
                ox = ox + 1;
            }
            assert((oc * out_h + oy) * out_w + out_w == (oc * out_h + (oy + 1)) * out_w)
                by (nonlinear_arith);
            oy = oy + 1;
        }
        assert((oc * out_h + out_h) * out_w == (oc + 1) * out_h * out_w) by (nonlinear_arith);
        oc = oc + 1;
    }
    assert(out@ =~= convolved(c, out_c as int, bias@));
    (out, out_h, out_w)
}

/// The sum of `n` products for output `o` of a dense layer over inputs `x`.
pub open spec fn dot(x: Seq<i8>, weights: Seq<i8>, o: int, n: nat) -> int
    decreases n,
{
    if n == 0 {
        0
    } else {
        dot(x, weights, o, (n - 1) as nat) + weights[o * x.len() + (n - 1)] * x[n - 1]
    }
}

/// The accumulators of a dense layer.
pub open spec fn dense(x: Seq<i8>, weights: Seq<i8>, out_features: int, bias: Seq<i32>) -> Seq<
    i32,
> {
    Seq::new(
        out_features as nat,
        |o: int| wrapped(bias_at(bias, o) + dot(x, weights, o, x.len())),
    )
}

/// Fully-connected layer: `out[o]` is the sum over `i` of `weights[o * in + i] * input[i]`, plus
/// `bias[o]`, in `i32`. The weights are row-major `[out_features][in_features]`.
pub fn dense_i8(input: &[i8], weights: &[i8], out_features: usize, bias: &[i32]) -> (r: Vec<i32>)
    requires
        out_features * input.len() <= weights.len(),
    ensures
        r@ == dense(input@, weights@, out_features as int, bias@),
{
    let in_f: usize = input.len();
    assert(weights.len() <= usize::MAX);
    let mut out: Vec<i32> = Vec::new();
    let mut o: usize = 0;
    while o < out_features
        invariant
            o <= out_features,
            in_f == input.len(),
            out_features * in_f <= weights.len() <= usize::MAX,
            out@ == dense(input@, weights@, out_features as int, bias@).take(o as int),
        decreases out_features - o,
    {
        let mut acc: i32 = get_bias(bias, o);
        let ghost base = bias_at(bias@, o as int);
        proof {
            lemma_wrapped_small(base);
        }
        let mut i: usize = 0;
        while i < in_f
            invariant
                i <= in_f,
                o < out_features,
                in_f == input.len(),
                out_features * in_f <= weights.len() <= usize::MAX,
                acc == wrapped(base + dot(input@, weights@, o as int, i as nat)),
            decreases in_f - i,
        {
            proof {
                lemma_index(o as int, out_features as int, i as int, in_f as int);
                assert(o * in_f >= 0) by (nonlinear_arith);
            }
            let ghost sum = base + dot(input@, weights@, o as int, i as nat);
            acc = accumulate(acc, weights[o * in_f + i], input[i], Ghost(sum));
            i = i + 1;
        }
        proof {
            let want = dense(input@, weights@, out_features as int, bias@);
            assert(want.take(o + 1) =~= want.take(o as int).push(acc));
        }
        out.push(acc);
        o = o + 1;
    }
    assert(out@ =~= dense(input@, weights@, out_features as int, bias@));
    out
}

// ---------------------------------------------------------------------------------------------
// The accumulator is wide enough
// ---------------------------------------------------------------------------------------------
pub(super) proof fn lemma_product_bound(a: int, b: int)
    requires
        -128 <= a <= 127,
        -128 <= b <= 127,
    ensures
        -0x4000 <= a * b <= 0x4000,
{
    assert(-0x4000 <= a * b <= 0x4000) by (nonlinear_arith)
        requires
            -128 <= a <= 127,
            -128 <= b <= 127,
    ;
}

proof fn lemma_row_bound(c: Conv, oc: int, oy: int, ox: int, ic: int, ky: int, n: nat)
    ensures
        -(0x4000 * n) <= c.row(oc, oy, ox, ic, ky, n) <= 0x4000 * n,
    decreases n,
{
    if n > 0 {
        lemma_row_bound(c, oc, oy, ox, ic, ky, (n - 1) as nat);
        lemma_product_bound(
            c.w(oc, ic, ky, n - 1),
            c.x(ic, oy * c.stride + ky - c.pad, ox * c.stride + (n - 1) - c.pad),
        );
    }
}

proof fn lemma_plane_bound(c: Conv, oc: int, oy: int, ox: int, ic: int, n: nat)
    requires
        c.kw >= 0,
    ensures
        -(0x4000 * (n * c.kw)) <= c.plane(oc, oy, ox, ic, n) <= 0x4000 * (n * c.kw),
    decreases n,
{
    if n > 0 {
        lemma_plane_bound(c, oc, oy, ox, ic, (n - 1) as nat);
        lemma_row_bound(c, oc, oy, ox, ic, n - 1, c.kw as nat);
        assert(n * c.kw == (n - 1) * c.kw + c.kw) by (nonlinear_arith);
    } else {
        assert(0 * c.kw == 0);
    }
}

pub(super) proof fn lemma_sum_bound(c: Conv, oc: int, oy: int, ox: int, n: nat)
    requires
        c.kw >= 0,
        c.kh >= 0,
    ensures
        -(0x4000 * (n * (c.kh * c.kw))) <= c.sum(oc, oy, ox, n) <= 0x4000 * (n * (c.kh * c.kw)),
    decreases n,
{
    if n > 0 {
        lemma_sum_bound(c, oc, oy, ox, (n - 1) as nat);
        lemma_plane_bound(c, oc, oy, ox, n - 1, c.kh as nat);
        let area = c.kh * c.kw;
        assert(n * area == (n - 1) * area + area) by (nonlinear_arith);
    } else {
        assert(0 * (c.kh * c.kw) == 0) by (nonlinear_arith);
    }
}

/// The accumulator of a convolution does not overflow: with at most 65,000 products per output
/// and a bias of at most a billion, what it holds is the exact sum.
pub proof fn law_accumulator_does_not_wrap(c: Conv, bias: Seq<i32>, oc: int, oy: int, ox: int)
    requires
        c.in_c >= 0,
        c.kh >= 0,
        c.kw >= 0,
        c.in_c * (c.kh * c.kw) <= 65_000,
        -1_000_000_000 <= bias_at(bias, oc) <= 1_000_000_000,
    ensures
        wrapped(c.exact(bias, oc, oy, ox)) == c.exact(bias, oc, oy, ox),
{
    lemma_sum_bound(c, oc, oy, ox, c.in_c as nat);
    let terms = c.in_c * (c.kh * c.kw);
    assert(0x4000 * terms <= 0x4000 * 65_000);
    lemma_wrapped_small(c.exact(bias, oc, oy, ox));
}

// ---------------------------------------------------------------------------------------------
// Between scales
// ---------------------------------------------------------------------------------------------
/// An accumulator at the scale of the next layer: rounded, without negatives where `relu` is set,
/// and between -127 and 127 (-128 is left unused).
pub open spec fn requantized(acc: i32, multiplier: F32, relu: bool) -> i8 {
    let v = F32::from_i32(acc).times(multiplier).round().to_i32();
    if relu && v < 0 {
        0
    } else if v < -127 {
        (-127) as i8
    } else if v > 127 {
        127
    } else {
        v as i8
    }
}

/// Fold the scales back in and drop to `i8` for the next layer: `round(acc * multiplier)`, where
/// the multiplier is `sx * sw / s_out`. `relu` clamps negatives to 0.
pub fn requantize(acc: &Vec<i32>, multiplier: F32, relu: bool) -> (r: Vec<i8>)
    ensures
        r@ == Seq::new(acc@.len(), |i: int| requantized(acc[i], multiplier, relu)),
{
    let mut out: Vec<i8> = Vec::new();
    let mut i: usize = 0;
    while i < acc.len()
        invariant
            i <= acc.len(),
            out.len() == i,
            forall|j: int| 0 <= j < i ==> #[trigger] out[j] == requantized(acc[j], multiplier, relu),
        decreases acc.len() - i,
    {
        let v: i32 = F32::from_i32(acc[i]).times(multiplier).round().to_i32();
        let q: i8 = if relu && v < 0 {
            0
        } else if v < -127 {
            -127
        } else if v > 127 {
            127
        } else {
            v as i8
        };
        out.push(q);
        i = i + 1;
    }
    assert(out@ =~= Seq::new(acc@.len(), |i: int| requantized(acc[i], multiplier, relu)));
    out
}

/// The factor that takes a real value to the scale `scale`; 0 where the scale is not positive.
pub open spec fn inverse(scale: F32) -> F32 {
    if scale.gt(num(ZERO)) {
        num(ONE).over(scale)
    } else {
        num(ZERO)
    }
}

/// A real value at the given scale: rounded, and between -127 and 127.
pub open spec fn quantized(v: F32, scale: F32) -> i8 {
    v.times(inverse(scale)).round().clamp(num(Q_MIN), num(Q_MAX)).to_i8()
}

/// Quantize real values (a bitmap or a feature vector) to `i8` for the first layer:
/// `round(v / scale)`, clamped to `[-127, 127]`.
pub fn quantize_i8(vals: &[F32], scale: F32) -> (r: Vec<i8>)
    ensures
        r@ == Seq::new(vals@.len(), |i: int| quantized(vals[i], scale)),
{
    let inv = if scale.gt(num(ZERO)) {
        num(ONE).over(scale)
    } else {
        num(ZERO)
    };
    let mut out: Vec<i8> = Vec::new();
    let mut i: usize = 0;
    while i < vals.len()
        invariant
            i <= vals.len(),
            out.len() == i,
            inv == inverse(scale),
            forall|j: int| 0 <= j < i ==> #[trigger] out[j] == quantized(vals[j], scale),
        decreases vals.len() - i,
    {
        out.push(vals[i].times(inv).round().clamp(num(Q_MIN), num(Q_MAX)).to_i8());
        i = i + 1;
    }
    assert(out@ =~= Seq::new(vals@.len(), |i: int| quantized(vals[i], scale)));
    out
}

/// Turn integer accumulators back into real values: `scale * acc`. Used on the final logits.
pub fn dequantize_i32(acc: &Vec<i32>, scale: F32) -> (r: Vec<F32>)
    ensures
        r@ == Seq::new(acc@.len(), |i: int| F32::from_i32(acc[i]).times(scale)),
{
    let mut out: Vec<F32> = Vec::new();
    let mut i: usize = 0;
    while i < acc.len()
        invariant
            i <= acc.len(),
            out.len() == i,
            forall|j: int| 0 <= j < i ==> #[trigger] out[j] == F32::from_i32(acc[j]).times(scale),
        decreases acc.len() - i,
    {
        out.push(F32::from_i32(acc[i]).times(scale));
        i = i + 1;
    }
    assert(out@ =~= Seq::new(acc@.len(), |i: int| F32::from_i32(acc[i]).times(scale)));
    out
}

// ---------------------------------------------------------------------------------------------
// Pooling
// ---------------------------------------------------------------------------------------------
/// The operands of a pooling: activations `[c][h][w]`, row-major, and square windows.
pub struct Pool {
    pub input: Seq<i8>,
    pub h: int,
    pub w: int,
    pub k: int,
    pub stride: int,
}

impl Pool {
    pub open spec fn at(self, ch: int, y: int, x: int) -> i8 {
        self.input[(ch * self.h + y) * self.w + x]
    }

    /// The number of output rows.
    pub open spec fn out_h(self) -> int {
        (self.h - self.k) / self.stride + 1
    }

    /// The number of output columns.
    pub open spec fn out_w(self) -> int {
        (self.w - self.k) / self.stride + 1
    }

    /// The largest of the first `n` entries of window row `ky`, and of `start`.
    pub open spec fn row_max(
        self,
        start: i8,
        ch: int,
        oy: int,
        ox: int,
        ky: int,
        n: nat,
    ) -> i8
        decreases n,
    {
        if n == 0 {
            start
        } else {
            let m = self.row_max(start, ch, oy, ox, ky, (n - 1) as nat);
            let v = self.at(ch, oy * self.stride + ky, ox * self.stride + (n - 1));
            if v > m {
                v
            } else {
                m
            }
        }
    }

    /// The largest entry of the first `n` window rows.
    pub open spec fn window_max(self, ch: int, oy: int, ox: int, n: nat) -> i8
        decreases n,
    {
        if n == 0 {
            i8::MIN
        } else {
            self.row_max(
                self.window_max(ch, oy, ox, (n - 1) as nat),
                ch,
                oy,
                ox,
                n - 1,
                self.k as nat,
            )
        }
    }

    pub open spec fn fits(self, c: int) -> bool {
        &&& self.k >= 0
        &&& self.stride >= 1
        &&& self.k <= self.h <= isize::MAX + 1
        &&& self.k <= self.w <= isize::MAX + 1
        &&& c * self.h * self.w <= self.input.len()
    }
}

/// The maxima of all windows, row-major `[c][out_h][out_w]`.
pub open spec fn pooled(p: Pool, c: int) -> Seq<i8> {
    Seq::new(
        (c * p.out_h() * p.out_w()) as nat,
        |i: int|
            p.window_max(
                i / p.out_w() / p.out_h(),
                i / p.out_w() % p.out_h(),
                i % p.out_w(),
                p.k as nat,
            ),
    )
}

/// The largest entry of one window.
fn window_at(
    input: &[i8],
    c: usize,
    h: usize,
    w: usize,
    k: usize,
    stride: usize,
    ch: usize,
    oy: usize,
    ox: usize,
) -> (r: i8)
    requires
        ({
            let p = Pool { input: input@, h: h as int, w: w as int, k: k as int, stride: stride as int };
            &&& p.fits(c as int)
            &&& ch < c
            &&& oy < p.out_h()
            &&& ox < p.out_w()
        }),
    ensures
        ({
            let p = Pool { input: input@, h: h as int, w: w as int, k: k as int, stride: stride as int };
            r == p.window_max(ch as int, oy as int, ox as int, k as nat)
        }),
{
    let ghost p = Pool {
        input: input@,
        h: h as int,
        w: w as int,
        k: k as int,
        stride: stride as int,
    };
    proof {
        lemma_window(h as int, k as int, stride as int, oy as int);
        lemma_window(w as int, k as int, stride as int, ox as int);
    }
    assert(input.len() <= usize::MAX);
    let mut m: i8 = i8::MIN;
    let mut ky: usize = 0;
    while ky < k
        invariant
            ky <= k,
            p == (Pool {
                input: input@,
                h: h as int,
                w: w as int,
                k: k as int,
                stride: stride as int,
            }),
            p.fits(c as int),
            ch < c,
            input@.len() <= usize::MAX,
            0 <= oy * stride <= h - k,
            0 <= ox * stride <= w - k,
            m == p.window_max(ch as int, oy as int, ox as int, ky as nat),
        decreases k - ky,
    {
        let ghost start = m;
        let mut kx: usize = 0;
        while kx < k
            invariant
                kx <= k,
                ky < k,
                p == (Pool {
                    input: input@,
                    h: h as int,
                    w: w as int,
                    k: k as int,
                    stride: stride as int,
                }),
                p.fits(c as int),
                ch < c,
                input@.len() <= usize::MAX,
                0 <= oy * stride <= h - k,
                0 <= ox * stride <= w - k,
                m == p.row_max(start, ch as int, oy as int, ox as int, ky as int, kx as nat),
            decreases k - kx,
        {
            let y: usize = oy * stride + ky;
            let x: usize = ox * stride + kx;
            proof {
                lemma_index(ch as int, c as int, y as int, h as int);
                lemma_index(ch * h + y, c * h, x as int, w as int);
                assert(ch * h >= 0) by (nonlinear_arith);
                lemma_below(ch * h, ch * h + y, w as int, x as int);
            }
            let v: i8 = input[(ch * h + y) * w + x];
            if v > m {
                m = v;
            }
            kx = kx + 1;
        }
        ky = ky + 1;
    }
    m
}

/// Max-pooling over `k` by `k` windows on a `[c][h][w]` tensor. Pooling commutes with the
/// scaling, so the scale is unchanged.
pub fn maxpool2d_i8(
    input: &[i8],
    c: usize,
    h: usize,
    w: usize,
    k: usize,
    stride: usize,
) -> (r: (Vec<i8>, usize, usize))
    requires
        (Pool {
            input: input@,
            h: h as int,
            w: w as int,
            k: k as int,
            stride: stride as int,
        }).fits(c as int),
    ensures
        ({
            let p = Pool { input: input@, h: h as int, w: w as int, k: k as int, stride: stride as int };
            &&& r.1 == p.out_h()
            &&& r.2 == p.out_w()
            &&& r.0@ == pooled(p, c as int)
        }),
{
    let ghost p = Pool {
        input: input@,
        h: h as int,
        w: w as int,
        k: k as int,
        stride: stride as int,
    };
    proof {
        lemma_div_is_ordered_by_denominator(h as int - k as int, 1, stride as int);
        lemma_div_is_ordered_by_denominator(w as int - k as int, 1, stride as int);
        lemma_div_pos_is_pos(h as int - k as int, stride as int);
        lemma_div_pos_is_pos(w as int - k as int, stride as int);
    }
    let oh: usize = (h - k) / stride + 1;
    let ow: usize = (w - k) / stride + 1;
    let mut out: Vec<i8> = Vec::new();
    let mut ch: usize = 0;
    assert(0 * oh as int * ow as int == 0) by (nonlinear_arith);
    while ch < c
        invariant
            ch <= c,
            p == (Pool {
                input: input@,
                h: h as int,
                w: w as int,
                k: k as int,
                stride: stride as int,
            }),
            p.fits(c as int),
            oh == p.out_h(),
            ow == p.out_w(),
            out.len() == ch * oh * ow,
            forall|i: int|
                0 <= i < out.len() ==> #[trigger] out[i] == p.window_max(
                    i / p.out_w() / p.out_h(),
                    i / p.out_w() % p.out_h(),
                    i % p.out_w(),
                    p.k as nat,
                ),
        decreases c - ch,
    {
        let mut oy: usize = 0;
        assert(ch * oh * ow == (ch * oh + 0) * ow) by (nonlinear_arith);
        while oy < oh
            invariant
                ch < c,
                oy <= oh,
                p == (Pool {
                    input: input@,
                    h: h as int,
                    w: w as int,
                    k: k as int,
                    stride: stride as int,
                }),
                p.fits(c as int),
                oh == p.out_h(),
                ow == p.out_w(),
                out.len() == (ch * oh + oy) * ow,
                forall|i: int|
                    0 <= i < out.len() ==> #[trigger] out[i] == p.window_max(
                        i / p.out_w() / p.out_h(),
                        i / p.out_w() % p.out_h(),
                        i % p.out_w(),
                        p.k as nat,
                    ),
            decreases oh - oy,
        {
            let mut ox: usize = 0;
            while ox < ow
                invariant
                    ch < c,
                    oy < oh,
                    ox <= ow,
                    p == (Pool {
                        input: input@,
                        h: h as int,
                        w: w as int,
                        k: k as int,
                        stride: stride as int,
                    }),
                    p.fits(c as int),
                    oh == p.out_h(),
                    ow == p.out_w(),
                    out.len() == (ch * oh + oy) * ow + ox,
                    forall|i: int|
                        0 <= i < out.len() ==> #[trigger] out[i] == p.window_max(
                            i / p.out_w() / p.out_h(),
                            i / p.out_w() % p.out_h(),
                            i % p.out_w(),
                            p.k as nat,
                        ),
                decreases ow - ox,
            {
                let m = window_at(input, c, h, w, k, stride, ch, oy, ox);
                proof {
                    lemma_position(ch as int, oy as int, ox as int, oh as int, ow as int);
                }
                out.push(m);
                ox = ox + 1;
            }
            assert((ch * oh + oy) * ow + ow == (ch * oh + (oy + 1)) * ow) by (nonlinear_arith);
            oy = oy + 1;
        }
        assert((ch * oh + oh) * ow == (ch + 1) * oh * ow) by (nonlinear_arith);
        ch = ch + 1;
    }
    assert(out@ =~= pooled(p, c as int));
    (out, oh, ow)
}

/// Does the map keep the order of the values?
pub open spec fn non_decreasing(f: spec_fn(i8) -> i8) -> bool {
    forall|a: i8, b: i8| a <= b ==> #[trigger] f(a) <= #[trigger] f(b)
}

/// The same windows over values that went through a map.
pub open spec fn mapped(p: Pool, f: spec_fn(i8) -> i8) -> Pool {
    Pool { input: p.input.map_values(f), ..p }
}

/// An entry of a window lies in the input.
proof fn lemma_entry(p: Pool, c: int, ch: int, oy: int, ox: int, ky: int, kx: int)
    requires
        p.fits(c),
        0 <= ch < c,
        0 <= oy < p.out_h(),
        0 <= ox < p.out_w(),
        0 <= ky < p.k,
        0 <= kx < p.k,
    ensures
        0 <= (ch * p.h + (oy * p.stride + ky)) * p.w + (ox * p.stride + kx) < p.input.len(),
{
    let (y, x) = (oy * p.stride + ky, ox * p.stride + kx);
    lemma_window(p.h, p.k, p.stride, oy);
    lemma_window(p.w, p.k, p.stride, ox);
    lemma_index(ch, c, y, p.h);
    lemma_index(ch * p.h + y, c * p.h, x, p.w);
}

/// The largest of a window row, mapped. Before the first entry nothing is known of the map.
proof fn lemma_row_mapped(
    p: Pool,
    c: int,
    f: spec_fn(i8) -> i8,
    start: i8,
    other: i8,
    ch: int,
    oy: int,
    ox: int,
    ky: int,
    n: nat,
)
    requires
        p.fits(c),
        0 <= ch < c,
        0 <= oy < p.out_h(),
        0 <= ox < p.out_w(),
        0 <= ky < p.k,
        n <= p.k,
        non_decreasing(f),
        other == f(start) || start == i8::MIN && other == i8::MIN,
    ensures
        ({
            let m = p.row_max(start, ch, oy, ox, ky, n);
            let w = mapped(p, f).row_max(other, ch, oy, ox, ky, n);
            w == f(m) || n == 0 && w == other && m == start
        }),
    decreases n,
{
    if n > 0 {
        let before = (n - 1) as nat;
        lemma_row_mapped(p, c, f, start, other, ch, oy, ox, ky, before);
        lemma_entry(p, c, ch, oy, ox, ky, n - 1);
        let m = p.row_max(start, ch, oy, ox, ky, before);
        let v = p.at(ch, oy * p.stride + ky, ox * p.stride + (n - 1));
        assert(mapped(p, f).at(ch, oy * p.stride + ky, ox * p.stride + (n - 1)) == f(v));
        assert(m <= v ==> f(m) <= f(v));
        assert(v <= m ==> f(v) <= f(m));
    }
}

proof fn lemma_window_mapped(
    p: Pool,
    c: int,
    f: spec_fn(i8) -> i8,
    ch: int,
    oy: int,
    ox: int,
    n: nat,
)
    requires
        p.fits(c),
        0 <= ch < c,
        0 <= oy < p.out_h(),
        0 <= ox < p.out_w(),
        1 <= n <= p.k,
        non_decreasing(f),
    ensures
        mapped(p, f).window_max(ch, oy, ox, n) == f(p.window_max(ch, oy, ox, n)),
    decreases n,
{
    let before = (n - 1) as nat;
    if before > 0 {
        lemma_window_mapped(p, c, f, ch, oy, ox, before);
    }
    lemma_row_mapped(
        p,
        c,
        f,
        p.window_max(ch, oy, ox, before),
        mapped(p, f).window_max(ch, oy, ox, before),
        ch,
        oy,
        ox,
        n - 1,
        p.k as nat,
    );
}

/// Pooling commutes with every map that keeps the order of the values, such as a scaling or a
/// rectifier: it does not matter which comes first.
pub proof fn law_pooling_commutes_with_maps_that_keep_the_order(
    p: Pool,
    c: int,
    f: spec_fn(i8) -> i8,
)
    requires
        p.fits(c),
        p.k >= 1,
        c >= 0,
        non_decreasing(f),
    ensures
        pooled(mapped(p, f), c) == pooled(p, c).map_values(f),
{
    let (a, b) = (pooled(mapped(p, f), c), pooled(p, c).map_values(f));
    let (oh, ow) = (p.out_h(), p.out_w());
    assert(oh >= 1 && ow >= 1) by {
        lemma_div_pos_is_pos(p.h - p.k, p.stride);
        lemma_div_pos_is_pos(p.w - p.k, p.stride);
    }
    assert forall|i: int| 0 <= i < a.len() implies #[trigger] a[i] == b[i] by {
        let r = i / ow;
        assert(0 <= i < (c * oh) * ow);
        lemma_div_pos_is_pos(i, ow);
        lemma_multiply_divide_lt(i, ow, c * oh);
        lemma_div_pos_is_pos(r, oh);
        lemma_multiply_divide_lt(r, oh, c);
        lemma_mod_bound(i, ow);
        lemma_mod_bound(r, oh);
        lemma_window_mapped(p, c, f, r / oh, r % oh, i % ow, p.k as nat);
    }
    assert(a =~= b);
}

// ---------------------------------------------------------------------------------------------
// Ranking
// ---------------------------------------------------------------------------------------------
/// The largest of the first `n` values, and of minus infinity.
pub open spec fn largest(values: Seq<F32>, n: nat) -> F32
    decreases n,
{
    if n == 0 {
        num(NEG_INFINITY)
    } else {
        largest(values, (n - 1) as nat).max(values[n - 1])
    }
}

/// The sum of the first `n` values, from the left.
pub open spec fn total(values: Seq<F32>, n: nat) -> F32
    decreases n,
{
    if n == 0 {
        num(ZERO)
    } else {
        total(values, (n - 1) as nat).plus(values[n - 1])
    }
}

/// The exponentials of the values, each taken relative to the largest value.
pub open spec fn shifted_exp(values: Seq<F32>, exp: Fn1) -> Seq<F32> {
    Seq::new(values.len(), |i: int| exp(values[i].minus(largest(values, values.len()))))
}

/// The values in proportion to their sum; zeros where the sum is zero.
pub open spec fn proportions(values: Seq<F32>) -> Seq<F32> {
    let sum = total(values, values.len());
    Seq::new(
        values.len(),
        |i: int|
            if sum.same(num(ZERO)) {
                num(ZERO)
            } else {
                values[i].over(sum)
            },
    )
}

/// Numerically stable softmax: the largest value is subtracted before the exponential. `exp` is
/// the exponential function.
pub fn softmax<E: Fn(F32) -> F32>(logits: &[F32], exp: &E) -> (r: Vec<F32>)
    requires
        crate::elementary::callable1(*exp),
    ensures
        r.len() == logits.len(),
        forall|h: Fn1| #[trigger]
            crate::elementary::computes1(*exp, h) ==> r@ == proportions(
                shifted_exp(logits@, h),
            ),
{
    let mut max: F32 = num(NEG_INFINITY);
    let mut i: usize = 0;
    while i < logits.len()
        invariant
            i <= logits.len(),
            max == largest(logits@, i as nat),
        decreases logits.len() - i,
    {
        max = max.max(logits[i]);
        i = i + 1;
    }
    let mut exps: Vec<F32> = Vec::new();
    let mut j: usize = 0;
    while j < logits.len()
        invariant
            j <= logits.len(),
            exps.len() == j,
            max == largest(logits@, logits@.len()),
            crate::elementary::callable1(*exp),
            forall|k: int|
                0 <= k < j ==> call_ensures(*exp, (logits[k].minus(max),), #[trigger] exps[k]),
        decreases logits.len() - j,
    {
        let e = exp(logits[j].minus(max));
        exps.push(e);
        j = j + 1;
    }
    proof {
        assert forall|h: Fn1| #[trigger] crate::elementary::computes1(*exp, h) implies exps@
            == shifted_exp(logits@, h) by {
            assert forall|k: int| 0 <= k < exps.len() implies exps@[k] == shifted_exp(
                logits@,
                h,
            )[k] by {
                assert(call_ensures(*exp, (logits[k].minus(max),), exps[k]));
            }
            assert(exps@ =~= shifted_exp(logits@, h));
        }
    }
    normalize(&exps)
}

/// Does the function take every number up to zero to one between 0 and 1, as the exponential does?
pub open spec fn decays(exp: Fn1) -> bool {
    forall|x: F32|
        x.le(num(ZERO)) ==> num(ZERO).le(#[trigger] exp(x)) && exp(x).le(num(ONE))
}

/// The values of softmax are probabilities: of finite logits, whatever their number, each lies
/// between 0 and 1.
pub proof fn law_softmax_values_lie_between_zero_and_one(logits: Seq<F32>, exp: Fn1, i: int)
    requires
        decays(exp),
        forall|k: int| 0 <= k < logits.len() ==> (#[trigger] logits[k]).finite(),
        0 <= i < logits.len(),
    ensures
        num(ZERO).le(proportions(shifted_exp(logits, exp))[i]),
        proportions(shifted_exp(logits, exp))[i].le(num(ONE)),
{
    let n = logits.len();
    let exps = shifted_exp(logits, exp);
    assert forall|k: int| 0 <= k < n implies num(ZERO).le(#[trigger] exps[k]) && exps[k].le(
        num(ONE),
    ) by {
        lemma_largest(logits, n, k);
        let top = largest(logits, n);
        crate::float::monotone::lemma_difference(logits[k], top, top);
        assert(logits[k].minus(top).le(num(ZERO))) by {
            reveal(F32::le_spec);
        }
    }
    lemma_total(exps, n, i);
    let sum = total(exps, n);
    reveal(F32::le_spec);
    reveal(F32::same_spec);
    if !sum.same(num(ZERO)) {
        if sum.finite() {
            crate::float::monotone::lemma_unit_quotient(exps[i], sum);
        } else {
            reveal(F32::over_spec);
        }
    }
}

/// The largest of finite values is finite, and at least each of them.
pub(super) proof fn lemma_largest(values: Seq<F32>, n: nat, i: int)
    requires
        forall|k: int| 0 <= k < values.len() ==> (#[trigger] values[k]).finite(),
        0 <= i < n <= values.len(),
    ensures
        largest(values, n).finite(),
        values[i].le(largest(values, n)),
    decreases n,
{
    let before = largest(values, (n - 1) as nat);
    crate::float::order::lemma_min_max(before, values[n - 1]);
    if n > 1 {
        lemma_largest(values, (n - 1) as nat, if i < n - 1 {
            i
        } else {
            0
        });
    } else {
        reveal(F32::le_spec);
    }
    if i < n - 1 {
        crate::float::order::law_comparison_is_a_total_order(
            values[i],
            before,
            largest(values, n),
        );
    }
}

/// The sum of values between 0 and 1 is at least each of them.
pub(super) proof fn lemma_total(values: Seq<F32>, n: nat, i: int)
    requires
        forall|k: int|
            0 <= k < values.len() ==> num(ZERO).le(#[trigger] values[k]) && values[k].le(num(ONE)),
        n <= values.len(),
    ensures
        num(ZERO).le(total(values, n)),
        0 <= i < n ==> values[i].le(total(values, n)),
    decreases n,
{
    reveal(F32::le_spec);
    if n > 0 {
        let (before, last) = (total(values, (n - 1) as nat), values[n - 1]);
        lemma_total(values, (n - 1) as nat, i);
        if before.finite() {
            let zero = num(ZERO);
            crate::float::monotone::lemma_units_ordered(zero, before);
            crate::float::monotone::lemma_units_ordered(zero, last);
            crate::float::bound::lemma_sum_between(before, zero, before, before);
            crate::float::bound::lemma_sum_between(zero, last, last, last);
            crate::float::monotone::lemma_sum_monotone(before, zero, before, last);
            crate::float::monotone::lemma_sum_monotone(zero, last, before, last);
            crate::float::monotone::lemma_units_ordered(before, before.plus(zero));
            crate::float::monotone::lemma_units_ordered(last, zero.plus(last));
        } else {
            reveal(F32::plus_spec);
        }
    }
}

/// Divide by the sum, so that the values add up to one.
pub fn normalize(values: &Vec<F32>) -> (r: Vec<F32>)
    ensures
        r@ == proportions(values@),
{
    let mut sum: F32 = num(ZERO);
    let mut i: usize = 0;
    while i < values.len()
        invariant
            i <= values.len(),
            sum == total(values@, i as nat),
        decreases values.len() - i,
    {
        sum = sum.plus(values[i]);
        i = i + 1;
    }
    let zero = sum.same(num(ZERO));
    let mut out: Vec<F32> = Vec::new();
    let mut j: usize = 0;
    while j < values.len()
        invariant
            j <= values.len(),
            out.len() == j,
            sum == total(values@, values@.len()),
            zero == sum.same(num(ZERO)),
            forall|k: int| 0 <= k < j ==> #[trigger] out[k] == proportions(values@)[k],
        decreases values.len() - j,
    {
        if zero {
            out.push(num(ZERO));
        } else {
            out.push(values[j].over(sum));
        }
        j = j + 1;
    }
    assert(out@ =~= proportions(values@));
    out
}

/// The opposites of the values: what is largest comes first in their order.
pub open spec fn opposites(values: Seq<F32>) -> Seq<F32> {
    Seq::new(values.len(), |i: int| values[i].neg())
}

/// The indices of the values, from the largest value down; of equal values the lower index comes
/// first.
pub open spec fn ranking(values: Seq<F32>) -> Seq<int> {
    crate::sort::stable_order(opposites(values))
}

/// The number of entries that a top-`k` of `n` values has.
pub open spec fn top_len(n: nat, k: nat) -> nat {
    if k < n {
        k
    } else {
        n
    }
}

/// Ranked `(index, value)` pairs, highest first, of which there are at most `k`. Equal values are
/// ranked by index.
pub fn top_k(values: &Vec<F32>, k: usize) -> (r: Vec<(usize, F32)>)
    ensures
        r.len() == top_len(values@.len(), k as nat),
        forall|i: int|
            0 <= i < r.len() ==> (#[trigger] r[i]).0 == ranking(values@)[i] && r[i].0
                < values.len() && r[i].1 == values[r[i].0 as int],
{
    let mut keys: Vec<F32> = Vec::new();
    let mut i: usize = 0;
    while i < values.len()
        invariant
            i <= values.len(),
            keys@ == opposites(values@).take(i as int),
        decreases values.len() - i,
    {
        assert(opposites(values@).take(i + 1) =~= opposites(values@).take(i as int).push(
            values[i as int].neg(),
        ));
        keys.push(values[i].neg());
        i = i + 1;
    }
    assert(opposites(values@).take(i as int) =~= opposites(values@));
    let order = sort_indices(&keys);
    let mut out: Vec<(usize, F32)> = Vec::new();
    let mut j: usize = 0;
    while j < k && j < order.len()
        invariant
            j <= k,
            j <= order.len(),
            order.len() == values.len(),
            crate::sort::as_ints(order@) == ranking(values@),
            crate::sort::is_permutation(crate::sort::as_ints(order@), values.len() as nat),
            out.len() == j,
            forall|i: int|
                0 <= i < out.len() ==> (#[trigger] out[i]).0 == ranking(values@)[i] && out[i].0
                    < values.len() && out[i].1 == values[out[i].0 as int],
        decreases order.len() - j,
    {
        assert(crate::sort::as_ints(order@)[j as int] == order[j as int]);
        let at: usize = order[j];
        out.push((at, values[at]));
        j = j + 1;
    }
    out
}

/// A ranking is descending, and equal values are ranked by index, if no value is NaN.
pub proof fn law_ranking_is_descending(values: Seq<F32>, i: int, j: int)
    requires
        forall|k: int| 0 <= k < values.len() ==> !(#[trigger] values[k]).nan(),
        0 <= i < j < values.len(),
    ensures
        crate::sort::is_permutation(ranking(values), values.len()),
        values[ranking(values)[j]].le(values[ranking(values)[i]]),
        values[ranking(values)[j]].same(values[ranking(values)[i]]) ==> ranking(values)[i]
            < ranking(values)[j],
{
    let keys = opposites(values);
    reveal(F32::neg_spec);
    reveal(F32::le_spec);
    reveal(F32::same_spec);
    assert forall|k: int| 0 <= k < keys.len() implies !(#[trigger] keys[k]).nan() by {
        assert(!values[k].nan());
    }
    crate::sort::lemma_order_is_permutation(keys, keys.len());
    crate::sort::law_order_is_ascending_and_stable(keys, keys.len(), i, j);
    let a = ranking(values)[i];
    let b = ranking(values)[j];
    assert(!values[a].nan() && !values[b].nan());
    assert(keys[a] == values[a].neg() && keys[b] == values[b].neg());
}

} // verus!
