//! The forward pass: a quantized model, a bitmap and global features to ranked predictions. It
//! composes the [`kernel`](crate::classify::kernel) primitives in the order, and with the scales,
//! that the model was quantized against.
//!
//! Scale chaining (symmetric int8, zero point 0): each layer has its weight scale `sw` (on the
//! tensor) and `in_scale`, the scale of the activations that feed it. The multiplier from an
//! accumulator into the next layer is `in_scale * sw / next_in_scale`; the final layer multiplies
//! with `in_scale * sw` straight to logits.
//!
//! A weights blob is external input, so every shape is validated before it is used.
use crate::classify::kernel::{
    conv2d_i8, dense_i8, dequantize_i32, maxpool2d_i8, quantize_i8, requantize,
};
use crate::classify::weights::{Tensor, Weights};
use crate::classify::{rank_logits, Prediction};
use crate::elementary::Fn1;
use crate::error::Error;
use crate::float::F32;
use vstd::prelude::*;

verus! {

use crate::classify::kernel::{Conv, Pool};
use crate::classify::weights::TensorView;

/// The tensor with the given name. To be used where there is one.
pub open spec fn tensor(w: Seq<TensorView>, name: Seq<char>) -> TensorView {
    crate::classify::weights::find_tensor(w, name)->0
}

pub open spec fn holds(w: Seq<TensorView>, name: Seq<char>) -> bool {
    crate::classify::weights::find_tensor(w, name) is Some
}

/// Is there a scale of the given name?
pub open spec fn has_scale(w: Seq<TensorView>, name: Seq<char>) -> bool {
    holds(w, name) && crate::classify::weights::f32_entries(tensor(w, name)).len() > 0
}

/// The scale of the given name.
pub open spec fn scale(w: Seq<TensorView>, name: Seq<char>) -> F32 {
    crate::classify::weights::f32_entries(tensor(w, name))[0]
}

/// The convolution that a weight tensor `[out_c][in_c][kh][kw]` makes of the activations `x`.
pub open spec fn conv_with(t: TensorView, x: Seq<i8>, h: int, w: int) -> Conv {
    Conv {
        input: x,
        in_c: t.dims[1] as int,
        in_h: h,
        in_w: w,
        weights: crate::classify::weights::i8_entries(t),
        kh: t.dims[2] as int,
        kw: t.dims[3] as int,
        stride: 1,
        pad: (t.dims[2] - 1) / 2,
    }
}

/// Can the layer be computed: has it as many weights as it claims, does its kernel fit the
/// padded input, and is there something left to pool?
pub open spec fn layer_fits(t: TensorView, h: int, w: int) -> bool {
    let kh = t.dims[2] as int;
    let kw = t.dims[3] as int;
    let pad = (kh - 1) / 2;
    &&& kh >= 1
    &&& t.dims[0] * t.dims[1] * kh * kw <= crate::classify::weights::i8_entries(t).len()
    &&& kh + 1 <= h + 2 * pad <= isize::MAX
    &&& kw + 1 <= w + 2 * pad <= isize::MAX
}

/// Convolution, scaling with rectification, and pooling by two.
pub open spec fn layer(
    t: TensorView,
    bias: Seq<i32>,
    x: Seq<i8>,
    h: int,
    w: int,
    multiplier: F32,
) -> Seq<i8> {
    let c = conv_with(t, x, h, w);
    let acc = crate::classify::kernel::convolved(c, t.dims[0] as int, bias);
    let a = Seq::new(
        acc.len(),
        |i: int| crate::classify::kernel::requantized(acc[i], multiplier, true),
    );
    crate::classify::kernel::pooled(
        Pool { input: a, h: c.out_h(), w: c.out_w(), k: 2, stride: 2 },
        t.dims[0] as int,
    )
}

/// The height (or width) of a layer's output, for a kernel of `k` on a padded extent of `room`.
pub open spec fn pooled_extent(room: int, k: int) -> int {
    (room - k + 1 - 2) / 2 + 1
}

/// Real values at a scale.
pub open spec fn quantized_all(v: Seq<F32>, s: F32) -> Seq<i8> {
    Seq::new(v.len(), |i: int| crate::classify::kernel::quantized(v[i], s))
}

/// The logits of a model for a bitmap of `size` by `size` and a feature vector, or the reason why
/// the model does not fit them.
pub open spec fn logits_of(
    w: Seq<TensorView>,
    bitmap: Seq<F32>,
    features: Seq<F32>,
    size: int,
) -> Result<Seq<F32>, Error> {
    let c1 = tensor(w, "c1.w"@);
    let c2 = tensor(w, "c2.w"@);
    let f1 = tensor(w, "f1.w"@);
    let f2 = tensor(w, "f2.w"@);
    let s_c1 = scale(w, "c1.in_scale"@);
    let s_c2 = scale(w, "c2.in_scale"@);
    let s_f1 = scale(w, "f1.in_scale"@);
    let s_f2 = scale(w, "f2.in_scale"@);
    if !(holds(w, "c1.w"@) && holds(w, "c2.w"@) && holds(w, "f1.w"@) && holds(w, "f2.w"@) && holds(
        w,
        "c1.b"@,
    ) && holds(w, "c2.b"@) && holds(w, "f1.b"@) && holds(w, "f2.b"@)) {
        Err(Error::BadWeights("model tensor missing"))
    } else if !(has_scale(w, "c1.in_scale"@) && has_scale(w, "c2.in_scale"@) && has_scale(
        w,
        "f1.in_scale"@,
    ) && has_scale(w, "f2.in_scale"@)) {
        Err(Error::BadWeights("missing scale tensor"))
    } else if c1.dims.len() != 4 || c2.dims.len() != 4 || f1.dims.len() != 2 || f2.dims.len() != 2 {
        Err(Error::BadWeights("unexpected model tensor rank"))
    } else if size < 4 || bitmap.len() != size * size {
        Err(Error::BadWeights("bitmap size mismatch"))
    } else if c1.dims[1] != 1 || c2.dims[1] != c1.dims[0] {
        Err(Error::BadWeights("conv channel mismatch"))
    } else if !layer_fits(c1, size, size) {
        Err(Error::BadWeights("layer does not fit its input"))
    } else {
        let b1 = crate::classify::weights::i32_entries(tensor(w, "c1.b"@));
        let b2 = crate::classify::weights::i32_entries(tensor(w, "c2.b"@));
        let a1 = layer(
            c1,
            b1,
            quantized_all(bitmap, s_c1),
            size,
            size,
            s_c1.times(c1.scale).over(s_c2),
        );
        let pad1 = (c1.dims[2] - 1) / 2;
        let h = pooled_extent(size + 2 * pad1, c1.dims[2] as int);
        let wd = pooled_extent(size + 2 * pad1, c1.dims[3] as int);
        if !layer_fits(c2, h, wd) {
            Err(Error::BadWeights("layer does not fit its input"))
        } else {
            let a2 = layer(c2, b2, a1, h, wd, s_c2.times(c2.scale).over(s_f1));
            let joined = a2 + quantized_all(features, s_f1);
            let w1 = crate::classify::weights::i8_entries(f1);
            let w2 = crate::classify::weights::i8_entries(f2);
            if joined.len() != f1.dims[1] {
                Err(Error::BadWeights("fc1 input size mismatch"))
            } else if f1.dims[0] * joined.len() > w1.len() {
                Err(Error::BadWeights("layer does not fit its input"))
            } else if f1.dims[0] != f2.dims[1] {
                Err(Error::BadWeights("fc2 input size mismatch"))
            } else if f2.dims[0] * f1.dims[0] > w2.len() {
                Err(Error::BadWeights("layer does not fit its input"))
            } else {
                let acc1 = crate::classify::kernel::dense(
                    joined,
                    w1,
                    f1.dims[0] as int,
                    crate::classify::weights::i32_entries(tensor(w, "f1.b"@)),
                );
                let hidden = Seq::new(
                    acc1.len(),
                    |i: int|
                        crate::classify::kernel::requantized(
                            acc1[i],
                            s_f1.times(f1.scale).over(s_f2),
                            true,
                        ),
                );
                let acc2 = crate::classify::kernel::dense(
                    hidden,
                    w2,
                    f2.dims[0] as int,
                    crate::classify::weights::i32_entries(tensor(w, "f2.b"@)),
                );
                Ok(
                    Seq::new(
                        acc2.len(),
                        |i: int| F32::from_i32(acc2[i]).times(s_f2.times(f2.scale)),
                    ),
                )
            }
        }
    }
}

fn scalar<'a>(w: &Weights<'a>, name: &str) -> (r: Result<F32, Error>)
    ensures
        r == if has_scale(w@, name@) {
            Ok(scale(w@, name@))
        } else {
            Err(Error::BadWeights("missing scale tensor"))
        },
{
    match w.get(name) {
        Some(t) => {
            let values = t.as_f32();
            if values.len() > 0 {
                Ok(values[0])
            } else {
                Err(Error::BadWeights("missing scale tensor"))
            }
        },
        None => Err(Error::BadWeights("missing scale tensor")),
    }
}

fn require<'a, 'b>(w: &'b Weights<'a>, name: &str) -> (r: Result<&'b Tensor<'a>, Error>)
    ensures
        match r {
            Ok(t) => holds(w@, name@) && t@ == tensor(w@, name@),
            Err(e) => !holds(w@, name@) && e == Error::BadWeights("model tensor missing"),
        },
{
    match w.get(name) {
        Some(t) => Ok(t),
        None => Err(Error::BadWeights("model tensor missing")),
    }
}

/// The four dimensions of a convolution's weights.
fn dims4<'a>(t: &Tensor<'a>) -> (r: (usize, usize, usize, usize))
    requires
        t@.dims.len() == 4,
    ensures
        r.0 == t@.dims[0],
        r.1 == t@.dims[1],
        r.2 == t@.dims[2],
        r.3 == t@.dims[3],
{
    (t.dims[0] as usize, t.dims[1] as usize, t.dims[2] as usize, t.dims[3] as usize)
}

proof fn lemma_four(a: u32, b: u32, c: u32, d: u32)
    ensures
        0 <= a * b <= 0xffff_ffff * 0xffff_ffff,
        0 <= a * b * c <= 0xffff_ffff * 0xffff_ffff * 0xffff_ffff,
        0 <= a * b * c * d <= 0xffff_ffff * 0xffff_ffff * 0xffff_ffff * 0xffff_ffff,
{
    let m = 0xffff_ffffint;
    assert(0 <= a * b <= m * m) by (nonlinear_arith)
        requires
            0 <= a <= m,
            0 <= b <= m,
    ;
    let ab = a * b;
    assert(0 <= ab * c <= m * m * m) by (nonlinear_arith)
        requires
            0 <= ab <= m * m,
            0 <= c <= m,
            m > 0,
    ;
    let abc = ab * c;
    assert(0 <= abc * d <= m * m * m * m) by (nonlinear_arith)
        requires
            0 <= abc <= m * m * m,
            0 <= d <= m,
            m > 0,
    ;
}

/// Convolution, scaling with rectification, and pooling by two; nothing if the layer does not fit.
fn conv_layer<'a>(
    t: &Tensor<'a>,
    bias: &Vec<i32>,
    x: &Vec<i8>,
    h: usize,
    w: usize,
    multiplier: F32,
) -> (r: Option<(Vec<i8>, usize, usize)>)
    requires
        t@.dims.len() == 4,
        x@.len() == t@.dims[1] * h * w,
    ensures
        match r {
            Some(out) => {
                &&& layer_fits(t@, h as int, w as int)
                &&& out.0@ == layer(t@, bias@, x@, h as int, w as int, multiplier)
                &&& out.1 == pooled_extent(h + 2 * ((t@.dims[2] - 1) / 2), t@.dims[2] as int)
                &&& out.2 == pooled_extent(w + 2 * ((t@.dims[2] - 1) / 2), t@.dims[3] as int)
                &&& out.0@.len() == t@.dims[0] * out.1 * out.2
            },
            None => !layer_fits(t@, h as int, w as int),
        },
{
    let (out_c, in_c, kh, kw) = dims4(t);
    if kh < 1 {
        return None;
    }
    let weights = t.as_i8();
    proof {
        lemma_four(t@.dims[0], t@.dims[1], t@.dims[2], t@.dims[3]);
    }
    let need: u128 = t.dims[0] as u128 * t.dims[1] as u128 * t.dims[2] as u128 * t.dims[3] as u128;
    let pad: usize = (kh - 1) / 2;
    let room_h: u128 = h as u128 + 2 * pad as u128;
    let room_w: u128 = w as u128 + 2 * pad as u128;
    let limit: u128 = isize::MAX as u128;
    if need > weights.len() as u128 || kh as u128 + 1 > room_h || room_h > limit || kw as u128 + 1
        > room_w || room_w > limit {
        return None;
    }
    let ghost c = conv_with(t@, x@, h as int, w as int);
    let (acc, ch, cw) = conv2d_i8(
        x.as_slice(),
        in_c,
        h,
        w,
        weights.as_slice(),
        out_c,
        kh,
        kw,
        bias.as_slice(),
        1,
        pad,
    );
    proof {
        assert(crate::classify::kernel::operands(
            x@,
            in_c,
            h,
            w,
            weights@,
            kh,
            kw,
            1,
            pad,
        ) == c);
        vstd::arithmetic::div_mod::lemma_div_by_self(1);
        assert(c.out_h() == h + 2 * pad - kh + 1);
        assert(c.out_w() == w + 2 * pad - kw + 1);
    }
    let a = requantize(&acc, multiplier, true);
    proof {
        assert(a@.len() == out_c * c.out_h() * c.out_w()) by {
            assert(out_c * c.out_h() * c.out_w() >= 0) by (nonlinear_arith)
                requires
                    out_c >= 0,
                    c.out_h() >= 0,
                    c.out_w() >= 0,
            ;
        }
    }
    let (out, oh, ow) = maxpool2d_i8(a.as_slice(), out_c, ch, cw, 2, 2);
    proof {
        assert(out@ == layer(t@, bias@, x@, h as int, w as int, multiplier));
        assert(out_c * oh * ow >= 0) by (nonlinear_arith)
            requires
                out_c >= 0,
                oh >= 0,
                ow >= 0,
        ;
    }
    Some((out, oh, ow))
}

/// The logits of a model for a `size` by `size` bitmap (from `rasterize`) and a feature vector
/// (from `global_features`).
pub fn forward<'a>(w: &Weights<'a>, bitmap: &[F32], features: &[F32], size: usize) -> (r: Result<
    Vec<F32>,
    Error,
>)
    ensures
        match r {
            Ok(logits) => logits_of(w@, bitmap@, features@, size as int) == Ok::<Seq<F32>, Error>(
                logits@,
            ),
            Err(e) => logits_of(w@, bitmap@, features@, size as int) == Err::<Seq<F32>, Error>(e),
        },
{
    let c1 = require(w, "c1.w")?;
    let c2 = require(w, "c2.w")?;
    let f1 = require(w, "f1.w")?;
    let f2 = require(w, "f2.w")?;
    let c1b = require(w, "c1.b")?.as_i32();
    let c2b = require(w, "c2.b")?.as_i32();
    let f1b = require(w, "f1.b")?.as_i32();
    let f2b = require(w, "f2.b")?.as_i32();
    let s_c1 = scalar(w, "c1.in_scale")?;
    let s_c2 = scalar(w, "c2.in_scale")?;
    let s_f1 = scalar(w, "f1.in_scale")?;
    let s_f2 = scalar(w, "f2.in_scale")?;
    if c1.dims.len() != 4 || c2.dims.len() != 4 || f1.dims.len() != 2 || f2.dims.len() != 2 {
        return Err(Error::BadWeights("unexpected model tensor rank"));
    }
    assert(size as int * size as int <= 0xffff_ffff_ffff_ffff * 0xffff_ffff_ffff_ffff)
        by (nonlinear_arith)
        requires
            0 <= size <= 0xffff_ffff_ffff_ffff,
    ;
    if size < 4 || bitmap.len() as u128 != size as u128 * size as u128 {
        return Err(Error::BadWeights("bitmap size mismatch"));
    }
    if c1.dims[1] != 1 || c2.dims[1] != c1.dims[0] {
        return Err(Error::BadWeights("conv channel mismatch"));
    }
    let x = quantize_i8(bitmap, s_c1);
    assert(x@ =~= quantized_all(bitmap@, s_c1));
    assert(1 * size as int * size as int == size * size) by (nonlinear_arith);
    let first = conv_layer(c1, &c1b, &x, size, size, s_c1.times(c1.scale).over(s_c2));
    if first.is_none() {
        return Err(Error::BadWeights("layer does not fit its input"));
    }
    let (a1, h, wd) = first.unwrap();
    let second = conv_layer(c2, &c2b, &a1, h, wd, s_c2.times(c2.scale).over(s_f1));
    if second.is_none() {
        return Err(Error::BadWeights("layer does not fit its input"));
    }
    let (a2, _h, _w) = second.unwrap();
    let ghost pooled = a2@;
    let mut joined: Vec<i8> = a2;
    let mut extra = quantize_i8(features, s_f1);
    assert(extra@ =~= quantized_all(features@, s_f1));
    joined.append(&mut extra);
    let f1_out: u32 = f1.dims[0];
    let n_classes: u32 = f2.dims[0];
    if joined.len() as u64 != f1.dims[1] as u64 {
        return Err(Error::BadWeights("fc1 input size mismatch"));
    }
    let w1 = f1.as_i8();
    proof {
        lemma_four(f1_out, f1@.dims[1], 0, 0);
        lemma_four(n_classes, f1_out, 0, 0);
    }
    if f1_out as u128 * joined.len() as u128 > w1.len() as u128 {
        return Err(Error::BadWeights("layer does not fit its input"));
    }
    if f1_out != f2.dims[1] {
        return Err(Error::BadWeights("fc2 input size mismatch"));
    }
    let w2 = f2.as_i8();
    if n_classes as u128 * f1_out as u128 > w2.len() as u128 {
        return Err(Error::BadWeights("layer does not fit its input"));
    }
    let acc1 = dense_i8(joined.as_slice(), w1.as_slice(), f1_out as usize, f1b.as_slice());
    let hidden = requantize(&acc1, s_f1.times(f1.scale).over(s_f2), true);
    let acc2 = dense_i8(hidden.as_slice(), w2.as_slice(), n_classes as usize, f2b.as_slice());
    Ok(dequantize_i32(&acc2, s_f2.times(f2.scale)))
}

/// Run the network. `bitmap` is `size * size` grayscale in `[0, 1]`; `features` is the global
/// feature vector. Returns the ranked top `k`, or `BadWeights` for a model that does not fit.
/// `exp` is the exponential function.
pub fn recognize<'a, E: Fn(F32) -> F32>(
    w: &Weights<'a>,
    bitmap: &[F32],
    features: &[F32],
    size: usize,
    k: usize,
    exp: &E,
) -> (r: Result<Vec<Prediction>, Error>)
    requires
        crate::elementary::callable1(*exp),
    ensures
        match (r, logits_of(w@, bitmap@, features@, size as int)) {
            (Ok(preds), Ok(logits)) => {
                &&& preds.len() == crate::classify::kernel::top_len(logits.len(), k as nat)
                &&& forall|h: Fn1| #[trigger]
                    crate::elementary::computes1(*exp, h) ==> preds@ == crate::classify::ranked(
                        logits,
                        k as nat,
                        h,
                    )
            },
            (Err(e), Err(f)) => e == f,
            _ => false,
        },
{
    let logits = forward(w, bitmap, features, size)?;
    Ok(rank_logits(logits.as_slice(), k, exp))
}

} // verus!
