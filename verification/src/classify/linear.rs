//! What the kernel's operations compute, seen from outside: each weight of a convolution meets one
//! input, each pooled value is the largest of its window, and softmax keeps the order of the logits.
use super::kernel::{Conv, Pool};
use crate::elementary::Fn1;
use crate::float::{num, F32};
use vstd::arithmetic::div_mod::*;
use vstd::prelude::*;

verus! {

// ---------------------------------------------------------------------------------------------
// Convolution
// ---------------------------------------------------------------------------------------------
/// Where the weight for output channel `oc`, input channel `ic`, row `ky` and column `kx` stands.
pub open spec fn weight_index(c: Conv, oc: int, ic: int, ky: int, kx: int) -> int {
    ((oc * c.in_c + ic) * c.kh + ky) * c.kw + kx
}

/// The input in channel `ic` at row `y`, column `x`; nothing beyond the edges.
pub open spec fn input_at(c: Conv, ic: int, y: int, x: int) -> int {
    if 0 <= y < c.in_h && 0 <= x < c.in_w {
        c.input[(ic * c.in_h + y) * c.in_w + x] as int
    } else {
        0
    }
}

/// The convolution with one weight replaced.
pub open spec fn with_weight(c: Conv, at: int, v: i8) -> Conv {
    Conv { weights: c.weights.update(at, v), ..c }
}

/// Is this a place among the weights for `n` output channels?
pub open spec fn placed(c: Conv, n: int, oc: int, ic: int, ky: int, kx: int) -> bool {
    &&& 0 <= oc < n && 0 <= ic < c.in_c && 0 <= ky < c.kh && 0 <= kx < c.kw
    &&& n * c.in_c * c.kh * c.kw <= c.weights.len()
}

proof fn lemma_in_range(c: Conv, n: int, oc: int, ic: int, ky: int, kx: int)
    requires
        placed(c, n, oc, ic, ky, kx),
    ensures
        0 <= weight_index(c, oc, ic, ky, kx) < c.weights.len(),
{
    super::kernel::lemma_index(oc, n, ic, c.in_c);
    super::kernel::lemma_index(oc * c.in_c + ic, n * c.in_c, ky, c.kh);
    super::kernel::lemma_index((oc * c.in_c + ic) * c.kh + ky, n * c.in_c * c.kh, kx, c.kw);
}

/// No two weights stand in one place.
proof fn lemma_places(c: Conv, a: int, i: int, y: int, x: int, b: int, j: int, v: int, u: int)
    requires
        0 <= a && 0 <= i < c.in_c && 0 <= y < c.kh && 0 <= x < c.kw,
        0 <= b && 0 <= j < c.in_c && 0 <= v < c.kh && 0 <= u < c.kw,
        weight_index(c, a, i, y, x) == weight_index(c, b, j, v, u),
    ensures
        a == b && i == j && y == v && x == u,
{
    let (p, q) = (a * c.in_c + i, b * c.in_c + j);
    assert(p >= 0 && q >= 0) by (nonlinear_arith)
        requires
            p == a * c.in_c + i,
            q == b * c.in_c + j,
            a >= 0 && b >= 0 && i >= 0 && j >= 0,
            c.in_c > 0,
    ;
    super::kernel::lemma_position(p, y, x, c.kh, c.kw);
    super::kernel::lemma_position(q, v, u, c.kh, c.kw);
    lemma_fundamental_div_mod_converse(p, c.in_c, a, i);
    lemma_fundamental_div_mod_converse(q, c.in_c, b, j);
}

/// What the replaced weight adds to one kernel row.
spec fn change(c: Conv, oc: int, ic: int, ky: int, kx: int, v: i8, oy: int, ox: int) -> int {
    (v - c.weights[weight_index(c, oc, ic, ky, kx)]) * input_at(
        c,
        ic,
        oy * c.stride + ky - c.pad,
        ox * c.stride + kx - c.pad,
    )
}

proof fn lemma_row_change(
    c: Conv,
    m: int,
    oc: int,
    ic: int,
    ky: int,
    kx: int,
    v: i8,
    o: int,
    oy: int,
    ox: int,
    i: int,
    y: int,
    n: nat,
)
    requires
        placed(c, m, oc, ic, ky, kx),
        0 <= o < m && 0 <= i < c.in_c && 0 <= y < c.kh && n <= c.kw,
    ensures
        with_weight(c, weight_index(c, oc, ic, ky, kx), v).row(o, oy, ox, i, y, n) == c.row(
            o,
            oy,
            ox,
            i,
            y,
            n,
        ) + if o == oc && i == ic && y == ky && kx < n {
            change(c, oc, ic, ky, kx, v, oy, ox)
        } else {
            0
        },
    decreases n,
{
    let at = weight_index(c, oc, ic, ky, kx);
    let d = with_weight(c, at, v);
    if n > 0 {
        let x = n - 1;
        lemma_row_change(c, m, oc, ic, ky, kx, v, o, oy, ox, i, y, x as nat);
        let here = weight_index(c, o, i, y, x);
        lemma_in_range(c, m, o, i, y, x);
        lemma_in_range(c, m, oc, ic, ky, kx);
        let z = c.x(i, oy * c.stride + y - c.pad, ox * c.stride + x - c.pad);
        assert(z == d.x(i, oy * c.stride + y - c.pad, ox * c.stride + x - c.pad));
        assert(d.w(o, i, y, x) == d.weights[here] as int && c.w(o, i, y, x) == c.weights[here]);
        if o == oc && i == ic && y == ky && x == kx {
            assert(here == at);
            assert(v * z == c.weights[at] * z + (v - c.weights[at]) * z) by (nonlinear_arith);
        } else {
            if here == at {
                lemma_places(c, o, i, y, x, oc, ic, ky, kx);
            }
            assert(d.weights[here] == c.weights[here]);
        }
    }
}

proof fn lemma_plane_change(
    c: Conv,
    m: int,
    oc: int,
    ic: int,
    ky: int,
    kx: int,
    v: i8,
    o: int,
    oy: int,
    ox: int,
    i: int,
    n: nat,
)
    requires
        placed(c, m, oc, ic, ky, kx),
        0 <= o < m && 0 <= i < c.in_c && n <= c.kh,
    ensures
        with_weight(c, weight_index(c, oc, ic, ky, kx), v).plane(o, oy, ox, i, n) == c.plane(
            o,
            oy,
            ox,
            i,
            n,
        ) + if o == oc && i == ic && ky < n {
            change(c, oc, ic, ky, kx, v, oy, ox)
        } else {
            0
        },
    decreases n,
{
    if n > 0 {
        lemma_plane_change(c, m, oc, ic, ky, kx, v, o, oy, ox, i, (n - 1) as nat);
        lemma_row_change(c, m, oc, ic, ky, kx, v, o, oy, ox, i, n - 1, c.kw as nat);
    }
}

proof fn lemma_sum_change(
    c: Conv,
    m: int,
    oc: int,
    ic: int,
    ky: int,
    kx: int,
    v: i8,
    o: int,
    oy: int,
    ox: int,
    n: nat,
)
    requires
        placed(c, m, oc, ic, ky, kx),
        0 <= o < m && n <= c.in_c,
    ensures
        with_weight(c, weight_index(c, oc, ic, ky, kx), v).sum(o, oy, ox, n) == c.sum(
            o,
            oy,
            ox,
            n,
        ) + if o == oc && ic < n {
            change(c, oc, ic, ky, kx, v, oy, ox)
        } else {
            0
        },
    decreases n,
{
    if n > 0 {
        lemma_sum_change(c, m, oc, ic, ky, kx, v, o, oy, ox, (n - 1) as nat);
        lemma_plane_change(c, m, oc, ic, ky, kx, v, o, oy, ox, n - 1, c.kh as nat);
    }
}

/// Each weight of a convolution meets, for each output place of its own channel, the one input that
/// lies under it: to raise the weight by one raises the sum by that input, and no other channel's.
/// Beyond the edges there is nothing.
pub proof fn law_a_weight_meets_the_input_under_it(
    c: Conv,
    m: int,
    bias: Seq<i32>,
    oc: int,
    ic: int,
    ky: int,
    kx: int,
    v: i8,
    o: int,
    oy: int,
    ox: int,
)
    requires
        placed(c, m, oc, ic, ky, kx),
        0 <= o < m,
    ensures
        ({
            let at = weight_index(c, oc, ic, ky, kx);
            let by = v - c.weights[at];
            with_weight(c, at, v).exact(bias, o, oy, ox) - c.exact(bias, o, oy, ox) == if o == oc {
                by * input_at(
                    c,
                    ic,
                    oy * c.stride + ky - c.pad,
                    ox * c.stride + kx - c.pad,
                )
            } else {
                0
            }
        }),
{
    lemma_sum_change(c, m, oc, ic, ky, kx, v, o, oy, ox, c.in_c as nat);
}

// ---------------------------------------------------------------------------------------------
// Dense layers
// ---------------------------------------------------------------------------------------------
proof fn lemma_dot_change(x: Seq<i8>, w: Seq<i8>, m: int, r: int, i: int, v: i8, o: int, n: nat)
    requires
        0 <= r < m && 0 <= i < x.len(),
        0 <= o < m && n <= x.len(),
        m * x.len() <= w.len(),
    ensures
        super::kernel::dot(x, w.update(r * x.len() + i, v), o, n) == super::kernel::dot(x, w, o, n)
            + if o == r && i < n {
            (v - w[r * x.len() + i]) * x[i]
        } else {
            0
        },
    decreases n,
{
    let at = r * x.len() + i;
    if n > 0 {
        let k = n - 1;
        lemma_dot_change(x, w, m, r, i, v, o, k as nat);
        let here = o * x.len() + k;
        super::kernel::lemma_index(o, m, k, x.len() as int);
        super::kernel::lemma_index(r, m, i, x.len() as int);
        if here == at {
            lemma_fundamental_div_mod_converse(here, x.len() as int, o, k);
            lemma_fundamental_div_mod_converse(at, x.len() as int, r, i);
            assert(o == r && k == i);
            let z = x[i];
            assert(v * z == w[at] * z + (v - w[at]) * z) by (nonlinear_arith);
        } else {
            assert(!(o == r && k == i));
            assert(w.update(at, v)[here] == w[here]);
        }
    }
}

/// Each weight of a dense layer meets the one input of its column: to raise it by one raises the sum of
/// its row by that input, and no other row's. The sums start from the biases.
pub proof fn law_a_weight_meets_the_input_of_its_column(
    x: Seq<i8>,
    w: Seq<i8>,
    bias: Seq<i32>,
    outputs: int,
    r: int,
    i: int,
    v: i8,
    o: int,
)
    requires
        0 <= r < outputs && 0 <= i < x.len() && 0 <= o < outputs,
        outputs * x.len() <= w.len(),
        x.len() <= 65_000,
        -1_000_000_000 <= super::kernel::bias_at(bias, o) <= 1_000_000_000,
    ensures
        super::kernel::dense(x, w.update(r * x.len() + i, v), outputs, bias)[o]
            - super::kernel::dense(x, w, outputs, bias)[o] == if o == r {
            (v - w[r * x.len() + i]) * x[i]
        } else {
            0
        },
{
    let n = x.len();
    lemma_dot_change(x, w, outputs, r, i, v, o, n);
    lemma_dot_bound(x, w, o, n);
    lemma_dot_bound(x, w.update(r * x.len() + i, v), o, n);
    super::kernel::lemma_wrapped_small(
        super::kernel::bias_at(bias, o) + super::kernel::dot(x, w, o, n),
    );
    super::kernel::lemma_wrapped_small(
        super::kernel::bias_at(bias, o) + super::kernel::dot(
            x,
            w.update(r * x.len() + i, v),
            o,
            n,
        ),
    );
}

proof fn lemma_dot_bound(x: Seq<i8>, weights: Seq<i8>, o: int, n: nat)
    ensures
        -(0x4000 * n) <= super::kernel::dot(x, weights, o, n) <= 0x4000 * n,
    decreases n,
{
    if n > 0 {
        lemma_dot_bound(x, weights, o, (n - 1) as nat);
        super::kernel::lemma_product_bound(
            weights[o * x.len() + (n - 1)] as int,
            x[n - 1] as int,
        );
    }
}

/// Without inputs that count, a dense layer gives its biases, and zero where there is none.
pub proof fn law_a_dense_layer_starts_from_its_bias(
    x: Seq<i8>,
    w: Seq<i8>,
    bias: Seq<i32>,
    outputs: int,
    o: int,
)
    requires
        0 <= o < outputs,
        forall|i: int| 0 <= i < x.len() ==> #[trigger] x[i] == 0,
    ensures
        super::kernel::dense(x, w, outputs, bias)[o] == if o < bias.len() {
            bias[o]
        } else {
            0
        },
{
    lemma_no_dot(x, w, o, x.len());
    super::kernel::lemma_wrapped_small(super::kernel::bias_at(bias, o));
}

proof fn lemma_no_dot(x: Seq<i8>, w: Seq<i8>, o: int, n: nat)
    requires
        n <= x.len(),
        forall|i: int| 0 <= i < x.len() ==> #[trigger] x[i] == 0,
    ensures
        super::kernel::dot(x, w, o, n) == 0,
    decreases n,
{
    if n > 0 {
        lemma_no_dot(x, w, o, (n - 1) as nat);
        assert(x[n - 1] == 0);
        let a = w[o * x.len() + (n - 1)] as int;
        assert(a * 0 == 0);
    }
}

// ---------------------------------------------------------------------------------------------
// Pooling
// ---------------------------------------------------------------------------------------------
/// The entry of channel `ch` at row `y`, column `x`.
pub open spec fn entry(p: Pool, ch: int, y: int, x: int) -> i8 {
    p.input[(ch * p.h + y) * p.w + x]
}

/// Does the window hold this value?
pub open spec fn in_window(p: Pool, ch: int, oy: int, ox: int, v: i8) -> bool {
    exists|ky: int, kx: int|
        0 <= ky < p.k && 0 <= kx < p.k && #[trigger] entry(
            p,
            ch,
            oy * p.stride + ky,
            ox * p.stride + kx,
        ) == v
}

proof fn lemma_row_max(p: Pool, start: i8, ch: int, oy: int, ox: int, ky: int, n: nat)
    requires
        0 <= ky < p.k,
        n <= p.k,
    ensures
        ({
            let m = p.row_max(start, ch, oy, ox, ky, n);
            &&& start <= m
            &&& forall|kx: int|
                0 <= kx < n ==> #[trigger] entry(p, ch, oy * p.stride + ky, ox * p.stride + kx) <= m
            &&& m == start || in_window(p, ch, oy, ox, m)
        }),
    decreases n,
{
    if n > 0 {
        lemma_row_max(p, start, ch, oy, ox, ky, (n - 1) as nat);
        let v = entry(p, ch, oy * p.stride + ky, ox * p.stride + (n - 1));
        assert(v == p.at(ch, oy * p.stride + ky, ox * p.stride + (n - 1)));
        assert(in_window(p, ch, oy, ox, v));
    }
}

proof fn lemma_window_max(p: Pool, ch: int, oy: int, ox: int, n: nat)
    requires
        n <= p.k,
    ensures
        ({
            let m = p.window_max(ch, oy, ox, n);
            &&& forall|ky: int, kx: int|
                0 <= ky < n && 0 <= kx < p.k ==> #[trigger] entry(
                    p,
                    ch,
                    oy * p.stride + ky,
                    ox * p.stride + kx,
                ) <= m
            &&& m == i8::MIN || in_window(p, ch, oy, ox, m)
        }),
    decreases n,
{
    if n > 0 {
        let before = p.window_max(ch, oy, ox, (n - 1) as nat);
        lemma_window_max(p, ch, oy, ox, (n - 1) as nat);
        lemma_row_max(p, before, ch, oy, ox, n - 1, p.k as nat);
    }
}

/// Each pooled value is the largest of its own window: it is in the window, and nothing there is
/// larger. Windows are `k` by `k`, and `stride` apart.
pub proof fn law_a_pooled_value_is_the_largest_of_its_window(
    p: Pool,
    c: int,
    ch: int,
    oy: int,
    ox: int,
)
    requires
        p.fits(c),
        p.k >= 1,
        0 <= ch < c,
        0 <= oy < (p.h - p.k) / p.stride + 1,
        0 <= ox < (p.w - p.k) / p.stride + 1,
    ensures
        ({
            let (oh, ow) = ((p.h - p.k) / p.stride + 1, (p.w - p.k) / p.stride + 1);
            let at = (ch * oh + oy) * ow + ox;
            let m = super::kernel::pooled(p, c)[at];
            &&& 0 <= at < super::kernel::pooled(p, c).len()
            &&& in_window(p, ch, oy, ox, m)
            &&& forall|ky: int, kx: int|
                0 <= ky < p.k && 0 <= kx < p.k ==> #[trigger] entry(
                    p,
                    ch,
                    oy * p.stride + ky,
                    ox * p.stride + kx,
                ) <= m
        }),
{
    let (oh, ow) = ((p.h - p.k) / p.stride + 1, (p.w - p.k) / p.stride + 1);
    super::kernel::lemma_position(ch, oy, ox, oh, ow);
    super::kernel::lemma_index(ch, c, oy, oh);
    super::kernel::lemma_index(ch * oh + oy, c * oh, ox, ow);
    lemma_window_max(p, ch, oy, ox, p.k as nat);
    let m = p.window_max(ch, oy, ox, p.k as nat);
    let v = entry(p, ch, oy * p.stride + 0, ox * p.stride + 0);
    assert(v <= m);
    if m == i8::MIN {
        assert(v == m);
        assert(in_window(p, ch, oy, ox, m));
    }
}

// ---------------------------------------------------------------------------------------------
// Softmax
// ---------------------------------------------------------------------------------------------
/// Does the function keep the order of the numbers?
pub open spec fn rises(exp: Fn1) -> bool {
    forall|x: F32, y: F32| x.le(y) ==> (#[trigger] exp(x)).le(#[trigger] exp(y))
}

/// Softmax keeps the order of finite logits: a class whose logit is no smaller gets no smaller
/// probability.
pub proof fn law_softmax_keeps_the_order(logits: Seq<F32>, exp: Fn1, i: int, j: int)
    requires
        super::kernel::decays(exp),
        rises(exp),
        forall|k: int| 0 <= k < logits.len() ==> (#[trigger] logits[k]).finite(),
        0 <= i < logits.len() && 0 <= j < logits.len(),
        logits[i].le(logits[j]),
    ensures
        super::kernel::proportions(super::kernel::shifted_exp(logits, exp))[i].le(
            super::kernel::proportions(super::kernel::shifted_exp(logits, exp))[j],
        ),
{
    let n = logits.len();
    let exps = super::kernel::shifted_exp(logits, exp);
    let top = super::kernel::largest(logits, n);
    super::kernel::lemma_largest(logits, n, i);
    crate::float::monotone::lemma_difference(logits[i], logits[j], top);
    assert(exps[i].le(exps[j]));
    assert forall|k: int| 0 <= k < n implies num(0).le(#[trigger] exps[k]) && exps[k].le(
        num(0x3f80_0000),
    ) by {
        super::kernel::lemma_largest(logits, n, k);
        crate::float::monotone::lemma_difference(logits[k], top, top);
        assert(logits[k].minus(top).le(num(0))) by {
            reveal(F32::le_spec);
        }
    }
    super::kernel::lemma_total(exps, n, i);
    super::kernel::lemma_total(exps, n, j);
    let sum = super::kernel::total(exps, n);
    assert(num(0).le(exps[i]) && num(0).le(exps[j]));
    reveal(F32::le_spec);
    reveal(F32::same_spec);
    if !sum.same(num(0)) {
        lemma_over_keeps(exps[i], exps[j], sum);
    }
}

proof fn lemma_over_keeps(a: F32, b: F32, s: F32)
    requires
        num(0).le(a),
        a.le(b),
        b.le(s),
        b.le(num(0x3f80_0000)),
        s.rank() != 0,
    ensures
        a.over(s).le(b.over(s)),
{
    reveal(F32::le_spec);
    reveal(F32::over_spec);
    let one = crate::float::arith::one_units();
    if s.finite() {
        crate::float::lemma_mag_ordered(0, s.magnitude());
        crate::float::bound::lemma_size_ordered(a.magnitude(), b.magnitude());
        assert(a.size() * one <= b.size() * one) by (nonlinear_arith)
            requires
                a.size() <= b.size(),
        ;
        crate::float::monotone::lemma_nearest_monotone(a.size() * one, b.size() * one, s.size());
        crate::float::monotone::lemma_nearest(a.size() * one, s.size());
        crate::float::monotone::lemma_nearest(b.size() * one, s.size());
        assert(crate::float::mag(0) == 0);
        if a.magnitude() == 0 {
            assert(0 * one == 0);
            crate::float::lemma_nearest_zero(s.size());
        }
        if b.magnitude() == 0 {
            assert(0 * one == 0);
            crate::float::lemma_nearest_zero(s.size());
        }
    }
}

// ---------------------------------------------------------------------------------------------
// Between scales
// ---------------------------------------------------------------------------------------------
/// The value in units of 2 to the power of -149 that make one.
pub open spec fn one() -> nat {
    crate::float::arith::one_units()
}

/// Is the whole number nearest to `p`, halfway cases either way?
pub open spec fn nearest_whole(v: int, p: F32) -> bool {
    -(one() as int) <= 2 * (v * one() - p.units()) <= one()
}

/// A finite number, rounded: what its whole part is then, and its sign.
pub(crate) proof fn lemma_rounded(p: F32)
    requires
        p.finite(),
        p.size() <= 0x10_0000 * one(),
    ensures
        ({
            let r = p.round();
            let n = crate::float::convert::whole_part(r);
            &&& r.finite()
            &&& r.negative() == p.negative()
            &&& r.size() == n * one()
            &&& -(one() as int) <= 2 * (n * one() - p.size()) <= one()
        }),
{
    reveal(F32::round_spec);
    let u = one();
    vstd::arithmetic::power2::lemma_pow2_pos(149);
    let w = crate::float::convert::whole_part(p);
    lemma_fundamental_div_mod(p.size() as int, u as int);
    lemma_mod_bound(p.size() as int, u as int);
    lemma_div_pos_is_pos(p.size() as int, u as int);
    assert(w <= 0x10_0000) by (nonlinear_arith)
        requires
            p.size() <= 0x10_0000 * u,
            p.size() == u * w + p.size() % u,
            p.size() % u >= 0,
            u > 0,
    ;
    let n: nat = if 2 * (p.size() % u) >= u {
        w + 1
    } else {
        w
    };
    crate::float::monotone::lemma_whole_exact(n);
    let r = p.round();
    assert(r.magnitude() == crate::float::convert::whole_magnitude(n));
    assert(r.size() == n * u);
    lemma_fundamental_div_mod_converse((n * u) as int, u as int, n as int, 0);
    let (size, rest) = (p.size() as int, (p.size() % u) as int);
    assert(n * u - size == (n - w) * u - rest) by (nonlinear_arith)
        requires
            size == u * w + rest,
    ;
    if n == w {
        assert((n - w) * u == 0) by (nonlinear_arith)
            requires
                n == w,
        ;
    } else {
        assert((n - w) * u == u) by (nonlinear_arith)
            requires
                n == w + 1,
        ;
    }
}

/// An accumulator at the next layer's scale is its product with the multiplier, rounded to the nearest
/// whole number, and held between -127 and 127; with a rectifier, what is negative becomes zero.
pub proof fn law_scaling_rounds_to_the_nearest(acc: i32, m: F32, relu: bool)
    requires
        F32::from_i32(acc).times(m).finite(),
    ensures
        ({
            let p = F32::from_i32(acc).times(m);
            let v = super::kernel::requantized(acc, m, relu) as int;
            let top = 127 * one();
            &&& -127 <= v <= 127
            &&& relu ==> v >= 0
            &&& -top <= p.units() <= top && (p.units() >= 0 || !relu) ==> nearest_whole(v, p)
            &&& p.units() >= top ==> v == 127
            &&& p.units() <= -top && !relu ==> v == -127
            &&& p.units() <= 0 && relu ==> v == 0
        }),
{
    let p = F32::from_i32(acc).times(m);
    let u = one();
    let r = p.round();
    vstd::arithmetic::power2::lemma_pow2_pos(149);
    reveal(crate::float::convert::truncated);
    let n = crate::float::convert::whole_part(r);
    lemma_size_units(p);
    if p.size() <= 0x10_0000 * u {
        lemma_rounded(p);
        assert(p.size() <= 127 * u ==> n <= 127) by (nonlinear_arith)
            requires
                2 * (n * u - p.size()) <= u,
                u > 0,
        ;
        assert(p.size() >= 127 * u ==> n >= 127) by (nonlinear_arith)
            requires
                -u <= 2 * (n * u - p.size()),
                u > 0,
        ;
        assert(p.size() == 0 ==> n == 0) by (nonlinear_arith)
            requires
                2 * (n * u - p.size()) <= u,
                u > 0,
        ;
        assert(n <= 0x10_0001) by (nonlinear_arith)
            requires
                2 * (n * u - p.size()) <= u,
                p.size() <= 0x10_0000 * u,
                u > 0,
        ;
        assert((-n) * u == -(n * u)) by (nonlinear_arith);
    } else {
        lemma_rounded_large(p);
    }
}

pub(crate) proof fn lemma_size_units(p: F32)
    requires
        p.finite(),
    ensures
        p.units() == if p.negative() {
            -(p.size() as int)
        } else {
            p.size() as int
        },
{
    crate::float::bound::lemma_size_ordered(p.magnitude(), p.magnitude());
}

/// A large number stays large when it is rounded.
proof fn lemma_rounded_large(p: F32)
    requires
        p.finite(),
        p.size() >= 0x10_0000 * one(),
    ensures
        p.round().negative() == p.negative(),
        p.round().infinite() || crate::float::convert::whole_part(p.round()) >= 127,
        !p.round().nan(),
{
    reveal(F32::round_spec);
    let u = one();
    vstd::arithmetic::power2::lemma_pow2_pos(149);
    let w = crate::float::convert::whole_part(p);
    lemma_fundamental_div_mod(p.size() as int, u as int);
    lemma_mod_bound(p.size() as int, u as int);
    assert(w >= 0x10_0000 - 1) by (nonlinear_arith)
        requires
            p.size() >= 0x10_0000 * u,
            p.size() == u * w + p.size() % u,
            p.size() % u < u,
            u > 0,
    ;
    let n: nat = if 2 * (p.size() % u) >= u {
        w + 1
    } else {
        w
    };
    assert(127 * u <= n * u) by (nonlinear_arith)
        requires
            127 <= n,
    ;
    crate::float::monotone::lemma_whole_exact(127);
    crate::float::monotone::lemma_nearest_monotone(127 * u, n * u, 1);
    crate::float::monotone::lemma_nearest(n * u, 1);
    let r = p.round();
    let b = crate::float::convert::whole_magnitude(127);
    assert(r.magnitude() >= b);
    crate::float::bound::lemma_size_ordered(b, r.magnitude());
    if r.finite() {
        lemma_div_is_ordered((127 * u) as int, r.size() as int, u as int);
        lemma_fundamental_div_mod_converse((127 * u) as int, u as int, 127, 0);
    }
}

/// A value at a scale is its product with the inverse of the scale, rounded to the nearest whole number,
/// and held between -127 and 127.
pub proof fn law_quantizing_rounds_to_the_nearest(x: F32, s: F32)
    requires
        num(0).lt(s),
        x.times(num(0x3f80_0000).over(s)).finite(),
    ensures
        ({
            let p = x.times(num(0x3f80_0000).over(s));
            let v = super::kernel::quantized(x, s) as int;
            let top = 127 * one();
            &&& -127 <= v <= 127
            &&& -top <= p.units() <= top ==> nearest_whole(v, p)
            &&& p.units() >= top ==> v == 127
            &&& p.units() <= -top ==> v == -127
        }),
{
    let p = x.times(num(0x3f80_0000).over(s));
    let u = one();
    let r = p.round();
    vstd::arithmetic::power2::lemma_pow2_pos(149);
    reveal(crate::float::convert::truncated);
    reveal(F32::clamp_spec);
    reveal(F32::lt_spec);
    let n = crate::float::convert::whole_part(r);
    let (lo, hi) = (num(0xc2fe_0000), num(0x42fe_0000));
    lemma_size_units(p);
    lemma_one_two_seven();
    assert(lo.size() == hi.size() && lo.negative() && !hi.negative());
    lemma_fundamental_div_mod_converse((127 * u) as int, u as int, 127, 0);
    let c = r.clamp(lo, hi);
    if p.size() <= 0x10_0000 * u {
        lemma_rounded(p);
        assert(p.size() <= 127 * u ==> n <= 127) by (nonlinear_arith)
            requires
                2 * (n * u - p.size()) <= u,
                u > 0,
        ;
        assert(p.size() >= 127 * u ==> n >= 127) by (nonlinear_arith)
            requires
                -u <= 2 * (n * u - p.size()),
                u > 0,
        ;
        crate::float::bound::lemma_size_ordered(r.magnitude(), hi.magnitude());
        crate::float::bound::lemma_size_ordered(hi.magnitude(), r.magnitude());
        assert(n <= 127 <==> n * u <= 127 * u) by (nonlinear_arith)
            requires
                u > 0,
        ;
        assert(n >= 127 <==> n * u >= 127 * u) by (nonlinear_arith)
            requires
                u > 0,
        ;
        assert((-n) * u == -(n * u)) by (nonlinear_arith);
        assert(-127 * u == -(127 * u)) by (nonlinear_arith);
    } else {
        lemma_rounded_large(p);
        if r.finite() {
            lemma_fundamental_div_mod(r.size() as int, u as int);
            lemma_mod_bound(r.size() as int, u as int);
            assert(r.size() >= 127 * u) by (nonlinear_arith)
                requires
                    r.size() == u * n + r.size() % u,
                    r.size() % u >= 0,
                    n >= 127,
                    u > 0,
            ;
            crate::float::bound::lemma_size_ordered(hi.magnitude(), r.magnitude());
        }
        assert(127 * u < 0x10_0000 * u) by (nonlinear_arith)
            requires
                u > 0,
        ;
    }
}

/// What the number 127 is made of.
proof fn lemma_one_two_seven()
    ensures
        num(0x42fe_0000).size() == 127 * one(),
{
    vstd::arithmetic::power2::lemma2_to64();
    let h = crate::float::HIDDEN as int;
    lemma_fundamental_div_mod_converse(0x42fe_0000, h, 133, 0x7e_0000);
    vstd::arithmetic::power2::lemma_pow2_adds(17, 132);
    vstd::arithmetic::power2::lemma_pow2_adds(132, 17);
    let p = vstd::arithmetic::power2::pow2(132);
    assert(num(0x42fe_0000).size() == 0xfe_0000 * p);
    assert(0xfe_0000 * p == 127 * (0x2_0000 * p)) by (nonlinear_arith);
}

} // verus!
