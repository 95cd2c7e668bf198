//! What the network's layers do together: nothing negative goes on from one layer to the next, the
//! features come behind the pooled maps, and the scales carry over.
use super::weights::TensorView;
use crate::float::{num, F32};
use vstd::arithmetic::div_mod::*;
use vstd::prelude::*;

verus! {

/// The tensor with the given name.
pub open spec fn named(w: Seq<TensorView>, name: Seq<char>) -> TensorView {
    super::model::tensor(w, name)
}

/// Can this unit not fire: is its bias so low that no `n` products of bytes make up for it, without
/// leaving the accumulator's range?
pub open spec fn silent(bias: Seq<i32>, o: int, n: int) -> bool {
    let b = if o < bias.len() {
        bias[o] as int
    } else {
        0
    };
    i32::MIN + 0x4000 * n <= b <= -0x4000 * n
}

/// Is the number not negative?
pub open spec fn unsigned(a: F32) -> bool {
    !a.negative()
}

/// Are the scales of the model's layers not negative?
pub open spec fn unsigned_scales(w: Seq<TensorView>) -> bool {
    &&& unsigned(super::model::scale(w, "c1.in_scale"@)) && unsigned(named(w, "c1.w"@).scale)
    &&& unsigned(super::model::scale(w, "c2.in_scale"@)) && unsigned(named(w, "c2.w"@).scale)
    &&& unsigned(super::model::scale(w, "f1.in_scale"@)) && unsigned(named(w, "f1.w"@).scale)
    &&& unsigned(super::model::scale(w, "f2.in_scale"@)) && unsigned(named(w, "f2.w"@).scale)
}

proof fn lemma_unsigned(a: F32, b: F32, c: F32)
    requires
        unsigned(a) && unsigned(b) && unsigned(c),
    ensures
        unsigned(a.times(b).over(c)),
{
    reveal(F32::times_spec);
    reveal(F32::over_spec);
    vstd::arithmetic::power2::lemma_pow2_pos(149);
    let one = crate::float::arith::one_units();
    crate::float::monotone::lemma_nearest(a.size() * b.size(), one);
    let p = a.times(b);
    if c.finite() && c.magnitude() != 0 {
        crate::float::lemma_mag_ordered(0, c.magnitude());
        crate::float::monotone::lemma_nearest(p.size() * one, c.size());
    }
}

/// What is not positive is rectified to zero, whatever it is scaled by.
proof fn lemma_rejected(acc: i32, m: F32)
    requires
        acc <= 0,
        unsigned(m),
    ensures
        super::kernel::requantized(acc, m, true) == 0,
{
    let a = F32::from_i32(acc);
    let p = a.times(m);
    let one = crate::float::arith::one_units();
    vstd::arithmetic::power2::lemma_pow2_pos(149);
    reveal(crate::float::convert::of_int);
    reveal(F32::times_spec);
    let n: nat = (-acc) as nat;
    crate::float::monotone::lemma_nearest(n * one, 1);
    crate::float::monotone::lemma_nearest(a.size() * m.size(), one);
    if acc == 0 {
        assert(n * one == 0) by (nonlinear_arith)
            requires
                n == 0,
        ;
        crate::float::lemma_nearest_zero(1);
        assert(a.size() * m.size() == 0) by (nonlinear_arith)
            requires
                a.size() == 0,
        ;
        crate::float::lemma_nearest_zero(one);
        assert(p.nan() || p == num(0));
    } else {
        assert(p.nan() || p.negative());
    }
    lemma_rounds_down(p);
}

/// A number that is not positive rounds to a whole number that is not.
proof fn lemma_rounds_down(p: F32)
    requires
        p.nan() || p.negative() || p == num(0),
    ensures
        p.round().to_i32() <= 0,
{
    let one = crate::float::arith::one_units();
    vstd::arithmetic::power2::lemma_pow2_pos(149);
    reveal(F32::round_spec);
    reveal(crate::float::convert::truncated);
    reveal(crate::float::convert::of_int);
    let r = p.round();
    if p.finite() {
        let k = crate::float::convert::whole_part(p);
        crate::float::monotone::lemma_nearest(k * one, 1);
        crate::float::monotone::lemma_nearest((k + 1) * one, 1);
        if p == num(0) {
            assert(p.size() == 0);
            assert(k == 0) by {
                lemma_div_basics(one as int);
            }
            assert(0 * one == 0);
            crate::float::lemma_nearest_zero(1);
            lemma_small_mod(0, one);
            assert(r.magnitude() == 0);
            assert(crate::float::convert::whole_part(r) == 0) by {
                lemma_div_basics(one as int);
            }
        } else {
            assert(r.negative());
        }
    }
    if r.finite() {
        lemma_div_pos_is_pos(r.size() as int, one as int);
    }
}

proof fn lemma_dot_bound(x: Seq<i8>, weights: Seq<i8>, o: int, n: nat)
    ensures
        -(0x4000 * n) <= super::kernel::dot(x, weights, o, n) <= 0x4000 * n,
    decreases n,
{
    if n > 0 {
        lemma_dot_bound(x, weights, o, (n - 1) as nat);
        super::kernel::lemma_product_bound(
            weights[o * x.len() + (n - 1)] as int,
            x[n - 1] as int,
        );
    }
}

/// Sums of products are the same where each pair of inputs is, or the weight is zero or the same
/// input is.
proof fn lemma_dot_same(x: Seq<i8>, y: Seq<i8>, v: Seq<i8>, w: Seq<i8>, o: int, n: nat)
    requires
        x.len() == y.len(),
        n <= x.len(),
        forall|i: int|
            0 <= i < n ==> (#[trigger] x[i] == y[i] && v[o * x.len() + i] == w[o * x.len() + i]) || (
            v[o * x.len() + i] == 0 && w[o * x.len() + i] == 0) || (x[i] == 0 && y[i] == 0),
    ensures
        super::kernel::dot(x, v, o, n) == super::kernel::dot(y, w, o, n),
    decreases n,
{
    if n > 0 {
        lemma_dot_same(x, y, v, w, o, (n - 1) as nat);
        let i = n - 1;
        assert(x[i] == x[i]);
        let (a, b) = (v[o * x.len() + i] as int, w[o * x.len() + i] as int);
        assert(a * x[i] == b * y[i]) by (nonlinear_arith)
            requires
                (x[i] == y[i] && a == b) || (a == 0 && b == 0) || (x[i] == 0 && y[i] == 0),
        ;
    }
}

// ---------------------------------------------------------------------------------------------
// The dense layers
// ---------------------------------------------------------------------------------------------
/// What enters the first dense layer.
spec fn joined(w: Seq<TensorView>, bitmap: Seq<F32>, features: Seq<F32>, size: int) -> Seq<i8> {
    pooled(w, bitmap, size) + super::model::quantized_all(
        features,
        super::model::scale(w, "f1.in_scale"@),
    )
}

/// What leaves the first convolution.
spec fn first(w: Seq<TensorView>, bitmap: Seq<F32>, size: int) -> Seq<i8> {
    let c1 = named(w, "c1.w"@);
    super::model::layer(
        c1,
        super::weights::i32_entries(named(w, "c1.b"@)),
        super::model::quantized_all(bitmap, super::model::scale(w, "c1.in_scale"@)),
        size,
        size,
        super::model::scale(w, "c1.in_scale"@).times(c1.scale).over(
            super::model::scale(w, "c2.in_scale"@),
        ),
    )
}

/// The height (or width) behind the first convolution.
spec fn extent_of(w: Seq<TensorView>, size: int, d: int) -> int {
    let c1 = named(w, "c1.w"@);
    super::model::pooled_extent(size + 2 * ((c1.dims[2] - 1) / 2), c1.dims[d] as int)
}

/// What leaves the second convolution.
spec fn pooled(w: Seq<TensorView>, bitmap: Seq<F32>, size: int) -> Seq<i8> {
    let c2 = named(w, "c2.w"@);
    super::model::layer(
        c2,
        super::weights::i32_entries(named(w, "c2.b"@)),
        first(w, bitmap, size),
        extent_of(w, size, 2),
        extent_of(w, size, 3),
        super::model::scale(w, "c2.in_scale"@).times(c2.scale).over(
            super::model::scale(w, "f1.in_scale"@),
        ),
    )
}

/// The activations of the hidden layer.
spec fn hidden(w: Seq<TensorView>, x: Seq<i8>) -> Seq<i8> {
    let f1 = named(w, "f1.w"@);
    let acc = super::kernel::dense(
        x,
        super::weights::i8_entries(f1),
        f1.dims[0] as int,
        super::weights::i32_entries(named(w, "f1.b"@)),
    );
    Seq::new(
        acc.len(),
        |i: int|
            super::kernel::requantized(
                acc[i],
                super::model::scale(w, "f1.in_scale"@).times(f1.scale).over(
                    super::model::scale(w, "f2.in_scale"@),
                ),
                true,
            ),
    )
}

/// The logits of the hidden layer's activations.
spec fn answer(w: Seq<TensorView>, x: Seq<i8>) -> Seq<F32> {
    let f2 = named(w, "f2.w"@);
    let acc = super::kernel::dense(
        x,
        super::weights::i8_entries(f2),
        f2.dims[0] as int,
        super::weights::i32_entries(named(w, "f2.b"@)),
    );
    Seq::new(
        acc.len(),
        |i: int|
            F32::from_i32(acc[i]).times(super::model::scale(w, "f2.in_scale"@).times(f2.scale)),
    )
}

proof fn lemma_logits(w: Seq<TensorView>, bitmap: Seq<F32>, features: Seq<F32>, size: int)
    ensures
        super::model::logits_of(w, bitmap, features, size) is Ok ==> super::model::logits_of(
            w,
            bitmap,
            features,
            size,
        )->Ok_0 == answer(w, hidden(w, joined(w, bitmap, features, size))) && joined(
            w,
            bitmap,
            features,
            size,
        ).len() == named(w, "f1.w"@).dims[1],
{
    if super::model::logits_of(w, bitmap, features, size) is Ok {
        let x = joined(w, bitmap, features, size);
        assert(super::model::logits_of(w, bitmap, features, size)->Ok_0 =~= answer(w, hidden(w, x)));
    }
}

/// A hidden unit that cannot fire is zero.
proof fn lemma_silent_unit(w: Seq<TensorView>, x: Seq<i8>, o: int)
    requires
        unsigned_scales(w),
        0 <= o < named(w, "f1.w"@).dims[0],
        silent(super::weights::i32_entries(named(w, "f1.b"@)), o, x.len() as int),
    ensures
        hidden(w, x)[o] == 0,
{
    let f1 = named(w, "f1.w"@);
    let bias = super::weights::i32_entries(named(w, "f1.b"@));
    let weights = super::weights::i8_entries(f1);
    lemma_dot_bound(x, weights, o, x.len());
    let sum = super::kernel::bias_at(bias, o) + super::kernel::dot(x, weights, o, x.len());
    super::kernel::lemma_wrapped_small(sum);
    lemma_unsigned(
        super::model::scale(w, "f1.in_scale"@),
        f1.scale,
        super::model::scale(w, "f2.in_scale"@),
    );
    lemma_rejected(
        super::kernel::wrapped(sum),
        super::model::scale(w, "f1.in_scale"@).times(f1.scale).over(
            super::model::scale(w, "f2.in_scale"@),
        ),
    );
}

/// The hidden layer hands on nothing negative: where none of its units can fire, every class gets its
/// bias at the last layer's scale, whatever the image and the last layer's weights are.
pub proof fn law_units_that_cannot_fire_leave_the_bias(
    w: Seq<TensorView>,
    bitmap: Seq<F32>,
    features: Seq<F32>,
    size: int,
    c: int,
)
    requires
        super::model::logits_of(w, bitmap, features, size) is Ok,
        unsigned_scales(w),
        forall|o: int|
            0 <= o < named(w, "f1.w"@).dims[0] ==> #[trigger] silent(
                super::weights::i32_entries(named(w, "f1.b"@)),
                o,
                named(w, "f1.w"@).dims[1] as int,
            ),
        0 <= c < named(w, "f2.w"@).dims[0],
    ensures
        ({
            let logits = super::model::logits_of(w, bitmap, features, size)->Ok_0;
            let bias = super::weights::i32_entries(named(w, "f2.b"@));
            let own = if c < bias.len() {
                bias[c]
            } else {
                0
            };
            logits[c] == F32::from_i32(own).times(
                super::model::scale(w, "f2.in_scale"@).times(named(w, "f2.w"@).scale),
            )
        }),
{
    let x = joined(w, bitmap, features, size);
    let y = hidden(w, x);
    let weights = super::weights::i8_entries(named(w, "f2.w"@));
    lemma_logits(w, bitmap, features, size);
    assert forall|o: int| 0 <= o < y.len() implies #[trigger] y[o] == 0 by {
        assert(silent(
            super::weights::i32_entries(named(w, "f1.b"@)),
            o,
            named(w, "f1.w"@).dims[1] as int,
        ));
        lemma_silent_unit(w, x, o);
    }
    lemma_dot_zero(y, weights, c, y.len());
    let bias = super::weights::i32_entries(named(w, "f2.b"@));
    super::kernel::lemma_wrapped_small(super::kernel::bias_at(bias, c));
}

proof fn lemma_dot_zero(x: Seq<i8>, weights: Seq<i8>, o: int, n: nat)
    requires
        n <= x.len(),
        forall|i: int| 0 <= i < n ==> #[trigger] x[i] == 0,
    ensures
        super::kernel::dot(x, weights, o, n) == 0,
    decreases n,
{
    if n > 0 {
        lemma_dot_zero(x, weights, o, (n - 1) as nat);
        let a = weights[o * x.len() + (n - 1)] as int;
        assert(x[n - 1] == 0);
        assert(a * 0 == 0);
    }
}

/// Are the two models the same, but for the weights of the last layer?
pub open spec fn same_but_the_last_weights(w: Seq<TensorView>, v: Seq<TensorView>) -> bool {
    &&& forall|name: Seq<char>|
        name != "f2.w"@ ==> #[trigger] super::weights::find_tensor(v, name)
            == super::weights::find_tensor(w, name)
    &&& super::model::holds(v, "f2.w"@) && super::model::holds(w, "f2.w"@)
    &&& named(v, "f2.w"@).dims == named(w, "f2.w"@).dims
    &&& named(v, "f2.w"@).scale == named(w, "f2.w"@).scale
    &&& super::weights::i8_entries(named(v, "f2.w"@)).len() == super::weights::i8_entries(
        named(w, "f2.w"@),
    ).len()
}

/// What the last layer makes of a hidden unit that cannot fire does not matter: two models that
/// differ only in the weights of such units give the same logits.
pub proof fn law_the_weights_of_silent_units_do_not_matter(
    w: Seq<TensorView>,
    v: Seq<TensorView>,
    bitmap: Seq<F32>,
    features: Seq<F32>,
    size: int,
)
    requires
        super::model::logits_of(w, bitmap, features, size) is Ok,
        unsigned_scales(w),
        same_but_the_last_weights(w, v),
        forall|c: int, o: int|
            0 <= c < named(w, "f2.w"@).dims[0] && 0 <= o < named(w, "f1.w"@).dims[0] && !silent(
                super::weights::i32_entries(named(w, "f1.b"@)),
                o,
                named(w, "f1.w"@).dims[1] as int,
            ) ==> #[trigger] super::weights::i8_entries(named(v, "f2.w"@))[c * named(
                w,
                "f1.w"@,
            ).dims[0] + o] == super::weights::i8_entries(named(w, "f2.w"@))[c * named(
                w,
                "f1.w"@,
            ).dims[0] + o],
    ensures
        super::model::logits_of(v, bitmap, features, size) == super::model::logits_of(
            w,
            bitmap,
            features,
            size,
        ),
{
    lemma_names();
    assert(named(v, "c1.w"@) == named(w, "c1.w"@) && named(v, "c2.w"@) == named(w, "c2.w"@));
    assert(named(v, "f1.w"@) == named(w, "f1.w"@) && named(v, "f1.b"@) == named(w, "f1.b"@));
    assert(named(v, "c1.b"@) == named(w, "c1.b"@) && named(v, "c2.b"@) == named(w, "c2.b"@));
    assert(named(v, "f2.b"@) == named(w, "f2.b"@));
    assert(named(v, "c1.in_scale"@) == named(w, "c1.in_scale"@));
    assert(named(v, "c2.in_scale"@) == named(w, "c2.in_scale"@));
    assert(named(v, "f1.in_scale"@) == named(w, "f1.in_scale"@));
    assert(named(v, "f2.in_scale"@) == named(w, "f2.in_scale"@));
    lemma_logits(w, bitmap, features, size);
    lemma_logits(v, bitmap, features, size);
    let x = joined(w, bitmap, features, size);
    let y = hidden(w, x);
    assert(joined(v, bitmap, features, size) == x);
    assert(hidden(v, x) == y);
    let (a, b) = (
        super::weights::i8_entries(named(w, "f2.w"@)),
        super::weights::i8_entries(named(v, "f2.w"@)),
    );
    let n = named(w, "f2.w"@).dims[0] as int;
    assert forall|c: int| 0 <= c < n implies #[trigger] super::kernel::dot(y, b, c, y.len())
        == super::kernel::dot(y, a, c, y.len()) by {
        assert forall|i: int| 0 <= i < y.len() implies (#[trigger] y[i] == y[i] && b[c * y.len() + i]
            == a[c * y.len() + i]) || (b[c * y.len() + i] == 0 && a[c * y.len() + i] == 0) || (y[i]
            == 0 && y[i] == 0) by {
            if silent(
                super::weights::i32_entries(named(w, "f1.b"@)),
                i,
                named(w, "f1.w"@).dims[1] as int,
            ) {
                lemma_silent_unit(w, x, i);
            } else {
                assert(b[c * named(w, "f1.w"@).dims[0] + i] == a[c * named(w, "f1.w"@).dims[0] + i]);
            }
        }
        lemma_dot_same(y, y, b, a, c, y.len());
    }
    assert(answer(v, y) =~= answer(w, y));
}

/// The names of the model's tensors are distinct.
proof fn lemma_names()
    ensures
        "c1.w"@ != "f2.w"@ && "c2.w"@ != "f2.w"@ && "f1.w"@ != "f2.w"@,
        "c1.b"@ != "f2.w"@ && "c2.b"@ != "f2.w"@ && "f1.b"@ != "f2.w"@ && "f2.b"@ != "f2.w"@,
        "c1.in_scale"@ != "f2.w"@ && "c2.in_scale"@ != "f2.w"@,
        "f1.in_scale"@ != "f2.w"@ && "f2.in_scale"@ != "f2.w"@,
{
    reveal_strlit("c1.w");
    reveal_strlit("c2.w");
    reveal_strlit("f1.w");
    reveal_strlit("f2.w");
    reveal_strlit("c1.b");
    reveal_strlit("c2.b");
    reveal_strlit("f1.b");
    reveal_strlit("f2.b");
    reveal_strlit("c1.in_scale");
    reveal_strlit("c2.in_scale");
    reveal_strlit("f1.in_scale");
    reveal_strlit("f2.in_scale");
    let last = "f2.w"@;
    assert("c1.w"@[0] != last[0] && "c2.w"@[0] != last[0] && "f1.w"@[1] != last[1]);
    assert("c1.b"@[0] != last[0] && "c2.b"@[0] != last[0] && "f1.b"@[1] != last[1] && "f2.b"@[3]
        != last[3]);
    assert("c1.in_scale"@.len() != last.len());
    assert("c2.in_scale"@.len() != last.len());
    assert("f1.in_scale"@.len() != last.len());
    assert("f2.in_scale"@.len() != last.len());
}

// ---------------------------------------------------------------------------------------------
// The convolutions
// ---------------------------------------------------------------------------------------------
/// Can no channel of the layer fire?
pub open spec fn silent_layer(t: TensorView, bias: Seq<i32>) -> bool {
    forall|o: int|
        0 <= o < t.dims[0] ==> #[trigger] silent(
            bias,
            o,
            t.dims[1] * (t.dims[2] * t.dims[3]),
        )
}

/// A layer that cannot fire gives the same for all inputs.
proof fn lemma_silent_layer(
    t: TensorView,
    bias: Seq<i32>,
    x: Seq<i8>,
    y: Seq<i8>,
    h: int,
    w: int,
    m: F32,
)
    requires
        t.dims.len() == 4,
        silent_layer(t, bias),
        unsigned(m),
        super::model::layer_fits(t, h, w),
    ensures
        super::model::layer(t, bias, x, h, w, m) == super::model::layer(t, bias, y, h, w, m),
{
    let (c, d) = (super::model::conv_with(t, x, h, w), super::model::conv_with(t, y, h, w));
    let n = t.dims[0] as int;
    let (p, q) = (
        super::kernel::convolved(c, n, bias),
        super::kernel::convolved(d, n, bias),
    );
    lemma_div_by_self(1);
    let (oh, ow) = (c.out_h(), c.out_w());
    assert(oh >= 1 && ow >= 1) by {
        assert(h + 2 * c.pad - c.kh >= 0);
        lemma_div_pos_is_pos(h + 2 * c.pad - c.kh, 1);
        lemma_div_pos_is_pos(w + 2 * c.pad - c.kw, 1);
    }
    let a = Seq::new(p.len(), |i: int| super::kernel::requantized(p[i], m, true));
    let b = Seq::new(q.len(), |i: int| super::kernel::requantized(q[i], m, true));
    assert forall|k: int| 0 <= k < a.len() implies #[trigger] a[k] == b[k] by {
        let r = k / ow;
        assert(0 <= k < (n * oh) * ow);
        lemma_div_pos_is_pos(k, ow);
        lemma_multiply_divide_lt(k, ow, n * oh);
        lemma_div_pos_is_pos(r, oh);
        lemma_multiply_divide_lt(r, oh, n);
        let oc = r / oh;
        assert(silent(bias, oc, t.dims[1] * (t.dims[2] * t.dims[3])));
        super::kernel::lemma_sum_bound(c, oc, r % oh, k % ow, c.in_c as nat);
        super::kernel::lemma_sum_bound(d, oc, r % oh, k % ow, d.in_c as nat);
        super::kernel::lemma_wrapped_small(c.exact(bias, oc, r % oh, k % ow));
        super::kernel::lemma_wrapped_small(d.exact(bias, oc, r % oh, k % ow));
        lemma_rejected(p[k], m);
        lemma_rejected(q[k], m);
    }
    assert(a =~= b);
}

/// The convolutions hand on nothing negative: where no channel of the first, or of the second, can
/// fire, the image does not matter.
pub proof fn law_a_layer_that_cannot_fire_hides_the_image(
    w: Seq<TensorView>,
    bitmap: Seq<F32>,
    other: Seq<F32>,
    features: Seq<F32>,
    size: int,
)
    requires
        unsigned_scales(w),
        bitmap.len() == other.len(),
        silent_layer(
            named(w, "c1.w"@),
            super::weights::i32_entries(named(w, "c1.b"@)),
        ) || silent_layer(
            named(w, "c2.w"@),
            super::weights::i32_entries(named(w, "c2.b"@)),
        ),
        super::model::logits_of(w, bitmap, features, size) is Ok,
    ensures
        super::model::logits_of(w, bitmap, features, size) == super::model::logits_of(
            w,
            other,
            features,
            size,
        ),
{
    let (c1, c2) = (named(w, "c1.w"@), named(w, "c2.w"@));
    let (b1, b2) = (
        super::weights::i32_entries(named(w, "c1.b"@)),
        super::weights::i32_entries(named(w, "c2.b"@)),
    );
    let (s1, s2, s3) = (
        super::model::scale(w, "c1.in_scale"@),
        super::model::scale(w, "c2.in_scale"@),
        super::model::scale(w, "f1.in_scale"@),
    );
    lemma_unsigned(s1, c1.scale, s2);
    lemma_unsigned(s2, c2.scale, s3);
    if silent_layer(c1, b1) {
        lemma_silent_layer(
            c1,
            b1,
            super::model::quantized_all(bitmap, s1),
            super::model::quantized_all(other, s1),
            size,
            size,
            s1.times(c1.scale).over(s2),
        );
        assert(first(w, bitmap, size) == first(w, other, size));
    } else {
        lemma_silent_layer(
            c2,
            b2,
            first(w, bitmap, size),
            first(w, other, size),
            extent_of(w, size, 2),
            extent_of(w, size, 3),
            s2.times(c2.scale).over(s3),
        );
    }
    assert(pooled(w, bitmap, size) == pooled(w, other, size));
    lemma_logits(w, bitmap, features, size);
    lemma_logits(w, other, features, size);
}

// ---------------------------------------------------------------------------------------------
// Where the features stand
// ---------------------------------------------------------------------------------------------
/// Are the weights of the first dense layer zero for the inputs from `from` up to `to`?
pub open spec fn ignores(w: Seq<TensorView>, from: int, to: int) -> bool {
    let f1 = named(w, "f1.w"@);
    forall|o: int, i: int|
        0 <= o < f1.dims[0] && from <= i < to ==> #[trigger] super::weights::i8_entries(f1)[o
            * f1.dims[1] + i] == 0
}

proof fn lemma_ignored(w: Seq<TensorView>, x: Seq<i8>, y: Seq<i8>, from: int, to: int)
    requires
        x.len() == y.len() == named(w, "f1.w"@).dims[1],
        ignores(w, from, to),
        forall|i: int| 0 <= i < x.len() && !(from <= i < to) ==> #[trigger] x[i] == y[i],
    ensures
        hidden(w, x) == hidden(w, y),
{
    let f1 = named(w, "f1.w"@);
    let weights = super::weights::i8_entries(f1);
    assert forall|o: int| 0 <= o < f1.dims[0] implies #[trigger] super::kernel::dot(
        x,
        weights,
        o,
        x.len(),
    ) == super::kernel::dot(y, weights, o, y.len()) by {
        assert forall|i: int| 0 <= i < x.len() implies (#[trigger] x[i] == y[i] && weights[o * x.len()
            + i] == weights[o * x.len() + i]) || (weights[o * x.len() + i] == 0 && weights[o
            * x.len() + i] == 0) || (x[i] == 0 && y[i] == 0) by {
            if from <= i < to {
                assert(weights[o * f1.dims[1] + i] == 0);
            }
        }
        lemma_dot_same(x, y, weights, weights, o, x.len());
    }
    assert(hidden(w, x) =~= hidden(w, y));
}

/// The features are the last inputs of the first dense layer, and nothing else there depends on them:
/// a model whose weights for as many last inputs are zero does not look at them.
pub proof fn law_the_features_come_last(
    w: Seq<TensorView>,
    bitmap: Seq<F32>,
    features: Seq<F32>,
    other: Seq<F32>,
    size: int,
)
    requires
        super::model::logits_of(w, bitmap, features, size) is Ok,
        features.len() == other.len(),
        ignores(
            w,
            named(w, "f1.w"@).dims[1] - features.len(),
            named(w, "f1.w"@).dims[1] as int,
        ),
    ensures
        super::model::logits_of(w, bitmap, features, size) == super::model::logits_of(
            w,
            bitmap,
            other,
            size,
        ),
{
    let (x, y) = (joined(w, bitmap, features, size), joined(w, bitmap, other, size));
    lemma_logits(w, bitmap, features, size);
    lemma_logits(w, bitmap, other, size);
    let n = named(w, "f1.w"@).dims[1] as int;
    assert forall|i: int|
        0 <= i < x.len() && !(n - features.len() <= i < n) implies #[trigger] x[i] == y[i] by {
        assert(x[i] == pooled(w, bitmap, size)[i]);
    }
    lemma_ignored(w, x, y, n - features.len(), n);
}

/// The pooled maps are the first inputs of the first dense layer: a model whose weights for all inputs
/// before the features are zero does not look at the image.
pub proof fn law_the_image_comes_first(
    w: Seq<TensorView>,
    bitmap: Seq<F32>,
    other: Seq<F32>,
    features: Seq<F32>,
    size: int,
)
    requires
        super::model::logits_of(w, bitmap, features, size) is Ok,
        bitmap.len() == other.len(),
        ignores(w, 0, named(w, "f1.w"@).dims[1] - features.len()),
    ensures
        super::model::logits_of(w, bitmap, features, size) == super::model::logits_of(
            w,
            other,
            features,
            size,
        ),
{
    let (x, y) = (joined(w, bitmap, features, size), joined(w, other, features, size));
    assert(first(w, bitmap, size).len() == first(w, other, size).len());
    assert(pooled(w, bitmap, size).len() == pooled(w, other, size).len());
    lemma_logits(w, bitmap, features, size);
    lemma_logits(w, other, features, size);
    let n = named(w, "f1.w"@).dims[1] as int;
    let s = super::model::scale(w, "f1.in_scale"@);
    assert forall|i: int|
        0 <= i < x.len() && !(0 <= i < n - features.len()) implies #[trigger] x[i] == y[i] by {
        let k = i - pooled(w, bitmap, size).len();
        assert(x[i] == super::model::quantized_all(features, s)[k]);
        assert(y[i] == super::model::quantized_all(features, s)[k]);
    }
    lemma_ignored(w, x, y, 0, n - features.len());
}

// ---------------------------------------------------------------------------------------------
// Scales
// ---------------------------------------------------------------------------------------------
/// A number, or twice the number.
pub open spec fn up(a: F32, double: bool) -> F32 {
    if double {
        crate::float::scale::twice(a)
    } else {
        a
    }
}

/// Numbers, or twice the numbers.
pub open spec fn all_up(v: Seq<F32>, double: bool) -> Seq<F32> {
    Seq::new(v.len(), |i: int| up(v[i], double))
}

/// Is `new` the weight scale that makes up for the changes of the scales before and behind its layer?
pub open spec fn makes_up(old: F32, new: F32, before: bool, behind: bool) -> bool {
    if before == behind {
        new == old
    } else if before {
        old == crate::float::scale::twice(new)
    } else {
        new == crate::float::scale::twice(old)
    }
}

/// Can the scales of a layer be doubled, without loss?
pub open spec fn sound(s: F32, weight: F32, next: F32) -> bool {
    &&& crate::float::scale::doubles(s) && crate::float::scale::doubles(weight)
    &&& crate::float::scale::doubles(next)
    &&& crate::float::scale::ordinary(s.times(weight))
}

proof fn lemma_multiplier(
    s: F32,
    weight: F32,
    next: F32,
    other: F32,
    before: bool,
    behind: bool,
)
    requires
        sound(s, weight, next),
        makes_up(weight, other, before, behind),
        crate::float::scale::doubles(other),
    ensures
        up(s, before).times(other).over(up(next, behind)) == s.times(weight).over(next),
        !behind ==> up(s, before).times(other) == s.times(weight),
{
    let p = s.times(weight);
    assert(weight.times(s) == p) by {
        reveal(F32::times_spec);
        assert(s.size() * weight.size() == weight.size() * s.size()) by (nonlinear_arith);
    }
    if before && behind {
        crate::float::scale::lemma_times_twice(weight, s);
        crate::float::scale::lemma_twice_over(p, next);
    } else if before {
        crate::float::scale::lemma_shifted_product(s, other);
    } else if behind {
        crate::float::scale::lemma_times_twice(s, weight);
        crate::float::scale::lemma_twice_over(p, next);
    }
}

/// Can values be taken to this scale, and to twice the scale, without loss?
pub open spec fn sound_values(v: Seq<F32>, s: F32) -> bool {
    &&& num(0).lt(s) && crate::float::scale::doubles(s)
    &&& crate::float::scale::ordinary(num(0x3f80_0000).over(crate::float::scale::twice(s)))
    &&& forall|i: int| 0 <= i < v.len() ==> crate::float::scale::doubles(#[trigger] v[i])
}

proof fn lemma_quantized_up(v: Seq<F32>, s: F32, double: bool)
    requires
        sound_values(v, s),
    ensures
        super::model::quantized_all(all_up(v, double), up(s, double))
            == super::model::quantized_all(v, s),
{
    let (a, b) = (
        super::model::quantized_all(all_up(v, double), up(s, double)),
        super::model::quantized_all(v, s),
    );
    if double {
        let t = num(0x3f80_0000).over(crate::float::scale::twice(s));
        reveal(F32::lt_spec);
        crate::float::scale::lemma_twice(s);
        crate::float::scale::lemma_inverse_twice(s);
        assert forall|i: int| 0 <= i < a.len() implies #[trigger] a[i] == b[i] by {
            assert(crate::float::scale::doubles(v[i]));
            crate::float::scale::lemma_shifted_product(v[i], t);
        }
    }
    assert(a =~= b);
}

/// Are the tensors of this name the same in both models, but for their scales?
pub open spec fn same_tensor(w: Seq<TensorView>, v: Seq<TensorView>, name: Seq<char>) -> bool {
    &&& super::model::holds(v, name) == super::model::holds(w, name)
    &&& named(v, name).dims == named(w, name).dims
    &&& super::weights::i8_entries(named(v, name)) == super::weights::i8_entries(named(w, name))
    &&& super::weights::i32_entries(named(v, name)) == super::weights::i32_entries(named(w, name))
}

/// Do both models have a scale of this name, and is the second the first, or twice the first?
pub open spec fn same_scale(
    w: Seq<TensorView>,
    v: Seq<TensorView>,
    name: Seq<char>,
    double: bool,
) -> bool {
    &&& super::model::has_scale(w, name) && super::model::has_scale(v, name)
    &&& super::model::scale(v, name) == up(super::model::scale(w, name), double)
}

proof fn lemma_layer_same(
    t: TensorView,
    u: TensorView,
    bias: Seq<i32>,
    x: Seq<i8>,
    h: int,
    w: int,
    m: F32,
)
    requires
        t.dims == u.dims,
        super::weights::i8_entries(t) == super::weights::i8_entries(u),
    ensures
        super::model::layer(t, bias, x, h, w, m) == super::model::layer(u, bias, x, h, w, m),
        super::model::layer_fits(t, h, w) == super::model::layer_fits(u, h, w),
{
    assert(super::model::conv_with(t, x, h, w) == super::model::conv_with(u, x, h, w));
}

/// The scales carry over: an activation stands for its value times the scale of the layer that it
/// feeds, and a weight for its value times the scale of its tensor. So the scale of any layer's input
/// may be doubled, if the weight scale before it is doubled (or the input itself) and the one behind
/// it is halved, and the logits stay the same.
pub proof fn law_the_scales_carry_over(
    w: Seq<TensorView>,
    v: Seq<TensorView>,
    bitmap: Seq<F32>,
    features: Seq<F32>,
    size: int,
    k1: bool,
    k2: bool,
    k3: bool,
    k4: bool,
)
    requires
        same_tensor(w, v, "c1.w"@) && same_tensor(w, v, "c1.b"@),
        same_tensor(w, v, "c2.w"@) && same_tensor(w, v, "c2.b"@),
        same_tensor(w, v, "f1.w"@) && same_tensor(w, v, "f1.b"@),
        same_tensor(w, v, "f2.w"@) && same_tensor(w, v, "f2.b"@),
        same_scale(w, v, "c1.in_scale"@, k1),
        same_scale(w, v, "c2.in_scale"@, k2),
        same_scale(w, v, "f1.in_scale"@, k3),
        same_scale(w, v, "f2.in_scale"@, k4),
        makes_up(named(w, "c1.w"@).scale, named(v, "c1.w"@).scale, k1, k2),
        makes_up(named(w, "c2.w"@).scale, named(v, "c2.w"@).scale, k2, k3),
        makes_up(named(w, "f1.w"@).scale, named(v, "f1.w"@).scale, k3, k4),
        makes_up(named(w, "f2.w"@).scale, named(v, "f2.w"@).scale, k4, false),
        crate::float::scale::doubles(named(v, "c1.w"@).scale),
        crate::float::scale::doubles(named(v, "c2.w"@).scale),
        crate::float::scale::doubles(named(v, "f1.w"@).scale),
        crate::float::scale::doubles(named(v, "f2.w"@).scale),
        ({
            let s1 = super::model::scale(w, "c1.in_scale"@);
            let s2 = super::model::scale(w, "c2.in_scale"@);
            let s3 = super::model::scale(w, "f1.in_scale"@);
            let s4 = super::model::scale(w, "f2.in_scale"@);
            &&& sound(s1, named(w, "c1.w"@).scale, s2)
            &&& sound(s2, named(w, "c2.w"@).scale, s3)
            &&& sound(s3, named(w, "f1.w"@).scale, s4)
            &&& sound(s4, named(w, "f2.w"@).scale, s4)
            &&& sound_values(bitmap, s1)
            &&& sound_values(features, s3)
        }),
    ensures
        super::model::logits_of(v, all_up(bitmap, k1), all_up(features, k3), size)
            == super::model::logits_of(w, bitmap, features, size),
{
    let s1 = super::model::scale(w, "c1.in_scale"@);
    let s2 = super::model::scale(w, "c2.in_scale"@);
    let s3 = super::model::scale(w, "f1.in_scale"@);
    let s4 = super::model::scale(w, "f2.in_scale"@);
    let (c1, c2) = (named(w, "c1.w"@), named(w, "c2.w"@));
    let (d1, d2) = (named(v, "c1.w"@), named(v, "c2.w"@));
    let (f1, f2) = (named(w, "f1.w"@), named(w, "f2.w"@));
    let (g1, g2) = (named(v, "f1.w"@), named(v, "f2.w"@));
    lemma_multiplier(s1, c1.scale, s2, d1.scale, k1, k2);
    lemma_multiplier(s2, c2.scale, s3, d2.scale, k2, k3);
    lemma_multiplier(s3, f1.scale, s4, g1.scale, k3, k4);
    lemma_multiplier(s4, f2.scale, s4, g2.scale, k4, false);
    lemma_quantized_up(bitmap, s1, k1);
    lemma_quantized_up(features, s3, k3);
    let b1 = super::weights::i32_entries(named(w, "c1.b"@));
    let b2 = super::weights::i32_entries(named(w, "c2.b"@));
    let (x, y) = (all_up(bitmap, k1), all_up(features, k3));
    lemma_layer_same(
        d1,
        c1,
        b1,
        super::model::quantized_all(bitmap, s1),
        size,
        size,
        s1.times(c1.scale).over(s2),
    );
    assert(first(v, x, size) == first(w, bitmap, size));
    let (h, e) = (extent_of(w, size, 2), extent_of(w, size, 3));
    lemma_layer_same(d2, c2, b2, first(w, bitmap, size), h, e, s2.times(c2.scale).over(s3));
    assert(pooled(v, x, size) == pooled(w, bitmap, size));
    assert(joined(v, x, y, size) == joined(w, bitmap, features, size));
    let z = joined(w, bitmap, features, size);
    assert(hidden(v, z) =~= hidden(w, z));
    assert(answer(v, hidden(w, z)) =~= answer(w, hidden(w, z)));
    lemma_logits(w, bitmap, features, size);
    lemma_logits(v, x, y, size);
}

} // verus!
