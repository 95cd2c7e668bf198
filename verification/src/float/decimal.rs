//! Numbers as decimal text.
use super::F32;
use crate::text::{append, digit_char};
use vstd::arithmetic::div_mod::*;
use vstd::arithmetic::mul::*;
use vstd::arithmetic::power2::*;
use vstd::prelude::*;

verus! {

/// The whole number nearest to `n / d`; halfway between two it is the even one.
pub open spec fn nearest_whole(n: nat, d: nat) -> nat {
    let q = n / d;
    let r = n % d;
    if 2 * r > d || (2 * r == d && q % 2 == 1) {
        q + 1
    } else {
        q
    }
}

/// `10^k`.
pub open spec fn tenfold(k: nat) -> nat
    decreases k,
{
    if k == 0 {
        1
    } else {
        10 * tenfold((k - 1) as nat)
    }
}

/// The last `width` decimal digits of `n`.
pub open spec fn padded(n: nat, width: nat) -> Seq<char>
    decreases width,
{
    if width == 0 {
        Seq::empty()
    } else {
        padded(n / 10, (width - 1) as nat).push(crate::text::digit((n % 10) as int))
    }
}

/// A whole number of `10^-places`, with that many digits after the point.
pub open spec fn pointed(n: nat, places: nat) -> Seq<char> {
    let whole = crate::text::decimal(n / tenfold(places));
    if places == 0 {
        whole
    } else {
        whole + "."@ + padded(n % tenfold(places), places)
    }
}

/// A number with a given number of digits after the point, rounded to the nearest.
pub open spec fn fixed(a: F32, places: nat) -> Seq<char> {
    if a.nan() {
        "NaN"@
    } else {
        let sign = if a.negative() {
            "-"@
        } else {
            Seq::empty()
        };
        sign + if a.infinite() {
            "inf"@
        } else {
            pointed(
                nearest_whole(a.size() * tenfold(places), super::arith::one_units()),
                places,
            )
        }
    }
}

/// Append a number in decimal.
fn push_whole(out: &mut Vec<char>, n: u128)
    ensures
        final(out)@ == old(out)@ + crate::text::decimal(n as nat),
    decreases n,
{
    if n < 10 {
        out.push(digit_char(n as u64));
        assert(out@ =~= old(out)@ + crate::text::decimal(n as nat));
    } else {
        push_whole(out, n / 10);
        out.push(digit_char((n % 10) as u64));
        assert(out@ =~= old(out)@ + crate::text::decimal(n as nat));
    }
}

fn push_padded(out: &mut Vec<char>, n: u64, width: u32)
    ensures
        final(out)@ == old(out)@ + padded(n as nat, width as nat),
    decreases width,
{
    if width > 0 {
        push_padded(out, n / 10, width - 1);
        out.push(digit_char(n % 10));
    }
    assert(out@ =~= old(out)@ + padded(n as nat, width as nat));
}

fn ten_to(k: u32) -> (r: u64)
    requires
        k <= 6,
    ensures
        r == tenfold(k as nat),
        1 <= r <= 1_000_000,
{
    reveal_with_fuel(tenfold, 8);
    if k == 0 {
        1
    } else if k == 1 {
        10
    } else if k == 2 {
        100
    } else if k == 3 {
        1000
    } else if k == 4 {
        10_000
    } else if k == 5 {
        100_000
    } else {
        1_000_000
    }
}

pub(super) fn two_to(k: u32) -> (r: u64)
    requires
        k < 64,
    ensures
        r == pow2(k as nat),
        r > 0,
{
    let mut r: u64 = 1;
    let mut i: u32 = 0;
    proof {
        lemma2_to64();
    }
    while i < k
        invariant
            i <= k < 64,
            r == pow2(i as nat),
        decreases k - i,
    {
        proof {
            lemma_pow2_unfold((i + 1) as nat);
            lemma2_to64();
            if i + 1 < 64 {
                lemma_pow2_strictly_increases((i + 1) as nat, 64);
            }
        }
        r = r * 2;
        i = i + 1;
    }
    proof {
        lemma_pow2_pos(k as nat);
    }
    r
}

/// A common factor does not change the nearest whole number.
proof fn lemma_nearest_whole_scaled(n: nat, d: nat, c: nat)
    requires
        d > 0,
        c > 0,
    ensures
        nearest_whole(n * c, d * c) == nearest_whole(n, d),
{
    let q = n / d;
    let r = n % d;
    lemma_fundamental_div_mod(n as int, d as int);
    lemma_mod_bound(n as int, d as int);
    assert(n * c == q * (d * c) + r * c) by (nonlinear_arith)
        requires
            n == d * q + r,
    ;
    assert(0 <= r * c < d * c) by (nonlinear_arith)
        requires
            0 <= r < d,
            c > 0,
    ;
    assert(d * c > 0) by (nonlinear_arith)
        requires
            d > 0,
            c > 0,
    ;
    lemma_fundamental_div_mod_converse((n * c) as int, (d * c) as int, q as int, (r * c) as int);
    assert((2 * (r * c) > d * c) == (2 * r > d) && (2 * (r * c) == d * c) == (2 * r == d))
        by (nonlinear_arith)
        requires
            c > 0,
    ;
}

/// `m * t / 2^k`, rounded to a whole number.
fn round_down(m: u64, t: u64, k: u32) -> (r: u64)
    requires
        m < 0x100_0000,
        1 <= t <= 1_000_000,
        1 <= k <= 149,
    ensures
        r == nearest_whole((m * t) as nat, pow2(k as nat)),
        r <= m * t,
{
    proof {
        assert(m * t < 0x100_0000 * 1_000_000) by (nonlinear_arith)
            requires
                m < 0x100_0000,
                1 <= t <= 1_000_000,
        ;
        lemma2_to64();
        lemma2_to64_rest();
    }
    let n: u64 = m * t;
    if k >= 60 {
        proof {
            if k > 60 {
                lemma_pow2_strictly_increases(60, k as nat);
            }
            lemma_small_mod(n as nat, pow2(k as nat));
            lemma_basic_div(n as int, pow2(k as nat) as int);
        }
        return 0;
    }
    let d = two_to(k);
    proof {
        if k < 60 {
            lemma_pow2_strictly_increases(k as nat, 60);
        }
        lemma_fundamental_div_mod(n as int, d as int);
        if k > 1 {
            lemma_pow2_strictly_increases(1, k as nat);
        }
        assert(d >= 2);
        let q = n as int / d as int;
        let r = n as int % d as int;
        lemma_mod_bound(n as int, d as int);
        assert(q <= n && (q + 1 <= n || r == n)) by (nonlinear_arith)
            requires
                n as int == d as int * q + r,
                d >= 2,
                r >= 0,
                q >= 0,
        ;
        if r == n && 2 * r >= d {
            assert(q == 0) by (nonlinear_arith)
                requires
                    n as int == d as int * q + n as int,
                    d >= 2,
            ;
        }
    }
    let q: u64 = n / d;
    let r: u64 = n % d;
    if 2 * r > d || (2 * r == d && q % 2 == 1) {
        q + 1
    } else {
        q
    }
}

/// `m * 2^s`.
fn lift(m: u64, s: u32) -> (r: u128)
    requires
        m < 0x100_0000,
        s <= 104,
    ensures
        r == m * pow2(s as nat),
{
    let mut r: u128 = m as u128;
    let mut i: u32 = 0;
    proof {
        lemma2_to64();
    }
    while i < s
        invariant
            i <= s <= 104,
            m < 0x100_0000,
            r == m * pow2(i as nat),
        decreases s - i,
    {
        proof {
            lemma2_to64();
            let p = pow2(i as nat) as int;
            lemma_pow2_unfold((i + 1) as nat);
            lemma_pow2_pos(i as nat);
            lemma_pow2_adds(24, 103);
            lemma_pow2_adds(63, 64);
            lemma2_to64_rest();
            if i < 103 {
                lemma_pow2_strictly_increases(i as nat, 103);
            }
            assert(m * p <= 0xff_ffff * pow2(103)) by (nonlinear_arith)
                requires
                    m <= 0xff_ffff,
                    0 <= p <= pow2(103),
            ;
            assert(m * (2 * p) == 2 * (m * p)) by (nonlinear_arith);
            assert(pow2(127) == 0x8000_0000_0000_0000_0000_0000_0000_0000);
            assert(0xff_ffff * pow2(103) < pow2(127)) by (nonlinear_arith)
                requires
                    pow2(127) == 0x100_0000 * pow2(103),
                    pow2(103) > 0,
            ;
        }
        r = r * 2;
        i = i + 1;
    }
    r
}

/// Append a number with a given number of digits after the point.
pub fn push_fixed(out: &mut Vec<char>, a: F32, places: u32)
    requires
        places <= 6,
    ensures
        final(out)@ == old(out)@ + fixed(a, places as nat),
{
    let ghost start = out@;
    if a.is_nan() {
        append(out, "NaN");
        return;
    }
    let (negative, magnitude) = a.split();
    if negative {
        append(out, "-");
    }
    let ghost sign = if negative {
        "-"@
    } else {
        Seq::empty()
    };
    assert(out@ =~= start + sign);
    if magnitude == super::INF_BITS {
        append(out, "inf");
        assert(out@ =~= start + fixed(a, places as nat));
        return;
    }
    let (m, e) = a.unpack();
    let t = ten_to(places);
    let ghost n = nearest_whole(a.size() * tenfold(places as nat), super::arith::one_units());
    if e >= 149 {
        let s: u32 = (e - 149) as u32;
        let whole = lift(m, s);
        proof {
            let one = super::arith::one_units();
            lemma_pow2_pos(149);
            lemma_pow2_adds(s as nat, 149);
            let p = pow2(s as nat);
            assert(a.size() == m * (p * one));
            assert(m * (p * one) * t == (whole * t) * one) by (nonlinear_arith)
                requires
                    whole == m * p,
            ;
            lemma_div_multiples_vanish((whole * t) as int, one as int);
            lemma_mod_multiples_basic((whole * t) as int, one as int);
            assert(n == whole * t);
            lemma_div_multiples_vanish(whole as int, t as int);
            lemma_mod_multiples_basic(whole as int, t as int);
            assert(t as int * whole as int == whole * t) by (nonlinear_arith);
            assert(n / t as nat == whole && n % t as nat == 0);
        }
        push_whole(out, whole);
        assert(out@ =~= start + sign + crate::text::decimal(whole as nat));
        if places > 0 {
            append(out, ".");
            push_padded(out, 0, places);
        }
        assert(fixed(a, places as nat) == sign + pointed(n, places as nat));
        assert(out@ =~= start + (sign + pointed(n, places as nat)));
    } else {
        let k: u32 = (149 - e) as u32;
        let v = round_down(m, t, k);
        proof {
            lemma_pow2_adds(k as nat, e as nat);
            lemma_pow2_pos(k as nat);
            lemma_pow2_pos(e as nat);
            let p = pow2(e as nat);
            assert((m * p) * t == (m * t) * p) by (nonlinear_arith);
            lemma_nearest_whole_scaled((m * t) as nat, pow2(k as nat), p);
            assert(n == v);
        }
        push_whole(out, (v / t) as u128);
        if places > 0 {
            append(out, ".");
            push_padded(out, v % t, places);
        }
        assert(fixed(a, places as nat) == sign + pointed(n, places as nat));
        assert(out@ =~= start + (sign + pointed(n, places as nat)));
    }
}

} // verus!
