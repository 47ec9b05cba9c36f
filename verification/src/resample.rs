//! Integer skeleton of the polyphase sinc resampler: rate-ratio reduction,
//! filter sizing, output length, and the per-output-sample phase/offset
//! arithmetic that selects a polyphase sub-filter.

use vstd::prelude::*;
use vstd::arithmetic::div_mod::*;
use vstd::arithmetic::mul::*;

verus! {

/// Greatest common divisor by Euclid's algorithm.
pub open spec fn gcd_spec(a: nat, b: nat) -> nat
    decreases b,
{
    if b == 0 {
        a
    } else {
        gcd_spec(b, a % b)
    }
}

/// The gcd is positive and divides both arguments.
pub proof fn lemma_gcd_divides(a: nat, b: nat)
    requires
        a > 0 || b > 0,
    ensures
        gcd_spec(a, b) > 0,
        a % gcd_spec(a, b) == 0,
        b % gcd_spec(a, b) == 0,
    decreases b,
{
    let g = gcd_spec(a, b);
    if b == 0 {
        assert(g == a);
        lemma_mod_self_0(a as int);
        assert(b % g == 0);
    } else {
        lemma_mod_bound(a as int, b as int);
        lemma_mod_decreases(a, b);
        lemma_gcd_divides(b, a % b);
        assert(g == gcd_spec(b, a % b));
        assert(g > 0);
        assert(b % g == 0);
        assert((a % b) % g == 0);
        // a = (a / b) * b + a % b, and both terms are multiples of g.
        lemma_fundamental_div_mod(a as int, b as int);
        lemma_fundamental_div_mod(b as int, g as int);
        lemma_fundamental_div_mod((a % b) as int, g as int);
        let q = a as int / b as int;
        let bg = b as int / g as int;
        let rg = (a % b) as int / g as int;
        assert(b as int == bg * g) by (nonlinear_arith)
            requires
                b as int == (g as int) * bg + ((b % g) as int),
                (b % g) as int == 0,
        ;
        assert((a % b) as int == rg * g) by (nonlinear_arith)
            requires
                (a % b) as int == (g as int) * rg + (((a % b) % g) as int),
                ((a % b) % g) as int == 0,
        ;
        assert(a as int == (q * bg + rg) * g) by (nonlinear_arith)
            requires
                a as int == q * (b as int) + (a % b),
                b as int == bg * (g as int),
                (a % b) as int == rg * (g as int),
        ;
        lemma_mod_multiples_basic(q * bg + rg, g as int);
    }
}

/// Every common divisor of `a` and `b` divides their gcd.
pub proof fn lemma_gcd_greatest(a: nat, b: nat, d: nat)
    requires
        d > 0,
        a % d == 0,
        b % d == 0,
    ensures
        gcd_spec(a, b) % d == 0,
    decreases b,
{
    if b == 0 {
    } else {
        lemma_mod_bound(a as int, b as int);
        // a % b = a - (a / b) * b is a difference of two multiples of d.
        lemma_fundamental_div_mod(a as int, b as int);
        lemma_fundamental_div_mod(a as int, d as int);
        lemma_fundamental_div_mod(b as int, d as int);
        let q = a as int / b as int;
        let ad = a as int / d as int;
        let bd = b as int / d as int;
        assert((a % b) as int == (ad - q * bd) * d) by (nonlinear_arith)
            requires
                a as int == q * (b as int) + (a % b),
                a as int == (d as int) * ad + (a % d),
                b as int == (d as int) * bd + (b % d),
                a % d == 0,
                b % d == 0,
        ;
        lemma_mod_multiples_basic(ad - q * bd, d as int);
        assert((a % b) % d == 0);
        lemma_mod_decreases(a, b);
        lemma_gcd_greatest(b, a % b, d);
    }
}

/// The gcd of equal positive arguments is that argument.
pub proof fn lemma_gcd_self(a: nat)
    requires
        a > 0,
    ensures
        gcd_spec(a, a) == a,
{
    lemma_mod_self_0(a as int);
    assert(gcd_spec(a, a) == gcd_spec(a, 0));
}

/// Euclid's algorithm, iteratively.
pub fn gcd(a: u32, b: u32) -> (g: u32)
    ensures
        g == gcd_spec(a as nat, b as nat),
{
    let mut x = a;
    let mut y = b;
    while y != 0
        invariant
            gcd_spec(x as nat, y as nat) == gcd_spec(a as nat, b as nat),
        decreases y,
    {
        let t = x % y;
        x = y;
        y = t;
    }
    x
}

/// Reduces `from : to` to the coprime upsample/downsample pair
/// `(up, down) == (to / g, from / g)` where `g = gcd(from, to)`.
pub fn reduce_ratio(from: u32, to: u32) -> (r: (u32, u32))
    requires
        from > 0,
        to > 0,
    ensures
        r.0 > 0,
        r.1 > 0,
        r.0 * gcd_spec(from as nat, to as nat) == to,
        r.1 * gcd_spec(from as nat, to as nat) == from,
        gcd_spec(r.1 as nat, r.0 as nat) == 1,
{
    let g = gcd(from, to);
    proof {
        lemma_gcd_divides(from as nat, to as nat);
    }
    let up = to / g;
    let down = from / g;
    proof {
        let gn = gcd_spec(from as nat, to as nat);
        lemma_fundamental_div_mod(to as int, g as int);
        lemma_fundamental_div_mod(from as int, g as int);
        assert((to as nat) % gn == 0 && (from as nat) % gn == 0);
        assert(up * g == to) by (nonlinear_arith)
            requires
                to as int == (g as int) * ((to as int) / (g as int)) + ((to as int) % (g as int)),
                up as int == (to as int) / (g as int),
                (to as int) % (g as int) == 0,
        ;
        assert(down * g == from) by (nonlinear_arith)
            requires
                from as int == (g as int) * ((from as int) / (g as int)) + ((from as int) % (
                g as int)),
                down as int == (from as int) / (g as int),
                (from as int) % (g as int) == 0,
        ;
        assert(up > 0 && down > 0) by (nonlinear_arith)
            requires
                up * g == to,
                down * g == from,
                to > 0,
                from > 0,
        ;
        lemma_coprime_after_division(from as nat, to as nat, gn, down as nat, up as nat);
    }
    (up, down)
}

/// Rounded-up integer division.
pub open spec fn ceil_div(a: int, b: int) -> int {
    (a + b - 1) / b
}

/// For nonnegative values, `j * b <= x` exactly when `j <= x / b`.
pub proof fn lemma_mul_le_iff_div(j: int, x: int, b: int)
    requires
        b >= 1,
        x >= 0,
        j >= 0,
    ensures
        (j * b <= x) <==> (j <= x / b),
{
    if j <= x / b {
        lemma_mul_inequality(j, x / b, b);
        lemma_fundamental_div_mod(x, b);
        lemma_mod_bound(x, b);
        assert((x / b) * b <= x) by (nonlinear_arith)
            requires
                x == b * (x / b) + x % b,
                x % b >= 0,
        ;
    }
    if j * b <= x {
        lemma_div_is_ordered(j * b, x, b);
        lemma_div_multiples_vanish(j, b);
        assert((j * b) / b == j);
    }
}

/// `ceil_div(a, b)` is the least count of `b`-sized steps covering `a`:
/// it is nonnegative, `ceil_div(a, b) * b` reaches `a`, and no smaller
/// count does.
pub proof fn lemma_ceil_div(a: int, b: int)
    requires
        b >= 1,
        a >= 0,
    ensures
        ceil_div(a, b) >= 0,
        ceil_div(a, b) * b >= a,
        ceil_div(a, b) <= a,
        a == 0 ==> ceil_div(a, b) == 0,
        forall|j: int| 0 <= j ==> ((#[trigger] (j * b) < a) <==> j < ceil_div(a, b)),
{
    let q = ceil_div(a, b);
    lemma_div_pos_is_pos(a + b - 1, b);
    lemma_fundamental_div_mod(a + b - 1, b);
    lemma_mod_bound(a + b - 1, b);
    let r = (a + b - 1) % b;
    assert(q * b == a + b - 1 - r) by (nonlinear_arith)
        requires
            a + b - 1 == b * q + r,
    ;
    assert(q * b >= a);
    assert(q <= a) by {
        if q > a {
            lemma_mul_inequality(a + 1, q, b);
            assert((a + 1) * b <= q * b);
            assert((a + 1) * b >= a + b) by (nonlinear_arith)
                requires
                    a >= 0,
                    b >= 1,
            ;
        }
    }
    if a == 0 {
        assert(q * b == b - 1 - r);
        assert(q <= 0);
    }
    assert forall|j: int| 0 <= j implies ((#[trigger] (j * b) < a) <==> j < q) by {
        if j < q {
            assert(j * b <= (q - 1) * b) by {
                lemma_mul_inequality(j, q - 1, b);
            }
            assert((q - 1) * b == a - 1 - r) by (nonlinear_arith)
                requires
                    q * b == a + b - 1 - r,
            ;
        }
        if j >= q {
            lemma_mul_inequality(q, j, b);
        }
    }
}

/// Half-length of the sinc prototype, in upsampled-domain taps, for an
/// `up : down` ratio. The design target is a 60 dB stopband at cutoff
/// `1 / (2 * max(up, down))` with a transition width of a tenth of the
/// cutoff; the Kaiser length relation `ceil((60 - 8) / (28.714 * width))`
/// then reduces to this exact integer ceiling (numerator and denominator
/// scaled by 1000).
pub open spec fn spec_half_length(up: int, down: int) -> int {
    ceil_div(
        1040000 * (if up >= down {
            up
        } else {
            down
        }),
        28714,
    )
}

/// Computes `spec_half_length` exactly.
pub fn filter_half_length(up: u32, down: u32) -> (h: u64)
    requires
        up >= 1,
        down >= 1,
    ensures
        h == spec_half_length(up as int, down as int),
        h >= 1,
{
    let m: u64 = if up >= down {
        up as u64
    } else {
        down as u64
    };
    let num: u64 = 1040000u64 * m;
    let h = (num + 28713) / 28714;
    proof {
        lemma_ceil_div(num as int, 28714);
        assert(h * 28714 >= num);
        if h < 1 {
            assert(h * 28714 <= 0) by (nonlinear_arith)
                requires
                    h <= 0,
            ;
        }
    }
    h
}

/// Number of output samples a resampling by `up : down` produces:
/// `ceil(len * up / down)`.
pub fn output_length(len: usize, up: u32, down: u32) -> (n: usize)
    requires
        up >= 1,
        down >= 1,
        ceil_div(len as int * up as int, down as int) <= usize::MAX,
    ensures
        n == ceil_div(len as int * up as int, down as int),
        n * down >= len * up,
        len > 0 ==> (n - 1) * down < len * up,
{
    proof {
        assert(0 <= len as int * up as int <= 0xffff_ffff_ffff_ffff * 0xffff_ffff)
            by (nonlinear_arith)
            requires
                0 <= len as int <= 0xffff_ffff_ffff_ffff,
                1 <= up as int <= 0xffff_ffff,
        ;
    }
    let num: u128 = (len as u128) * (up as u128);
    let n128: u128 = (num + (down as u128) - 1) / (down as u128);
    proof {
        lemma_ceil_div(num as int, down as int);
        let n = ceil_div(num as int, down as int);
        if len > 0 {
            assert(num as int > 0) by (nonlinear_arith)
                requires
                    len as int >= 1,
                    up as int >= 1,
                    num as int == len as int * up as int,
            ;
            assert(0 * (down as int) < num as int);
            assert(0 < n);
            assert((n - 1) * (down as int) < num as int) by {
                assert(n - 1 >= 0);
                assert(((n - 1) * (down as int) < num as int) == (n - 1 < n));
            }
        }
    }
    n128 as usize
}

/// The polyphase sub-filter feeding output sample `i`:
/// phase `(half - i * down) mod up`.
pub fn polyphase_phase(i: usize, down: u32, up: u32, half: u64) -> (p: u32)
    requires
        up >= 1,
    ensures
        p < up,
        p as int == (half - i * down) % (up as int),
{
    let u: u128 = up as u128;
    proof {
        assert(0 <= (i as int) * (down as int) <= 0xffff_ffff_ffff_ffff * 0xffff_ffff)
            by (nonlinear_arith)
            requires
                0 <= i as int <= 0xffff_ffff_ffff_ffff,
                0 <= down as int <= 0xffff_ffff,
        ;
    }
    let prod: u128 = ((i as u128) * (down as u128)) % u;
    let h: u128 = (half as u128) % u;
    proof {
        lemma_mod_bound((i as int) * (down as int), up as int);
        lemma_mod_bound(half as int, up as int);
    }
    let p128: u128 = (h + u - prod) % u;
    proof {
        let a = half as int;
        let bb = i as int * down as int;
        let m = up as int;
        lemma_mod_bound(a, m);
        lemma_mod_bound(bb, m);
        lemma_sub_mod_noop(a, bb, m);
        lemma_mod_add_multiples_vanish((a % m) - (bb % m), m);
        lemma_mod_bound((a % m) + m - (bb % m), m);
        assert(p128 as int == ((a % m) + m - (bb % m)) % m);
        assert((m + ((a % m) - (bb % m))) % m == ((a % m) - (bb % m)) % m);
        assert(p128 as int == (a - bb) % m);
    }
    p128 as u32
}

/// The first padded-input sample feeding output `i` through phase `p`:
/// `(i * down + p) / up`.
pub fn input_start(i: usize, down: u32, p: u32, up: u32) -> (s: u64)
    requires
        up >= 1,
        (i * down + p) / (up as int) <= u64::MAX,
    ensures
        s == (i * down + p) / (up as int),
{
    proof {
        assert(i as int * down as int >= 0) by (nonlinear_arith)
            requires
                i as int >= 0,
                down as int >= 0,
        ;
        lemma_div_pos_is_pos(i as int * down as int + p as int, up as int);
        assert(0 <= (i as int) * (down as int) <= 0xffff_ffff_ffff_ffff * 0xffff_ffff)
            by (nonlinear_arith)
            requires
                0 <= i as int <= 0xffff_ffff_ffff_ffff,
                0 <= down as int <= 0xffff_ffff,
        ;
    }
    let v: u128 = ((i as u128) * (down as u128) + (p as u128)) / (up as u128);
    v as u64
}

/// Sub-filter `p` of the polyphase decomposition holds the prototype taps
/// `p, p + up, p + 2*up, ...`; together the `up` sub-filters hold every
/// prototype tap exactly once: tap `t` lands in sub-filter `t % up` at
/// position `t / up`.
pub proof fn lemma_polyphase_partition(up: int, total: int)
    requires
        up >= 1,
    ensures
        forall|t: int|
            0 <= t < total ==> 0 <= #[trigger] (t % up) < up && 0 <= t / up && t == (t % up) + (t
                / up) * up,
        forall|p: int, j: int|
            0 <= p < up && 0 <= j ==> (#[trigger] (p + j * up)) % up == p && (p + j * up) / up
                == j,
{
    assert forall|t: int| 0 <= t < total implies 0 <= #[trigger] (t % up) < up && 0 <= t / up && t
        == (t % up) + (t / up) * up by {
        lemma_mod_bound(t, up);
        lemma_fundamental_div_mod(t, up);
        lemma_div_pos_is_pos(t, up);
        assert(t == (t % up) + (t / up) * up) by (nonlinear_arith)
            requires
                t == up * (t / up) + t % up,
        ;
    }
    assert forall|p: int, j: int| 0 <= p < up && 0 <= j implies (#[trigger] (p + j * up)) % up == p
        && (p + j * up) / up == j by {
        lemma_mod_multiples_vanish(j, p, up);
        lemma_small_mod(p as nat, up as nat);
        lemma_div_multiples_vanish_fancy(j, p, up);
        assert(j * up == up * j) by (nonlinear_arith);
        assert(p + j * up == up * j + p);
    }
}

/// Number of taps sub-filter `p` takes from a prototype with `total` taps:
/// exactly the `j` with `p + j * up < total`.
pub fn phase_tap_count(p: u32, up: u32, total: u64) -> (c: u64)
    requires
        up >= 1,
        p < up,
    ensures
        forall|j: int| 0 <= j ==> ((p + #[trigger] (j * (up as int)) < total) <==> j < c),
{
    if (p as u64) >= total {
        proof {
            assert forall|j: int| 0 <= j implies !(p + #[trigger] (j * (up as int)) < total) by {
                assert(j * up as int >= 0) by (nonlinear_arith)
                    requires
                        j >= 0,
                        up as int >= 1,
                ;
            }
        }
        0
    } else {
        let rem: u128 = (total - p as u64) as u128;
        let c128: u128 = (rem + (up as u128) - 1) / (up as u128);
        proof {
            lemma_ceil_div(rem as int, up as int);
            let c = ceil_div(rem as int, up as int);
            assert(c <= rem);
            assert forall|j: int| 0 <= j implies ((p + #[trigger] (j * (up as int)) < total) <==> j
                < c) by {
                assert((j * (up as int) < rem) <==> j < c);
            }
        }
        c128 as u64
    }
}

/// An upper bound on a quotient: if `x < (bound + 1) * b` then `x / b <= bound`.
proof fn lemma_div_below(x: int, b: int, bound: int)
    requires
        b >= 1,
        x >= 0,
        bound >= 0,
        x < (bound + 1) * b,
    ensures
        x / b <= bound,
{
    lemma_mul_le_iff_div(bound + 1, x, b);
}

/// Every filter window the resampler takes fits inside the padded input:
/// for each output sample `i`, the window starting at
/// `(i * down + phase) / up` and running for sub-filter `phase`'s tap count
/// ends within `len` input samples padded by `half / up` zeros on the left
/// and `half / up + 2` on the right.
pub proof fn lemma_polyphase_window_in_padded_input(len: int, up: int, down: int, half: int)
    requires
        up >= 1,
        down >= 1,
        half >= 0,
        len >= 0,
    ensures
        forall|i: int|
            0 <= i < ceil_div(len * up, down) ==> {
                let p = (half - #[trigger] (i * down)) % up;
                let s = (i * down + p) / up;
                let c = ceil_div(2 * half + 1 - p, up);
                s + c <= len + 2 * (half / up) + 2
            },
{
    assert forall|i: int| 0 <= i < ceil_div(len * up, down) implies {
        let p = (half - #[trigger] (i * down)) % up;
        let s = (i * down + p) / up;
        let c = ceil_div(2 * half + 1 - p, up);
        s + c <= len + 2 * (half / up) + 2
    } by {
        let p = (half - i * down) % up;
        let s = (i * down + p) / up;
        let c = ceil_div(2 * half + 1 - p, up);
        assert(len * up >= 0) by (nonlinear_arith)
            requires
                len >= 0,
                up >= 1,
        ;
        lemma_ceil_div(len * up, down);
        // The last output sample still has its upsampled position inside
        // the upsampled signal: i * down < len * up.
        assert(i * down < len * up);
        lemma_mod_bound(half - i * down, up);
        // The window start lies at most at the end of the unpadded input.
        assert(s <= len) by {
            assert(i * down + p < (len + 1) * up) by (nonlinear_arith)
                requires
                    i * down < len * up,
                    p < up,
            ;
            lemma_div_below(i * down + p, up, len);
        }
        // The tap count of any phase is at most 2 * (half / up) + 2.
        assert(c <= 2 * (half / up) + 2) by {
            lemma_fundamental_div_mod(half, up);
            lemma_mod_bound(half, up);
            lemma_div_pos_is_pos(half, up);
            let q = half / up;
            assert(2 * half + 1 - p + up - 1 < (2 * q + 3) * up) by (nonlinear_arith)
                requires
                    half == up * q + half % up,
                    half % up < up,
                    p >= 0,
                    up >= 1,
            ;
            lemma_div_below(2 * half + 1 - p + up - 1, up, 2 * q + 2);
        }
    }
}

/// Dividing two positive numbers by their gcd leaves a coprime pair.
proof fn lemma_coprime_after_division(from: nat, to: nat, g: nat, down: nat, up: nat)
    requires
        from > 0,
        to > 0,
        g == gcd_spec(from, to),
        down * g == from,
        up * g == to,
    ensures
        gcd_spec(down, up) == 1,
{
    lemma_gcd_divides(from, to);
    assert(g > 0);
    assert(down > 0) by (nonlinear_arith)
        requires
            down * g == from,
            from > 0,
    ;
    assert(up > 0) by (nonlinear_arith)
        requires
            up * g == to,
            to > 0,
    ;
    let d = gcd_spec(down, up);
    lemma_gcd_divides(down, up);
    assert(d > 0);
    lemma_fundamental_div_mod(down as int, d as int);
    lemma_fundamental_div_mod(up as int, d as int);
    let dd = down as int / d as int;
    let ud = up as int / d as int;
    // from and to are both multiples of d * g.
    assert(from as int == dd * (d * g) as int) by (nonlinear_arith)
        requires
            down * g == from,
            down as int == (d as int) * dd + (down % d),
            down % d == 0,
    ;
    assert(to as int == ud * (d * g) as int) by (nonlinear_arith)
        requires
            up * g == to,
            up as int == (d as int) * ud + (up % d),
            up % d == 0,
    ;
    assert(d * g > 0) by (nonlinear_arith)
        requires
            d > 0,
            g > 0,
    ;
    lemma_mod_multiples_basic(dd, (d * g) as int);
    lemma_mod_multiples_basic(ud, (d * g) as int);
    assert(from % (d * g) == 0);
    assert(to % (d * g) == 0);
    lemma_gcd_greatest(from, to, d * g);
    assert(g % (d * g) == 0);
    if d > 1 {
        assert(g < d * g) by (nonlinear_arith)
            requires
                d > 1,
                g > 0,
        ;
        lemma_small_mod(g, d * g);
        assert(g == 0);
        assert(false);
    }
}

} // verus!
