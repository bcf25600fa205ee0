//! How large a frame is handed to the recogniser.
//!
//! The size is what double-precision floating point makes of the frame's size times the scale,
//! so that it agrees with the coordinates that are scaled back in that arithmetic. It is worked
//! out here on whole numbers: a double is a significand of 53 bits over a power of two, and each
//! operation gives the double that lies nearest to the true result, the even one of two.

use vstd::prelude::*;

verus! {

/// `d` times 2^52, the smallest number of 53 bits.
pub open spec fn full(d: nat) -> nat {
    0x10_0000_0000_0000 * d
}

/// The whole number nearest to `n / d`, the even one of two that are equally near.
pub open spec fn nearest_even(n: nat, d: nat) -> nat {
    let q = n / d;
    let r = n % d;
    if 2 * r < d || (2 * r == d && q % 2 == 0) {
        q
    } else {
        q + 1
    }
}

/// The power of two by which `n / d` has to be multiplied to reach 53 bits, for a quotient
/// below 2^53.
pub open spec fn unit(n: nat, d: nat) -> nat
    decreases
            (if n < full(d) {
                full(d) - n
            } else {
                0
            }),
    when n > 0
{
    if n >= full(d) {
        1
    } else {
        2 * unit(2 * n, d)
    }
}

/// The weight of the last of the 53 bits that are kept of `n`.
pub open spec fn ulp(n: nat) -> nat
    decreases n,
{
    if n < 2 * full(1) {
        1
    } else {
        2 * ulp(n / 2)
    }
}

/// The significand of the double nearest to `n / d`, over `unit(n, d)`.
pub open spec fn significand(n: nat, d: nat) -> nat {
    nearest_even(n * unit(n, d), d)
}

/// The whole number nearest to `n` that has 53 significant bits.
pub open spec fn rounded(n: nat) -> nat {
    nearest_even(n, ulp(n)) * ulp(n)
}

/// `floor(side * (most / big) / 2) * 2` in double precision.
pub open spec fn scaled(side: nat, most: nat, big: nat) -> nat {
    if side == 0 || most == 0 {
        0
    } else {
        2 * (rounded(side * significand(most, big)) / (2 * unit(most, big)))
    }
}

/// The size of the frame that is handed to a recogniser that accepts `most` pixels a side: the
/// frame's own, unless it has to be made smaller.
pub open spec fn ocr_size(width: nat, height: nat, most: nat) -> (nat, nat) {
    let big = if width >= height {
        width
    } else {
        height
    };
    if big > most {
        (scaled(width, most, big), scaled(height, most, big))
    } else {
        (width, height)
    }
}

proof fn lemma_unit(n: nat, d: nat)
    requires
        0 < n < 2 * full(d),
    ensures
        full(d) <= n * unit(n, d) < 2 * full(d),
        unit(n, d) > 0,
    decreases
            (if n < full(d) {
                full(d) - n
            } else {
                0
            }),
{
    if n < full(d) {
        lemma_unit(2 * n, d);
        assert((2 * n) * unit(2 * n, d) == n * (2 * unit(2 * n, d))) by (nonlinear_arith);
    } else {
        assert(n * 1 == n);
    }
}

fn round_quotient(n: u128, d: u128) -> (r: u128)
    requires
        d > 0,
        n < 0x100_0000_0000_0000_0000_0000_0000_0000,
        d < 0x100_0000_0000_0000_0000_0000_0000_0000,
    ensures
        r == nearest_even(n as nat, d as nat),
{
    let q: u128 = n / d;
    let r: u128 = n % d;
    if 2 * r < d || (2 * r == d && q % 2 == 0) {
        q
    } else {
        q + 1
    }
}

/// The double nearest to `n / d`: its significand and the power of two under it.
fn quotient(n: u32, d: u32) -> (r: (u128, u128))
    requires
        0 < n < d,
    ensures
        r.0 == significand(n as nat, d as nat),
        r.1 == unit(n as nat, d as nat),
        0 < r.1 < 0x40_0000_0000_0000_0000_0000,
{
    let goal: u128 = 0x10_0000_0000_0000 * d as u128;
    let mut top: u128 = n as u128;
    let mut under: u128 = 1;
    while top < goal
        invariant
            0 < n,
            goal == full(d as nat),
            0 < under,
            under <= top,
            top < 2 * goal,
            top == n * under,
            unit(n as nat, d as nat) == under * unit(top as nat, d as nat),
        decreases
                (if top < goal {
                    goal - top
                } else {
                    0
                }),
    {
        proof {
            let rest = unit((2 * top) as nat, d as nat);
            assert(under * (2 * rest) == (2 * under) * rest) by (nonlinear_arith);
            assert(n * (2 * under) == 2 * (n * under)) by (nonlinear_arith);
        }
        top = 2 * top;
        under = 2 * under;
    }
    assert(unit(top as nat, d as nat) == 1);
    assert(under * 1 == under);
    (round_quotient(top, d as u128), under)
}

/// The whole number nearest to `n` that has 53 significant bits.
fn round_53(n: u128) -> (r: u128)
    requires
        n < 0x100_0000_0000_0000_0000_0000,
    ensures
        r == rounded(n as nat),
        r <= 2 * n,
{
    let mut rest: u128 = n;
    let mut weight: u128 = 1;
    while rest >= 0x20_0000_0000_0000
        invariant
            n < 0x100_0000_0000_0000_0000_0000,
            0 < weight,
            weight * rest <= n,
            ulp(n as nat) == weight * ulp(rest as nat),
        decreases rest,
    {
        proof {
            let half = rest / 2;
            assert(weight * (2 * ulp(half as nat)) == (2 * weight) * ulp(half as nat))
                by (nonlinear_arith);
            assert((2 * weight) * half <= weight * rest) by (nonlinear_arith)
                requires
                    2 * half <= rest,
                    0 < weight,
            ;
            assert(weight <= n) by (nonlinear_arith)
                requires
                    weight * rest <= n,
                    rest >= 1,
                    0 < weight,
            ;
        }
        rest = rest / 2;
        weight = 2 * weight;
    }
    assert(ulp(rest as nat) == 1);
    assert(weight * 1 == weight);
    proof {
        if n > 0 {
            lemma_ulp(n as nat);
        }
    }
    let m = round_quotient(n, weight);
    proof {
        lemma_nearest(n as nat, weight as nat);
    }
    m * weight
}

proof fn lemma_nearest(n: nat, d: nat)
    requires
        d > 0,
    ensures
        2 * (nearest_even(n, d) * d) <= 2 * n + d,
        2 * n <= 2 * (nearest_even(n, d) * d) + d,
{
    let q = n / d;
    let r = n % d;
    vstd::arithmetic::div_mod::lemma_fundamental_div_mod(n as int, d as int);
    assert(d * q == q * d) by (nonlinear_arith);
    assert((q + 1) * d == q * d + d) by (nonlinear_arith);
}

proof fn lemma_ulp(n: nat)
    requires
        n > 0,
    ensures
        0 < ulp(n),
        n >= 2 * full(1) ==> full(ulp(n)) <= n,
        n < 2 * full(1) ==> ulp(n) == 1,
    decreases n,
{
    if n >= 2 * full(1) {
        lemma_ulp(n / 2);
        if n / 2 < 2 * full(1) {
            assert(ulp(n / 2) == 1);
        } else {
            assert(full(2 * ulp(n / 2)) == 2 * full(ulp(n / 2)));
        }
    }
}

proof fn lemma_significand(n: nat, d: nat)
    requires
        0 < n < d,
        d <= u32::MAX,
    ensures
        0 < unit(n, d),
        full(d) <= n * unit(n, d) < 2 * full(d),
        significand(n, d) <= 2 * full(1),
{
    lemma_unit(n, d);
    let top = n * unit(n, d);
    assert(top / d < 2 * full(1)) by (nonlinear_arith)
        requires
            top < 2 * (0x10_0000_0000_0000 * d),
            full(1) == 0x10_0000_0000_0000,
            d > 0,
    ;
}

/// A side that is made smaller stays within what the recogniser accepts, and is even.
proof fn lemma_scaled_fits(side: nat, most: nat, big: nat)
    requires
        side <= big,
        0 < most < big,
        big <= u32::MAX,
        side > 0,
    ensures
        scaled(side, most, big) <= most,
{
    let u = unit(most, big);
    let m = significand(most, big);
    lemma_significand(most, big);
    lemma_nearest(most * u, big);
    let n = side * m;
    assert(n <= m * big) by (nonlinear_arith)
        requires
            n == side * m,
            side <= big,
    ;
    assert(2 * n <= 2 * (most * u) + big);
    assert(u > full(1)) by (nonlinear_arith)
        requires
            0x10_0000_0000_0000 * big <= most * u,
            0 < most < big,
            full(1) == 0x10_0000_0000_0000,
    ;
    let w = ulp(n);
    if n > 0 {
        lemma_ulp(n);
    }
    lemma_nearest(n, w);
    let r = rounded(n);
    assert(2 * r <= 2 * n + w);
    if n >= 2 * full(1) {
        assert(most * u <= 0xffff_ffff * u) by (nonlinear_arith)
            requires
                most <= 0xffff_ffff,
        ;
        assert(full(w) <= 0xffff_ffff * u + 0xffff_ffff);
    }
    assert(big + w < 2 * u);
    let q = r / (2 * u);
    assert((most + 1) * u == most * u + u) by (nonlinear_arith);
    assert(r < (most + 1) * u);
    assert(2 * q <= most) by (nonlinear_arith)
        requires
            q == r / (2 * u),
            r < (most + 1) * u,
            u > 0,
    ;
}

/// No side of the frame that is handed to the recogniser is longer than it accepts.
pub proof fn the_recogniser_accepts_the_frame(width: nat, height: nat, most: nat)
    requires
        width <= u32::MAX,
        height <= u32::MAX,
    ensures
        ocr_size(width, height, most).0 <= most,
        ocr_size(width, height, most).1 <= most,
{
    let big = if width >= height {
        width
    } else {
        height
    };
    if big > most && most > 0 {
        if width > 0 {
            lemma_scaled_fits(width, most, big);
        }
        if height > 0 {
            lemma_scaled_fits(height, most, big);
        }
    }
}

fn scaled_side(side: u32, most: u32, big: u32) -> (r: u32)
    requires
        side <= big,
        most < big,
    ensures
        r == scaled(side as nat, most as nat, big as nat),
{
    if side == 0 || most == 0 {
        return 0;
    }
    proof {
        lemma_significand(most as nat, big as nat);
    }
    let (m, u) = quotient(most, big);
    assert(side as u128 * m <= 0xffff_ffff * 0x20_0000_0000_0000) by (nonlinear_arith)
        requires
            side <= 0xffff_ffff,
            m <= 0x20_0000_0000_0000,
    ;
    let product = round_53(side as u128 * m);
    proof {
        lemma_scaled_fits(side as nat, most as nat, big as nat);
    }
    let half: u128 = product / (2 * u);
    (2 * half) as u32
}

/// The size at which a frame is read: full resolution, because downscaling is the fastest way
/// to lose small text, unless the frame exceeds what the recogniser accepts.
pub fn frame_size(width: u32, height: u32, most: u32) -> (r: (u32, u32))
    ensures
        (r.0 as nat, r.1 as nat) == ocr_size(width as nat, height as nat, most as nat),
        r.0 <= most,
        r.1 <= most,
{
    let big = if width >= height {
        width
    } else {
        height
    };
    proof {
        the_recogniser_accepts_the_frame(width as nat, height as nat, most as nat);
    }
    if big > most {
        (scaled_side(width, most, big), scaled_side(height, most, big))
    } else {
        (width, height)
    }
}

/// 1, 2, 4, 8 and so on.
pub open spec fn power_of_two(n: nat) -> bool
    decreases n,
{
    n == 1 || (n > 1 && n % 2 == 0 && power_of_two(n / 2))
}

/// Of two powers of two the larger is at least twice the smaller.
proof fn lemma_powers_double(a: nat, b: nat)
    requires
        power_of_two(a),
        power_of_two(b),
        a < b,
    ensures
        2 * a <= b,
    decreases b,
{
    if a > 1 {
        lemma_powers_double(a / 2, b / 2);
    }
}

proof fn lemma_unit_is_power(n: nat, d: nat)
    requires
        n > 0,
        d > 0,
    ensures
        power_of_two(unit(n, d)),
    decreases
            (if n < full(d) {
                full(d) - n
            } else {
                0
            }),
{
    if n < full(d) {
        lemma_unit_is_power(2 * n, d);
        let u = unit(2 * n, d);
        assert((2 * u) / 2 == u && (2 * u) % 2 == 0);
    }
}

proof fn lemma_ulp_is_power(n: nat)
    ensures
        power_of_two(ulp(n)),
        n < 2 * full(ulp(n)),
    decreases n,
{
    if n >= 2 * full(1) {
        lemma_ulp_is_power(n / 2);
        let w = ulp(n / 2);
        assert((2 * w) / 2 == w && (2 * w) % 2 == 0);
    }
}

/// A number is the nearest one if it is no more than half the divisor away, and even where it is half
/// the divisor away.
proof fn lemma_nearest_is_unique(n: nat, d: nat, q: nat)
    requires
        d > 0,
        2 * (q * d) <= 2 * n + d,
        2 * n <= 2 * (q * d) + d,
        2 * (q * d) == 2 * n + d || 2 * n == 2 * (q * d) + d ==> q % 2 == 0,
    ensures
        q == nearest_even(n, d),
{
    let k = n / d;
    let r = n % d;
    vstd::arithmetic::div_mod::lemma_fundamental_div_mod(n as int, d as int);
    assert(n == k * d + r) by (nonlinear_arith)
        requires
            n == d * k + r,
    ;
    assert((k + 1) * d == k * d + d) by (nonlinear_arith);
    assert((k + 2) * d == k * d + 2 * d) by (nonlinear_arith);
    assert(k >= 1 ==> (k - 1) * d == k * d - d) by (nonlinear_arith);
    if q < k {
        assert(q * d <= (k - 1) * d) by (nonlinear_arith)
            requires
                q <= k - 1,
                d > 0,
        ;
    } else if q > k + 1 {
        assert(q * d >= (k + 2) * d) by (nonlinear_arith)
            requires
                q >= k + 2,
                d > 0,
        ;
    } else if q == k {
        assert(q * d == k * d);
    } else {
        assert(q * d == (k + 1) * d);
    }
}

/// A side is made smaller as double-precision arithmetic does it. `m / u` is the double nearest to
/// `most / big`: `m` has 53 bits, `u` is a power of two, and of two that are equally near `m` is the
/// even one. `c * l` is the double nearest to `side * m`, in the same way. What is left is the largest
/// even number of pixels that fits.
pub proof fn a_side_is_scaled_as_doubles_scale_it(
    side: nat,
    most: nat,
    big: nat,
    m: nat,
    u: nat,
    c: nat,
    l: nat,
)
    requires
        0 < most < big <= u32::MAX,
        0 < side <= big,
        power_of_two(u),
        0x10_0000_0000_0000 * big <= most * u < 0x20_0000_0000_0000 * big,
        2 * (m * big) <= 2 * (most * u) + big,
        2 * (most * u) <= 2 * (m * big) + big,
        2 * (m * big) == 2 * (most * u) + big || 2 * (most * u) == 2 * (m * big) + big ==> m % 2 == 0,
        power_of_two(l),
        l == 1 || 0x10_0000_0000_0000 * l <= side * m,
        side * m < 0x20_0000_0000_0000 * l,
        2 * (c * l) <= 2 * (side * m) + l,
        2 * (side * m) <= 2 * (c * l) + l,
        2 * (c * l) == 2 * (side * m) + l || 2 * (side * m) == 2 * (c * l) + l ==> c % 2 == 0,
    ensures
        scaled(side, most, big) % 2 == 0,
        scaled(side, most, big) * u <= c * l,
        c * l < (scaled(side, most, big) + 2) * u,
{
    lemma_same_unit(most, big, u);
    lemma_nearest_is_unique(most * u, big, m);
    assert(m == significand(most, big));
    let n = side * m;
    lemma_same_ulp(n, l);
    lemma_nearest_is_unique(n, l, c);
    let p = c * l;
    assert(p == rounded(n));
    let q = p / (2 * u);
    assert(scaled(side, most, big) == 2 * q);
    vstd::arithmetic::div_mod::lemma_fundamental_div_mod(p as int, (2 * u) as int);
    assert(2 * q * u <= p && p < (2 * q + 2) * u) by (nonlinear_arith)
        requires
            p == (2 * u) * q + p % (2 * u),
            0 <= p % (2 * u) < 2 * u,
    ;
}

proof fn lemma_same_unit(most: nat, big: nat, u: nat)
    requires
        0 < most < big,
        power_of_two(u),
        0x10_0000_0000_0000 * big <= most * u < 0x20_0000_0000_0000 * big,
    ensures
        unit(most, big) == u,
        u > 0,
{
    let v = unit(most, big);
    lemma_unit(most, big);
    lemma_unit_is_power(most, big);
    if u < v {
        lemma_powers_double(u, v);
        assert(most * v >= 2 * (most * u)) by (nonlinear_arith)
            requires
                v >= 2 * u,
        ;
    } else if v < u {
        lemma_powers_double(v, u);
        assert(most * u >= 2 * (most * v)) by (nonlinear_arith)
            requires
                u >= 2 * v,
        ;
    }
}

proof fn lemma_same_ulp(n: nat, l: nat)
    requires
        power_of_two(l),
        l == 1 || 0x10_0000_0000_0000 * l <= n,
        n < 0x20_0000_0000_0000 * l,
    ensures
        ulp(n) == l,
        l > 0,
{
    let w = ulp(n);
    lemma_ulp_is_power(n);
    if n > 0 {
        lemma_ulp(n);
    }
    if l < w {
        lemma_powers_double(l, w);
    } else if w < l {
        lemma_powers_double(w, l);
    }
}

/// There are such doubles: every side has a size, and it is the one that this arithmetic gives.
pub proof fn every_side_has_its_doubles(side: nat, most: nat, big: nat) -> (r: (nat, nat, nat, nat))
    requires
        0 < most < big <= u32::MAX,
        0 < side <= big,
    ensures
        ({
            let (m, u, c, l) = r;
            &&& power_of_two(u)
            &&& 0x10_0000_0000_0000 * big <= most * u < 0x20_0000_0000_0000 * big
            &&& 2 * (m * big) <= 2 * (most * u) + big
            &&& 2 * (most * u) <= 2 * (m * big) + big
            &&& power_of_two(l)
            &&& l == 1 || 0x10_0000_0000_0000 * l <= side * m
            &&& side * m < 0x20_0000_0000_0000 * l
            &&& 2 * (c * l) <= 2 * (side * m) + l
            &&& 2 * (side * m) <= 2 * (c * l) + l
            &&& scaled(side, most, big) * u <= c * l
            &&& c * l < (scaled(side, most, big) + 2) * u
        }),
{
    let u = unit(most, big);
    lemma_unit(most, big);
    lemma_unit_is_power(most, big);
    let m = significand(most, big);
    lemma_nearest(most * u, big);
    let n = side * m;
    let l = ulp(n);
    lemma_ulp_is_power(n);
    if n > 0 {
        lemma_ulp(n);
    }
    let c = nearest_even(n, l);
    lemma_nearest(n, l);
    let p = c * l;
    let q = p / (2 * u);
    vstd::arithmetic::div_mod::lemma_fundamental_div_mod(p as int, (2 * u) as int);
    assert(2 * q * u <= p && p < (2 * q + 2) * u) by (nonlinear_arith)
        requires
            p == (2 * u) * q + p % (2 * u),
            0 <= p % (2 * u) < 2 * u,
    ;
    (m, u, c, l)
}

/// A side that is made smaller has an even number of pixels.
pub proof fn scaled_sides_are_even(side: nat, most: nat, big: nat)
    requires
        most < big,
    ensures
        scaled(side, most, big) % 2 == 0,
{
    if side > 0 && most > 0 {
        lemma_unit(most, big);
        let half = rounded(side * significand(most, big)) / (2 * unit(most, big));
        assert((2 * half) % 2 == 0);
    }
}

/// A frame that the recogniser accepts is read at its own size. Of a larger one both sides are made
/// smaller by the same scale, the one by which the longer side shrinks to what is accepted; turning
/// the frame on its side turns the result.
pub proof fn a_frame_is_made_smaller_only_where_it_must(width: nat, height: nat, most: nat)
    ensures
        width <= most && height <= most ==> ocr_size(width, height, most) == (width, height),
        width > most && width >= height ==> ocr_size(width, height, most) == (
            scaled(width, most, width),
            scaled(height, most, width),
        ),
        height > most && height >= width ==> ocr_size(width, height, most) == (
            scaled(width, most, height),
            scaled(height, most, height),
        ),
        ocr_size(height, width, most) == (
            ocr_size(width, height, most).1,
            ocr_size(width, height, most).0,
        ),
        scaled(0, most, width) == 0,
        scaled(width, 0, height) == 0,
{
}

}
