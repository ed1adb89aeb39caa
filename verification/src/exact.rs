//! What values are worth, and arithmetic that rounds to the nearest value.
//!
//! Every finite binary64 value is a whole multiple of the least positive one. `units` counts these
//! multiples, so what a value is worth is an integer, and distances between values are exact.
use vstd::arithmetic::power2::{
    lemma2_to64, lemma2_to64_rest, lemma_pow2_adds, lemma_pow2_pos, lemma_pow2_unfold, pow2,
};
use vstd::prelude::*;

use crate::arith::{count, gives, val, Arith};
use crate::mouse::ZOOM_STEP;
use crate::num::{Num, INFINITY, ONE, SIGN};
use crate::timeline::{snap_formula, GRID};

verus! {

/// How many values there are in a binade, and the bits of the least normal one.
pub const BINADE: u64 = 0x0010_0000_0000_0000;

/// What the value with bits `c`, from 0 on, is worth in multiples of the least positive value.
pub open spec fn worth(c: int) -> int {
    if c < BINADE {
        c
    } else {
        (BINADE + c % (BINADE as int)) * pow2((c / (BINADE as int) - 1) as nat)
    }
}

/// What a finite value is worth in multiples of the least positive value.
pub open spec fn units(n: Num) -> int {
    if n.order() < 0 {
        -worth(-n.order())
    } else {
        worth(n.order())
    }
}

/// What 1 is worth in multiples of the least positive value.
pub open spec fn one_units() -> int {
    worth(ONE as int)
}

/// What the greatest finite value is worth in multiples of the least positive value.
pub open spec fn most_units() -> int {
    worth(INFINITY - 1)
}

/// The distance between two integers.
pub open spec fn distance(a: int, b: int) -> int {
    if a < b {
        b - a
    } else {
        a - b
    }
}

/// The whole number nearest to `a / b`, halves away from zero.
pub open spec fn nearest_whole(a: int, b: int) -> int {
    if a >= 0 {
        (2 * a + b) / (2 * b)
    } else {
        -((b - 2 * a) / (2 * b))
    }
}

/// Whether `r` is finite, and no finite value times `scale` is nearer to `exact` than `r` is.
pub open spec fn is_nearest(exact: int, scale: int, r: Num) -> bool {
    &&& r.is_finite()
    &&& forall|q: Num|
        q.is_finite() ==> distance(units(r) * scale, exact) <= distance(
            #[trigger] units(q) * scale,
            exact,
        )
}

/// Whether the arithmetic rounds to the nearest value: a product or a quotient of finite values
/// that is no greater than the greatest finite value becomes a finite value than which none is
/// nearer, and a finite value is rounded to the nearest whole one, halves away from zero.
pub open spec fn correctly_rounded<A: Arith>(m: &A) -> bool {
    &&& forall|a: Num, b: Num, r: Num|
        {
            &&& a.is_finite()
            &&& b.is_finite()
            &&& distance(units(a) * units(b), 0) <= most_units() * one_units()
            &&& #[trigger] call_ensures(A::times, (m, a, b), r)
        } ==> is_nearest(units(a) * units(b), one_units(), r)
    &&& forall|a: Num, b: Num, r: Num|
        {
            &&& a.is_finite()
            &&& b.is_finite()
            &&& b.order() != 0
            &&& distance(units(a) * one_units(), 0) <= most_units() * distance(units(b), 0)
            &&& #[trigger] call_ensures(A::over, (m, a, b), r)
        } ==> is_nearest(units(a) * one_units(), units(b), r)
    &&& forall|a: Num, r: Num|
        a.is_finite() && #[trigger] call_ensures(A::round, (m, a), r) ==> r.is_finite() && units(r)
            == nearest_whole(units(a), one_units()) * one_units()
}

/// Whether the arithmetic also rounds sums and differences to the nearest value, turns a count into
/// the nearest value, and takes the whole part of a value, within the range of what it is taken as.
pub open spec fn faithful<A: Arith>(m: &A) -> bool {
    &&& correctly_rounded(m)
    &&& forall|a: Num, b: Num, r: Num|
        {
            &&& a.is_finite()
            &&& b.is_finite()
            &&& distance(units(a) + units(b), 0) <= most_units()
            &&& #[trigger] call_ensures(A::plus, (m, a, b), r)
        } ==> is_nearest(units(a) + units(b), 1, r)
    &&& forall|a: Num, b: Num, r: Num|
        {
            &&& a.is_finite()
            &&& b.is_finite()
            &&& distance(units(a) - units(b), 0) <= most_units()
            &&& #[trigger] call_ensures(A::minus, (m, a, b), r)
        } ==> is_nearest(units(a) - units(b), 1, r)
    &&& forall|n: u64, r: Num|
        #[trigger] call_ensures(A::of_count, (m, n), r) ==> is_nearest(n * one_units(), 1, r)
    &&& forall|a: Num, n: usize|
        a.is_finite() && #[trigger] call_ensures(A::to_count, (m, a), n) ==> n == (if units(a)
            < 0 {
            0
        } else if units(a) / one_units() > usize::MAX {
            usize::MAX as int
        } else {
            units(a) / one_units()
        })
    &&& forall|a: Num, n: i32|
        a.is_finite() && 0 <= units(a) <= i32::MAX * one_units() && #[trigger] call_ensures(
            A::to_pixels,
            (m, a),
            n,
        ) ==> n == units(a) / one_units()
}

/// How far the value after the one with bits `c` is from it.
pub(crate) open spec fn spacing(c: int) -> int {
    if c < BINADE {
        1
    } else {
        pow2((c / (BINADE as int) - 1) as nat) as int
    }
}

/// The next value is worth more by the spacing, which never shrinks and at most doubles.
pub(crate) proof fn lemma_step(c: int)
    requires
        c >= 0,
    ensures
        worth(c + 1) == worth(c) + spacing(c),
        spacing(c) >= 1,
        spacing(c) <= spacing(c + 1) <= 2 * spacing(c),
{
    let f = BINADE as int;
    let e = c / f;
    let k = c % f;
    lemma_pow2_pos((e - 1) as nat);
    if c >= f {
        assert(e >= 1);
        if k == f - 1 {
            assert((c + 1) / f == e + 1 && (c + 1) % f == 0);
            lemma_pow2_unfold(e as nat);
            let p = pow2((e - 1) as nat) as int;
            assert((f + 0) * (2 * p) == (f + (f - 1)) * p + p) by (nonlinear_arith);
        } else {
            assert((c + 1) / f == e && (c + 1) % f == k + 1);
            let p = pow2((e - 1) as nat) as int;
            assert((f + (k + 1)) * p == (f + k) * p + p) by (nonlinear_arith);
        }
    } else if c == f - 1 {
        assert((c + 1) / f == 1 && (c + 1) % f == 0);
        lemma2_to64();
        assert(pow2(0) == 1);
    }
}

/// A greater value is worth more.
pub(crate) proof fn lemma_worth_grows(c: int, d: int)
    requires
        0 <= c < d,
    ensures
        worth(c) < worth(d),
    decreases d - c,
{
    lemma_step(d - 1);
    if c < d - 1 {
        lemma_worth_grows(c, d - 1);
    }
}

/// A greater finite value is worth more, and only equal values are worth as much.
pub(crate) proof fn lemma_units_grow(a: Num, b: Num)
    requires
        a.is_finite(),
        b.is_finite(),
    ensures
        a.order() < b.order() ==> units(a) < units(b),
        units(a) < units(b) ==> a.order() < b.order(),
        units(a) == units(b) ==> a.order() == b.order(),
        units(Num { bits: 0 }) == 0,
{
    let (x, y) = (a.order(), b.order());
    if x < y {
        lemma_units_less(a, b);
    } else if y < x {
        lemma_units_less(b, a);
    }
}

proof fn lemma_units_less(a: Num, b: Num)
    requires
        a.is_finite(),
        b.is_finite(),
        a.order() < b.order(),
    ensures
        units(a) < units(b),
{
    if a.order() >= 0 {
        lemma_worth_grows(a.order(), b.order());
    } else if b.order() <= 0 {
        lemma_worth_grows(-b.order(), -a.order());
    } else {
        lemma_worth_grows(0, -a.order());
        lemma_worth_grows(0, b.order());
    }
}

/// What the value in binade `e` with fraction `k` is worth.
pub(crate) proof fn lemma_worth_of(e: int, k: int)
    requires
        e >= 1,
        BINADE <= k < 2 * BINADE,
    ensures
        worth(e * BINADE + (k - BINADE)) == k * pow2((e - 1) as nat),
        e * BINADE + (k - BINADE) >= BINADE,
{
    let f = BINADE as int;
    let c = e * f + (k - f);
    assert(c / f == e && c % f == k - f);
}

/// Multiples of a positive scale compare as what is multiplied.
pub(crate) proof fn lemma_unscale(x: int, y: int, z: int, scale: int)
    requires
        scale > 0,
        distance(x * scale, z * scale) <= distance(y * scale, z * scale),
    ensures
        distance(x, z) <= distance(y, z),
{
    assert(x * scale - z * scale == (x - z) * scale) by (nonlinear_arith);
    assert(y * scale - z * scale == (y - z) * scale) by (nonlinear_arith);
    let p = x - z;
    let q = y - z;
    assert(distance(p * scale, 0) == distance(p, 0) * scale) by {
        assert(p >= 0 ==> p * scale >= 0) by (nonlinear_arith)
            requires
                scale > 0,
        ;
        assert(p < 0 ==> p * scale < 0) by (nonlinear_arith)
            requires
                scale > 0,
        ;
        assert((-p) * scale == -(p * scale)) by (nonlinear_arith);
    }
    assert(distance(q * scale, 0) == distance(q, 0) * scale) by {
        assert(q >= 0 ==> q * scale >= 0) by (nonlinear_arith)
            requires
                scale > 0,
        ;
        assert(q < 0 ==> q * scale < 0) by (nonlinear_arith)
            requires
                scale > 0,
        ;
        assert((-q) * scale == -(q * scale)) by (nonlinear_arith);
    }
    assert(distance(p, 0) <= distance(q, 0)) by (nonlinear_arith)
        requires
            scale > 0,
            distance(p, 0) * scale <= distance(q, 0) * scale,
    ;
}

/// The value that stands at `o` among all values.
spec fn at(o: int) -> Num {
    if o >= 0 {
        Num { bits: o as u64 }
    } else {
        Num { bits: (SIGN - o) as u64 }
    }
}

/// Twice a value.
spec fn twice(n: Num) -> Num {
    if -(BINADE as int) < n.order() < BINADE {
        at(2 * n.order())
    } else if n.order() > 0 {
        at(n.order() + BINADE)
    } else {
        at(n.order() - BINADE)
    }
}

/// Twice a value is worth twice as much.
proof fn lemma_twice(n: Num)
    requires
        BINADE - INFINITY < n.order() < INFINITY - BINADE,
    ensures
        twice(n).is_finite(),
        units(twice(n)) == 2 * units(n),
        distance(twice(n).order(), 0) <= distance(n.order(), 0) + BINADE,
{
    let c = if n.order() < 0 {
        -n.order()
    } else {
        n.order()
    };
    let f = BINADE as int;
    if c < f {
        if 2 * c >= f {
            lemma2_to64();
            assert((2 * c) / f == 1 && (2 * c) % f == 2 * c - f);
            let p = pow2(((2 * c) / f - 1) as nat) as int;
            assert((f + (2 * c - f)) * p == 2 * c) by (nonlinear_arith)
                requires
                    p == 1,
            ;
        }
    } else {
        let e = c / f;
        let k = c % f;
        assert((c + f) / f == e + 1 && (c + f) % f == k);
        lemma_pow2_unfold(e as nat);
        let p = pow2((e - 1) as nat) as int;
        assert((f + k) * (2 * p) == 2 * ((f + k) * p)) by (nonlinear_arith);
    }
}

/// What the constants of snapping and zooming are worth: 4 times 0.25 is 1, and 4 times 1.25 is 5.
pub(crate) proof fn lemma_constants()
    ensures
        one_units() > 0,
        units(Num { bits: ONE }) == one_units(),
        units(Num { bits: GRID }) > 0,
        4 * units(Num { bits: GRID }) == one_units(),
        4 * units(Num { bits: ZOOM_STEP }) == 5 * one_units(),
{
    let f = BINADE as int;
    let p = pow2(1022) as int;
    lemma_pow2_pos(1020);
    lemma_pow2_unfold(1022);
    lemma_pow2_unfold(1021);
    assert(ONE as int / f == 1023 && ONE as int % f == 0);
    assert(GRID as int / f == 1021 && GRID as int % f == 0);
    assert(ZOOM_STEP as int / f == 1023 && ZOOM_STEP as int % f == f / 4);
    assert(one_units() == f * p);
    assert(units(Num { bits: GRID }) == f * pow2(1020));
    assert(units(Num { bits: ZOOM_STEP }) == (f + f / 4) * p);
    assert(4 * ((f + f / 4) * p) == 5 * (f * p)) by (nonlinear_arith)
        requires
            f == 0x0010_0000_0000_0000,
    ;
    assert(f * pow2(1020) > 0) by (nonlinear_arith)
        requires
            f > 0,
            pow2(1020) > 0,
    ;
    assert(4 * (f * pow2(1020)) == f * p) by (nonlinear_arith)
        requires
            p == 4 * pow2(1020),
    ;
}

/// Rounding to a whole number is off by at most a half, keeps the order, keeps whole numbers, and
/// does not change when both sides are scaled.
pub(crate) proof fn lemma_nearest_whole(a: int, c: int, b: int, k: int)
    requires
        b > 0,
    ensures
        2 * distance(nearest_whole(a, b) * b, a) <= b,
        a <= c ==> nearest_whole(a, b) <= nearest_whole(c, b),
        nearest_whole(k * b, b) == k,
        nearest_whole(4 * a, 4 * b) == nearest_whole(a, b),
{
    let d = 2 * b;
    let x = if a >= 0 {
        2 * a + b
    } else {
        b - 2 * a
    };
    vstd::arithmetic::div_mod::lemma_fundamental_div_mod(x, d);
    let q = x / d;
    assert(q * d == 2 * (q * b) && d * q == q * d && (-q) * b == -(q * b)) by (nonlinear_arith)
        requires
            d == 2 * b,
    ;
    assert(2 * distance(nearest_whole(a, b) * b, a) <= b);
    if a <= c {
        if a >= 0 {
            vstd::arithmetic::div_mod::lemma_div_is_ordered(2 * a + b, 2 * c + b, d);
        } else if c < 0 {
            vstd::arithmetic::div_mod::lemma_div_is_ordered(b - 2 * c, b - 2 * a, d);
        } else {
            vstd::arithmetic::div_mod::lemma_div_pos_is_pos(2 * c + b, d);
            vstd::arithmetic::div_mod::lemma_div_pos_is_pos(b - 2 * a, d);
        }
    }
    assert(nearest_whole(k * b, b) == k) by {
        let n = if k >= 0 {
            k
        } else {
            -k
        };
        assert(n * b >= 0 && k * b == (if k >= 0 {
            n * b
        } else {
            -(n * b)
        }) && (k < 0 ==> k * b < 0)) by (nonlinear_arith)
            requires
                b > 0,
                n == (if k >= 0 {
                    k
                } else {
                    -k
                }),
        ;
        assert(2 * (n * b) + b == n * d + b) by (nonlinear_arith)
            requires
                d == 2 * b,
        ;
        vstd::arithmetic::div_mod::lemma_fundamental_div_mod_converse(n * d + b, d, n, b);
    }
    assert(nearest_whole(4 * a, 4 * b) == nearest_whole(a, b)) by {
        vstd::arithmetic::div_mod::lemma_div_multiples_vanish_quotient(4, x, d);
    }
}

/// A result that can be exact is: where a finite value hits the exact result, the result is worth
/// as much.
pub(crate) proof fn lemma_exact(exact: int, scale: int, r: Num, q: Num)
    requires
        is_nearest(exact, scale, r),
        q.is_finite(),
        units(q) * scale == exact,
        scale > 0,
    ensures
        units(r) == units(q),
{
    assert(distance(units(q) * scale, exact) == 0);
    assert(units(r) * scale == units(q) * scale);
    assert(units(r) == units(q)) by (nonlinear_arith)
        requires
            units(r) * scale == units(q) * scale,
            scale > 0,
    ;
}

/// A finite value is worth no more than the greatest.
pub(crate) proof fn lemma_most(n: Num)
    requires
        n.is_finite(),
    ensures
        distance(units(n), 0) <= most_units(),
{
    let top = at(INFINITY - 1);
    let bottom = at(1 - INFINITY);
    lemma_units_grow(n, top);
    lemma_units_grow(top, n);
    lemma_units_grow(n, bottom);
    lemma_units_grow(bottom, n);
}

/// The bits of 2 to the power of 1021: the greatest time that is snapped to the grid exactly.
pub const SNAP_LIMIT: u64 = 0x7fc0_0000_0000_0000;

/// Whether a value is one that snapping to the grid does not take to infinity on the way.
pub open spec fn is_snappable(n: Num) -> bool {
    n.magnitude() <= SNAP_LIMIT
}

/// Snapping gives the multiple of 0.25 that is nearest, halves away from zero.
pub(crate) proof fn lemma_snap_is_exact<A: Arith>(m: &A, v: Num, s: Num)
    requires
        correctly_rounded(m),
        is_snappable(v),
        gives(m, snap_formula(v, Num { bits: GRID }), s),
    ensures
        s.is_finite(),
        units(s) == nearest_whole(units(v), units(Num { bits: GRID })) * units(
            Num { bits: GRID },
        ),
{
    let grid = Num { bits: GRID };
    let g = units(grid);
    let one = one_units();
    let u = units(v);
    lemma_constants();
    let quotient = val(v) / val(grid);
    let (r, b) = choose|a: Num, b: Num|
        gives(m, quotient.rounded(), a) && gives(m, val(grid), b) && #[trigger] call_ensures(
            A::times,
            (m, a, b),
            s,
        );
    let c = choose|c: Num| gives(m, quotient, c) && #[trigger] call_ensures(A::round, (m, c), r);
    let (d, e) = choose|d: Num, e: Num|
        gives(m, val(v), d) && gives(m, val(grid), e) && #[trigger] call_ensures(
            A::over,
            (m, d, e),
            c,
        );
    assert(b == grid && d == v && e == grid);
    // The quotient is exactly four times the value.
    let q = twice(twice(v));
    lemma_twice(v);
    lemma_twice(twice(v));
    lemma_most(q);
    assert(units(q) == 4 * u);
    assert(distance(u * one, 0) <= most_units() * g && units(q) * g == u * one)
        by (nonlinear_arith)
        requires
            one == 4 * g,
            g > 0,
            units(q) == 4 * u,
            distance(units(q), 0) <= most_units(),
    ;
    lemma_exact(u * one, g, c, q);
    // It is rounded to a whole number, which is `k`.
    let k = nearest_whole(u, g);
    lemma_nearest_whole(u, u, g, 0);
    assert(units(r) == k * one);
    lemma_most(r);
    // A quarter of that is exact again.
    assert(distance(units(r) * g, 0) <= most_units() * one) by (nonlinear_arith)
        requires
            one == 4 * g,
            g > 0,
            distance(units(r), 0) <= most_units(),
    ;
    let h = quarter(r);
    lemma_quarter(r, k);
    assert(units(h) * one == units(r) * g) by (nonlinear_arith)
        requires
            4 * units(h) == units(r),
            one == 4 * g,
    ;
    lemma_exact(units(r) * g, one, s, h);
    assert(units(s) == k * g) by (nonlinear_arith)
        requires
            4 * units(s) == k * one,
            one == 4 * g,
    ;
}

/// A quarter of a value that is 0 or at least 1.
spec fn quarter(r: Num) -> Num {
    if r.order() == 0 {
        r
    } else if r.order() > 0 {
        at(r.order() - 2 * BINADE)
    } else {
        at(r.order() + 2 * BINADE)
    }
}

/// A quarter of a whole value is worth a quarter.
proof fn lemma_quarter(r: Num, k: int)
    requires
        r.is_finite(),
        units(r) == k * one_units(),
    ensures
        quarter(r).is_finite(),
        4 * units(quarter(r)) == units(r),
{
    lemma_constants();
    let one = one_units();
    let zero = Num { bits: 0 };
    lemma_units_grow(r, zero);
    lemma_units_grow(zero, r);
    if k == 0 {
        assert(k * one == 0);
    } else {
        assert(k > 0 ==> k * one >= one) by (nonlinear_arith)
            requires
                one > 0,
        ;
        assert(k < 0 ==> k * one <= -one) by (nonlinear_arith)
            requires
                one > 0,
        ;
        let unit = Num { bits: ONE };
        let minus = at(-(ONE as int));
        lemma_units_grow(r, unit);
        lemma_units_grow(unit, r);
        lemma_units_grow(r, minus);
        lemma_units_grow(minus, r);
        let h = quarter(r);
        lemma_twice(h);
        lemma_twice(twice(h));
        assert(twice(twice(h)).order() == r.order());
    }
}

/// A snapped value can be snapped again, and is worth a multiple of 0.25 within the limit.
pub(crate) proof fn lemma_snapped_is_snappable<A: Arith>(m: &A, v: Num, s: Num)
    requires
        correctly_rounded(m),
        is_snappable(v),
        gives(m, snap_formula(v, Num { bits: GRID }), s),
    ensures
        is_snappable(s),
{
    let g = units(Num { bits: GRID });
    let top = Num { bits: SNAP_LIMIT };
    let bottom = at(-(SNAP_LIMIT as int));
    lemma_constants();
    lemma_snap_is_exact(m, v, s);
    let f = BINADE as int;
    assert(SNAP_LIMIT as int / f == 2044 && SNAP_LIMIT as int % f == 0);
    assert(GRID as int / f == 1021 && GRID as int % f == 0);
    lemma_pow2_adds(1023, 1020);
    let p = pow2(1023) as int;
    let w = pow2(1020) as int;
    assert(f * (p * w) == p * (f * w)) by (nonlinear_arith);
    assert(units(top) == p * g);
    assert((-p) * g == -(p * g)) by (nonlinear_arith);
    assert(units(bottom) == (-p) * g);
    lemma_units_grow(v, top);
    lemma_units_grow(bottom, v);
    lemma_nearest_whole(units(v), p * g, g, p);
    lemma_nearest_whole((-p) * g, units(v), g, -p);
    let k = nearest_whole(units(v), g);
    assert(-p <= k <= p);
    assert((-p) * g <= k * g <= p * g) by (nonlinear_arith)
        requires
            -p <= k <= p,
            g > 0,
    ;
    lemma_units_grow(top, s);
    lemma_units_grow(s, bottom);
}

/// A value near 1.25 times a normal one: nearer than seven quarters of the spacing, and nearer than
/// three quarters of it where the value is not close to the next binade.
proof fn lemma_five_quarters(c: int) -> (q: Num)
    requires
        BINADE <= c < INFINITY - BINADE,
    ensures
        q.is_finite(),
        0 <= 5 * worth(c) - 4 * units(q) <= 7 * spacing(c),
        c % (BINADE as int) < 2 ==> 5 * worth(c) - 4 * units(q) <= 3 * spacing(c),
{
    let f = BINADE as int;
    let e = c / f;
    let k = f + c % f;
    let p = pow2((e - 1) as nat) as int;
    lemma_pow2_pos((e - 1) as nat);
    if 5 * k < 8 * f {
        let n = 5 * k / 4;
        let q = at(e * f + (n - f));
        lemma_worth_of(e, n);
        assert(0 <= 5 * (k * p) - 4 * (n * p) <= 3 * p) by (nonlinear_arith)
            requires
                0 <= 5 * k - 4 * n <= 3,
                p > 0,
        ;
        q
    } else {
        let n = 5 * k / 8;
        let q = at((e + 1) * f + (n - f));
        lemma_worth_of(e + 1, n);
        lemma_pow2_unfold(e as nat);
        assert(0 <= 5 * (k * p) - 4 * (n * (2 * p)) <= 7 * p) by (nonlinear_arith)
            requires
                0 <= 5 * k - 8 * n <= 7,
                p > 0,
        ;
        q
    }
}

/// The values around a normal one: two steps up take at least twice the spacing; two steps down at
/// least the spacing, and twice of it away from the start of the binade.
proof fn lemma_neighbours(c: int)
    requires
        c >= BINADE + 2,
    ensures
        worth(c + 1) == worth(c) + spacing(c),
        worth(c + 2) >= worth(c) + 2 * spacing(c),
        2 * (worth(c) - worth(c - 1)) >= spacing(c),
        2 * (worth(c - 1) - worth(c - 2)) >= spacing(c),
        c % (BINADE as int) >= 2 ==> worth(c - 1) == worth(c) - spacing(c) && worth(c - 2)
            == worth(c) - 2 * spacing(c),
{
    let f = BINADE as int;
    lemma_step(c);
    lemma_step(c + 1);
    lemma_step(c - 1);
    lemma_step(c - 2);
    if c % f >= 2 {
        assert((c - 1) / f == c / f && (c - 2) / f == c / f);
    } else {
        assert((c - 2) / f == c / f - 1);
        lemma_pow2_unfold((c / f - 1) as nat);
    }
}

/// A product with 1.25 is the value nearest to it: none is nearer.
pub(crate) proof fn lemma_nearest_product<A: Arith>(m: &A, p: Num, closer: Num)
    requires
        correctly_rounded(m),
        BINADE + 2 <= p.order() < INFINITY - BINADE,
        call_ensures(A::times, (m, p, Num { bits: ZOOM_STEP }), closer),
    ensures
        closer.is_finite(),
        forall|q: Num|
            q.is_finite() ==> distance(4 * units(closer), 5 * units(p)) <= distance(
                4 * #[trigger] units(q),
                5 * units(p),
            ),
{
    let one = one_units();
    let z = units(Num { bits: ZOOM_STEP });
    let u = units(p);
    lemma_constants();
    lemma_twice(p);
    lemma_most(twice(p));
    lemma_worth_grows(0, p.order());
    assert(0 <= u * z <= most_units() * one) by (nonlinear_arith)
        requires
            4 * z == 5 * one,
            one > 0,
            0 < u,
            2 * u <= most_units(),
    ;
    assert(is_nearest(u * z, one, closer));
    let x = units(closer);
    assert forall|q: Num| q.is_finite() implies distance(4 * x, 5 * u) <= distance(
        4 * #[trigger] units(q),
        5 * u,
    ) by {
        let y = units(q);
        assert(distance(x * one, u * z) <= distance(y * one, u * z));
        assert((4 * x) * one == 4 * (x * one) && (4 * y) * one == 4 * (y * one) && (5 * u) * one
            == 4 * (u * z)) by (nonlinear_arith)
            requires
                4 * z == 5 * one,
        ;
        lemma_unscale(4 * x, 4 * y, 5 * u, one);
    }
}

/// Dividing by 1.25 what is 1.25 times a value gives the value, or a neighbour of it.
pub(crate) proof fn lemma_step_and_back<A: Arith>(m: &A, p: Num, closer: Num, back: Num)
    requires
        correctly_rounded(m),
        BINADE + 2 <= p.order() < INFINITY - BINADE,
        call_ensures(A::times, (m, p, Num { bits: ZOOM_STEP }), closer),
        call_ensures(A::over, (m, closer, Num { bits: ZOOM_STEP }), back),
    ensures
        back.is_finite(),
        p.order() - 1 <= back.order() <= p.order() + 1,
{
    let one = one_units();
    let z = units(Num { bits: ZOOM_STEP });
    let u = units(p);
    let c = p.order();
    lemma_constants();
    let near = lemma_five_quarters(c);
    lemma_neighbours(c);
    lemma_step(c);
    lemma_nearest_product(m, p, closer);
    let x = units(closer);
    assert(distance(4 * x, 5 * u) <= distance(4 * units(near), 5 * u));
    // The way back.
    lemma_most(closer);
    assert(z > 0);
    assert(distance(x * one, 0) <= most_units() * z) by (nonlinear_arith)
        requires
            4 * z == 5 * one,
            one > 0,
            distance(x, 0) <= most_units(),
    ;
    assert(is_nearest(x * one, z, back));
    let y = units(back);
    assert forall|q: Num| q.is_finite() implies distance(5 * y, 4 * x) <= distance(
        5 * #[trigger] units(q),
        4 * x,
    ) by {
        let w = units(q);
        assert(distance(y * z, x * one) <= distance(w * z, x * one));
        assert((5 * y) * one == 4 * (y * z) && (5 * w) * one == 4 * (w * z) && (4 * x) * one == 4
            * (x * one)) by (nonlinear_arith)
            requires
                4 * z == 5 * one,
        ;
        lemma_unscale(5 * y, 5 * w, 4 * x, one);
    }
    let up = at(c + 1);
    let down = at(c - 1);
    assert(distance(5 * y, 4 * x) <= distance(5 * units(up), 4 * x));
    assert(distance(5 * y, 4 * x) <= distance(5 * units(down), 4 * x));
    if back.order() > c + 1 {
        let second = at(c + 2);
        lemma_units_grow(second, back);
        assert(false);
    }
    if back.order() < c - 1 {
        let second = at(c - 2);
        lemma_units_grow(back, second);
        assert(false);
    }
}

/// A value that is exactly no greater than what is rounded is no greater than the result.
pub(crate) proof fn lemma_not_below(exact: int, scale: int, r: Num, q: Num)
    requires
        is_nearest(exact, scale, r),
        scale > 0,
        q.is_finite(),
        units(q) * scale <= exact,
    ensures
        units(q) <= units(r),
{
    if units(r) < units(q) {
        assert(units(r) * scale < units(q) * scale) by (nonlinear_arith)
            requires
                units(r) < units(q),
                scale > 0,
        ;
        assert(distance(units(r) * scale, exact) <= distance(units(q) * scale, exact));
    }
}

/// A value that is exactly no less than what is rounded is no less than the result.
pub(crate) proof fn lemma_not_above(exact: int, scale: int, r: Num, q: Num)
    requires
        is_nearest(exact, scale, r),
        scale > 0,
        q.is_finite(),
        units(q) * scale >= exact,
    ensures
        units(q) >= units(r),
{
    if units(r) > units(q) {
        assert(units(r) * scale > units(q) * scale) by (nonlinear_arith)
            requires
                units(r) > units(q),
                scale > 0,
        ;
        assert(distance(units(r) * scale, exact) <= distance(units(q) * scale, exact));
    }
}

/// What bits are worth that lie `j` binades above those of 1.
pub(crate) proof fn lemma_above_one(c: int, j: nat, k: int)
    requires
        c / (BINADE as int) == 1023 + j,
        (BINADE + c % (BINADE as int)) * pow2(j) == k * BINADE,
        c >= 0,
    ensures
        worth(c) == k * one_units(),
{
    let f = BINADE as int;
    let p = pow2(1022) as int;
    let w = pow2(j) as int;
    lemma_pow2_adds(1022, j);
    assert(ONE as int / f == 1023 && ONE as int % f == 0);
    assert(one_units() == f * p);
    assert(worth(c) == (f + c % f) * pow2((1022 + j) as nat));
    assert((f + c % f) * (p * w) == k * (f * p)) by (nonlinear_arith)
        requires
            (f + c % f) * w == k * f,
    ;
}

/// Half of a value from the third binade on.
proof fn lemma_half(q: Num) -> (h: Num)
    requires
        2 * BINADE <= q.order() < INFINITY,
    ensures
        h.is_finite(),
        h.order() == q.order() - BINADE,
        2 * units(h) == units(q),
{
    let h = at(q.order() - BINADE);
    lemma_twice(h);
    assert(twice(h).order() == q.order());
    h
}

/// The value of a whole number up to 2 to the power of 53.
pub(crate) proof fn lemma_whole(k: int) -> (q: Num)
    requires
        0 <= k <= 2 * BINADE,
    ensures
        q.is_finite(),
        units(q) == k * one_units(),
        k >= 1 ==> q.order() >= ONE,
    decreases 2 * BINADE - k,
{
    let f = BINADE as int;
    if k == 0 {
        assert(0 * one_units() == 0);
        Num { bits: 0 }
    } else if k == 2 * f {
        let q = at(1076 * f);
        lemma2_to64();
        lemma2_to64_rest();
        assert((1076 * f) / f == 1076 && (1076 * f) % f == 0);
        assert(f * pow2(53) == (2 * f) * f);
        lemma_above_one(1076 * f, 53, k);
        q
    } else if k >= f {
        let c = 1075 * f + (k - f);
        let q = at(c);
        lemma2_to64();
        lemma2_to64_rest();
        assert(c / f == 1075 && c % f == k - f);
        assert((f + c % f) * pow2(52) == k * f) by (nonlinear_arith)
            requires
                c % f == k - f,
                pow2(52) == f,
        ;
        lemma_above_one(c, 52, k);
        q
    } else {
        let d = lemma_whole(2 * k);
        let q = lemma_half(d);
        assert((2 * k) * one_units() == 2 * (k * one_units())) by (nonlinear_arith);
        assert(units(q) == k * one_units());
        lemma_constants();
        let one = Num { bits: ONE };
        assert(k * one_units() >= one_units()) by (nonlinear_arith)
            requires
                k >= 1,
                one_units() > 0,
        ;
        lemma_units_grow(q, one);
        q
    }
}

/// A count up to 2 to the power of 53 becomes its value exactly.
pub(crate) proof fn lemma_count<A: Arith>(m: &A, n: u64, r: Num)
    requires
        faithful(m),
        n <= 2 * BINADE,
        gives(m, count(n), r),
    ensures
        r.is_finite(),
        units(r) == n * one_units(),
{
    let q = lemma_whole(n as int);
    lemma_exact(n * one_units(), 1, r, q);
}

} // verus!
