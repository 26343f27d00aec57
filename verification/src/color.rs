//! The colour gradient: three linear segments over red, blue, green and purple.

use vstd::prelude::*;
use vstd::arithmetic::div_mod::*;
use crate::escape::Escape;

verus! {

/// Greatest intensity of the red channel.
pub const MAX_RED: u64 = 225;

/// Greatest intensity of the green channel.
pub const MAX_GREEN: u64 = 255;

/// Greatest intensity of the blue channel.
pub const MAX_BLUE: u64 = 245;

/// Width of the first segment, in hundredths of the unit interval.
pub const FIRST_SEG: u64 = 25;

/// Width of the second segment, in hundredths.
pub const SECOND_SEG: u64 = 10;

/// Width of the third segment, in hundredths.
pub const THIRD_SEG: u64 = 100 - FIRST_SEG - SECOND_SEG;

/// The steepest that any channel runs: blue falls by its full 245 units over
/// the second segment, a tenth of the unit interval.
pub const MAX_SLOPE: u64 = 2450;

/// The level of a channel that runs linearly from `from` percent of `max` to
/// `to` percent of `max`, taken at the fraction `num / den` of the way and
/// rounded down.
pub open spec fn ramp(max: int, from: int, to: int, num: int, den: int) -> int {
    (max * (from * den + (to - from) * num)) / (100 * den)
}

/// The segment, counted from one, in which the value `count / budget` lies.
/// Each segment holds its right end.
pub open spec fn segment(count: int, budget: int) -> int {
    if 100 * count <= FIRST_SEG * budget {
        1
    } else if 100 * count <= (FIRST_SEG + SECOND_SEG) * budget {
        2
    } else {
        3
    }
}

/// How far into its segment the value `count / budget` lies, as the numerator
/// of a fraction whose denominator is `span(count, budget)`.
pub open spec fn progress(count: int, budget: int) -> int {
    if segment(count, budget) == 1 {
        100 * count
    } else if segment(count, budget) == 2 {
        100 * count - FIRST_SEG * budget
    } else {
        100 * count - (FIRST_SEG + SECOND_SEG) * budget
    }
}

/// The width of the segment in which `count / budget` lies, on the scale of
/// `progress(count, budget)`.
pub open spec fn span(count: int, budget: int) -> int {
    if segment(count, budget) == 1 {
        FIRST_SEG * budget
    } else if segment(count, budget) == 2 {
        SECOND_SEG * budget
    } else {
        THIRD_SEG * budget
    }
}

/// Red falls from full to nothing, stays dark, then rises to 70 percent.
pub open spec fn red(count: int, budget: int) -> int {
    let (from, to) = if segment(count, budget) == 1 {
        (100, 0)
    } else if segment(count, budget) == 2 {
        (0, 0)
    } else {
        (0, 70)
    };
    ramp(MAX_RED as int, from, to, progress(count, budget), span(count, budget))
}

/// Green rises to 30 percent, goes on to full, then falls to nothing.
pub open spec fn green(count: int, budget: int) -> int {
    let (from, to) = if segment(count, budget) == 1 {
        (0, 30)
    } else if segment(count, budget) == 2 {
        (30, 100)
    } else {
        (100, 0)
    };
    ramp(MAX_GREEN as int, from, to, progress(count, budget), span(count, budget))
}

/// Blue rises to full, falls to nothing, then rises to full again.
pub open spec fn blue(count: int, budget: int) -> int {
    let (from, to) = if segment(count, budget) == 1 {
        (0, 100)
    } else if segment(count, budget) == 2 {
        (100, 0)
    } else {
        (0, 100)
    };
    ramp(MAX_BLUE as int, from, to, progress(count, budget), span(count, budget))
}

/// The colour of the escape value `count / budget`, as red, green, blue and
/// alpha: transparent black for zero, an opaque point of the gradient for
/// anything else.
pub open spec fn gradient(count: int, budget: int) -> Seq<u8> {
    if count == 0 {
        seq![0u8, 0u8, 0u8, 0u8]
    } else {
        seq![
            red(count, budget) as u8,
            green(count, budget) as u8,
            blue(count, budget) as u8,
            255u8,
        ]
    }
}

/// Whether `a` is at most `b` and lies within one part in `parts` of it, as
/// values of the unit interval.
pub open spec fn close_below(a: Escape, b: Escape, parts: int) -> bool {
    &&& a.count() * b.budget() <= b.count() * a.budget()
    &&& parts * (b.count() * a.budget() - a.count() * b.budget()) <= a.budget() * b.budget()
}

/// Whether two colours differ by no more than one unit in any channel.
pub open spec fn one_unit_apart(p: Seq<u8>, q: Seq<u8>) -> bool {
    forall|k: int| 0 <= k < 4 ==> -1 <= #[trigger] p[k] - q[k] <= 1
}

/// A ramp never leaves the range of its channel.
pub proof fn lemma_ramp_bounds(max: int, from: int, to: int, num: int, den: int)
    requires
        0 <= max,
        0 <= from <= 100,
        0 <= to <= 100,
        0 <= num <= den,
        0 < den,
    ensures
        0 <= ramp(max, from, to, num, den) <= max,
{
    let mix = from * den + (to - from) * num;
    assert(0 <= mix <= 100 * den) by (nonlinear_arith)
        requires
            mix == from * den + (to - from) * num,
            0 <= from <= 100,
            0 <= to <= 100,
            0 <= num <= den,
    {
        if from <= to {
            assert((to - from) * num <= (to - from) * den);
        } else {
            assert((from - to) * num <= (from - to) * den);
        }
    }
    assert(0 <= max * mix <= max * (100 * den)) by (nonlinear_arith)
        requires
            0 <= max,
            0 <= mix <= 100 * den,
    ;
    lemma_div_is_ordered(0, max * mix, 100 * den);
    lemma_div_is_ordered(max * mix, max * (100 * den), 100 * den);
    lemma_div_multiples_vanish(max, 100 * den);
}

/// Computes one channel. The bound on `den` keeps every product within 64 bits.
fn level(max: u64, from: u64, to: u64, num: u64, den: u64) -> (out: u8)
    requires
        max <= 255,
        from <= 100,
        to <= 100,
        num <= den,
        0 < den <= 100 * 0xffff_ffff,
    ensures
        out == ramp(max as int, from as int, to as int, num as int, den as int),
        out <= max,
{
    proof {
        lemma_ramp_bounds(max as int, from as int, to as int, num as int, den as int);
        assert(from * den <= 100 * den && from * num <= from * den && to * num <= 100 * den
            && to * num <= to * den) by (nonlinear_arith)
            requires
                from <= 100,
                to <= 100,
                num <= den,
        ;
    }
    let mix: u64 = if from <= to {
        assert((to - from) * num == to * num - from * num) by (nonlinear_arith)
            requires
                from <= to,
        ;
        from * den + (to - from) * num
    } else {
        assert((from - to) * num == from * num - to * num) by (nonlinear_arith)
            requires
                to < from,
        ;
        from * den - (from - to) * num
    };
    assert(mix == from * den + (to - from) * num) by (nonlinear_arith)
        requires
            mix == if from <= to {
                from * den + (to - from) * num
            } else {
                from * den - (from - to) * num
            },
    ;
    assert(mix <= 100 * den) by (nonlinear_arith)
        requires
            mix == from * den + (to - from) * num,
            from <= 100,
            to <= 100,
            num <= den,
    {
        if from <= to {
            assert((to - from) * num <= (to - from) * den);
        } else {
            assert((from - to) * num <= (from - to) * den);
        }
    }
    assert(max * mix <= 255 * (100 * den)) by (nonlinear_arith)
        requires
            max <= 255,
            mix <= 100 * den,
    ;
    let scaled: u64 = max * mix / (100 * den);
    scaled as u8
}

/// Maps an escape value to its colour.
///
/// Zero, the value of a point that never escaped, is transparent black. Any
/// other value is opaque and lies on the gradient, each channel rounded down.
pub fn to_color(v: Escape) -> (rgba: [u8; 4])
    ensures
        rgba@ == gradient(v.count() as int, v.budget() as int),
        v.count() == 0 ==> rgba@ == seq![0u8, 0u8, 0u8, 0u8],
        v.count() > 0 ==> rgba@[3] == 255,
        rgba@[0] <= MAX_RED,
        rgba@[1] <= MAX_GREEN,
        rgba@[2] <= MAX_BLUE,
{
    let n: u64 = v.count() as u64;
    let b: u64 = v.budget() as u64;
    if n == 0 {
        return [0, 0, 0, 0];
    }
    assert(FIRST_SEG * b == 25 * b && (FIRST_SEG + SECOND_SEG) * b == 35 * b && SECOND_SEG * b
        == 10 * b && THIRD_SEG * b == 65 * b) by (nonlinear_arith)
        requires
            FIRST_SEG == 25 && SECOND_SEG == 10 && THIRD_SEG == 65,
    ;
    let pos: u64 = 100 * n;
    let first: u64 = FIRST_SEG * b;
    let second: u64 = (FIRST_SEG + SECOND_SEG) * b;
    let r: u8;
    let g: u8;
    let bl: u8;
    if pos <= first {
        r = level(MAX_RED, 100, 0, pos, first);
        g = level(MAX_GREEN, 0, 30, pos, first);
        bl = level(MAX_BLUE, 0, 100, pos, first);
    } else if pos <= second {
        r = level(MAX_RED, 0, 0, pos - first, SECOND_SEG * b);
        g = level(MAX_GREEN, 30, 100, pos - first, SECOND_SEG * b);
        bl = level(MAX_BLUE, 100, 0, pos - first, SECOND_SEG * b);
    } else {
        r = level(MAX_RED, 0, 70, pos - second, THIRD_SEG * b);
        g = level(MAX_GREEN, 100, 0, pos - second, THIRD_SEG * b);
        bl = level(MAX_BLUE, 0, 100, pos - second, THIRD_SEG * b);
    }
    let rgba: [u8; 4] = [r, g, bl, 255];
    assert(rgba@ =~= gradient(v.count() as int, v.budget() as int));
    rgba
}

/// A quotient is pinned down by the two multiples of the divisor around the
/// dividend.
proof fn lemma_quotient_is(x: int, d: int, q: int)
    requires
        0 < d,
        q * d <= x < (q + 1) * d,
    ensures
        x / d == q,
{
    assert(x == q * d + (x - q * d));
    assert((q + 1) * d == q * d + d) by (nonlinear_arith);
    lemma_fundamental_div_mod_converse(x, d, q, x - q * d);
}

/// Rounding down keeps the order of two fractions.
proof fn lemma_quotient_order(a: int, b: int, c: int, d: int)
    requires
        0 < b,
        0 < d,
        a * d >= c * b,
    ensures
        a / b >= c / d,
{
    let q = c / d;
    lemma_fundamental_div_mod(c, d);
    lemma_mod_bound(c, d);
    assert(a >= q * b) by (nonlinear_arith)
        requires
            0 < b,
            0 < d,
            a * d >= c * b,
            c >= d * q,
    ;
    lemma_div_is_ordered(q * b, a, b);
    lemma_div_multiples_vanish(q, b);
    assert(q * b == b * q) by (nonlinear_arith);
}

/// Over the first segment red is the full intensity less four times the
/// value's share of it, rounded down: `225 * (1 - v / 0.25)`.
pub proof fn lemma_red_in_first_segment(v: Escape)
    requires
        v.valid(),
        0 < v.count(),
        4 * v.count() <= v.budget(),
    ensures
        gradient(v.count() as int, v.budget() as int)[0] == (225 * (v.budget() - 4 * v.count()))
            / (v.budget() as int),
{
    let n = v.count() as int;
    let b = v.budget() as int;
    lemma_ramp_bounds(MAX_RED as int, 100, 0, 100 * n, 25 * b);
    assert(MAX_RED * (100 * (25 * b) + (0 - 100) * (100 * n)) == 2500 * (225 * (b - 4 * n)));
    assert(100 * (25 * b) == 2500 * b);
    lemma_div_multiples_vanish_quotient(2500, 225 * (b - 4 * n), b);
}

/// Over the first segment red never rises: of two values there, the greater
/// has no more red than the lesser.
pub proof fn lemma_red_falls_in_first_segment(a: Escape, b: Escape)
    requires
        a.valid(),
        b.valid(),
        0 < a.count(),
        a.count() * b.budget() <= b.count() * a.budget(),
        4 * b.count() <= b.budget(),
    ensures
        gradient(a.count() as int, a.budget() as int)[0] >= gradient(
            b.count() as int,
            b.budget() as int,
        )[0],
{
    let n1 = a.count() as int;
    let b1 = a.budget() as int;
    let n2 = b.count() as int;
    let b2 = b.budget() as int;
    assert(0 < n2 && 4 * n1 <= b1) by (nonlinear_arith)
        requires
            0 < n1,
            0 < b1,
            0 < b2,
            0 <= n2,
            n1 * b2 <= n2 * b1,
            4 * n2 <= b2,
    ;
    lemma_red_in_first_segment(a);
    lemma_red_in_first_segment(b);
    assert((225 * (b1 - 4 * n1)) * b2 >= (225 * (b2 - 4 * n2)) * b1) by (nonlinear_arith)
        requires
            n1 * b2 <= n2 * b1,
    ;
    lemma_quotient_order(225 * (b1 - 4 * n1), b1, 225 * (b2 - 4 * n2), b2);
}

/// A ramp's level is pinned down by the two multiples of its divisor around
/// its dividend.
proof fn lemma_ramp_is(max: int, from: int, to: int, num: int, den: int, q: int)
    requires
        0 < den,
        q * (100 * den) <= max * (from * den + (to - from) * num) < (q + 1) * (100 * den),
    ensures
        ramp(max, from, to, num, den) == q,
{
    lemma_quotient_is(max * (from * den + (to - from) * num), 100 * den, q);
}

/// No channel leaves its range.
proof fn lemma_channel_bounds(n: int, b: int)
    requires
        0 < n <= b,
    ensures
        0 <= red(n, b) <= MAX_RED,
        0 <= green(n, b) <= MAX_GREEN,
        0 <= blue(n, b) <= MAX_BLUE,
{
    if segment(n, b) == 1 {
        lemma_ramp_bounds(225, 100, 0, 100 * n, 25 * b);
        lemma_ramp_bounds(255, 0, 30, 100 * n, 25 * b);
        lemma_ramp_bounds(245, 0, 100, 100 * n, 25 * b);
    } else if segment(n, b) == 2 {
        lemma_ramp_bounds(225, 0, 0, 100 * n - 25 * b, 10 * b);
        lemma_ramp_bounds(255, 30, 100, 100 * n - 25 * b, 10 * b);
        lemma_ramp_bounds(245, 100, 0, 100 * n - 25 * b, 10 * b);
    } else {
        lemma_ramp_bounds(225, 0, 70, 100 * n - 35 * b, 65 * b);
        lemma_ramp_bounds(255, 100, 0, 100 * n - 35 * b, 65 * b);
        lemma_ramp_bounds(245, 0, 100, 100 * n - 35 * b, 65 * b);
    }
}

/// Over the second segment there is no red.
pub proof fn lemma_red_dark_in_second_segment(v: Escape)
    requires
        v.valid(),
        segment(v.count() as int, v.budget() as int) == 2,
    ensures
        gradient(v.count() as int, v.budget() as int)[0] == 0,
{
    let n = v.count() as int;
    let b = v.budget() as int;
    lemma_ramp_is(225, 0, 0, 100 * n - 25 * b, 10 * b, 0);
}

/// A ramp depends on the fraction of the way alone, not on how the fraction
/// is written.
proof fn lemma_ramp_scales(max: int, from: int, to: int, num: int, den: int, k: int)
    requires
        0 < den,
        0 < k,
        0 <= max * (from * den + (to - from) * num),
    ensures
        ramp(max, from, to, k * num, k * den) == ramp(max, from, to, num, den),
{
    let mix = from * den + (to - from) * num;
    assert(from * (k * den) == k * (from * den)) by (nonlinear_arith);
    assert((to - from) * (k * num) == k * ((to - from) * num)) by (nonlinear_arith);
    assert(k * (from * den) + k * ((to - from) * num) == k * mix) by (nonlinear_arith)
        requires
            mix == from * den + (to - from) * num,
    ;
    assert(max * (k * mix) == k * (max * mix)) by (nonlinear_arith);
    assert(100 * (k * den) == k * (100 * den)) by (nonlinear_arith);
    lemma_div_multiples_vanish_quotient(k, max * mix, 100 * den);
}

/// The colour depends on the ratio alone: `k * n` out of `k * b` has the
/// colour of `n` out of `b`.
proof fn lemma_gradient_scales(n: int, b: int, k: int)
    requires
        0 <= n <= b,
        0 < b,
        0 < k,
    ensures
        segment(k * n, k * b) == segment(n, b),
        red(k * n, k * b) == red(n, b),
        green(k * n, k * b) == green(n, b),
        blue(k * n, k * b) == blue(n, b),
        gradient(k * n, k * b) == gradient(n, b),
{
    // positions, breaks and widths all grow by the factor `k`
    assert(100 * (k * n) == k * (100 * n)) by (nonlinear_arith);
    assert(25 * (k * b) == k * (25 * b) && 35 * (k * b) == k * (35 * b)) by (nonlinear_arith);
    assert(10 * (k * b) == k * (10 * b) && 65 * (k * b) == k * (65 * b)) by (nonlinear_arith);
    assert((100 * n <= 25 * b) == (k * (100 * n) <= k * (25 * b))) by (nonlinear_arith)
        requires
            0 < k,
    ;
    assert((100 * n <= 35 * b) == (k * (100 * n) <= k * (35 * b))) by (nonlinear_arith)
        requires
            0 < k,
    ;
    assert(k * (100 * n) - k * (25 * b) == k * (100 * n - 25 * b)) by (nonlinear_arith);
    assert(k * (100 * n) - k * (35 * b) == k * (100 * n - 35 * b)) by (nonlinear_arith);
    assert((k * n == 0) == (n == 0)) by (nonlinear_arith)
        requires
            0 < k,
            0 <= n,
    ;
    if segment(n, b) == 1 {
        lemma_ramp_scales(225, 100, 0, 100 * n, 25 * b, k);
        lemma_ramp_scales(255, 0, 30, 100 * n, 25 * b, k);
        lemma_ramp_scales(245, 0, 100, 100 * n, 25 * b, k);
    } else if segment(n, b) == 2 {
        lemma_ramp_scales(225, 0, 0, 100 * n - 25 * b, 10 * b, k);
        lemma_ramp_scales(255, 30, 100, 100 * n - 25 * b, 10 * b, k);
        lemma_ramp_scales(245, 100, 0, 100 * n - 25 * b, 10 * b, k);
    } else {
        lemma_ramp_scales(225, 0, 70, 100 * n - 35 * b, 65 * b, k);
        lemma_ramp_scales(255, 100, 0, 100 * n - 35 * b, 65 * b, k);
        lemma_ramp_scales(245, 0, 100, 100 * n - 35 * b, 65 * b, k);
    }
}

/// Two escape values that are one ratio have one colour, however each is
/// written.
pub proof fn lemma_equal_ratios_have_equal_colours(a: Escape, b: Escape)
    requires
        a.valid(),
        b.valid(),
        a.count() * b.budget() == b.count() * a.budget(),
    ensures
        gradient(a.count() as int, a.budget() as int) == gradient(
            b.count() as int,
            b.budget() as int,
        ),
{
    let n1 = a.count() as int;
    let b1 = a.budget() as int;
    let n2 = b.count() as int;
    let b2 = b.budget() as int;
    lemma_gradient_scales(n1, b1, b2);
    lemma_gradient_scales(n2, b2, b1);
    assert(b2 * n1 == b1 * n2 && b2 * b1 == b1 * b2) by (nonlinear_arith)
        requires
            n1 * b2 == n2 * b1,
    ;
}

/// Dividends that lie within one divisor of each other have quotients that
/// lie within one of each other.
proof fn lemma_quotients_close(x1: int, x2: int, d: int)
    requires
        0 < d,
        -d <= x1 - x2 <= d,
    ensures
        -1 <= x1 / d - x2 / d <= 1,
{
    lemma_fundamental_div_mod(x1, d);
    lemma_fundamental_div_mod(x2, d);
    lemma_mod_bound(x1, d);
    lemma_mod_bound(x2, d);
    let q1 = x1 / d;
    let q2 = x2 / d;
    assert(-1 <= q1 - q2 <= 1) by (nonlinear_arith)
        requires
            0 < d,
            -d <= x1 - x2 <= d,
            x1 == d * q1 + x1 % d,
            x2 == d * q2 + x2 % d,
            0 <= x1 % d < d,
            0 <= x2 % d < d,
    {
        if q1 - q2 >= 2 {
            assert(d * (q1 - q2) >= d * 2);
        }
        if q2 - q1 >= 2 {
            assert(d * (q2 - q1) >= d * 2);
        }
    }
}

/// Two ramps of one channel whose levels lie within one of each other before
/// rounding, once both are brought to one divisor by the factors `k1` and
/// `k2`, lie within one of each other after it.
proof fn lemma_ramps_close(
    max: int,
    f1: int,
    t1: int,
    num1: int,
    den1: int,
    k1: int,
    f2: int,
    t2: int,
    num2: int,
    den2: int,
    k2: int,
)
    requires
        0 < den1,
        0 < den2,
        0 < k1,
        0 < k2,
        k1 * den1 == k2 * den2,
        0 <= max * (f1 * den1 + (t1 - f1) * num1),
        0 <= max * (f2 * den2 + (t2 - f2) * num2),
        -(100 * (k1 * den1)) <= k1 * (max * (f1 * den1 + (t1 - f1) * num1)) - k2 * (max * (f2 * den2
            + (t2 - f2) * num2)) <= 100 * (k1 * den1),
    ensures
        -1 <= ramp(max, f1, t1, num1, den1) - ramp(max, f2, t2, num2, den2) <= 1,
{
    let x1 = max * (f1 * den1 + (t1 - f1) * num1);
    let x2 = max * (f2 * den2 + (t2 - f2) * num2);
    let d1 = 100 * den1;
    let d2 = 100 * den2;
    assert(k1 * d1 == 100 * (k1 * den1) && k2 * d2 == 100 * (k2 * den2)) by (nonlinear_arith)
        requires
            d1 == 100 * den1,
            d2 == 100 * den2,
    ;
    lemma_div_multiples_vanish_quotient(k1, x1, d1);
    lemma_div_multiples_vanish_quotient(k2, x2, d2);
    lemma_quotients_close(k1 * x1, k2 * x2, k1 * d1);
}

/// Two values on one budget that lie within one part in `MAX_SLOPE` of each
/// other differ by no more than one unit in any channel. Of two segments that
/// meet, the widths are brought to one scale: 2 by 25 and 5 by 10, 13 by 10
/// and 2 by 65.
proof fn lemma_close_on_one_budget(n1: int, n2: int, b: int)
    requires
        0 < n1 <= n2 <= b,
        2450 * (n2 - n1) <= b,
    ensures
        -1 <= red(n1, b) - red(n2, b) <= 1,
        -1 <= green(n1, b) - green(n2, b) <= 1,
        -1 <= blue(n1, b) - blue(n2, b) <= 1,
{
    let s1 = segment(n1, b);
    let s2 = segment(n2, b);
    if s1 == 1 && s2 == 1 {
        let (p1, p2) = (100 * n1, 100 * n2);
        lemma_ramps_close(225, 100, 0, p1, 25 * b, 1, 100, 0, p2, 25 * b, 1);
        lemma_ramps_close(255, 0, 30, p1, 25 * b, 1, 0, 30, p2, 25 * b, 1);
        lemma_ramps_close(245, 0, 100, p1, 25 * b, 1, 0, 100, p2, 25 * b, 1);
    } else if s1 == 1 && s2 == 2 {
        let (p1, p2) = (100 * n1, 100 * n2 - 25 * b);
        lemma_ramps_close(225, 100, 0, p1, 25 * b, 2, 0, 0, p2, 10 * b, 5);
        lemma_ramps_close(255, 0, 30, p1, 25 * b, 2, 30, 100, p2, 10 * b, 5);
        lemma_ramps_close(245, 0, 100, p1, 25 * b, 2, 100, 0, p2, 10 * b, 5);
    } else if s1 == 2 && s2 == 2 {
        let (p1, p2) = (100 * n1 - 25 * b, 100 * n2 - 25 * b);
        lemma_ramps_close(225, 0, 0, p1, 10 * b, 1, 0, 0, p2, 10 * b, 1);
        lemma_ramps_close(255, 30, 100, p1, 10 * b, 1, 30, 100, p2, 10 * b, 1);
        lemma_ramps_close(245, 100, 0, p1, 10 * b, 1, 100, 0, p2, 10 * b, 1);
    } else if s1 == 2 && s2 == 3 {
        let (p1, p2) = (100 * n1 - 25 * b, 100 * n2 - 35 * b);
        lemma_ramps_close(225, 0, 0, p1, 10 * b, 13, 0, 70, p2, 65 * b, 2);
        lemma_ramps_close(255, 30, 100, p1, 10 * b, 13, 100, 0, p2, 65 * b, 2);
        lemma_ramps_close(245, 100, 0, p1, 10 * b, 13, 0, 100, p2, 65 * b, 2);
    } else {
        let (p1, p2) = (100 * n1 - 35 * b, 100 * n2 - 35 * b);
        lemma_ramps_close(225, 0, 70, p1, 65 * b, 1, 0, 70, p2, 65 * b, 1);
        lemma_ramps_close(255, 100, 0, p1, 65 * b, 1, 100, 0, p2, 65 * b, 1);
        lemma_ramps_close(245, 0, 100, p1, 65 * b, 1, 0, 100, p2, 65 * b, 1);
    }
}

/// The gradient is continuous, up to rounding: two values other than zero
/// that lie within one part in `MAX_SLOPE` of each other have colours that
/// differ by no more than one unit in any channel. So it is in particular on
/// the two sides of the break between two segments.
pub proof fn lemma_gradient_is_continuous(a: Escape, b: Escape)
    requires
        a.valid(),
        b.valid(),
        0 < a.count(),
        close_below(a, b, MAX_SLOPE as int),
    ensures
        one_unit_apart(
            gradient(a.count() as int, a.budget() as int),
            gradient(b.count() as int, b.budget() as int),
        ),
{
    let n1 = a.count() as int;
    let b1 = a.budget() as int;
    let n2 = b.count() as int;
    let b2 = b.budget() as int;
    // both values on the budget `b1 * b2`
    let m1 = b2 * n1;
    let m2 = b1 * n2;
    let both = b1 * b2;
    lemma_gradient_scales(n1, b1, b2);
    lemma_gradient_scales(n2, b2, b1);
    assert(0 < m1 <= m2 <= both && 2450 * (m2 - m1) <= both && b2 * b1 == both) by (nonlinear_arith)
        requires
            0 < n1 <= b1,
            0 <= n2 <= b2,
            0 < b2,
            n1 * b2 <= n2 * b1,
            2450 * (n2 * b1 - n1 * b2) <= b1 * b2,
            m1 == b2 * n1,
            m2 == b1 * n2,
            both == b1 * b2,
    ;
    lemma_close_on_one_budget(m1, m2, both);
    lemma_channel_bounds(m1, both);
    lemma_channel_bounds(m2, both);
}

} // verus!
