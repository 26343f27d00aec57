//! A Mandelbrot set on its own, coloured by hue: the escape value picks an
//! angle on the colour wheel, at full saturation and value.

use vstd::prelude::*;
use vstd::arithmetic::div_mod::*;
use crate::escape::Escape;
use crate::frame::pixel_position;
use crate::julia::computes;
use crate::julia::covers;
use crate::julia::grid;
use crate::julia::sampled;

verus! {

/// A hue in degrees: the exact fraction `num / den`.
#[derive(Clone, Copy, Debug, PartialEq, Eq)]
pub struct Hue {
    pub num: i64,
    pub den: u32,
}

/// How many steps the hue lags behind the escape count: an orbit that leaves
/// on step six has a hue of one full turn.
pub const HUE_LAG: i64 = 6;

/// The hue of the escape value `count / budget`, as a number of degrees
/// times `budget`: a full turn, less the turn's share of `count - HUE_LAG`.
/// Zero stands for an orbit that never left.
pub open spec fn hue_times_budget(count: int, budget: int) -> int {
    if count == 0 {
        0
    } else {
        360 * (budget - (count - HUE_LAG))
    }
}

/// The angle brought into one turn by a full turn at most, as a number of
/// degrees times `den`.
pub open spec fn wrapped(num: int, den: int) -> int {
    if num >= 360 * den {
        num - 360 * den
    } else if num < 0 {
        num + 360 * den
    } else {
        num
    }
}

/// Whether the angle `num / den` comes to lie within one turn.
pub open spec fn on_wheel(num: int, den: int) -> bool {
    0 < den && 0 <= wrapped(num, den) < 360 * den
}

/// The sixth of the wheel in which the angle lies, counted from zero.
pub open spec fn sector(num: int, den: int) -> int {
    wrapped(num, den) / (60 * den)
}

/// How far into its sector the angle lies, on the scale of a channel and
/// rounded down.
pub open spec fn rising(num: int, den: int) -> int {
    (255 * (wrapped(num, den) % (60 * den))) / (60 * den)
}

/// Red, green and blue of the angle `num / den` on the colour wheel.
pub open spec fn wheel(num: int, den: int) -> (int, int, int) {
    let t = rising(num, den);
    let q = 255 - t;
    let i = sector(num, den);
    if i == 0 {
        (255, t, 0)
    } else if i == 1 {
        (q, 255, 0)
    } else if i == 2 {
        (0, 255, t)
    } else if i == 3 {
        (0, q, 255)
    } else if i == 4 {
        (t, 0, 255)
    } else {
        (255, 0, q)
    }
}

/// The quad of a pixel: transparent black for an orbit that never left, an
/// opaque colour of the wheel for any other.
pub open spec fn hue_quad(count: int, budget: int) -> Seq<u8> {
    if hue_times_budget(count, budget) > 0 {
        let (r, g, b) = wheel(hue_times_budget(count, budget), budget);
        seq![r as u8, g as u8, b as u8, 255u8]
    } else {
        seq![0u8, 0u8, 0u8, 0u8]
    }
}

/// The frame that shows each escape value in its hue. The quad of pixel `i`
/// starts at byte `4 * i`.
pub open spec fn hue_painted(escapes: Seq<Escape>) -> Seq<u8> {
    Seq::new(
        4 * escapes.len(),
        |k: int| hue_quad(escapes[k / 4].count() as int, escapes[k / 4].budget() as int)[k % 4],
    )
}

/// Whether the hue of an escape value comes to lie within one turn.
pub open spec fn hue_on_wheel(e: Escape) -> bool {
    e.count() == 0 || HUE_LAG < e.count() + e.budget()
}

impl Hue {
    /// Whether the angle comes to lie within one turn, and so has a colour.
    pub fn is_on_wheel(&self) -> (b: bool)
        ensures
            b == on_wheel(self.num as int, self.den as int),
    {
        let den: i64 = self.den as i64;
        let turn: i64 = 360 * den;
        den > 0 && 0 - turn <= self.num && self.num < 2 * turn
    }
}

/// The hue of an escape value.
pub fn hue(e: Escape) -> (h: Hue)
    ensures
        h.num == hue_times_budget(e.count() as int, e.budget() as int),
        h.den == e.budget(),
        e.count() > 0 ==> h.num > 0,
        hue_on_wheel(e) ==> on_wheel(h.num as int, h.den as int),
{
    let count: i64 = e.count() as i64;
    let budget: i64 = e.budget() as i64;
    if count == 0 {
        Hue { num: 0, den: e.budget() }
    } else {
        Hue { num: 360 * (budget - (count - HUE_LAG)), den: e.budget() }
    }
}

/// Red, green and blue of a hue on the colour wheel.
///
/// An angle of a full turn or more is taken one turn back, a negative one
/// one turn forward. What does not lie within one turn after that has no
/// colour.
pub fn hue_to_rgb(h: Hue) -> (rgb: (u8, u8, u8))
    requires
        on_wheel(h.num as int, h.den as int),
    ensures
        (rgb.0 as int, rgb.1 as int, rgb.2 as int) == wheel(h.num as int, h.den as int),
{
    let den: i64 = h.den as i64;
    let mut num: i64 = h.num;
    if num >= 360 * den {
        num -= 360 * den;
    } else if num < 0 {
        num += 360 * den;
    }
    let sixth: i64 = 60 * den;
    let i: i64 = num / sixth;
    let rest: i64 = num % sixth;
    proof {
        lemma_fundamental_div_mod(num as int, sixth as int);
        lemma_mod_bound(num as int, sixth as int);
        lemma_div_is_ordered(0, num as int, sixth as int);
        assert(0 <= i < 6) by (nonlinear_arith)
            requires
                0 < sixth,
                0 <= num < 6 * sixth,
                num == sixth * i + rest,
                0 <= rest < sixth,
        ;
        lemma_div_is_ordered(0, 255 * rest, sixth as int);
        lemma_div_is_ordered(255 * rest, 255 * (sixth - 1), sixth as int);
        assert((255 * (sixth - 1)) / (sixth as int) < 255) by {
            lemma_div_by_multiple_is_strongly_ordered(
                255 * (sixth - 1),
                255 * sixth,
                255,
                sixth as int,
            );
            lemma_div_by_multiple(255, sixth as int);
        }
    }
    let t: u8 = ((255 * rest) / sixth) as u8;
    let q: u8 = 255 - t;
    if i == 0 {
        (255, t, 0)
    } else if i == 1 {
        (q, 255, 0)
    } else if i == 2 {
        (0, 255, t)
    } else if i == 3 {
        (0, q, 255)
    } else if i == 4 {
        (t, 0, 255)
    } else {
        (255, 0, q)
    }
}

/// Draws the frame by hue: asks `kernel` for the escape value of each pixel,
/// by column and row, and writes its quad. Bytes behind the last whole quad
/// stay as they are.
pub fn draw_mandelbrot<F: Fn(u32, u32) -> Escape>(frame: &mut [u8], width: u32, kernel: F)
    requires
        width > 0,
        old(frame)@.len() / 4 <= u32::MAX,
        covers(kernel, width, old(frame)@.len() as int / 4),
        forall|x: u32, y: u32, e: Escape| call_ensures(kernel, (x, y), e) ==> hue_on_wheel(e),
    ensures
        exists|escapes: Seq<Escape>|
            {
                &&& escapes.len() == old(frame)@.len() / 4
                &&& #[trigger] sampled(kernel, width, escapes)
                &&& final(frame)@ == hue_painted(escapes) + old(frame)@.subrange(
                    4 * escapes.len() as int,
                    old(frame)@.len() as int,
                )
            },
        forall|f: spec_fn(u32, u32) -> Escape| #[trigger]
            computes(kernel, f) ==> final(frame)@ == hue_painted(
                grid(f, width, old(frame)@.len() as int / 4),
            ) + old(frame)@.subrange(
                4 * (old(frame)@.len() as int / 4),
                old(frame)@.len() as int,
            ),
{
    let count: u32 = (frame.len() / 4) as u32;
    let ghost mut escapes: Seq<Escape> = Seq::empty();
    let mut i: u32 = 0;
    while i < count
        invariant
            width > 0,
            i <= count,
            count == old(frame)@.len() / 4,
            frame@.len() == old(frame)@.len(),
            frame@.len() <= usize::MAX,
            escapes.len() == i,
            sampled(kernel, width, escapes),
            forall|k: int| 0 <= k < 4 * i ==> frame@[k] == hue_painted(escapes)[k],
            forall|k: int| 4 * i <= k < frame@.len() ==> frame@[k] == old(frame)@[k],
            covers(kernel, width, count as int),
            forall|x: u32, y: u32, e: Escape| call_ensures(kernel, (x, y), e) ==> hue_on_wheel(e),
        decreases count - i,
    {
        let (x, y) = pixel_position(i, width);
        let e = kernel(x, y);
        let h = hue(e);
        let at: usize = 4 * (i as usize);
        let ghost before = frame@;
        if h.num > 0 {
            let (r, g, b) = hue_to_rgb(h);
            frame[at] = r;
            frame[at + 1] = g;
            frame[at + 2] = b;
            frame[at + 3] = 255;
        } else {
            frame[at] = 0;
            frame[at + 1] = 0;
            frame[at + 2] = 0;
            frame[at + 3] = 0;
        }
        proof {
            let longer = escapes.push(e);
            assert forall|k: int| 0 <= k < 4 * (i + 1) implies frame@[k] == hue_painted(
                longer,
            )[k] by {
                if k < 4 * i {
                    assert(frame@[k] == before[k]);
                    assert(longer[k / 4] == escapes[k / 4]);
                    assert(hue_painted(escapes)[k] == hue_painted(longer)[k]);
                } else {
                    assert(k / 4 == i && longer[k / 4] == e);
                }
            }
            assert forall|j: int| 0 <= j < longer.len() implies call_ensures(
                kernel,
                ((j % width as int) as u32, (j / width as int) as u32),
                #[trigger] longer[j],
            ) by {
                if j < i {
                    assert(longer[j] == escapes[j]);
                }
            }
            escapes = longer;
        }
        i += 1;
    }
    proof {
        assert(frame@ =~= hue_painted(escapes) + old(frame)@.subrange(
            4 * escapes.len() as int,
            old(frame)@.len() as int,
        ));
        assert forall|f: spec_fn(u32, u32) -> Escape| #[trigger]
            computes(kernel, f) implies escapes == grid(f, width, count as int) by {
            assert(escapes =~= grid(f, width, count as int));
        }
    }
}

} // verus!
