//! A Julia set on its own: one frame, drawn pixel after pixel.

use vstd::prelude::*;
use crate::escape::Escape;
use crate::frame::paint;
use crate::frame::painted;
use crate::frame::pixel_position;

verus! {

/// The title of the window: the region of the plane that it shows.
pub fn get_title() -> (title: String)
    ensures
        title@ == "Julia - x ∈ [-2,2] - y ∈ [-2,2]"@,
{
    "Julia - x ∈ [-2,2] - y ∈ [-2,2]".to_owned()
}

/// Whether `escapes` holds, for each pixel of a frame `width` wide in buffer
/// order, a value that `kernel` gives for its column and row.
pub open spec fn sampled<F: Fn(u32, u32) -> Escape>(
    kernel: F,
    width: u32,
    escapes: Seq<Escape>,
) -> bool {
    forall|i: int|
        0 <= i < escapes.len() ==> call_ensures(
            kernel,
            ((i % width as int) as u32, (i / width as int) as u32),
            #[trigger] escapes[i],
        )
}

/// Whether `kernel` computes `f`: whatever it returns for a pixel is what `f`
/// gives for its column and row.
pub open spec fn computes<F: Fn(u32, u32) -> Escape>(
    kernel: F,
    f: spec_fn(u32, u32) -> Escape,
) -> bool {
    forall|x: u32, y: u32, e: Escape| call_ensures(kernel, (x, y), e) ==> e == f(x, y)
}

/// The values of `f` for the first `count` pixels of a frame `width` wide, in
/// buffer order.
pub open spec fn grid(f: spec_fn(u32, u32) -> Escape, width: u32, count: int) -> Seq<Escape> {
    Seq::new(count as nat, |i: int| f((i % width as int) as u32, (i / width as int) as u32))
}

/// Whether `kernel` may be asked for every pixel of a frame of `count` pixels
/// that is `width` wide.
pub open spec fn covers<F: Fn(u32, u32) -> Escape>(kernel: F, width: u32, count: int) -> bool {
    forall|x: u32, y: u32| x < width && y * width + x < count ==> call_requires(kernel, (x, y))
}

/// Draws the whole frame: asks `kernel` for the escape value of each pixel,
/// by column and row, and writes its colour. No pixel depends on another.
pub fn draw_julia<F: Fn(u32, u32) -> Escape>(frame: &mut [u8], width: u32, kernel: F)
    requires
        width > 0,
        old(frame)@.len() % 4 == 0,
        old(frame)@.len() / 4 <= u32::MAX,
        covers(kernel, width, old(frame)@.len() as int / 4),
    ensures
        exists|escapes: Seq<Escape>|
            {
                &&& 4 * escapes.len() == old(frame)@.len()
                &&& #[trigger] sampled(kernel, width, escapes)
                &&& final(frame)@ == painted(escapes)
            },
        forall|f: spec_fn(u32, u32) -> Escape| #[trigger]
            computes(kernel, f) ==> final(frame)@ == painted(
                grid(f, width, old(frame)@.len() as int / 4),
            ),
{
    let count: u32 = (frame.len() / 4) as u32;
    let mut escapes: Vec<Escape> = Vec::new();
    let mut i: u32 = 0;
    while i < count
        invariant
            width > 0,
            i <= count,
            escapes@.len() == i,
            sampled(kernel, width, escapes@),
            covers(kernel, width, count as int),
        decreases count - i,
    {
        let (x, y) = pixel_position(i, width);
        escapes.push(kernel(x, y));
        i += 1;
    }
    paint(frame, escapes.as_slice());
    proof {
        assert forall|f: spec_fn(u32, u32) -> Escape| #[trigger]
            computes(kernel, f) implies escapes@ == grid(f, width, count as int) by {
            assert(escapes@ =~= grid(f, width, count as int));
        }
    }
}

} // verus!
