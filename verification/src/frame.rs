//! The layout of a frame: RGBA quads, row by row from the top.

use vstd::prelude::*;
use slice_of_array::SliceFlatExt;
use crate::color::gradient;
use crate::color::to_color;
use crate::escape::Escape;

verus! {

/// The bytes of a run of RGBA quads, one quad after the other.
pub open spec fn flatten(pixels: Seq<[u8; 4]>) -> Seq<u8> {
    Seq::new(4 * pixels.len(), |k: int| pixels[k / 4]@[k % 4])
}

/// The frame that shows each escape value in its colour: the quad of pixel `i`
/// starts at byte `4 * i`.
pub open spec fn painted(escapes: Seq<Escape>) -> Seq<u8> {
    Seq::new(
        4 * escapes.len(),
        |k: int| gradient(escapes[k / 4].count() as int, escapes[k / 4].budget() as int)[k % 4],
    )
}

/// Each pixel shows its own escape value and nothing else: its quad is
/// transparent black where the orbit stayed bounded, and an opaque colour of
/// the gradient where it left.
pub proof fn lemma_quad_of_pixel(escapes: Seq<Escape>, i: int)
    requires
        0 <= i < escapes.len(),
    ensures
        painted(escapes).subrange(4 * i, 4 * i + 4) == gradient(
            escapes[i].count() as int,
            escapes[i].budget() as int,
        ),
        escapes[i].count() == 0 ==> painted(escapes).subrange(4 * i, 4 * i + 4) == seq![
            0u8,
            0u8,
            0u8,
            0u8,
        ],
        escapes[i].count() > 0 ==> painted(escapes)[4 * i + 3] == 255,
{
    let quad = painted(escapes).subrange(4 * i, 4 * i + 4);
    let colour = gradient(escapes[i].count() as int, escapes[i].budget() as int);
    assert(colour.len() == 4);
    assert forall|j: int| 0 <= j < 4 implies quad[j] == colour[j] by {
        assert((4 * i + j) / 4 == i && (4 * i + j) % 4 == j);
    }
    assert(quad =~= colour);
    assert((4 * i + 3) / 4 == i && (4 * i + 3) % 4 == 3);
}

/// `SliceFlatExt::flat` of `slice_of_array`, on quads of bytes: the same
/// memory seen as single bytes, so four times as long, with the bytes of each
/// quad in their order and the quads in theirs.
#[verifier::external_body]
fn flat(pixels: &[[u8; 4]]) -> (bytes: &[u8])
    ensures
        bytes@ == flatten(pixels@),
{
    pixels.flat()
}

/// `copy_from_slice` of the standard library: afterwards the destination
/// holds what the source holds. It panics unless both are equally long.
#[verifier::external_body]
fn copy_from_slice(dst: &mut [u8], src: &[u8])
    requires
        old(dst)@.len() == src@.len(),
    ensures
        final(dst)@ == src@,
{
    dst.copy_from_slice(src)
}

/// The number of pixels that a frame of `len` bytes holds, where that is a
/// whole number that a pixel index can reach.
pub fn pixel_count(len: usize) -> (count: Option<u32>)
    ensures
        count is Some <==> len % 4 == 0 && len / 4 <= u32::MAX,
        count matches Some(n) ==> 4 * n == len,
{
    if len % 4 == 0 && len / 4 <= 0xffff_ffff {
        Some((len / 4) as u32)
    } else {
        None
    }
}

/// Column and row of pixel `i` in a frame `width` pixels wide.
pub fn pixel_position(i: u32, width: u32) -> (pos: (u32, u32))
    requires
        width > 0,
    ensures
        pos.0 == i % width,
        pos.1 == i / width,
        pos.0 < width,
        pos.1 * width + pos.0 == i,
{
    proof {
        vstd::arithmetic::div_mod::lemma_fundamental_div_mod(i as int, width as int);
        vstd::arithmetic::mul::lemma_mul_is_commutative(width as int, (i / width) as int);
    }
    (i % width, i / width)
}

/// Overwrites the whole frame with the colours of the escape values, pixel by
/// pixel. Nothing of the old frame is left.
pub fn paint(frame: &mut [u8], escapes: &[Escape])
    requires
        old(frame)@.len() == 4 * escapes@.len(),
    ensures
        final(frame)@ == painted(escapes@),
{
    let mut pixels: Vec<[u8; 4]> = Vec::new();
    let mut i: usize = 0;
    while i < escapes.len()
        invariant
            i <= escapes@.len(),
            pixels@.len() == i,
            forall|j: int|
                0 <= j < i ==> (#[trigger] pixels@[j])@ == gradient(
                    escapes@[j].count() as int,
                    escapes@[j].budget() as int,
                ),
        decreases escapes@.len() - i,
    {
        pixels.push(to_color(escapes[i]));
        i += 1;
    }
    let bytes = flat(pixels.as_slice());
    assert(bytes@ =~= painted(escapes@));
    copy_from_slice(frame, bytes);
}

} // verus!
