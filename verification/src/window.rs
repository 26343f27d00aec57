//! One renderable instance per window: its region of the complex plane, its
//! fractal, and the size of its pixel buffer.

use vstd::prelude::*;
use num::Complex;
use crate::escape::Escape;
use crate::frame::paint;
use crate::frame::painted;

verus! {

/// `num::Complex`, a plain pair of a real and an imaginary part. The library
/// stores such numbers and hands them back; it never computes with them.
#[verifier::external_type_specification]
#[verifier::reject_recursive_types(T)]
pub struct ExComplex<T>(Complex<T>);

/// `Complex::new` of `num`: the number with the given real and imaginary part.
pub assume_specification<T>[ Complex::<T>::new ](re: T, im: T) -> (c: Complex<T>)
    ensures
        c.re == re,
        c.im == im,
;

/// Which fractal an instance shows.
#[derive(Debug, PartialEq)]
#[verifier::reject_recursive_types(T)]
pub enum JlMbMode<T> {
    /// The Julia set of the stored parameter: iteration starts at the pixel's
    /// point and adds the parameter.
    Julia(Complex<T>),
    /// The Mandelbrot set: iteration starts at zero and adds the pixel's point.
    Mandelbrot,
}

/// The region of the complex plane that an instance shows, and its fractal.
#[derive(Debug, PartialEq)]
#[verifier::reject_recursive_types(T)]
pub struct JLMbValues<T> {
    /// The corner with the least real and the least imaginary part.
    pub min: Complex<T>,
    /// The corner with the greatest real and the greatest imaginary part.
    pub max: Complex<T>,
    /// The fractal.
    pub mode: JlMbMode<T>,
}

/// A renderable instance: what the library knows of one live window.
#[derive(Debug, PartialEq)]
#[verifier::reject_recursive_types(T)]
pub struct JlMbWindow<T> {
    /// The window's identity.
    pub id: u64,
    /// The name that the window was made with.
    pub name: &'static str,
    /// Width of the pixel buffer.
    pub width: u32,
    /// Height of the pixel buffer.
    pub height: u32,
    /// Whether the window was last resized to nothing.
    pub minimized: bool,
    /// The region and the fractal.
    pub vals: JLMbValues<T>,
}

impl<T> JlMbMode<T> {
    /// The mode with its Julia parameter replaced. The Mandelbrot set has
    /// none and stays as it is.
    pub open spec fn with_parameter(self, init: Complex<T>) -> Self {
        match self {
            JlMbMode::Julia(_) => JlMbMode::Julia(init),
            JlMbMode::Mandelbrot => JlMbMode::Mandelbrot,
        }
    }

    /// The Mandelbrot set.
    pub fn new_mb() -> (mode: Self)
        ensures
            mode is Mandelbrot,
    {
        Self::Mandelbrot
    }

    /// A Julia set whose parameter is the scalar's default in both parts: zero,
    /// for a number type.
    pub fn new_jl() -> (mode: Self) where T: Default
        ensures
            mode matches JlMbMode::Julia(c) && call_ensures(T::default, (), c.re) && call_ensures(
                T::default,
                (),
                c.im,
            ),
    {
        Self::Julia(Complex::new(T::default(), T::default()))
    }
}

impl<T: Default + Copy> JlMbMode<T> {
    /// Where the orbit of the pixel at `point` starts, and what each step
    /// adds: for the Mandelbrot set the scalar's default in both parts, which
    /// is zero for a number type, and the point; for a Julia set the point,
    /// and the parameter.
    pub fn start(&self, point: Complex<T>) -> (orbit: (Complex<T>, Complex<T>))
        ensures
            match *self {
                JlMbMode::Mandelbrot => {
                    &&& call_ensures(T::default, (), orbit.0.re)
                    &&& call_ensures(T::default, (), orbit.0.im)
                    &&& orbit.1 == point
                },
                JlMbMode::Julia(parameter) => orbit == (point, parameter),
            },
    {
        match self {
            JlMbMode::Mandelbrot => (Complex::new(T::default(), T::default()), point),
            JlMbMode::Julia(parameter) => (point, *parameter),
        }
    }
}

impl<T> JLMbValues<T> {
    /// The region between the given bounds, with the given fractal.
    pub fn new(min_re: T, max_re: T, min_im: T, max_im: T, mode: JlMbMode<T>) -> (vals: Self)
        ensures
            vals == (JLMbValues {
                min: Complex { re: min_re, im: min_im },
                max: Complex { re: max_re, im: max_im },
                mode,
            }),
    {
        let min = Complex::new(min_re, min_im);
        let max = Complex::new(max_re, max_im);
        JLMbValues { min, max, mode }
    }
}

impl<T> JlMbWindow<T> {
    /// Whether a frame can be drawn: the window has not been resized to
    /// nothing since its last proper size, and its buffer has pixels.
    pub open spec fn spec_renderable(&self) -> bool {
        !self.minimized && self.width != 0 && self.height != 0
    }

    /// The instance after its window has come to measure `width` by `height`.
    /// A proper size becomes the size of the buffer. A size with a zero in it
    /// changes no dimension: the instance only stops drawing.
    pub open spec fn resized(self, width: u32, height: u32) -> Self {
        if width != 0 && height != 0 {
            JlMbWindow { width, height, minimized: false, ..self }
        } else {
            JlMbWindow { minimized: true, ..self }
        }
    }

    /// The instance with `init` as the parameter of its Julia set, if it
    /// shows one.
    pub open spec fn with_init_val(self, init: Complex<T>) -> Self {
        JlMbWindow {
            vals: JLMbValues { mode: self.vals.mode.with_parameter(init), ..self.vals },
            ..self
        }
    }

    /// The instance of the window `id`, whose buffer is `width` by `height`.
    pub fn new(id: u64, width: u32, height: u32, name: &'static str, values: JLMbValues<T>) -> (w:
        Self)
        ensures
            w == (JlMbWindow { id, name, width, height, minimized: false, vals: values }),
    {
        JlMbWindow { id, name, width, height, minimized: false, vals: values }
    }

    /// Whether a frame can be drawn.
    #[verifier::when_used_as_spec(spec_renderable)]
    pub fn renderable(&self) -> (b: bool)
        ensures
            b == self.renderable(),
    {
        !self.minimized && self.width != 0 && self.height != 0
    }

    /// Takes note that the window now measures `width` by `height`, and says
    /// whether the buffer is to be resized and the window redrawn: it is,
    /// unless one of the two is zero.
    pub fn resize(&mut self, width: u32, height: u32) -> (resized: bool)
        ensures
            *final(self) == old(self).resized(width, height),
            resized == (width != 0 && height != 0),
            !resized ==> final(self).width == old(self).width && final(self).height == old(
                self,
            ).height,
    {
        if width != 0 && height != 0 {
            self.width = width;
            self.height = height;
            self.minimized = false;
            true
        } else {
            self.minimized = true;
            false
        }
    }

    /// Makes `init` the parameter of a Julia set. A Mandelbrot set has no
    /// parameter, and nothing changes.
    pub fn set_init_val(&mut self, init: Complex<T>)
        ensures
            *final(self) == old(self).with_init_val(init),
    {
        if let JlMbMode::Julia(jl_init) = &mut self.vals.mode {
            *jl_init = init;
        }
    }

    /// Fills the frame with the colours of the escape values, one per pixel in
    /// buffer order, and says whether it did. An instance that cannot be
    /// drawn leaves the frame as it is.
    pub fn draw(&self, frame: &mut [u8], escapes: &[Escape]) -> (drawn: bool)
        requires
            self.renderable() ==> old(frame)@.len() == 4 * escapes@.len(),
        ensures
            drawn == self.renderable(),
            drawn ==> final(frame)@ == painted(escapes@),
            !drawn ==> final(frame)@ == old(frame)@,
    {
        if self.minimized || self.width == 0 || self.height == 0 {
            return false;
        }
        paint(frame, escapes);
        true
    }
}

} // verus!
