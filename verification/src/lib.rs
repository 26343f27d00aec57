//! Escape-time fractals (Mandelbrot and Julia sets) rendered into RGBA pixel
//! buffers, and the bookkeeping that couples a Mandelbrot window to a Julia
//! window.
//!
//! The crate holds everything that is decided with integers: how long an
//! orbit takes to leave, how an escape value becomes a colour, how pixels are
//! laid out in a frame, and which window reacts to which signal. Arithmetic
//! on points of the plane is left to the caller. So the kernel takes the step
//! of an orbit as a function, and the types that carry points are generic in
//! the scalar.
//!
//! Escape values are exact ratios, and colours are computed from them in
//! whole numbers: each channel is the gradient's value rounded down, with no
//! rounding in between.

pub mod escape;
pub mod kernel;
pub mod color;
pub mod frame;
pub mod window;
pub mod coordinator;
pub mod julia;
pub mod mandelbrot;
