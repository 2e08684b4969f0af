//! Tiled rendering of the Mandelbrot set into a caller-owned RGB buffer.
//!
//! The library holds the integer side of the renderer: how the rows of an
//! image are shared among workers, which bytes of the buffer belong to each
//! stripe and each pixel, how the buffer is handed out as disjoint regions,
//! how a zone of pixels is filled, and when the escape-time iteration stops.
//! Everything that is computed in floating point comes from the caller: the
//! shade of a pixel, the step of an orbit and the palette are functions that
//! the caller passes in.

pub mod escape;
pub mod partition;
pub mod pixel;
pub mod schedule;
pub mod stripe;
pub mod zone;
