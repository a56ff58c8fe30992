//! A software rasterizer and compositor for 2D vector paths.
//!
//! Paths are sequences of move, line and quadratic-curve operations on
//! fixed-point coordinates. A path is turned into line and curve segments,
//! the segments are scan-converted into anti-aliased coverage under the
//! non-zero winding rule, and a solid colour or a texture is blended onto an
//! RGBA byte buffer with the "over" operator, all in integer arithmetic.
//!
//! Coordinates and scale factors are integers with sixteen fractional bits:
//! 65536 stands for one pixel, or for the factor one. A coverage and every
//! channel of a colour is a byte that stands for a fraction of 255.

use vstd::prelude::*;
use crate::draw::{Paint, filled};
use crate::draw::curves::edges_of;
use crate::draw::geometry::{Line, Curve};
use crate::draw::path::{PathOp, PathError, segments};

pub mod draw;
pub mod gui;
pub mod icons;
pub mod window;

pub use crate::gui::ecs::Storage;
pub use crate::window::Window;

verus! {

/// Size of an image (width, height).
#[derive(Copy, Clone, Debug, PartialEq, Eq, Structural)]
pub struct Size(pub u16, pub u16);

/// An Image: a canvas of a fixed size to draw on. The pixels are the
/// caller's, four bytes for each pixel, row after row without gaps; the image
/// holds the size and the two lists that tracing a path fills, which are
/// kept from call to call and empty in between.
pub struct Image {
    size: Size,
    lines: Vec<Line>,
    curves: Vec<Curve>,
}

impl Image {
    /// The size of the canvas.
    pub closed spec fn extent(&self) -> Size {
        self.size
    }

    /// Both lists are empty: the image holds nothing of any path. This is so
    /// after every call.
    pub closed spec fn idle(&self) -> bool {
        self.lines@.len() == 0 && self.curves@.len() == 0
    }

    /// The number of bytes that the pixels of the canvas take.
    pub open spec fn bytes(&self) -> int {
        4 * self.extent().0 * self.extent().1
    }

    /// Create new Image.
    pub fn new(size: Size) -> (image: Image)
        ensures
            image.extent() == size,
            image.idle(),
    {
        Image { size, lines: Vec::new(), curves: Vec::new() }
    }

    /// Get the size of the image.
    pub fn size(&self) -> (size: Size)
        ensures
            size == self.extent(),
    {
        self.size
    }

    /// Clear the Image: every byte of every pixel becomes zero, and the two
    /// lists are empty.
    pub fn clear(&mut self, pixels: &mut [u8])
        requires
            old(pixels)@.len() == old(self).bytes(),
        ensures
            final(self).extent() == old(self).extent(),
            final(self).idle(),
            final(pixels)@.len() == old(pixels)@.len(),
            forall|i: int| 0 <= i < final(pixels)@.len() ==> final(pixels)@[i] == 0,
    {
        self.lines.clear();
        self.curves.clear();
        let mut i: usize = 0;
        while i < pixels.len()
            invariant
                i <= pixels@.len(),
                pixels@.len() == old(pixels)@.len(),
                forall|k: int| 0 <= k < i ==> pixels@[k] == 0,
            decreases pixels@.len() - i,
        {
            pixels[i] = 0;
            i += 1;
        }
    }

    /// Draw a path a solid color (sRGBA). The coordinates of the path are
    /// pixels with sixteen fractional bits. A path that draws before its
    /// first move or holds a cubic curve is refused, and the pixels are then
    /// left as they were. The two lists are empty afterwards either way.
    pub fn fill(&mut self, color: [u8; 4], path: &[PathOp], pixels: &mut [u8]) -> (r: Result<
        (),
        PathError,
    >)
        requires
            old(pixels)@.len() == old(self).bytes(),
        ensures
            final(self).extent() == old(self).extent(),
            final(self).idle(),
            match segments(path@, 65536, 65536, Seq::empty(), Seq::empty()) {
                Ok((l, c)) => r is Ok && final(pixels)@ == filled(
                    old(pixels)@,
                    old(self).extent(),
                    4 * old(self).extent().0,
                    edges_of(l, c),
                    Paint::Solid(color),
                ),
                Err(e) => r == Err::<(), PathError>(e) && final(pixels)@ == old(pixels)@,
            },
    {
        self.lines.clear();
        self.curves.clear();
        proof {
            assert(self.lines@ =~= Seq::empty());
            assert(self.curves@ =~= Seq::empty());
            assert(self.size.1 * (4 * self.size.0) == 4 * self.size.0 * self.size.1)
                by (nonlinear_arith);
        }
        let pitch: usize = 4 * (self.size.0 as usize);
        crate::draw::draw(
            pixels,
            self.size,
            pitch,
            path,
            color,
            &mut self.lines,
            &mut self.curves,
            65536,
            65536,
        )
    }
}

} // verus!
