//! A frontier-driven image generator: a dense color grid grows pixel by pixel
//! from random seeds, each freshly sampled color landing next to the placed
//! pixel whose color it matches best.

pub mod bitmap;
pub mod color;
pub mod generate;
pub mod geometry;
pub mod progress;
pub mod getopt;
pub mod pnmdata;
pub mod rng;
pub mod setup;

use vstd::prelude::*;

use crate::bitmap::{count_all, BitMap};
use crate::color::Color;
use crate::generate::Pixel;
use crate::pnmdata::PnmData;

verus! {

/// The shared mutable state: the image, the placed-pixel mask, and the
/// frontier of placed pixels that still border unplaced ones.
pub struct CommonLockedData {
    pub image: PnmData,
    pub placed_pixels: BitMap,
    /// The frontier, in first-in, first-out order.
    pub edges: Vec<Pixel>,
}

impl CommonLockedData {
    /// True iff the mask marks `(row y, column x)` placed.
    pub open spec fn placed(&self, y: int, x: int) -> bool {
        self.placed_pixels@[y][x]
    }

    /// The image, mask and frontier agree on the dimensions; every frontier
    /// entry is an in-bounds placed pixel, and none appears twice.
    pub open spec fn wf(&self, dimy: int, dimx: int) -> bool {
        &&& self.image.wf()
        &&& self.image.dimy == dimy
        &&& self.image.dimx == dimx
        &&& self.placed_pixels.wf()
        &&& self.placed_pixels.spec_height() == dimy
        &&& self.placed_pixels.spec_width() == dimx
        &&& self.edges@.no_duplicates()
        &&& forall|i: int|
            0 <= i < self.edges@.len() ==> {
                let e = #[trigger] self.edges@[i];
                &&& 0 <= e.y < dimy
                &&& 0 <= e.x < dimx
                &&& self.placed(e.y as int, e.x as int)
            }
    }

    /// Cells the mask leaves unplaced still hold the initial zero color.
    pub open spec fn unplaced_zero(&self, dimy: int, dimx: int) -> bool {
        forall|y: int, x: int|
            0 <= y < dimy && 0 <= x < dimx && !self.placed(y, x)
                ==> #[trigger] self.image.spec_index(y, x) == (Color { r: 0, g: 0, b: 0, pad: 0 })
    }
}

/// The process-wide generation state: the locked triple plus the dimensions,
/// progress counters and termination flag.
pub struct CommonData {
    pub locked: CommonLockedData,
    pub dimy: usize,
    pub dimx: usize,
    /// Equals `dimy * dimx`.
    pub size: usize,
    /// Set once every cell has been placed; every participant exits on
    /// seeing it.
    pub finished: bool,
    pub pixels_placed: usize,
    pub pixels_generated: usize,
    pub rng_seed: u64,
}

impl CommonData {
    pub open spec fn wf(&self) -> bool {
        &&& 1 <= self.dimy
        &&& 1 <= self.dimx
        &&& self.dimy <= 32767
        &&& self.dimx <= 32767
        &&& self.size == self.dimy * self.dimx
        &&& self.locked.wf(self.dimy as int, self.dimx as int)
        &&& self.locked.unplaced_zero(self.dimy as int, self.dimx as int)
        &&& self.pixels_placed == count_all(self.locked.placed_pixels@)
        &&& self.pixels_placed <= self.size
        &&& self.pixels_placed <= self.pixels_generated
        &&& self.locked.edges@.len() <= self.pixels_placed
        &&& self.finished ==> self.pixels_placed == self.size
    }
}

} // verus!
