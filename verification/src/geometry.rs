//! Geometry: maps logical pixel coordinates to canonical in-bounds
//! coordinates, with optional north-south and east-west wrap-around.

use vstd::prelude::*;
use crate::generate::Pixel;
use crate::getopt::{GetoptItem, Opt};

verus! {

/// An in-bounds pixel: `x < dimx`, `y < dimy`.
#[derive(Debug, Clone, Copy, PartialEq, Eq, Structural)]
pub struct CanonicalPixel {
    pub x: usize,
    pub y: usize,
}

/// The coordinate mapping: bounded (out-of-range pixels rejected), or
/// wrapping on either axis with floor-modulus semantics.
#[derive(Debug, Clone, Copy, PartialEq, Eq, Structural)]
pub struct Geometry {
    pub ns_wrap: bool,
    pub ew_wrap: bool,
    pub dimx: usize,
    pub dimy: usize,
}

/// Floor modulus: the representative of `v` in `[0, m)`.
pub open spec fn floor_mod(v: int, m: int) -> int {
    v % m
}

/// What canonicalization yields: `Some` exactly when each non-wrapping axis
/// is already in range; wrapping axes are reduced modulo their extent.
pub open spec fn canonical_of(g: Geometry, p: Pixel) -> Option<CanonicalPixel> {
    let xo: Option<int> = if g.ew_wrap {
        Some(floor_mod(p.x as int, g.dimx as int))
    } else if 0 <= p.x < g.dimx {
        Some(p.x as int)
    } else {
        None
    };
    let yo: Option<int> = if g.ns_wrap {
        Some(floor_mod(p.y as int, g.dimy as int))
    } else if 0 <= p.y < g.dimy {
        Some(p.y as int)
    } else {
        None
    };
    match (xo, yo) {
        (Some(x), Some(y)) => Some(CanonicalPixel { x: x as usize, y: y as usize }),
        _ => None,
    }
}

impl Geometry {
    pub open spec fn wf(&self) -> bool {
        &&& 1 <= self.dimx <= 32767
        &&& 1 <= self.dimy <= 32767
    }

    /// The default geometry: no wrap-around on either axis.
    pub fn bounded(dimx: usize, dimy: usize) -> (r: Geometry)
        requires
            1 <= dimx <= 32767,
            1 <= dimy <= 32767,
        ensures
            r == (Geometry { ns_wrap: false, ew_wrap: false, dimx, dimy }),
            r.wf(),
    {
        Geometry { ns_wrap: false, ew_wrap: false, dimx, dimy }
    }

    /// Maps a logical pixel to its canonical in-bounds coordinates, or
    /// `None` when a non-wrapping axis is out of range.
    pub fn canonicalize(&self, location: Pixel) -> (r: Option<CanonicalPixel>)
        requires
            self.wf(),
        ensures
            r == canonical_of(*self, location),
            r matches Some(c) ==> c.x < self.dimx && c.y < self.dimy,
    {
        let x: usize;
        if self.ew_wrap {
            let d = self.dimx as i64;
            let xi = location.x as i64;
            let fm: i64 = if xi >= 0 {
                xi % d
            } else {
                let neg = (-xi) % d;
                if neg == 0 {
                    0
                } else {
                    d - neg
                }
            };
            proof {
                if xi < 0 {
                    let n = -(xi as int);
                    let dd = d as int;
                    let qn = n / dd;
                    let rn = n % dd;
                    vstd::arithmetic::div_mod::lemma_fundamental_div_mod(n, dd);
                    assert((-qn) * dd == -(qn * dd)) by (nonlinear_arith);
                    assert((-qn - 1) * dd == -(qn * dd) - dd) by (nonlinear_arith);
                    if rn == 0 {
                        vstd::arithmetic::div_mod::lemma_fundamental_div_mod_converse_mod(
                            xi as int,
                            dd,
                            -qn,
                            0,
                        );
                    } else {
                        vstd::arithmetic::div_mod::lemma_fundamental_div_mod_converse_mod(
                            xi as int,
                            dd,
                            -qn - 1,
                            dd - rn,
                        );
                    }
                }
                assert(fm == floor_mod(location.x as int, self.dimx as int));
            }
            x = fm as usize;
        } else {
            if 0 <= location.x && (location.x as i64) < (self.dimx as i64) {
                x = location.x as usize;
            } else {
                return None;
            }
        }
        let y: usize;
        if self.ns_wrap {
            let d = self.dimy as i64;
            let yi = location.y as i64;
            let fm: i64 = if yi >= 0 {
                yi % d
            } else {
                let neg = (-yi) % d;
                if neg == 0 {
                    0
                } else {
                    d - neg
                }
            };
            proof {
                if yi < 0 {
                    let n = -(yi as int);
                    let dd = d as int;
                    let qn = n / dd;
                    let rn = n % dd;
                    vstd::arithmetic::div_mod::lemma_fundamental_div_mod(n, dd);
                    assert((-qn) * dd == -(qn * dd)) by (nonlinear_arith);
                    assert((-qn - 1) * dd == -(qn * dd) - dd) by (nonlinear_arith);
                    if rn == 0 {
                        vstd::arithmetic::div_mod::lemma_fundamental_div_mod_converse_mod(
                            yi as int,
                            dd,
                            -qn,
                            0,
                        );
                    } else {
                        vstd::arithmetic::div_mod::lemma_fundamental_div_mod_converse_mod(
                            yi as int,
                            dd,
                            -qn - 1,
                            dd - rn,
                        );
                    }
                }
                assert(fm == floor_mod(location.y as int, self.dimy as int));
            }
            y = fm as usize;
        } else {
            if 0 <= location.y && (location.y as i64) < (self.dimy as i64) {
                y = location.y as usize;
            } else {
                return None;
            }
        }
        Some(CanonicalPixel { x, y })
    }
}

/// The options this module recognizes: none — the dimensions come from the
/// setup options.
pub fn opts() -> (r: Vec<Opt>)
    ensures
        r@.len() == 0,
{
    Vec::new()
}

/// Builds the geometry the parsed options ask for: always the bounded
/// mapping over the configured dimensions.
pub fn handle_opts(items: &Vec<GetoptItem>, common: &crate::CommonData) -> (r: Geometry)
    requires
        common.wf(),
    ensures
        r == (Geometry {
            ns_wrap: false,
            ew_wrap: false,
            dimx: common.dimx,
            dimy: common.dimy,
        }),
        r.wf(),
{
    let _ = items;
    Geometry::bounded(common.dimx, common.dimy)
}

} // verus!
