//! The image buffer and its PNM (P6) serialization.

use vstd::prelude::*;
use crate::color::{chan, color_wf, Color, CHAN_LIMIT, UNIT};

verus! {

/// A dense row-major image: `dimy` rows of `dimx` fixed-point colors.
#[derive(Debug, Clone, PartialEq)]
pub struct PnmData {
    pub dimx: u32,
    pub dimy: u32,
    /// The largest channel value the serialized form may carry.
    pub maxval: u32,
    /// Channels per pixel; only 3 (RGB) is serialized.
    pub depth: u32,
    pub comments: Vec<String>,
    pub rawdata: Vec<Color>,
}

impl PnmData {
    pub open spec fn wf(&self) -> bool {
        &&& self.rawdata@.len() == (self.dimy as int) * (self.dimx as int)
        &&& (self.dimy as int) * (self.dimx as int) <= usize::MAX
        &&& forall|i: int| 0 <= i < self.rawdata@.len() ==> color_wf(#[trigger] self.rawdata@[i])
    }

    pub open spec fn spec_index(&self, y: int, x: int) -> Color {
        self.rawdata@[y * (self.dimx as int) + x]
    }

    /// A fresh all-zero image.
    pub fn new_zero(dimx: u32, dimy: u32, maxval: u32) -> (r: PnmData)
        requires
            (dimy as int) * (dimx as int) <= usize::MAX,
        ensures
            r.wf(),
            r.dimx == dimx,
            r.dimy == dimy,
            r.maxval == maxval,
            r.depth == 3,
            r.rawdata@.len() == (dimy as int) * (dimx as int),
            forall|i: int|
                0 <= i < r.rawdata@.len() ==> #[trigger] r.rawdata@[i] == (Color {
                    r: 0,
                    g: 0,
                    b: 0,
                    pad: 0,
                }),
    {
        proof {
            assert(0 <= (dimy as int) * (dimx as int)) by (nonlinear_arith)
                requires dimy >= 0, dimx >= 0;
        }
        let count = (dimy as usize) * (dimx as usize);
        let zero = Color { r: 0, g: 0, b: 0, pad: 0 };
        let rawdata: Vec<Color> = vec![zero; count];
        let r = PnmData { dimx, dimy, maxval, depth: 3, comments: Vec::new(), rawdata };
        proof {
            assert forall|i: int| 0 <= i < r.rawdata@.len() implies color_wf(
                #[trigger] r.rawdata@[i],
            ) by {
                assert(r.rawdata@[i] == zero);
            }
        }
        r
    }

    proof fn lemma_cell_in_bounds(&self, y: int, x: int)
        requires
            self.wf(),
            0 <= y < self.dimy,
            0 <= x < self.dimx,
        ensures
            0 <= y * (self.dimx as int) + x < self.rawdata@.len(),
    {
        assert(y * (self.dimx as int) + x < (self.dimy as int) * (self.dimx as int))
            by (nonlinear_arith)
            requires 0 <= y < self.dimy as int, 0 <= x < self.dimx as int;
        assert(0 <= y * (self.dimx as int)) by (nonlinear_arith)
            requires 0 <= y, 0 <= self.dimx as int;
    }

    /// The color at `(row y, column x)`.
    pub fn get(&self, y: usize, x: usize) -> (r: Color)
        requires
            self.wf(),
            y < self.dimy,
            x < self.dimx,
        ensures
            r == self.spec_index(y as int, x as int),
    {
        proof {
            self.lemma_cell_in_bounds(y as int, x as int);
            assert(y * (self.dimx as usize) + x <= (self.dimy as usize - 1) * (
            self.dimx as usize) + x) by (nonlinear_arith)
                requires 0 <= y <= self.dimy as usize - 1, 0 <= self.dimx as usize;
        }
        self.rawdata[y * (self.dimx as usize) + x]
    }

    /// Writes the color at `(row y, column x)`; reading it back yields
    /// exactly the color written, and no other cell moves.
    pub fn set(&mut self, y: usize, x: usize, c: Color)
        requires
            old(self).wf(),
            y < old(self).dimy,
            x < old(self).dimx,
            color_wf(c),
        ensures
            final(self).wf(),
            final(self).dimx == old(self).dimx,
            final(self).dimy == old(self).dimy,
            final(self).maxval == old(self).maxval,
            final(self).depth == old(self).depth,
            final(self).rawdata@ == old(self).rawdata@.update(
                y * (old(self).dimx as int) + x,
                c,
            ),
            final(self).spec_index(y as int, x as int) == c,
            forall|yy: int, xx: int|
                0 <= yy < old(self).dimy && 0 <= xx < old(self).dimx && !(yy == y && xx == x)
                    ==> final(self).spec_index(yy, xx) == old(self).spec_index(yy, xx),
    {
        proof {
            self.lemma_cell_in_bounds(y as int, x as int);
            assert(y * (self.dimx as usize) + x <= (self.dimy as usize - 1) * (
            self.dimx as usize) + x) by (nonlinear_arith)
                requires 0 <= y <= self.dimy as usize - 1, 0 <= self.dimx as usize;
        }
        let idx = y * (self.dimx as usize) + x;
        self.rawdata[idx] = c;
        proof {
            let d = self.dimx as int;
            assert forall|yy: int, xx: int|
                0 <= yy < self.dimy && 0 <= xx < self.dimx && !(yy == y && xx == x)
                    implies final(self).spec_index(yy, xx) == old(self).spec_index(yy, xx) by {
                old(self).lemma_cell_in_bounds(yy, xx);
                if yy * d + xx == y * d + x {
                    if yy != y {
                        assert(false) by (nonlinear_arith)
                            requires
                                yy * d + xx == (y as int) * d + (x as int),
                                0 <= xx < d,
                                0 <= (x as int) < d,
                                yy != (y as int),
                        ;
                    }
                }
            }
        }
    }
}

/// The decimal digits of `n`, as ASCII bytes.
pub open spec fn dec_digits(n: int) -> Seq<u8>
    decreases n,
{
    if n < 10 {
        seq![(48 + if n >= 0 {
            n
        } else {
            0
        }) as u8]
    } else {
        dec_digits(n / 10).push((48 + n % 10) as u8)
    }
}

/// The decimal digits of a number, as ASCII bytes.
pub fn u32_to_dec(n: u32) -> (r: Vec<u8>)
    ensures
        r@ == dec_digits(n as int),
        r@.len() >= 1,
    decreases n,
{
    if n < 10 {
        let mut v: Vec<u8> = Vec::new();
        v.push(48 + (n as u8));
        proof {
            assert(v@ =~= dec_digits(n as int));
        }
        v
    } else {
        let mut v = u32_to_dec(n / 10);
        v.push(48 + ((n % 10) as u8));
        v
    }
}

/// One serialized channel: scaled by `maxval`, truncated, and clamped to
/// `[0, maxval]`.
pub open spec fn px_byte(ch: int, maxval: int) -> u8 {
    let scaled = (ch * maxval) / (UNIT as int);
    if scaled < 0 {
        0u8
    } else if scaled > maxval {
        (maxval % 256) as u8
    } else {
        (scaled % 256) as u8
    }
}

/// The three serialized bytes of one pixel.
pub open spec fn px_bytes(c: Color, maxval: int) -> Seq<u8> {
    seq![px_byte(c.r as int, maxval), px_byte(c.g as int, maxval), px_byte(c.b as int, maxval)]
}

/// The serialized bytes of the first `n` pixels.
pub open spec fn pixels_bytes(data: Seq<Color>, maxval: int, n: int) -> Seq<u8>
    decreases n,
{
    if n <= 0 {
        Seq::empty()
    } else {
        pixels_bytes(data, maxval, n - 1) + px_bytes(data[n - 1], maxval)
    }
}

/// The whole PNM (P6) stream: `P6\n<dimx> <dimy>\n<maxval>\n` then the raw
/// RGB triplets.
pub open spec fn pnm_bytes(p: PnmData) -> Seq<u8> {
    seq![80u8, 54u8, 10u8] + dec_digits(p.dimx as int) + seq![32u8] + dec_digits(p.dimy as int)
        + seq![10u8] + dec_digits(p.maxval as int) + seq![10u8] + pixels_bytes(
        p.rawdata@,
        p.maxval as int,
        p.rawdata@.len() as int,
    )
}

impl PnmData {
    /// Serializes one channel.
    fn channel_byte(ch: i64, maxval: u32) -> (r: u8)
        requires
            -CHAN_LIMIT <= ch <= CHAN_LIMIT,
            maxval <= 255,
        ensures
            r == px_byte(ch as int, maxval as int),
    {
        proof {
            assert(-CHAN_LIMIT * 255 <= ch * (maxval as i64) <= CHAN_LIMIT * 255)
                by (nonlinear_arith)
                requires -CHAN_LIMIT <= ch <= CHAN_LIMIT, 0 <= maxval <= 255;
        }
        let prod: i64 = ch * (maxval as i64);
        let scaled: i64 = prod / UNIT;
        if scaled < 0 {
            0u8
        } else if scaled > maxval as i64 {
            (maxval % 256) as u8
        } else {
            (scaled % 256) as u8
        }
    }

    /// The image as one PNM (P6) byte stream.
    pub fn to_bytes(&self) -> (r: Vec<u8>)
        requires
            self.wf(),
            self.maxval <= 255,
            self.depth == 3,
        ensures
            r@ == pnm_bytes(*self),
    {
        let mut out: Vec<u8> = Vec::new();
        out.push(80u8);
        out.push(54u8);
        out.push(10u8);
        let mut dx = u32_to_dec(self.dimx);
        out.append(&mut dx);
        out.push(32u8);
        let mut dy = u32_to_dec(self.dimy);
        out.append(&mut dy);
        out.push(10u8);
        let mut mv = u32_to_dec(self.maxval);
        out.append(&mut mv);
        out.push(10u8);
        let ghost header = out@;
        proof {
            assert(header =~= seq![80u8, 54u8, 10u8] + dec_digits(self.dimx as int) + seq![32u8]
                + dec_digits(self.dimy as int) + seq![10u8] + dec_digits(self.maxval as int)
                + seq![10u8]);
        }
        let mut i: usize = 0;
        while i < self.rawdata.len()
            invariant
                i <= self.rawdata@.len(),
                self.wf(),
                self.maxval <= 255,
                out@ == header + pixels_bytes(self.rawdata@, self.maxval as int, i as int),
            decreases self.rawdata@.len() - i,
        {
            let c = self.rawdata[i];
            proof {
                assert(color_wf(c));
                assert(chan(c, 0) == c.r as int && chan(c, 1) == c.g as int && chan(c, 2)
                    == c.b as int);
            }
            let ghost before = out@;
            out.push(Self::channel_byte(c.r, self.maxval));
            out.push(Self::channel_byte(c.g, self.maxval));
            out.push(Self::channel_byte(c.b, self.maxval));
            proof {
                assert(out@ =~= before + px_bytes(c, self.maxval as int));
                assert(out@ =~= header + pixels_bytes(
                    self.rawdata@,
                    self.maxval as int,
                    i as int + 1,
                ));
            }
            i += 1;
        }
        proof {
            assert(out@ =~= pnm_bytes(*self));
        }
        out
    }
}

} // verus!
