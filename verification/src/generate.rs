//! The generator: its configuration, the neighbor stencils, and the
//! seed-and-grow placement engine.

use vstd::prelude::*;

use crate::color::{
    all_digits, chan, color_wf, digits_val, parse_fixed_spec, Color, ColorModel, CHAN_LIMIT, UNIT,
};
use crate::getopt::{GetoptItem, HasArgument, ItemGhost, Opt, OptGhost};
use crate::pnmdata::PnmData;
use crate::bitmap::{count_all, lemma_count_rows_prefix_bound, lemma_count_update, BitMap};
use crate::rng::{choose_distinct, rng_below, shuffle_vec};
use crate::CommonLockedData;

verus! {

broadcast use vstd::seq_lib::lemma_seq_contains_after_push;

/// A pixel location; negative coordinates may appear before geometry
/// canonicalization.
#[derive(Debug, Clone, Copy, PartialEq, Eq, Structural, Hash)]
pub struct Pixel {
    pub x: i32,
    pub y: i32,
}

/// Carried alongside the generator as it runs; at present it holds
/// nothing.
#[derive(Debug, Clone, PartialEq, Eq, Structural)]
pub struct GeneratorData {}

/// A neighbor stencil entry.
#[derive(Debug, Clone, Copy, PartialEq, Eq, Structural, Hash)]
pub struct Offset {
    pub dx: i32,
    pub dy: i32,
}

impl Pixel {
    /// The pixel displaced by the offset, computed without wrap-around.
    pub fn add(self, rhs: Offset) -> (r: Pixel)
        requires
            -2147483648 <= self.x + rhs.dx <= 2147483647,
            -2147483648 <= self.y + rhs.dy <= 2147483647,
        ensures
            r.x == self.x + rhs.dx,
            r.y == self.y + rhs.dy,
    {
        Pixel { x: self.x + rhs.dx, y: self.y + rhs.dy }
    }
}

/// The default 8-neighborhood.
pub open spec fn normal_offsets_ghost() -> Seq<Offset> {
    seq![
        Offset { dx: -1i32, dy: -1i32 },
        Offset { dx: -1i32, dy: 0i32 },
        Offset { dx: -1i32, dy: 1i32 },
        Offset { dx: 0i32, dy: -1i32 },
        Offset { dx: 0i32, dy: 1i32 },
        Offset { dx: 1i32, dy: -1i32 },
        Offset { dx: 1i32, dy: 0i32 },
        Offset { dx: 1i32, dy: 1i32 },
    ]
}

pub open spec fn orthogonal_offsets_ghost() -> Seq<Offset> {
    seq![
        Offset { dx: -1i32, dy: 0i32 },
        Offset { dx: 0i32, dy: -1i32 },
        Offset { dx: 0i32, dy: 1i32 },
        Offset { dx: 1i32, dy: 0i32 },
    ]
}

pub open spec fn diagonal_offsets_ghost() -> Seq<Offset> {
    seq![
        Offset { dx: -1i32, dy: -1i32 },
        Offset { dx: -1i32, dy: 1i32 },
        Offset { dx: 1i32, dy: -1i32 },
        Offset { dx: 1i32, dy: 1i32 },
    ]
}

pub open spec fn knight_offsets_ghost() -> Seq<Offset> {
    seq![
        Offset { dx: -2i32, dy: -1i32 },
        Offset { dx: -1i32, dy: -2i32 },
        Offset { dx: -2i32, dy: 1i32 },
        Offset { dx: -1i32, dy: 2i32 },
        Offset { dx: 2i32, dy: -1i32 },
        Offset { dx: 1i32, dy: -2i32 },
        Offset { dx: 2i32, dy: 1i32 },
        Offset { dx: 1i32, dy: 2i32 },
    ]
}

pub fn normal_offsets() -> (r: Vec<Offset>)
    ensures
        r@ == normal_offsets_ghost(),
{
    let mut v: Vec<Offset> = Vec::new();
    v.push(Offset { dx: -1, dy: -1 });
    v.push(Offset { dx: -1, dy: 0 });
    v.push(Offset { dx: -1, dy: 1 });
    v.push(Offset { dx: 0, dy: -1 });
    v.push(Offset { dx: 0, dy: 1 });
    v.push(Offset { dx: 1, dy: -1 });
    v.push(Offset { dx: 1, dy: 0 });
    v.push(Offset { dx: 1, dy: 1 });
    proof {
        assert(v@ =~= normal_offsets_ghost());
    }
    v
}

pub fn orthogonal_offsets() -> (r: Vec<Offset>)
    ensures
        r@ == orthogonal_offsets_ghost(),
{
    let mut v: Vec<Offset> = Vec::new();
    v.push(Offset { dx: -1, dy: 0 });
    v.push(Offset { dx: 0, dy: -1 });
    v.push(Offset { dx: 0, dy: 1 });
    v.push(Offset { dx: 1, dy: 0 });
    proof {
        assert(v@ =~= orthogonal_offsets_ghost());
    }
    v
}

pub fn diagonal_offsets() -> (r: Vec<Offset>)
    ensures
        r@ == diagonal_offsets_ghost(),
{
    let mut v: Vec<Offset> = Vec::new();
    v.push(Offset { dx: -1, dy: -1 });
    v.push(Offset { dx: -1, dy: 1 });
    v.push(Offset { dx: 1, dy: -1 });
    v.push(Offset { dx: 1, dy: 1 });
    proof {
        assert(v@ =~= diagonal_offsets_ghost());
    }
    v
}

pub fn knight_offsets() -> (r: Vec<Offset>)
    ensures
        r@ == knight_offsets_ghost(),
{
    let mut v: Vec<Offset> = Vec::new();
    v.push(Offset { dx: -2, dy: -1 });
    v.push(Offset { dx: -1, dy: -2 });
    v.push(Offset { dx: -2, dy: 1 });
    v.push(Offset { dx: -1, dy: 2 });
    v.push(Offset { dx: 2, dy: -1 });
    v.push(Offset { dx: 1, dy: -2 });
    v.push(Offset { dx: 2, dy: 1 });
    v.push(Offset { dx: 1, dy: 2 });
    proof {
        assert(v@ =~= knight_offsets_ghost());
    }
    v
}

/// A signed whole number for an offset coordinate.
pub open spec fn parse_i32_spec(s: Seq<char>) -> Option<int> {
    let neg = s.len() > 0 && s[0] == '-';
    let t = if neg {
        s.drop_first()
    } else {
        s
    };
    if t.len() == 0 || !all_digits(t) {
        None
    } else {
        let v = digits_val(t, t.len() as int);
        if neg {
            if -v < -2147483648 {
                None
            } else {
                Some(-v)
            }
        } else {
            if v > 2147483647 {
                None
            } else {
                Some(v)
            }
        }
    }
}

/// A literal `dx,dy` offset.
pub open spec fn parse_offset_spec(s: Seq<char>) -> Option<Offset> {
    match crate::getopt::first_eq(s, ',') {
        None => None,
        Some(i) => match (parse_i32_spec(s.take(i)), parse_i32_spec(s.skip(i + 1))) {
            (Some(dx), Some(dy)) => Some(Offset { dx: dx as i32, dy: dy as i32 }),
            _ => None,
        },
    }
}

fn parse_i32(cs: &Vec<char>) -> (r: Option<i32>)
    ensures
        match r {
            Some(v) => parse_i32_spec(cs@) == Some(v as int),
            None => parse_i32_spec(cs@) is None,
        },
{
    let n = cs.len();
    let neg = n > 0 && cs[0] == '-';
    let start: usize = if neg {
        1
    } else {
        0
    };
    let ghost t = if neg {
        cs@.drop_first()
    } else {
        cs@
    };
    proof {
        assert(t =~= cs@.skip(start as int));
    }
    if start == n {
        return None;
    }
    let mut j = start;
    let mut val: u64 = 0;
    let mut sat = false;
    while j < n
        invariant
            start <= j <= n,
            n == cs@.len(),
            neg == (cs@.len() > 0 && cs@[0] == '-'),
            start == if neg {
                1int
            } else {
                0int
            },
            t == cs@.skip(start as int),
            t == (if neg {
                cs@.drop_first()
            } else {
                cs@
            }),
            forall|q: int| start <= q < j ==> crate::color::is_digit(#[trigger] cs@[q]),
            !sat ==> val == digits_val(t, j - start) && val <= 2147483648,
            sat ==> digits_val(t, j - start) > 2147483648,
        decreases n - j,
    {
        let c = cs[j];
        if !('0' <= c && c <= '9') {
            proof {
                assert(t[j - start] == cs@[j as int]);
                assert(!all_digits(t));
            }
            return None;
        }
        let d: u64 = (c as u64) - 48;
        proof {
            assert(t[j - start] == cs@[j as int]);
            assert(digits_val(t, j - start + 1) == digits_val(t, j - start) * 10
                + crate::color::digit_val(t[j - start]));
            if sat {
                assert forall|q: int| 0 <= q < j - start + 1 implies crate::color::is_digit(
                    #[trigger] t[q],
                ) by {
                    assert(t[q] == cs@[start + q]);
                }
                crate::color::lemma_digits_val_mono_pub(t, j - start, j - start + 1);
            }
        }
        if sat {
        } else if val * 10 + d > 2147483648 {
            sat = true;
        } else {
            val = val * 10 + d;
        }
        j += 1;
    }
    proof {
        assert(all_digits(t)) by {
            assert forall|z: int| 0 <= z < t.len() implies crate::color::is_digit(
                #[trigger] t[z],
            ) by {
                assert(t[z] == cs@[start + z]);
            }
        }
    }
    if sat {
        return None;
    }
    if neg {
        if val > 2147483648 {
            None
        } else if val == 2147483648 {
            Some(-2147483648i32)
        } else {
            Some(-((val as i64) as i32))
        }
    } else {
        if val > 2147483647 {
            None
        } else {
            Some(val as i32)
        }
    }
}

fn parse_offset(s: &str) -> (r: Option<Offset>)
    ensures
        r == parse_offset_spec(s@),
{
    let cs = crate::getopt::chars_of(s);
    match crate::getopt::first_eq_exec(&cs, ',') {
        None => None,
        Some(i) => {
            let clen = cs.len();
            let a = crate::getopt::subvec(&cs, 0, i);
            let b = crate::getopt::subvec(&cs, i + 1, clen);
            proof {
                assert(a@ =~= cs@.take(i as int));
                assert(b@ =~= cs@.skip(i as int + 1));
            }
            match (parse_i32(&a), parse_i32(&b)) {
                (Some(dx), Some(dy)) => Some(Offset { dx, dy }),
                _ => None,
            }
        },
    }
}

/// The squared-distance fitness over the three color lanes; lower is better.
pub open spec fn sq(x: int) -> int {
    x * x
}

pub open spec fn spec_fitness(a: Color, b: Color) -> int {
    sq(chan(a, 0) - chan(b, 0)) + sq(chan(a, 1) - chan(b, 1)) + sq(chan(a, 2) - chan(b, 2))
}

/// The scalar distance between an existing color and a candidate.
pub fn fitness(a: &Color, b: &Color) -> (r: i64)
    requires
        color_wf(*a),
        color_wf(*b),
    ensures
        r == spec_fitness(*a, *b),
        r >= 0,
{
    proof {
        assert(chan(*a, 0) == a.r as int && chan(*a, 1) == a.g as int && chan(*a, 2) == a.b as int);
        assert(chan(*b, 0) == b.r as int && chan(*b, 1) == b.g as int && chan(*b, 2) == b.b as int);
    }
    let dr: i64 = a.r - b.r;
    let dg: i64 = a.g - b.g;
    let db: i64 = a.b - b.b;
    proof {
        assert(dr * dr <= 4 * CHAN_LIMIT * CHAN_LIMIT && dr * dr >= 0) by (nonlinear_arith)
            requires -2 * CHAN_LIMIT <= dr <= 2 * CHAN_LIMIT;
        assert(dg * dg <= 4 * CHAN_LIMIT * CHAN_LIMIT && dg * dg >= 0) by (nonlinear_arith)
            requires -2 * CHAN_LIMIT <= dg <= 2 * CHAN_LIMIT;
        assert(db * db <= 4 * CHAN_LIMIT * CHAN_LIMIT && db * db >= 0) by (nonlinear_arith)
            requires -2 * CHAN_LIMIT <= db <= 2 * CHAN_LIMIT;
    }
    dr * dr + dg * dg + db * db
}

/// True iff a candidate with fitness `f` may be selected under the optional
/// cap: values strictly above the threshold are rejected.
pub open spec fn admissible(f: int, maxfit: Option<int>) -> bool {
    match maxfit {
        Some(m) => f <= m,
        None => true,
    }
}

/// One frontier pixel offered against the current best: a strictly better
/// admissible fitness replaces it; an equal one does not.
pub open spec fn better_step(
    cur: Option<(Pixel, int)>,
    p: Pixel,
    f: int,
    maxfit: Option<int>,
) -> Option<(Pixel, int)> {
    if !admissible(f, maxfit) {
        cur
    } else {
        match cur {
            None => Some((p, f)),
            Some((q, g)) => if f < g {
                Some((p, f))
            } else {
                cur
            },
        }
    }
}

/// The best anchor for a candidate color over frontier positions
/// `lo..hi`, scanned left to right: the first pixel attaining the minimal
/// admissible fitness.
pub open spec fn best_anchor(
    image: PnmData,
    edges: Seq<Pixel>,
    cand: Color,
    maxfit: Option<int>,
    lo: int,
    hi: int,
) -> Option<(Pixel, int)>
    decreases hi - lo,
{
    if hi <= lo {
        None
    } else {
        let p = edges[hi - 1];
        better_step(
            best_anchor(image, edges, cand, maxfit, lo, hi - 1),
            p,
            spec_fitness(image.spec_index(p.y as int, p.x as int), cand),
            maxfit,
        )
    }
}

/// The supervisor's elementwise reduction of two partial bests: the earlier
/// chunk wins ties.
pub open spec fn combine_best(a: Option<(Pixel, int)>, b: Option<(Pixel, int)>) -> Option<
    (Pixel, int),
> {
    match b {
        None => a,
        Some((p, f)) => match a {
            None => b,
            Some((q, g)) => if f < g {
                b
            } else {
                a
            },
        },
    }
}

/// Reducing the bests of two adjacent frontier chunks gives exactly the
/// single-threaded best over their union: the worker split cannot change
/// the selection.
pub proof fn lemma_best_split(
    image: PnmData,
    edges: Seq<Pixel>,
    cand: Color,
    maxfit: Option<int>,
    lo: int,
    mid: int,
    hi: int,
)
    requires
        lo <= mid <= hi,
    ensures
        best_anchor(image, edges, cand, maxfit, lo, hi) == combine_best(
            best_anchor(image, edges, cand, maxfit, lo, mid),
            best_anchor(image, edges, cand, maxfit, mid, hi),
        ),
    decreases hi - mid,
{
    if mid < hi {
        lemma_best_split(image, edges, cand, maxfit, lo, mid, hi - 1);
    }
}

/// A selected best anchor always names one of the scanned frontier pixels,
/// with its own fitness, under the cap.
pub proof fn lemma_best_anchor_member(
    image: PnmData,
    edges: Seq<Pixel>,
    cand: Color,
    maxfit: Option<int>,
    lo: int,
    hi: int,
)
    ensures
        best_anchor(image, edges, cand, maxfit, lo, hi) matches Some((p, f)) ==> exists|i: int|
            lo <= i < hi && #[trigger] edges[i] == p && f == spec_fitness(
                image.spec_index(p.y as int, p.x as int),
                cand,
            ) && admissible(f, maxfit),
    decreases hi - lo,
{
    if hi > lo {
        lemma_best_anchor_member(image, edges, cand, maxfit, lo, hi - 1);
        let prev = best_anchor(image, edges, cand, maxfit, lo, hi - 1);
        let cur = best_anchor(image, edges, cand, maxfit, lo, hi);
        if cur != prev {
            assert(edges[hi - 1] == edges[hi - 1]);
        }
    }
}

pub open spec fn best_view(o: Option<(Pixel, i64)>) -> Option<(Pixel, int)> {
    match o {
        None => None,
        Some((p, f)) => Some((p, f as int)),
    }
}

pub open spec fn mf_view(m: Option<i64>) -> Option<int> {
    match m {
        None => None,
        Some(v) => Some(v as int),
    }
}

/// The per-candidate best anchors over frontier positions `lo..hi`,
/// exactly as the specification's left-to-right scan selects them.
pub fn best_places_for_range(
    image: &PnmData,
    edges: &Vec<Pixel>,
    colors: &Vec<Color>,
    lo: usize,
    hi: usize,
    maxfitness: Option<i64>,
) -> (r: Vec<Option<(Pixel, i64)>>)
    requires
        image.wf(),
        lo <= hi <= edges@.len(),
        forall|i: int|
            lo <= i < hi ==> {
                let e = #[trigger] edges@[i];
                0 <= e.y < image.dimy && 0 <= e.x < image.dimx
            },
        forall|j: int| 0 <= j < colors@.len() ==> color_wf(#[trigger] colors@[j]),
    ensures
        r@.len() == colors@.len(),
        forall|j: int|
            0 <= j < colors@.len() ==> best_view(#[trigger] r@[j]) == best_anchor(
                *image,
                edges@,
                colors@[j],
                mf_view(maxfitness),
                lo as int,
                hi as int,
            ),
{
    let ghost mf = mf_view(maxfitness);
    let mut best: Vec<Option<(Pixel, i64)>> = Vec::new();
    let mut j0: usize = 0;
    while j0 < colors.len()
        invariant
            j0 <= colors@.len(),
            best@.len() == j0,
            forall|j: int| 0 <= j < j0 ==> #[trigger] best@[j] is None,
        decreases colors@.len() - j0,
    {
        best.push(None);
        j0 += 1;
    }
    let mut e = lo;
    while e < hi
        invariant
            lo <= e <= hi <= edges@.len(),
            image.wf(),
            mf == mf_view(maxfitness),
            best@.len() == colors@.len(),
            forall|i: int|
                lo <= i < hi ==> {
                    let ed = #[trigger] edges@[i];
                    0 <= ed.y < image.dimy && 0 <= ed.x < image.dimx
                },
            forall|j: int| 0 <= j < colors@.len() ==> color_wf(#[trigger] colors@[j]),
            forall|j: int|
                0 <= j < colors@.len() ==> best_view(#[trigger] best@[j]) == best_anchor(
                    *image,
                    edges@,
                    colors@[j],
                    mf,
                    lo as int,
                    e as int,
                ),
        decreases hi - e,
    {
        let p = edges[e];
        let pc = image.get(p.y as usize, p.x as usize);
        proof {
            assert(0 <= (p.y as int) * (image.dimx as int) + (p.x as int)
                < image.rawdata@.len()) by (nonlinear_arith)
                requires
                    0 <= (p.y as int) < (image.dimy as int),
                    0 <= (p.x as int) < (image.dimx as int),
                    image.rawdata@.len() == (image.dimy as int) * (image.dimx as int),
            ;
            assert(color_wf(pc));
        }
        let mut j: usize = 0;
        while j < colors.len()
            invariant
                j <= colors@.len(),
                lo <= e < hi <= edges@.len(),
                image.wf(),
                mf == mf_view(maxfitness),
                best@.len() == colors@.len(),
                p == edges@[e as int],
                0 <= p.y < image.dimy && 0 <= p.x < image.dimx,
                pc == image.spec_index(p.y as int, p.x as int),
                color_wf(pc),
                forall|j2: int| 0 <= j2 < colors@.len() ==> color_wf(#[trigger] colors@[j2]),
                forall|j2: int|
                    0 <= j2 < j ==> best_view(#[trigger] best@[j2]) == best_anchor(
                        *image,
                        edges@,
                        colors@[j2],
                        mf,
                        lo as int,
                        e as int + 1,
                    ),
                forall|j2: int|
                    j <= j2 < colors@.len() ==> best_view(#[trigger] best@[j2]) == best_anchor(
                        *image,
                        edges@,
                        colors@[j2],
                        mf,
                        lo as int,
                        e as int,
                    ),
            decreases colors@.len() - j,
        {
            let f = fitness(&pc, &colors[j]);
            let adm = match maxfitness {
                Some(m) => f <= m,
                None => true,
            };
            if adm {
                let replace = match best[j] {
                    Some((_, g)) => f < g,
                    None => true,
                };
                if replace {
                    best[j] = Some((p, f));
                }
            }
            j += 1;
        }
        e += 1;
    }
    best
}

/// Reduces one worker's partial bests into the supervisor's accumulator,
/// elementwise.
pub fn reduce_best(acc: &mut Vec<Option<(Pixel, i64)>>, worker: &Vec<Option<(Pixel, i64)>>)
    requires
        old(acc)@.len() == worker@.len(),
    ensures
        final(acc)@.len() == old(acc)@.len(),
        forall|j: int|
            0 <= j < worker@.len() ==> best_view(#[trigger] final(acc)@[j]) == combine_best(
                best_view(old(acc)@[j]),
                best_view(worker@[j]),
            ),
{
    let mut j: usize = 0;
    while j < worker.len()
        invariant
            j <= worker@.len(),
            acc@.len() == old(acc)@.len() == worker@.len(),
            forall|j2: int|
                0 <= j2 < j ==> best_view(#[trigger] acc@[j2]) == combine_best(
                    best_view(old(acc)@[j2]),
                    best_view(worker@[j2]),
                ),
            forall|j2: int| j <= j2 < worker@.len() ==> #[trigger] acc@[j2] == old(acc)@[j2],
        decreases worker@.len() - j,
    {
        let w = worker[j];
        match w {
            None => {},
            Some((p, f)) => {
                let take = match acc[j] {
                    None => true,
                    Some((_, g)) => f < g,
                };
                if take {
                    acc[j] = Some((p, f));
                }
            },
        }
        j += 1;
    }
}

/// The per-candidate best anchors over the whole frontier. With more than
/// one worker the frontier is split into near-equal chunks, each scanned
/// apart and the partial results reduced; the outcome is provably the
/// single-threaded selection.
pub fn select_best(
    image: &PnmData,
    edges: &Vec<Pixel>,
    colors: &Vec<Color>,
    workers: usize,
    maxfitness: Option<i64>,
) -> (r: Vec<Option<(Pixel, i64)>>)
    requires
        image.wf(),
        workers >= 1,
        forall|i: int|
            0 <= i < edges@.len() ==> {
                let e = #[trigger] edges@[i];
                0 <= e.y < image.dimy && 0 <= e.x < image.dimx
            },
        forall|j: int| 0 <= j < colors@.len() ==> color_wf(#[trigger] colors@[j]),
    ensures
        r@.len() == colors@.len(),
        forall|j: int|
            0 <= j < colors@.len() ==> best_view(#[trigger] r@[j]) == best_anchor(
                *image,
                edges@,
                colors@[j],
                mf_view(maxfitness),
                0,
                edges@.len() as int,
            ),
{
    let n = edges.len();
    if workers == 1 {
        return best_places_for_range(image, edges, colors, 0, n, maxfitness);
    }
    let ghost mf = mf_view(maxfitness);
    let mut acc = best_places_for_range(image, edges, colors, 0, 0, maxfitness);
    let step = n / workers;
    let mut w: usize = 0;
    let mut lo: usize = 0;
    while w < workers
        invariant
            w <= workers,
            workers >= 1,
            n == edges@.len(),
            step == n / workers,
            mf == mf_view(maxfitness),
            image.wf(),
            forall|i: int|
                0 <= i < edges@.len() ==> {
                    let e = #[trigger] edges@[i];
                    0 <= e.y < image.dimy && 0 <= e.x < image.dimx
                },
            forall|j: int| 0 <= j < colors@.len() ==> color_wf(#[trigger] colors@[j]),
            acc@.len() == colors@.len(),
            w < workers ==> lo == w * step,
            w == workers ==> lo == n,
            lo <= n,
            forall|j: int|
                0 <= j < colors@.len() ==> best_view(#[trigger] acc@[j]) == best_anchor(
                    *image,
                    edges@,
                    colors@[j],
                    mf,
                    0,
                    lo as int,
                ),
        decreases workers - w,
    {
        let hi: usize = if w == workers - 1 {
            n
        } else {
            proof {
                assert((w + 1) * step <= workers * step) by (nonlinear_arith)
                    requires 0 <= w + 1 <= workers, 0 <= step;
                assert(workers * step <= n) by (nonlinear_arith)
                    requires step == n / workers, workers >= 1, n >= 0;
                assert(lo + step == (w + 1) * step) by (nonlinear_arith)
                    requires lo == w * step;
            }
            lo + step
        };
        proof {
            assert(lo <= hi) by {
                if w == workers - 1 {
                    assert(w * step <= workers * step) by (nonlinear_arith)
                        requires 0 <= w <= workers, 0 <= step;
                    assert(workers * step <= n) by (nonlinear_arith)
                        requires step == n / workers, workers >= 1, n >= 0;
                }
            }
        }
        let chunk = best_places_for_range(image, edges, colors, lo, hi, maxfitness);
        let ghost acc_pre = acc@;
        reduce_best(&mut acc, &chunk);
        proof {
            assert forall|j: int| 0 <= j < colors@.len() implies best_view(#[trigger] acc@[j])
                == best_anchor(*image, edges@, colors@[j], mf, 0, hi as int) by {
                lemma_best_split(*image, edges@, colors@[j], mf, 0, lo as int, hi as int);
            }
        }
        lo = hi;
        w += 1;
    }
    acc
}

/// The in-bounds test and target of one neighbor visit.
pub open spec fn neighbor_open(
    mask: Seq<Seq<bool>>,
    dimy: int,
    dimx: int,
    p: Pixel,
    o: Offset,
) -> bool {
    let y = p.y + o.dy;
    let x = p.x + o.dx;
    0 <= y < dimy && 0 <= x < dimx && !mask[y][x]
}

/// The first offset, in stencil order, whose target is an in-bounds
/// unplaced cell.
pub open spec fn first_open_neighbor(
    mask: Seq<Seq<bool>>,
    dimy: int,
    dimx: int,
    p: Pixel,
    offsets: Seq<Offset>,
) -> Option<Pixel>
    decreases offsets.len(),
{
    if offsets.len() == 0 {
        None
    } else if neighbor_open(mask, dimy, dimx, p, offsets[0]) {
        Some(Pixel { x: (p.x + offsets[0].dx) as i32, y: (p.y + offsets[0].dy) as i32 })
    } else {
        first_open_neighbor(mask, dimy, dimx, p, offsets.drop_first())
    }
}

/// Some stencil offset carries `p` onto `(y, x)`.
pub open spec fn reaches(p: Pixel, offsets: Seq<Offset>, y: int, x: int) -> bool {
    exists|oi: int|
        0 <= oi < offsets.len() && p.y + (#[trigger] offsets[oi]).dy == y && p.x + offsets[oi].dx
            == x
}

/// Some member of the frontier reaches `(y, x)` through the stencil.
pub open spec fn grown_from(edges: Seq<Pixel>, offsets: Seq<Offset>, y: int, x: int) -> bool {
    exists|i: int| 0 <= i < edges.len() && reaches(#[trigger] edges[i], offsets, y, x)
}

/// A found open neighbor is reachable from its anchor through the stencil.
pub proof fn lemma_first_open_reaches(
    mask: Seq<Seq<bool>>,
    dimy: int,
    dimx: int,
    p: Pixel,
    offsets: Seq<Offset>,
)
    requires
        dimy <= 0x7fffffff,
        dimx <= 0x7fffffff,
    ensures
        first_open_neighbor(mask, dimy, dimx, p, offsets) matches Some(loc) ==> reaches(
            p,
            offsets,
            loc.y as int,
            loc.x as int,
        ),
    decreases offsets.len(),
{
    if offsets.len() > 0 {
        if neighbor_open(mask, dimy, dimx, p, offsets[0]) {
            let loc = first_open_neighbor(mask, dimy, dimx, p, offsets)->0;
            assert(reaches(p, offsets, loc.y as int, loc.x as int)) by {
                assert(0 <= 0 < offsets.len() && p.y + offsets[0].dy == loc.y as int && p.x
                    + offsets[0].dx == loc.x as int);
            }
        } else {
            lemma_first_open_reaches(mask, dimy, dimx, p, offsets.drop_first());
            match first_open_neighbor(mask, dimy, dimx, p, offsets.drop_first()) {
                Some(loc) => {
                    let oi = choose|oi: int|
                        0 <= oi < offsets.drop_first().len() && p.y + (#[trigger] offsets.drop_first()[oi]).dy
                            == loc.y as int && p.x + offsets.drop_first()[oi].dx == loc.x as int;
                    assert(offsets.drop_first()[oi] == offsets[oi + 1]);
                    assert(reaches(p, offsets, loc.y as int, loc.x as int)) by {
                        assert(0 <= oi + 1 < offsets.len() && p.y + offsets[oi + 1].dy
                            == loc.y as int && p.x + offsets[oi + 1].dx == loc.x as int);
                    }
                },
                None => {},
            }
        }
    }
}

/// The frontier-growth effect of one candidate: its best anchor on the
/// selection snapshot, colored in at the first open neighbor of the
/// evolving mask. A candidate whose anchor has no open neighbor changes
/// nothing.
pub open spec fn place_cand(
    sel_image: PnmData,
    sel_edges: Seq<Pixel>,
    cur: (Seq<Color>, Seq<Seq<bool>>),
    dimy: int,
    dimx: int,
    cand: Color,
    maxfit: Option<int>,
    offsets: Seq<Offset>,
) -> (Seq<Color>, Seq<Seq<bool>>) {
    match best_anchor(sel_image, sel_edges, cand, maxfit, 0, sel_edges.len() as int) {
        None => cur,
        Some((p, f)) => match first_open_neighbor(cur.1, dimy, dimx, p, offsets) {
            None => cur,
            Some(loc) => (
                cur.0.update((loc.y as int) * dimx + loc.x as int, cand),
                cur.1.update(loc.y as int, cur.1[loc.y as int].update(loc.x as int, true)),
            ),
        },
    }
}

/// The image cells and mask after placing the first `n` candidates in order.
pub open spec fn place_all(
    sel_image: PnmData,
    sel_edges: Seq<Pixel>,
    cur: (Seq<Color>, Seq<Seq<bool>>),
    dimy: int,
    dimx: int,
    cands: Seq<Color>,
    maxfit: Option<int>,
    offsets: Seq<Offset>,
    n: int,
) -> (Seq<Color>, Seq<Seq<bool>>)
    decreases n,
{
    if n <= 0 {
        cur
    } else {
        place_cand(
            sel_image,
            sel_edges,
            place_all(sel_image, sel_edges, cur, dimy, dimx, cands, maxfit, offsets, n - 1),
            dimy,
            dimx,
            cands[n - 1],
            maxfit,
            offsets,
        )
    }
}

/// These candidates explain the step: each is a lawful sample of the model,
/// and folding their placements over the entry state yields exactly the
/// given cells and mask.
pub open spec fn cands_yield(
    sel_image: PnmData,
    sel_edges: Seq<Pixel>,
    start: (Seq<Color>, Seq<Seq<bool>>),
    dimy: int,
    dimx: int,
    model: ColorModel,
    colorcount: int,
    maxfit: Option<int>,
    offsets: Seq<Offset>,
    cands: Seq<Color>,
    cells: Seq<Color>,
    mask: Seq<Seq<bool>>,
) -> bool {
    &&& cands.len() == colorcount
    &&& (forall|j: int| 0 <= j < cands.len() ==> model.model_sample(Some(#[trigger] cands[j])))
    &&& place_all(
        sel_image,
        sel_edges,
        start,
        dimy,
        dimx,
        cands,
        maxfit,
        offsets,
        colorcount,
    ) == (cells, mask)
}

/// Some lawful draw of candidates explains the step's cells and mask.
pub open spec fn step_places(
    sel_image: PnmData,
    sel_edges: Seq<Pixel>,
    start: (Seq<Color>, Seq<Seq<bool>>),
    dimy: int,
    dimx: int,
    model: ColorModel,
    colorcount: int,
    maxfit: Option<int>,
    offsets: Seq<Offset>,
    cells: Seq<Color>,
    mask: Seq<Seq<bool>>,
) -> bool {
    exists|cands: Seq<Color>|
        #[trigger] cands_yield(
            sel_image,
            sel_edges,
            start,
            dimy,
            dimx,
            model,
            colorcount,
            maxfit,
            offsets,
            cands,
            cells,
            mask,
        )
}

/// One image write touches one cell: every other cell keeps its color.
proof fn lemma_image_frame(before: PnmData, after: PnmData, dimy: int, dimx: int, ly: int, lx: int, c: Color)
    requires
        before.wf(),
        before.dimy == dimy,
        before.dimx == dimx,
        1 <= dimy <= 32767,
        1 <= dimx <= 32767,
        0 <= ly < dimy,
        0 <= lx < dimx,
        after.dimx == before.dimx,
        after.dimy == before.dimy,
        after.rawdata@ == before.rawdata@.update(ly * dimx + lx, c),
    ensures
        forall|y: int, x: int|
            0 <= y < dimy && 0 <= x < dimx && !(y == ly && x == lx)
                ==> #[trigger] after.spec_index(y, x) == before.spec_index(y, x),
        after.spec_index(ly, lx) == c,
{
    assert(0 <= ly * dimx + lx < dimy * dimx) by (nonlinear_arith)
        requires 0 <= ly < dimy, 0 <= lx < dimx;
    assert forall|y: int, x: int|
        0 <= y < dimy && 0 <= x < dimx && !(y == ly && x == lx)
            implies #[trigger] after.spec_index(y, x) == before.spec_index(y, x) by {
        assert(0 <= y * dimx + x < dimy * dimx) by (nonlinear_arith)
            requires 0 <= y < dimy, 0 <= x < dimx;
        assert(y * dimx + x != ly * dimx + lx) by (nonlinear_arith)
            requires
                0 <= y,
                0 <= x < dimx,
                0 <= lx < dimx,
                0 <= ly,
                !(y == ly && x == lx),
        ;
    }
}

/// One mask write touches one bit: every other bit keeps its value.
proof fn lemma_mask_frame(before: Seq<Seq<bool>>, after: Seq<Seq<bool>>, ly: int, lx: int)
    requires
        0 <= ly < before.len(),
        0 <= lx < before[ly].len(),
        after == before.update(ly, before[ly].update(lx, true)),
    ensures
        after[ly][lx],
        forall|y: int, x: int|
            0 <= y < before.len() && 0 <= x < (#[trigger] before[y]).len() && !(y == ly && x
                == lx) ==> #[trigger] after[y][x] == before[y][x],
{
    assert forall|y: int, x: int|
        0 <= y < before.len() && 0 <= x < (#[trigger] before[y]).len() && !(y == ly && x == lx)
            implies #[trigger] after[y][x] == before[y][x] by {
        if y == ly {
            assert(after[y] == before[ly].update(lx, true));
        } else {
            assert(after[y] == before[y]);
        }
    }
}

/// Places `color` at the first unplaced neighbor of `pixel` in stencil
/// order: the cell is marked, colored, and joins the frontier. With no open
/// neighbor nothing changes.
pub fn place_pixel_inner(
    dimy: usize,
    dimx: usize,
    pixel: Pixel,
    color: Color,
    image: &mut PnmData,
    edges: &mut Vec<Pixel>,
    placed_pixels: &mut BitMap,
    offsets: &Vec<Offset>,
) -> (r: Result<Pixel, ()>)
    requires
        1 <= dimy <= 32767,
        1 <= dimx <= 32767,
        old(image).wf(),
        old(image).dimy == dimy,
        old(image).dimx == dimx,
        old(placed_pixels).wf(),
        old(placed_pixels).spec_height() == dimy,
        old(placed_pixels).spec_width() == dimx,
        color_wf(color),
        old(edges)@.no_duplicates(),
        forall|i: int|
            0 <= i < old(edges)@.len() ==> {
                let e = #[trigger] old(edges)@[i];
                0 <= e.y < dimy && 0 <= e.x < dimx && old(placed_pixels)@[e.y as int][e.x as int]
            },
    ensures
        final(image).wf() && final(image).dimy == dimy && final(image).dimx == dimx,
        final(placed_pixels).wf() && final(placed_pixels).spec_height() == dimy,
        final(placed_pixels).spec_width() == dimx,
        final(edges)@.no_duplicates(),
        forall|i: int|
            0 <= i < final(edges)@.len() ==> {
                let e = #[trigger] final(edges)@[i];
                0 <= e.y < dimy && 0 <= e.x < dimx && final(placed_pixels)@[e.y as int][e.x as int]
            },
        match first_open_neighbor(old(placed_pixels)@, dimy as int, dimx as int, pixel, offsets@) {
            None => {
                &&& r is Err
                &&& *final(image) == *old(image)
                &&& *final(edges) == *old(edges)
                &&& *final(placed_pixels) == *old(placed_pixels)
            },
            Some(loc) => {
                &&& r == Ok::<Pixel, ()>(loc)
                &&& final(placed_pixels)@ == old(placed_pixels)@.update(
                    loc.y as int,
                    old(placed_pixels)@[loc.y as int].update(loc.x as int, true),
                )
                &&& final(image).rawdata@ == old(image).rawdata@.update(
                    (loc.y as int) * (dimx as int) + loc.x as int,
                    color,
                )
                &&& final(image).spec_index(loc.y as int, loc.x as int) == color
                &&& final(edges)@ == old(edges)@.push(loc)
                &&& !old(placed_pixels)@[loc.y as int][loc.x as int]
                &&& 0 <= loc.y < dimy && 0 <= loc.x < dimx
            },
        },
{
    let ghost mask0 = placed_pixels@;
    proof {
        assert(offsets@.skip(0) =~= offsets@);
        placed_pixels.lemma_shape();
    }
    let mut oi: usize = 0;
    while oi < offsets.len()
        invariant
            oi <= offsets@.len(),
            1 <= dimy <= 32767,
            1 <= dimx <= 32767,
            image == old(image),
            edges == old(edges),
            placed_pixels == old(placed_pixels),
            mask0 == placed_pixels@,
            mask0.len() == dimy,
            forall|rr: int| 0 <= rr < mask0.len() ==> (#[trigger] mask0[rr]).len() == dimx,
            image.wf() && image.dimy == dimy && image.dimx == dimx,
            placed_pixels.wf() && placed_pixels.spec_height() == dimy
                && placed_pixels.spec_width() == dimx,
            color_wf(color),
            edges@.no_duplicates(),
            forall|i: int|
                0 <= i < edges@.len() ==> {
                    let e = #[trigger] edges@[i];
                    0 <= e.y < dimy && 0 <= e.x < dimx && placed_pixels@[e.y as int][e.x as int]
                },
            first_open_neighbor(mask0, dimy as int, dimx as int, pixel, offsets@)
                == first_open_neighbor(
                mask0,
                dimy as int,
                dimx as int,
                pixel,
                offsets@.skip(oi as int),
            ),
        decreases offsets@.len() - oi,
    {
        let o = offsets[oi];
        proof {
            let suf = offsets@.skip(oi as int);
            assert(suf[0] == offsets@[oi as int]);
            assert(suf.drop_first() =~= offsets@.skip(oi as int + 1));
        }
        let y64: i64 = (pixel.y as i64) + (o.dy as i64);
        let x64: i64 = (pixel.x as i64) + (o.dx as i64);
        if 0 <= y64 && y64 < dimy as i64 && 0 <= x64 && x64 < dimx as i64 {
            let y = y64 as usize;
            let x = x64 as usize;
            if !placed_pixels.get((y, x)) {
                let loc = Pixel { x: x64 as i32, y: y64 as i32 };
                placed_pixels.set((y, x), true);
                image.set(y, x, color);
                proof {
                    assert(!edges@.contains(loc)) by {
                        if edges@.contains(loc) {
                            let i = choose|i: int|
                                0 <= i < edges@.len() && edges@[i] == loc;
                            assert(mask0[loc.y as int][loc.x as int]);
                        }
                    }
                }
                edges.push(loc);
                proof {
                    let newmask = placed_pixels@;
                    assert(newmask[loc.y as int][loc.x as int]);
                    assert forall|i2: int| 0 <= i2 < edges@.len() implies {
                        let e = #[trigger] edges@[i2];
                        0 <= e.y < dimy && 0 <= e.x < dimx && newmask[e.y as int][e.x as int]
                    } by {
                        let e = edges@[i2];
                        if i2 < edges@.len() - 1 {
                            assert(e == old(edges)@[i2]);
                            assert(mask0[e.y as int][e.x as int]);
                            if e.y as int == loc.y as int {
                                assert(newmask[e.y as int] == mask0[loc.y as int].update(
                                    loc.x as int,
                                    true,
                                ));
                            } else {
                                assert(newmask[e.y as int] == mask0[e.y as int]);
                            }
                        } else {
                            assert(e == loc);
                        }
                    }
                    assert(edges@.no_duplicates()) by {
                        assert forall|a: int, b: int|
                            0 <= a < edges@.len() && 0 <= b < edges@.len() && a != b implies edges@[a]
                            != edges@[b] by {
                            let last = edges@.len() - 1;
                            if a < last && b < last {
                                assert(edges@[a] == old(edges)@[a]);
                                assert(edges@[b] == old(edges)@[b]);
                            } else if a == last {
                                assert(edges@[a] == loc);
                                assert(edges@[b] == old(edges)@[b]);
                                assert(mask0[old(edges)@[b].y as int][old(edges)@[b].x as int]);
                            } else {
                                assert(edges@[b] == loc);
                                assert(edges@[a] == old(edges)@[a]);
                                assert(mask0[old(edges)@[a].y as int][old(edges)@[a].x as int]);
                            }
                        }
                    }
                }
                return Ok(loc);
            }
        }
        oi += 1;
    }
    proof {
        assert(offsets@.skip(oi as int) =~= Seq::<Offset>::empty());
    }
    Err(())
}

/// True iff a frontier entry is kept by revalidation: still marked placed,
/// with at least one in-bounds unplaced neighbor under the stencil.
pub open spec fn keep_edge(
    mask: Seq<Seq<bool>>,
    dimy: int,
    dimx: int,
    offsets: Seq<Offset>,
    p: Pixel,
) -> bool {
    mask[p.y as int][p.x as int] && first_open_neighbor(mask, dimy, dimx, p, offsets) is Some
}

/// The frontier entries that survive revalidation, in their original order.
pub open spec fn kept_edges(
    edges: Seq<Pixel>,
    mask: Seq<Seq<bool>>,
    dimy: int,
    dimx: int,
    offsets: Seq<Offset>,
) -> Seq<Pixel>
    decreases edges.len(),
{
    if edges.len() == 0 {
        Seq::empty()
    } else {
        kept_edges(edges.drop_last(), mask, dimy, dimx, offsets) + if keep_edge(
            mask,
            dimy,
            dimx,
            offsets,
            edges.last(),
        ) {
            seq![edges.last()]
        } else {
            Seq::empty()
        }
    }
}

/// Revalidation computes exactly the sequence filter by the keep test: an
/// entry survives if and only if it is still placed with an open neighbor,
/// and order is preserved.
pub proof fn lemma_kept_edges_is_filter(
    edges: Seq<Pixel>,
    mask: Seq<Seq<bool>>,
    dimy: int,
    dimx: int,
    offsets: Seq<Offset>,
)
    ensures
        kept_edges(edges, mask, dimy, dimx, offsets) == edges.filter(
            (|p: Pixel| keep_edge(mask, dimy, dimx, offsets, p)),
        ),
    decreases edges.len(),
{
    let pred = (|p: Pixel| keep_edge(mask, dimy, dimx, offsets, p));
    reveal(Seq::filter);
    if edges.len() > 0 {
        lemma_kept_edges_is_filter(edges.drop_last(), mask, dimy, dimx, offsets);
        if keep_edge(mask, dimy, dimx, offsets, edges.last()) {
            assert(kept_edges(edges, mask, dimy, dimx, offsets) =~= edges.drop_last().filter(
                pred,
            ).push(edges.last()));
        } else {
            assert(kept_edges(edges, mask, dimy, dimx, offsets) =~= edges.drop_last().filter(
                pred,
            ));
        }
    } else {
        assert(kept_edges(edges, mask, dimy, dimx, offsets) =~= edges.filter(pred));
    }
}

/// Survivors of revalidation are a subsequence: no new entries, no
/// duplicates introduced, and never more entries than before.
pub proof fn lemma_kept_edges_sub(
    edges: Seq<Pixel>,
    mask: Seq<Seq<bool>>,
    dimy: int,
    dimx: int,
    offsets: Seq<Offset>,
)
    ensures
        kept_edges(edges, mask, dimy, dimx, offsets).len() <= edges.len(),
        forall|p: Pixel|
            #[trigger] kept_edges(edges, mask, dimy, dimx, offsets).contains(p) ==> edges.contains(
                p,
            ) && keep_edge(mask, dimy, dimx, offsets, p),
        edges.no_duplicates() ==> kept_edges(edges, mask, dimy, dimx, offsets).no_duplicates(),
    decreases edges.len(),
{
    if edges.len() > 0 {
        lemma_kept_edges_sub(edges.drop_last(), mask, dimy, dimx, offsets);
        let kept = kept_edges(edges, mask, dimy, dimx, offsets);
        let kprev = kept_edges(edges.drop_last(), mask, dimy, dimx, offsets);
        assert forall|p: Pixel| #[trigger] kept.contains(p) implies edges.contains(p)
            && keep_edge(mask, dimy, dimx, offsets, p) by {
            if kprev.contains(p) {
                assert(edges.drop_last().contains(p));
                let i = choose|i: int|
                    0 <= i < edges.drop_last().len() && edges.drop_last()[i] == p;
                assert(edges[i] == p);
            } else {
                assert(p == edges.last());
            }
        }
        if edges.no_duplicates() {
            assert(edges.drop_last().no_duplicates()) by {
                assert forall|i: int, j: int|
                    0 <= i < edges.drop_last().len() && 0 <= j < edges.drop_last().len() && i
                        != j implies edges.drop_last()[i] != edges.drop_last()[j] by {
                    assert(edges.drop_last()[i] == edges[i]);
                    assert(edges.drop_last()[j] == edges[j]);
                }
            }
            if keep_edge(mask, dimy, dimx, offsets, edges.last()) {
                assert(!kprev.contains(edges.last())) by {
                    if kprev.contains(edges.last()) {
                        assert(edges.drop_last().contains(edges.last()));
                        let i = choose|i: int|
                            0 <= i < edges.drop_last().len() && edges.drop_last()[i]
                                == edges.last();
                        assert(edges[i] == edges[edges.len() - 1]);
                        assert(false);
                    }
                }
                assert(kept =~= kprev.push(edges.last()));
            } else {
                assert(kept =~= kprev);
            }
        }
    }
}

/// Revalidates the frontier: keeps exactly the entries that are still
/// placed and still border an unplaced in-bounds cell, in order.
pub fn validate_inner_edges(
    dimy: usize,
    dimx: usize,
    edges: &mut Vec<Pixel>,
    placed_pixels: &BitMap,
    offsets: &Vec<Offset>,
) -> (n_kept: usize)
    requires
        1 <= dimy <= 32767,
        1 <= dimx <= 32767,
        placed_pixels.wf(),
        placed_pixels.spec_height() == dimy,
        placed_pixels.spec_width() == dimx,
        forall|i: int|
            0 <= i < old(edges)@.len() ==> {
                let e = #[trigger] old(edges)@[i];
                0 <= e.y < dimy && 0 <= e.x < dimx
            },
    ensures
        final(edges)@ == kept_edges(
            old(edges)@,
            placed_pixels@,
            dimy as int,
            dimx as int,
            offsets@,
        ),
        n_kept == final(edges)@.len(),
{
    let ghost all = edges@;
    let mut out: Vec<Pixel> = Vec::new();
    let mut i: usize = 0;
    while i < edges.len()
        invariant
            i <= all.len(),
            edges@ == all,
            1 <= dimy <= 32767,
            1 <= dimx <= 32767,
            placed_pixels.wf(),
            placed_pixels.spec_height() == dimy,
            placed_pixels.spec_width() == dimx,
            forall|k: int|
                0 <= k < all.len() ==> {
                    let e = #[trigger] all[k];
                    0 <= e.y < dimy && 0 <= e.x < dimx
                },
            out@ == kept_edges(
                all.take(i as int),
                placed_pixels@,
                dimy as int,
                dimx as int,
                offsets@,
            ),
        decreases all.len() - i,
    {
        let p = edges[i];
        let still_placed = placed_pixels.get((p.y as usize, p.x as usize));
        let open = if still_placed {
            has_open_neighbor(dimy, dimx, p, placed_pixels, offsets)
        } else {
            false
        };
        proof {
            assert(all.take(i as int + 1).drop_last() =~= all.take(i as int));
            assert(all.take(i as int + 1).last() == all[i as int]);
        }
        if open {
            out.push(p);
        }
        i += 1;
    }
    proof {
        assert(all.take(all.len() as int) =~= all);
    }
    let n = out.len();
    *edges = out;
    n
}

/// True iff some stencil neighbor of `p` is an in-bounds unplaced cell.
fn has_open_neighbor(
    dimy: usize,
    dimx: usize,
    p: Pixel,
    placed_pixels: &BitMap,
    offsets: &Vec<Offset>,
) -> (r: bool)
    requires
        1 <= dimy <= 32767,
        1 <= dimx <= 32767,
        placed_pixels.wf(),
        placed_pixels.spec_height() == dimy,
        placed_pixels.spec_width() == dimx,
    ensures
        r == (first_open_neighbor(placed_pixels@, dimy as int, dimx as int, p, offsets@)
            is Some),
{
    proof {
        assert(offsets@.skip(0) =~= offsets@);
    }
    let mut oi: usize = 0;
    while oi < offsets.len()
        invariant
            oi <= offsets@.len(),
            1 <= dimy <= 32767,
            1 <= dimx <= 32767,
            placed_pixels.wf(),
            placed_pixels.spec_height() == dimy,
            placed_pixels.spec_width() == dimx,
            first_open_neighbor(placed_pixels@, dimy as int, dimx as int, p, offsets@)
                == first_open_neighbor(
                placed_pixels@,
                dimy as int,
                dimx as int,
                p,
                offsets@.skip(oi as int),
            ),
        decreases offsets@.len() - oi,
    {
        let o = offsets[oi];
        proof {
            let suf = offsets@.skip(oi as int);
            assert(suf[0] == offsets@[oi as int]);
            assert(suf.drop_first() =~= offsets@.skip(oi as int + 1));
        }
        let y64: i64 = (p.y as i64) + (o.dy as i64);
        let x64: i64 = (p.x as i64) + (o.dx as i64);
        if 0 <= y64 && y64 < dimy as i64 && 0 <= x64 && x64 < dimx as i64 {
            if !placed_pixels.get((y64 as usize, x64 as usize)) {
                return true;
            }
        }
        oi += 1;
    }
    proof {
        assert(offsets@.skip(oi as int) =~= Seq::<Offset>::empty());
    }
    false
}

/// Places up to `count` random seeds on unplaced cells: first by random
/// tries (abandoned after four consecutive misses), then by uniform
/// sampling over the enumerated unplaced cells. Exactly
/// `min(count, free)` seeds are placed, where `free` counts the unplaced
/// cells on entry. The frontier is left untouched: the caller enrolls the
/// returned pixels.
pub fn place_seeds_common(
    count: usize,
    dimx: usize,
    dimy: usize,
    data: &mut CommonLockedData,
    color_generator: &ColorModel,
    rng: &mut rand_chacha::ChaCha12Rng,
) -> (r: Vec<Pixel>)
    requires
        1 <= dimy <= 32767,
        1 <= dimx <= 32767,
        (dimy as int) * (dimx as int) <= usize::MAX,
        old(data).wf(dimy as int, dimx as int),
        old(data).unplaced_zero(dimy as int, dimx as int),
        color_generator.wf(),
        color_generator.spec_all_full(),
    ensures
        final(data).wf(dimy as int, dimx as int),
        final(data).unplaced_zero(dimy as int, dimx as int),
        final(data).edges == old(data).edges,
        r@.no_duplicates(),
        r@.len() as int == min_int(
            count as int,
            (dimy as int) * (dimx as int) - count_all(old(data).placed_pixels@),
        ),
        count_all(final(data).placed_pixels@) == count_all(old(data).placed_pixels@)
            + r@.len(),
        forall|i: int|
            0 <= i < r@.len() ==> {
                let p = #[trigger] r@[i];
                &&& 0 <= p.y < dimy
                &&& 0 <= p.x < dimx
                &&& !old(data).placed(p.y as int, p.x as int)
                &&& final(data).placed(p.y as int, p.x as int)
            },
        forall|y: int, x: int|
            0 <= y < dimy && 0 <= x < dimx ==> (final(data).placed(y, x) <==> (#[trigger] old(
                data,
            ).placed(y, x) || r@.contains(Pixel { x: x as i32, y: y as i32 }))),
        forall|y: int, x: int|
            0 <= y < dimy && 0 <= x < dimx && !r@.contains(Pixel { x: x as i32, y: y as i32 })
                ==> #[trigger] final(data).image.spec_index(y, x) == old(data).image.spec_index(
                y,
                x,
            ),
        forall|i: int|
            0 <= i < r@.len() ==> color_generator.model_sample(
                Some(final(data).image.spec_index((#[trigger] r@[i]).y as int, r@[i].x as int)),
            ),
{
    let ghost mask0 = data.placed_pixels@;
    let ghost free0 = (dimy as int) * (dimx as int) - count_all(mask0);
    proof {
        data.placed_pixels.lemma_shape();
        lemma_count_rows_prefix_bound(
            mask0,
            mask0.len() as int,
            data.placed_pixels.spec_width(),
        );
        assert(count_all(mask0) <= (dimy as int) * (dimx as int));
    }
    let mut placed: Vec<Pixel> = Vec::new();
    let mut abandoned = false;
    let mut s: usize = 0;
    while s < count && !abandoned
        invariant
            s <= count,
            s == placed@.len(),
            seeding_inv(
                *old(data),
                *data,
                placed@,
                mask0,
                *color_generator,
                dimy as int,
                dimx as int,
            ),
            color_generator.wf(),
            color_generator.spec_all_full(),
            1 <= dimy <= 32767,
            1 <= dimx <= 32767,
            (dimy as int) * (dimx as int) <= usize::MAX,
        decreases count - s, (if abandoned {
            0int
        } else {
            1int
        }),
    {
        let mut tries: usize = 0;
        let mut done = false;
        while tries < 4 && !done
            invariant
                tries <= 4,
                seeding_inv(
                    *old(data),
                    *data,
                    placed@,
                    mask0,
                    *color_generator,
                    dimy as int,
                    dimx as int,
                ),
                done ==> placed@.len() == s + 1,
                !done ==> placed@.len() == s,
                color_generator.wf(),
                color_generator.spec_all_full(),
                1 <= dimy <= 32767,
                1 <= dimx <= 32767,
                (dimy as int) * (dimx as int) <= usize::MAX,
            decreases 4 - tries, (if done { 0int } else { 1int }),
        {
            let y = rng_below(rng, dimy as u64) as usize;
            let x = rng_below(rng, dimx as u64) as usize;
            if data.placed_pixels.get((y, x)) {
                tries += 1;
            } else {
                seed_cell(y, x, data, color_generator, rng, &mut placed, Ghost(mask0), Ghost(dimy as int), Ghost(dimx as int), Ghost(*old(data)));
                done = true;
            }
        }
        if !done {
            abandoned = true;
        } else {
            s += 1;
        }
    }
    if placed.len() < count {
        let empty_cells = data.placed_pixels.for_each_false();
        let need = count - placed.len();
        let chosen = choose_distinct(rng, &empty_cells, need);
        proof {
            data.placed_pixels.lemma_shape();
            empty_cells@.lemma_multiset_has_no_duplicates();
            assert forall|e: (usize, usize)| chosen@.to_multiset().count(e) <= 1 by {
                assert(chosen@.to_multiset().count(e) <= empty_cells@.to_multiset().count(e));
                if empty_cells@.to_multiset().count(e) > 1 {
                    assert(empty_cells@.to_multiset().contains(e));
                }
            }
            chosen@.lemma_multiset_has_no_duplicates_conv();
        }
        let ghost mask_mid = data.placed_pixels@;
        let ghost placed_mid = placed@;
        proof {
            broadcast use vstd::seq_lib::group_to_multiset_ensures;
            assert forall|k: int| 0 <= k < chosen@.len() implies {
                let e = #[trigger] chosen@[k];
                e.0 < dimy && e.1 < dimx && !mask_mid[e.0 as int][e.1 as int]
            } by {
                let e = chosen@[k];
                assert(chosen@.contains(e)) by {
                    assert(chosen@[k] == e);
                }
                assert(chosen@.to_multiset().count(e) > 0);
                assert(empty_cells@.to_multiset().count(e) > 0);
                assert(empty_cells@.contains(e));
            }
        }
        let mut i: usize = 0;
        while i < chosen.len()
            invariant
                i <= chosen@.len(),
                placed@.len() == placed_mid.len() + i,
                chosen@.no_duplicates(),
                forall|k: int|
                    0 <= k < chosen@.len() ==> {
                        let e = #[trigger] chosen@[k];
                        e.0 < dimy && e.1 < dimx && !mask_mid[e.0 as int][e.1 as int]
                    },
                forall|k: int|
                    i <= k < chosen@.len() ==> !data.placed(
                        (#[trigger] chosen@[k]).0 as int,
                        chosen@[k].1 as int,
                    ),
                seeding_inv(
                    *old(data),
                    *data,
                    placed@,
                    mask0,
                    *color_generator,
                    dimy as int,
                    dimx as int,
                ),
                color_generator.wf(),
                color_generator.spec_all_full(),
                1 <= dimy <= 32767,
                1 <= dimx <= 32767,
                (dimy as int) * (dimx as int) <= usize::MAX,
            decreases chosen@.len() - i,
        {
            let (y, x) = chosen[i];
            proof {
                assert(chosen@[i as int].0 == y && chosen@[i as int].1 == x);
            }
            seed_cell(y, x, data, color_generator, rng, &mut placed, Ghost(mask0), Ghost(dimy as int), Ghost(dimx as int), Ghost(*old(data)));
            proof {
                assert forall|k: int| i + 1 <= k < chosen@.len() implies !data.placed(
                    (#[trigger] chosen@[k]).0 as int,
                    chosen@[k].1 as int,
                ) by {
                    assert(chosen@[k] != chosen@[i as int]);
                }
            }
            i += 1;
        }
        proof {
            lemma_seeding_len(
                *old(data),
                *data,
                placed@,
                mask0,
                *color_generator,
                dimy as int,
                dimx as int,
            );
            assert(empty_cells@.len() == (dimy as int) * (dimx as int) - count_all(mask_mid));
        }
    }
    proof {
        lemma_seeding_len(
            *old(data),
            *data,
            placed@,
            mask0,
            *color_generator,
            dimy as int,
            dimx as int,
        );
    }
    placed
}

pub open spec fn min_int(a: int, b: int) -> int {
    if a <= b {
        a
    } else {
        b
    }
}

/// Addition that stops at the counter's ceiling instead of overflowing.
pub open spec fn sat_add_int(a: int, b: int) -> int {
    if a + b > usize::MAX {
        usize::MAX as int
    } else {
        a + b
    }
}

/// Ceiling-stopped addition chains like plain addition.
pub proof fn lemma_sat_add_chain(a: int, b: int, c: int)
    requires
        0 <= a,
        0 <= b,
        0 <= c,
    ensures
        sat_add_int(sat_add_int(a, b), c) == sat_add_int(a, b + c),
{
}

/// The running relation between the state at seeding entry and now: the
/// placed list records exactly the newly placed cells.
pub open spec fn seeding_inv(
    data0: CommonLockedData,
    data: CommonLockedData,
    placed: Seq<Pixel>,
    mask0: Seq<Seq<bool>>,
    model: ColorModel,
    dimy: int,
    dimx: int,
) -> bool {
    &&& mask0 == data0.placed_pixels@
    &&& data.wf(dimy, dimx)
    &&& data.unplaced_zero(dimy, dimx)
    &&& data.edges == data0.edges
    &&& placed.no_duplicates()
    &&& count_all(data.placed_pixels@) == count_all(mask0) + placed.len()
    &&& forall|i: int|
        0 <= i < placed.len() ==> {
            let p = #[trigger] placed[i];
            &&& 0 <= p.y < dimy
            &&& 0 <= p.x < dimx
            &&& !mask0[p.y as int][p.x as int]
            &&& data.placed(p.y as int, p.x as int)
        }
    &&& forall|y: int, x: int|
        0 <= y < dimy && 0 <= x < dimx ==> (data.placed(y, x) <==> (mask0[y][x]
            || placed.contains(Pixel { x: x as i32, y: y as i32 })))
    &&& forall|y: int, x: int|
        0 <= y < dimy && 0 <= x < dimx && !placed.contains(Pixel { x: x as i32, y: y as i32 })
            ==> #[trigger] data.image.spec_index(y, x) == data0.image.spec_index(y, x)
    &&& forall|i: int|
        0 <= i < placed.len() ==> model.model_sample(
            Some(data.image.spec_index((#[trigger] placed[i]).y as int, placed[i].x as int)),
        )
}

/// The seed count never exceeds the number of initially free cells.
proof fn lemma_seeding_len(
    data0: CommonLockedData,
    data: CommonLockedData,
    placed: Seq<Pixel>,
    mask0: Seq<Seq<bool>>,
    model: ColorModel,
    dimy: int,
    dimx: int,
)
    requires
        seeding_inv(data0, data, placed, mask0, model, dimy, dimx),
    ensures
        count_all(mask0) + placed.len() <= dimy * dimx,
{
    data.placed_pixels.lemma_shape();
    lemma_count_rows_prefix_bound(
        data.placed_pixels@,
        data.placed_pixels@.len() as int,
        data.placed_pixels.spec_width(),
    );
}

/// Samples a color and places it at the unplaced cell `(y, x)`.
fn seed_cell(
    y: usize,
    x: usize,
    data: &mut CommonLockedData,
    color_generator: &ColorModel,
    rng: &mut rand_chacha::ChaCha12Rng,
    placed: &mut Vec<Pixel>,
    Ghost(mask0): Ghost<Seq<Seq<bool>>>,
    Ghost(gdimy): Ghost<int>,
    Ghost(gdimx): Ghost<int>,
    Ghost(data0): Ghost<CommonLockedData>,
)
    requires
        1 <= gdimy <= 32767,
        1 <= gdimx <= 32767,
        y < gdimy,
        x < gdimx,
        !old(data).placed(y as int, x as int),
        seeding_inv(data0, *old(data), old(placed)@, mask0, *color_generator, gdimy, gdimx),
        color_generator.wf(),
        color_generator.spec_all_full(),
    ensures
        seeding_inv(
            data0,
            *final(data),
            final(placed)@,
            mask0,
            *color_generator,
            gdimy,
            gdimx,
        ),
        final(placed)@ == old(placed)@.push(Pixel { x: x as i32, y: y as i32 }),
        final(data).placed(y as int, x as int),
{
    let color_opt = color_generator.new_color(rng);
    let color = match color_opt {
        Some(c) => c,
        None => {
            proof {
                assert(false);
            }
            crate::color::from_3(0, 0, 0)
        },
    };
    let p = Pixel { x: x as i32, y: y as i32 };
    let ghost pre = *data;
    proof {
        data.placed_pixels.lemma_shape();
    }
    data.image.set(y, x, color);
    data.placed_pixels.set((y, x), true);
    proof {
        lemma_count_update(pre.placed_pixels@, y as int, x as int, true);
        assert(!placed@.contains(p)) by {
            if placed@.contains(p) {
                let i = choose|i: int| 0 <= i < placed@.len() && placed@[i] == p;
                assert(pre.placed(p.y as int, p.x as int));
            }
        }
    }
    placed.push(p);
    proof {
        let now = *data;
        assert(now.placed_pixels@ == pre.placed_pixels@.update(
            y as int,
            pre.placed_pixels@[y as int].update(x as int, true),
        ));
        assert forall|yy: int, xx: int|
            0 <= yy < gdimy && 0 <= xx < gdimx implies (now.placed(yy, xx) <==> (mask0[yy][xx]
                || placed@.contains(Pixel { x: xx as i32, y: yy as i32 }))) by {
            let q = Pixel { x: xx as i32, y: yy as i32 };
            assert(pre.placed(yy, xx) <==> (mask0[yy][xx] || old(placed)@.contains(q)));
            if yy == y as int && xx == x as int {
                assert(placed@.contains(p)) by {
                    assert(placed@[placed@.len() - 1] == p);
                }
            } else {
                if yy == y as int {
                    assert(now.placed_pixels@[yy] == pre.placed_pixels@[y as int].update(
                        x as int,
                        true,
                    ));
                } else {
                    assert(now.placed_pixels@[yy] == pre.placed_pixels@[yy]);
                }
                assert(Pixel { x: xx as i32, y: yy as i32 } != p);
            }
        }
        assert forall|yy: int, xx: int|
            0 <= yy < gdimy && 0 <= xx < gdimx && !placed@.contains(
                Pixel { x: xx as i32, y: yy as i32 },
            ) implies #[trigger] now.image.spec_index(yy, xx) == data0.image.spec_index(
            yy,
            xx,
        ) by {
            assert(Pixel { x: xx as i32, y: yy as i32 } != p);
            assert(!old(placed)@.contains(Pixel { x: xx as i32, y: yy as i32 }));
        }
        assert forall|yy: int, xx: int|
            0 <= yy < gdimy && 0 <= xx < gdimx && !now.placed(yy, xx)
                implies #[trigger] now.image.spec_index(yy, xx) == (crate::color::Color {
            r: 0,
            g: 0,
            b: 0,
            pad: 0,
        }) by {
            assert(!pre.placed(yy, xx));
            assert(!(yy == y as int && xx == x as int));
        }
        assert forall|i: int|
            0 <= i < now.edges@.len() implies {
            let e = #[trigger] now.edges@[i];
            &&& 0 <= e.y < gdimy
            &&& 0 <= e.x < gdimx
            &&& now.placed(e.y as int, e.x as int)
        } by {
            let e = now.edges@[i];
            assert(pre.placed(e.y as int, e.x as int));
            if e.y as int == y as int {
                assert(now.placed_pixels@[e.y as int] == pre.placed_pixels@[y as int].update(
                    x as int,
                    true,
                ));
            } else {
                assert(now.placed_pixels@[e.y as int] == pre.placed_pixels@[e.y as int]);
            }
        }
    }
}

/// The configured generator: seed count, neighbor stencil, worker count,
/// candidates per step, and the optional fitness cap.
#[derive(Debug, Clone, PartialEq)]
pub struct InnerGenerator {
    pub seeds: usize,
    pub offsets: Vec<Offset>,
    pub workers: usize,
    pub colorcount: usize,
    pub maxfitness: Option<i64>,
}

impl InnerGenerator {
    pub open spec fn wf(&self) -> bool {
        &&& self.seeds >= 1
        &&& self.workers >= 1
        &&& self.colorcount >= 1
        &&& self.offsets@.len() >= 1
    }

    /// The neighbor stencil this generator grows with.
    pub fn offsets(&self) -> (r: &Vec<Offset>)
        ensures
            r@ == self.offsets@,
    {
        &self.offsets
    }
}

/// What one seeding pass does to cells: the mask only grows, cells placed
/// before keep their colors, and every newly placed cell holds a lawful
/// sample of the model.
proof fn lemma_seed_relations(
    before: CommonLockedData,
    after: CommonLockedData,
    r: Seq<Pixel>,
    model: ColorModel,
    dimy: int,
    dimx: int,
)
    requires
        1 <= dimy <= 32767,
        1 <= dimx <= 32767,
        forall|i: int|
            0 <= i < r.len() ==> {
                let p = #[trigger] r[i];
                &&& 0 <= p.y < dimy
                &&& 0 <= p.x < dimx
                &&& !before.placed(p.y as int, p.x as int)
                &&& after.placed(p.y as int, p.x as int)
            },
        forall|y: int, x: int|
            0 <= y < dimy && 0 <= x < dimx ==> (after.placed(y, x) <==> (#[trigger] before.placed(
                y,
                x,
            ) || r.contains(Pixel { x: x as i32, y: y as i32 }))),
        forall|y: int, x: int|
            0 <= y < dimy && 0 <= x < dimx && !r.contains(Pixel { x: x as i32, y: y as i32 })
                ==> #[trigger] after.image.spec_index(y, x) == before.image.spec_index(y, x),
        forall|i: int|
            0 <= i < r.len() ==> model.model_sample(
                Some(after.image.spec_index((#[trigger] r[i]).y as int, r[i].x as int)),
            ),
    ensures
        forall|y: int, x: int|
            0 <= y < dimy && 0 <= x < dimx && #[trigger] before.placed(y, x) ==> after.placed(
                y,
                x,
            ),
        forall|y: int, x: int|
            0 <= y < dimy && 0 <= x < dimx && before.placed(y, x)
                ==> #[trigger] after.image.spec_index(y, x) == before.image.spec_index(y, x),
        forall|y: int, x: int|
            0 <= y < dimy && 0 <= x < dimx && !before.placed(y, x) && #[trigger] after.placed(
                y,
                x,
            ) ==> model.model_sample(Some(after.image.spec_index(y, x))),
{
    assert forall|y: int, x: int|
        0 <= y < dimy && 0 <= x < dimx && before.placed(y, x)
            implies #[trigger] after.image.spec_index(y, x) == before.image.spec_index(y, x) by {
        if r.contains(Pixel { x: x as i32, y: y as i32 }) {
            let i = choose|i: int|
                0 <= i < r.len() && r[i] == Pixel { x: x as i32, y: y as i32 };
            assert(!before.placed(r[i].y as int, r[i].x as int));
        }
    }
    assert forall|y: int, x: int|
        0 <= y < dimy && 0 <= x < dimx && !before.placed(y, x) && #[trigger] after.placed(y, x)
            implies model.model_sample(Some(after.image.spec_index(y, x))) by {
        assert(r.contains(Pixel { x: x as i32, y: y as i32 }));
        let i = choose|i: int| 0 <= i < r.len() && r[i] == Pixel { x: x as i32, y: y as i32 };
        assert(r[i].y as int == y && r[i].x as int == x);
        assert(model.model_sample(Some(after.image.spec_index(r[i].y as int, r[i].x as int))));
    }
}

/// Places seeds, enrolls them on the frontier, counts them as generated and
/// placed, and raises `finished` when the grid is full.
pub fn seed_and_extend(
    count: usize,
    common: &mut crate::CommonData,
    model: &ColorModel,
    rng: &mut rand_chacha::ChaCha12Rng,
)
    requires
        old(common).wf(),
        model.wf(),
        model.spec_all_full(),
    ensures
        final(common).wf(),
        final(common).dimy == old(common).dimy,
        final(common).dimx == old(common).dimx,
        final(common).size == old(common).size,
        final(common).rng_seed == old(common).rng_seed,
        final(common).pixels_placed >= old(common).pixels_placed,
        final(common).finished == (final(common).pixels_placed == final(common).size),
        final(common).pixels_placed == old(common).pixels_placed + min_int(
            count as int,
            old(common).size - old(common).pixels_placed,
        ),
        final(common).pixels_generated as int == sat_add_int(
            old(common).pixels_generated as int,
            min_int(count as int, old(common).size - old(common).pixels_placed),
        ),
        count >= 1 && old(common).pixels_placed < old(common).size ==> final(common).pixels_placed
            > old(common).pixels_placed,
        count >= old(common).size - old(common).pixels_placed ==> final(common).pixels_placed
            == final(common).size,
        forall|y: int, x: int|
            0 <= y < old(common).dimy && 0 <= x < old(common).dimx && #[trigger] old(
                common,
            ).locked.placed(y, x) ==> final(common).locked.placed(y, x),
        forall|y: int, x: int|
            0 <= y < old(common).dimy && 0 <= x < old(common).dimx && old(common).locked.placed(
                y,
                x,
            ) ==> #[trigger] final(common).locked.image.spec_index(y, x) == old(
                common,
            ).locked.image.spec_index(y, x),
        forall|y: int, x: int|
            0 <= y < old(common).dimy && 0 <= x < old(common).dimx && !old(common).locked.placed(
                y,
                x,
            ) && #[trigger] final(common).locked.placed(y, x) ==> model.model_sample(
                Some(final(common).locked.image.spec_index(y, x)),
            ),
{
    proof {
        assert((old(common).dimy as int) * (old(common).dimx as int) <= usize::MAX);
    }
    let seed_pixels = place_seeds_common(
        count,
        common.dimx,
        common.dimy,
        &mut common.locked,
        model,
        rng,
    );
    let n = seed_pixels.len();
    proof {
        assert(common.pixels_placed + n == count_all(common.locked.placed_pixels@));
        common.locked.placed_pixels.lemma_shape();
        lemma_count_rows_prefix_bound(
            common.locked.placed_pixels@,
            common.locked.placed_pixels@.len() as int,
            common.locked.placed_pixels.spec_width(),
        );
        assert(count_all(common.locked.placed_pixels@) <= (common.dimy as int) * (
        common.dimx as int));
    }
    common.pixels_placed = common.pixels_placed + n;
    common.pixels_generated = match common.pixels_generated.checked_add(n) {
        Some(v) => v,
        None => usize::MAX,
    };
    proof {
        lemma_seed_relations(
            old(common).locked,
            common.locked,
            seed_pixels@,
            *model,
            old(common).dimy as int,
            old(common).dimx as int,
        );
    }
    // Every seed becomes a frontier entry.
    let ghost edges0 = common.locked.edges@;
    let mut i: usize = 0;
    while i < seed_pixels.len()
        invariant
            i <= seed_pixels@.len(),
            common.dimy == old(common).dimy,
            common.dimx == old(common).dimx,
            common.size == old(common).size,
            common.rng_seed == old(common).rng_seed,
            common.finished == old(common).finished,
            common.pixels_placed == old(common).pixels_placed + seed_pixels@.len(),
            seed_pixels@.len() == min_int(
                count as int,
                old(common).size - old(common).pixels_placed,
            ),
            forall|y: int, x: int|
                0 <= y < old(common).dimy && 0 <= x < old(common).dimx && #[trigger] old(
                    common,
                ).locked.placed(y, x) ==> common.locked.placed(y, x),
            forall|y: int, x: int|
                0 <= y < old(common).dimy && 0 <= x < old(common).dimx && old(
                    common,
                ).locked.placed(y, x) ==> #[trigger] common.locked.image.spec_index(y, x) == old(
                    common,
                ).locked.image.spec_index(y, x),
            forall|y: int, x: int|
                0 <= y < old(common).dimy && 0 <= x < old(common).dimx && !old(
                    common,
                ).locked.placed(y, x) && #[trigger] common.locked.placed(y, x)
                    ==> model.model_sample(Some(common.locked.image.spec_index(y, x))),
            common.pixels_generated as int == sat_add_int(
                old(common).pixels_generated as int,
                seed_pixels@.len() as int,
            ),
            common.pixels_placed == count_all(common.locked.placed_pixels@),
            common.pixels_placed <= common.size,
            common.pixels_placed <= common.pixels_generated,
            common.locked.image.wf(),
            common.locked.image.dimy == common.dimy,
            common.locked.image.dimx == common.dimx,
            common.locked.placed_pixels.wf(),
            common.locked.placed_pixels.spec_height() == common.dimy,
            common.locked.placed_pixels.spec_width() == common.dimx,
            common.locked.unplaced_zero(common.dimy as int, common.dimx as int),
            1 <= common.dimy <= 32767,
            1 <= common.dimx <= 32767,
            common.size == common.dimy * common.dimx,
            common.finished ==> common.pixels_placed == common.size,
            edges0.len() <= old(common).pixels_placed,
            common.locked.edges@ == edges0 + seed_pixels@.take(i as int),
            seed_pixels@.no_duplicates(),
            edges0.no_duplicates(),
            common.locked.edges@.no_duplicates(),
            forall|k: int|
                0 <= k < seed_pixels@.len() ==> {
                    let p = #[trigger] seed_pixels@[k];
                    &&& 0 <= p.y < common.dimy
                    &&& 0 <= p.x < common.dimx
                    &&& common.locked.placed(p.y as int, p.x as int)
                    &&& !edges0.contains(p)
                },
            forall|k: int|
                0 <= k < common.locked.edges@.len() ==> {
                    let e = #[trigger] common.locked.edges@[k];
                    &&& 0 <= e.y < common.dimy
                    &&& 0 <= e.x < common.dimx
                    &&& common.locked.placed(e.y as int, e.x as int)
                },
        decreases seed_pixels@.len() - i,
    {
        let p = seed_pixels[i];
        proof {
            assert(!common.locked.edges@.contains(p)) by {
                if common.locked.edges@.contains(p) {
                    let k = choose|k: int|
                        0 <= k < common.locked.edges@.len() && common.locked.edges@[k] == p;
                    if k < edges0.len() {
                        assert(edges0[k] == p);
                        assert(edges0.contains(p));
                    } else {
                        assert(seed_pixels@.take(i as int)[k - edges0.len()] == p);
                        assert(seed_pixels@[k - edges0.len()] == p);
                    }
                }
            }
            assert(edges0 + seed_pixels@.take(i as int + 1) =~= (edges0 + seed_pixels@.take(
                i as int,
            )).push(p));
        }
        common.locked.edges.push(p);
        i += 1;
    }
    if common.pixels_placed == common.size {
        common.finished = true;
    }
    proof {
        assert(common.locked.edges@.len() <= common.pixels_placed);
    }
}

impl InnerGenerator {
    /// Runs the whole seed-and-grow generation: seeds first, then at most
    /// `max_steps` frontier-growth steps, stopping as soon as every cell is
    /// placed. On return `finished` holds exactly when the grid is full.
    pub fn generate(
        &self,
        common: &mut crate::CommonData,
        model: &ColorModel,
        rng: &mut rand_chacha::ChaCha12Rng,
        max_steps: usize,
    ) -> (steps: usize)
        requires
            old(common).wf(),
            self.wf(),
            model.wf(),
            model.spec_all_full(),
        ensures
            final(common).wf(),
            final(common).dimy == old(common).dimy,
            final(common).dimx == old(common).dimx,
            final(common).size == old(common).size,
            final(common).rng_seed == old(common).rng_seed,
            final(common).pixels_placed >= old(common).pixels_placed,
            final(common).finished == (final(common).pixels_placed == final(common).size),
            steps <= max_steps,
            steps == max_steps || final(common).finished,
            final(common).pixels_placed >= old(common).pixels_placed + min_int(
                self.seeds as int,
                old(common).size - old(common).pixels_placed,
            ),
            old(common).pixels_placed < old(common).size ==> final(common).pixels_placed > old(common).pixels_placed,
            self.seeds as int >= old(common).size - old(common).pixels_placed ==> final(common).finished && steps == 0,
            forall|y: int, x: int|
                0 <= y < old(common).dimy && 0 <= x < old(common).dimx && #[trigger] old(
                    common,
                ).locked.placed(y, x) ==> final(common).locked.placed(y, x),
            forall|y: int, x: int|
                0 <= y < old(common).dimy && 0 <= x < old(common).dimx && old(
                    common,
                ).locked.placed(y, x) ==> #[trigger] final(common).locked.image.spec_index(y, x)
                    == old(common).locked.image.spec_index(y, x),
            forall|y: int, x: int|
                0 <= y < old(common).dimy && 0 <= x < old(common).dimx && !old(
                    common,
                ).locked.placed(y, x) && #[trigger] final(common).locked.placed(y, x)
                    ==> model.model_sample(Some(final(common).locked.image.spec_index(y, x))),
            final(common).pixels_generated as int >= sat_add_int(
                sat_add_int(
                    old(common).pixels_generated as int,
                    min_int(self.seeds as int, old(common).size - old(common).pixels_placed),
                ),
                steps as int,
            ),
    {
        seed_and_extend(self.seeds, common, model, rng);
        let ghost gen1 = common.pixels_generated as int;
        let mut work_offsets = copy_offsets(&self.offsets);
        let mut steps: usize = 0;
        while steps < max_steps && !common.finished
            invariant
                steps <= max_steps,
                common.wf(),
                common.dimy == old(common).dimy,
                common.dimx == old(common).dimx,
                common.size == old(common).size,
                common.rng_seed == old(common).rng_seed,
                common.pixels_placed >= old(common).pixels_placed,
                common.pixels_placed >= old(common).pixels_placed + min_int(
                    self.seeds as int,
                    old(common).size - old(common).pixels_placed,
                ),
                old(common).pixels_placed < old(common).size ==> common.pixels_placed > old(common).pixels_placed,
                self.seeds as int >= old(common).size - old(common).pixels_placed ==> (
                common.finished && steps == 0),
                common.finished == (common.pixels_placed == common.size),
                work_offsets@.len() >= 1,
                self.wf(),
                model.wf(),
                model.spec_all_full(),
                gen1 == sat_add_int(
                    old(common).pixels_generated as int,
                    min_int(self.seeds as int, old(common).size - old(common).pixels_placed),
                ),
                common.pixels_generated as int >= sat_add_int(gen1, steps as int),
                forall|y: int, x: int|
                    0 <= y < old(common).dimy && 0 <= x < old(common).dimx && #[trigger] old(
                        common,
                    ).locked.placed(y, x) ==> common.locked.placed(y, x),
                forall|y: int, x: int|
                    0 <= y < old(common).dimy && 0 <= x < old(common).dimx && old(
                        common,
                    ).locked.placed(y, x) ==> #[trigger] common.locked.image.spec_index(y, x)
                        == old(common).locked.image.spec_index(y, x),
                forall|y: int, x: int|
                    0 <= y < old(common).dimy && 0 <= x < old(common).dimx && !old(
                        common,
                    ).locked.placed(y, x) && #[trigger] common.locked.placed(y, x)
                        ==> model.model_sample(Some(common.locked.image.spec_index(y, x))),
            decreases max_steps - steps,
        {
            let ghost entry = *common;
            self.generate_step(common, model, rng, &mut work_offsets);
            proof {
                lemma_sat_add_chain(gen1, steps as int, 1);
                assert(common.pixels_generated as int >= sat_add_int(
                    entry.pixels_generated as int,
                    1,
                ));
                assert forall|y: int, x: int|
                    0 <= y < old(common).dimy && 0 <= x < old(common).dimx && !old(
                        common,
                    ).locked.placed(y, x) && #[trigger] common.locked.placed(y, x)
                        implies model.model_sample(
                    Some(common.locked.image.spec_index(y, x)),
                ) by {
                    if entry.locked.placed(y, x) {
                        assert(common.locked.image.spec_index(y, x)
                            == entry.locked.image.spec_index(y, x));
                        assert(model.model_sample(Some(entry.locked.image.spec_index(y, x))));
                    }
                }
            }
            steps += 1;
        }
        steps
    }

    /// One growth step: reseed an empty frontier, sample the candidate
    /// colors, pick each candidate's best anchor, place the candidates at
    /// open neighbors in shuffled stencil order, then either finish or
    /// revalidate the frontier. The caller holds exclusive access for the
    /// whole step; observers read only between steps.
    pub fn generate_step(
        &self,
        common: &mut crate::CommonData,
        model: &ColorModel,
        rng: &mut rand_chacha::ChaCha12Rng,
        work_offsets: &mut Vec<Offset>,
    )
        requires
            old(common).wf(),
            !old(common).finished,
            old(common).pixels_placed < old(common).size,
            self.wf(),
            model.wf(),
            model.spec_all_full(),
            old(work_offsets)@.len() >= 1,
        ensures
            final(common).wf(),
            final(common).dimy == old(common).dimy,
            final(common).dimx == old(common).dimx,
            final(common).size == old(common).size,
            final(common).rng_seed == old(common).rng_seed,
            final(common).pixels_placed >= old(common).pixels_placed,
            final(common).finished == (final(common).pixels_placed == final(common).size),
            final(work_offsets)@.len() == old(work_offsets)@.len(),
            old(common).locked.edges@.len() == 0 ==> final(common).pixels_placed > old(common).pixels_placed,
            old(common).locked.edges@.len() > 0 ==> final(common).pixels_generated as int
                == sat_add_int(old(common).pixels_generated as int, self.colorcount as int),
            old(common).locked.edges@.len() == 0 && old(common).pixels_placed + 1 == old(common).size ==> final(common).pixels_generated as int == sat_add_int(
                old(common).pixels_generated as int,
                1,
            ),
            old(common).locked.edges@.len() == 0 && old(common).pixels_placed + 1 < old(common).size ==> final(common).pixels_generated as int == sat_add_int(
                sat_add_int(old(common).pixels_generated as int, 1),
                self.colorcount as int,
            ),
            old(common).locked.edges@.len() > 0 ==> forall|y: int, x: int|
                0 <= y < old(common).dimy && 0 <= x < old(common).dimx && !old(
                    common,
                ).locked.placed(y, x) && #[trigger] final(common).locked.placed(y, x)
                    ==> grown_from(old(common).locked.edges@, final(work_offsets)@, y, x),
            final(work_offsets)@.to_multiset() == old(work_offsets)@.to_multiset(),
            forall|y: int, x: int|
                0 <= y < old(common).dimy && 0 <= x < old(common).dimx && #[trigger] old(
                    common,
                ).locked.placed(y, x) ==> final(common).locked.placed(y, x),
            forall|y: int, x: int|
                0 <= y < old(common).dimy && 0 <= x < old(common).dimx && old(
                    common,
                ).locked.placed(y, x) ==> #[trigger] final(common).locked.image.spec_index(y, x)
                    == old(common).locked.image.spec_index(y, x),
            forall|y: int, x: int|
                0 <= y < old(common).dimy && 0 <= x < old(common).dimx && !old(
                    common,
                ).locked.placed(y, x) && #[trigger] final(common).locked.placed(y, x)
                    ==> model.model_sample(Some(final(common).locked.image.spec_index(y, x))),
            !final(common).finished ==> forall|i: int|
                0 <= i < final(common).locked.edges@.len() ==> keep_edge(
                    final(common).locked.placed_pixels@,
                    old(common).dimy as int,
                    old(common).dimx as int,
                    final(work_offsets)@,
                    #[trigger] final(common).locked.edges@[i],
                ),
            old(common).locked.edges@.len() > 0 ==> step_places(
                old(common).locked.image,
                old(common).locked.edges@,
                (old(common).locked.image.rawdata@, old(common).locked.placed_pixels@),
                old(common).dimy as int,
                old(common).dimx as int,
                *model,
                self.colorcount as int,
                mf_view(self.maxfitness),
                final(work_offsets)@,
                final(common).locked.image.rawdata@,
                final(common).locked.placed_pixels@,
            ),
    {
        // An empty frontier is reseeded with a single fresh seed.
        let ghost reseeded = common.locked.edges@.len() == 0;
        if common.locked.edges.len() == 0 {
            seed_and_extend(1, common, model, rng);
            if common.finished {
                return ;
            }
        }
        // Sample the candidate colors.
        let mut colors: Vec<Color> = Vec::new();
        let mut c: usize = 0;
        while c < self.colorcount
            invariant
                c <= self.colorcount,
                colors@.len() == c,
                model.wf(),
                model.spec_all_full(),
                forall|j: int| 0 <= j < colors@.len() ==> color_wf(#[trigger] colors@[j]),
                forall|j: int|
                    0 <= j < colors@.len() ==> model.model_sample(Some(#[trigger] colors@[j])),
            decreases self.colorcount - c,
        {
            let col = match model.new_color(rng) {
                Some(v) => v,
                None => {
                    proof {
                        assert(false);
                    }
                    crate::color::from_3(0, 0, 0)
                },
            };
            colors.push(col);
            c += 1;
        }
        common.pixels_generated = match common.pixels_generated.checked_add(self.colorcount) {
            Some(v) => v,
            None => usize::MAX,
        };
        // Best-fit selection, split across the configured workers.
        let ghost sel_image = common.locked.image;
        let ghost sel_edges = common.locked.edges@;
        let best = select_best(
            &common.locked.image,
            &common.locked.edges,
            &colors,
            self.workers,
            self.maxfitness,
        );
        // Placement, in shuffled stencil order.
        shuffle_vec(rng, work_offsets);
        let ghost offs = work_offsets@;
        let mut j: usize = 0;
        while j < best.len()
            invariant
                j <= best@.len(),
                best@.len() == colors@.len(),
                common.wf(),
                common.dimy == old(common).dimy,
                common.dimx == old(common).dimx,
                common.size == old(common).size,
                common.rng_seed == old(common).rng_seed,
                common.pixels_placed >= old(common).pixels_placed,
                reseeded ==> common.pixels_placed > old(common).pixels_placed,
                reseeded == (old(common).locked.edges@.len() == 0),
                common.pixels_generated as int == (if reseeded {
                    sat_add_int(
                        sat_add_int(old(common).pixels_generated as int, 1),
                        self.colorcount as int,
                    )
                } else {
                    sat_add_int(old(common).pixels_generated as int, self.colorcount as int)
                }),
                forall|k: int| 0 <= k < colors@.len() ==> color_wf(#[trigger] colors@[k]),
                !common.finished,
                common.pixels_placed + (best@.len() - j) <= common.pixels_generated
                    || common.pixels_generated == usize::MAX,
                offs == work_offsets@,
                offs.to_multiset() == old(work_offsets)@.to_multiset(),
                forall|k: int|
                    0 <= k < colors@.len() ==> model.model_sample(Some(#[trigger] colors@[k])),
                forall|y: int, x: int|
                    0 <= y < old(common).dimy && 0 <= x < old(common).dimx && #[trigger] old(
                        common,
                    ).locked.placed(y, x) ==> common.locked.placed(y, x),
                forall|y: int, x: int|
                    0 <= y < old(common).dimy && 0 <= x < old(common).dimx && old(
                        common,
                    ).locked.placed(y, x) ==> #[trigger] common.locked.image.spec_index(y, x)
                        == old(common).locked.image.spec_index(y, x),
                forall|y: int, x: int|
                    0 <= y < old(common).dimy && 0 <= x < old(common).dimx && !old(
                        common,
                    ).locked.placed(y, x) && #[trigger] common.locked.placed(y, x)
                        ==> model.model_sample(Some(common.locked.image.spec_index(y, x))),
                !reseeded ==> sel_edges == old(common).locked.edges@,
                !reseeded ==> sel_image == old(common).locked.image,
                colors@.len() == self.colorcount,
                !reseeded ==> (common.locked.image.rawdata@, common.locked.placed_pixels@)
                    == place_all(
                    sel_image,
                    sel_edges,
                    (
                        old(common).locked.image.rawdata@,
                        old(common).locked.placed_pixels@,
                    ),
                    old(common).dimy as int,
                    old(common).dimx as int,
                    colors@,
                    mf_view(self.maxfitness),
                    offs,
                    j as int,
                ),
                forall|k: int|
                    0 <= k < sel_edges.len() ==> {
                        let e = #[trigger] sel_edges[k];
                        0 <= e.y < common.dimy && 0 <= e.x < common.dimx
                    },
                forall|k: int|
                    0 <= k < best@.len() ==> best_view(#[trigger] best@[k]) == best_anchor(
                        sel_image,
                        sel_edges,
                        colors@[k],
                        mf_view(self.maxfitness),
                        0,
                        sel_edges.len() as int,
                    ),
                !reseeded ==> forall|y: int, x: int|
                    0 <= y < common.dimy && 0 <= x < common.dimx && !old(common).locked.placed(
                        y,
                        x,
                    ) && #[trigger] common.locked.placed(y, x) ==> grown_from(
                        old(common).locked.edges@,
                        offs,
                        y,
                        x,
                    ),
            decreases best@.len() - j,
        {
            match best[j] {
                None => {},
                Some((pixel, _))  => {
                    let ghost pre = *common;
                    let res = place_pixel_inner(
                        common.dimy,
                        common.dimx,
                        pixel,
                        colors[j],
                        &mut common.locked.image,
                        &mut common.locked.edges,
                        &mut common.locked.placed_pixels,
                        work_offsets,
                    );
                    match res {
                        Ok(loc) => {
                            proof {
                                pre.locked.placed_pixels.lemma_shape();
                                lemma_count_update(
                                    pre.locked.placed_pixels@,
                                    loc.y as int,
                                    loc.x as int,
                                    true,
                                );
                                common.locked.placed_pixels.lemma_shape();
                                lemma_count_rows_prefix_bound(
                                    common.locked.placed_pixels@,
                                    common.locked.placed_pixels@.len() as int,
                                    common.locked.placed_pixels.spec_width(),
                                );
                                assert(count_all(common.locked.placed_pixels@) <= (
                                common.dimy as int) * (common.dimx as int));
                                assert forall|yy: int, xx: int|
                                    0 <= yy < common.dimy && 0 <= xx < common.dimx
                                        && !common.locked.placed(yy, xx)
                                        implies #[trigger] common.locked.image.spec_index(yy, xx)
                                    == (Color { r: 0, g: 0, b: 0, pad: 0 }) by {
                                    assert(!(yy == loc.y as int && xx == loc.x as int));
                                    assert(!pre.locked.placed(yy, xx)) by {
                                        if yy == loc.y as int {
                                            assert(common.locked.placed_pixels@[yy]
                                                == pre.locked.placed_pixels@[loc.y as int].update(
                                                loc.x as int,
                                                true,
                                            ));
                                        } else {
                                            assert(common.locked.placed_pixels@[yy]
                                                == pre.locked.placed_pixels@[yy]);
                                        }
                                    }
                                    assert(common.locked.image.spec_index(yy, xx)
                                        == pre.locked.image.spec_index(yy, xx)) by {
                                        let d = common.dimx as int;
                                        assert(0 <= yy * d + xx < (common.dimy as int) * d)
                                            by (nonlinear_arith)
                                            requires
                                                0 <= yy < common.dimy as int,
                                                0 <= xx < d,
                                        ;
                                        assert(yy * d + xx != (loc.y as int) * d + (loc.x as int))
                                            by (nonlinear_arith)
                                            requires
                                                0 <= yy,
                                                0 <= xx < d,
                                                0 <= (loc.x as int) < d,
                                                !(yy == loc.y as int && xx == loc.x as int),
                                                0 <= loc.y as int,
                                        ;
                                        assert(pre.locked.image.rawdata@.len() == (
                                        common.dimy as int) * d);
                                        assert(common.locked.image.dimx == d
                                            && pre.locked.image.dimx == d);
                                        assert(common.locked.image.rawdata@
                                            == pre.locked.image.rawdata@.update(
                                            (loc.y as int) * d + (loc.x as int),
                                            colors@[j as int],
                                        ));
                                        assert(0 <= (loc.y as int) * d + (loc.x as int) < (
                                        common.dimy as int) * d) by (nonlinear_arith)
                                            requires
                                                0 <= (loc.y as int) < common.dimy as int,
                                                0 <= (loc.x as int) < d,
                                        ;
                                        assert(pre.locked.image.rawdata@.update(
                                            (loc.y as int) * d + (loc.x as int),
                                            colors@[j as int],
                                        )[yy * d + xx] == pre.locked.image.rawdata@[yy * d + xx]);
                                        assert(common.locked.image.rawdata@[yy * d + xx]
                                            == pre.locked.image.rawdata@[yy * d + xx]);
                                    }
                                }
                            }
                            proof {
                                pre.locked.placed_pixels.lemma_shape();
                                lemma_image_frame(
                                    pre.locked.image,
                                    common.locked.image,
                                    common.dimy as int,
                                    common.dimx as int,
                                    loc.y as int,
                                    loc.x as int,
                                    colors@[j as int],
                                );
                                lemma_mask_frame(
                                    pre.locked.placed_pixels@,
                                    common.locked.placed_pixels@,
                                    loc.y as int,
                                    loc.x as int,
                                );
                                assert forall|y: int, x: int|
                                    0 <= y < old(common).dimy && 0 <= x < old(common).dimx && old(
                                        common,
                                    ).locked.placed(y, x)
                                        implies #[trigger] common.locked.image.spec_index(y, x)
                                    == old(common).locked.image.spec_index(y, x) by {
                                    assert(pre.locked.placed(y, x));
                                    assert(!(y == loc.y as int && x == loc.x as int));
                                    assert(common.locked.image.spec_index(y, x)
                                        == pre.locked.image.spec_index(y, x));
                                }
                                assert forall|y: int, x: int|
                                    0 <= y < old(common).dimy && 0 <= x < old(common).dimx && !old(
                                        common,
                                    ).locked.placed(y, x)
                                        && #[trigger] common.locked.placed(y, x)
                                        implies model.model_sample(
                                    Some(common.locked.image.spec_index(y, x)),
                                ) by {
                                    if y == loc.y as int && x == loc.x as int {
                                        assert(common.locked.image.spec_index(y, x)
                                            == colors@[j as int]);
                                        assert(model.model_sample(Some(colors@[j as int])));
                                    } else {
                                        assert(common.locked.placed_pixels@[y][x]
                                            == pre.locked.placed_pixels@[y][x]);
                                        assert(pre.locked.placed(y, x));
                                        assert(common.locked.image.spec_index(y, x)
                                            == pre.locked.image.spec_index(y, x));
                                        assert(model.model_sample(
                                            Some(pre.locked.image.spec_index(y, x)),
                                        ));
                                    }
                                }
                                if !reseeded {
                                    lemma_first_open_reaches(
                                        pre.locked.placed_pixels@,
                                        common.dimy as int,
                                        common.dimx as int,
                                        pixel,
                                        offs,
                                    );
                                    lemma_best_anchor_member(
                                        sel_image,
                                        sel_edges,
                                        colors@[j as int],
                                        mf_view(self.maxfitness),
                                        0,
                                        sel_edges.len() as int,
                                    );
                                    assert(grown_from(
                                        old(common).locked.edges@,
                                        offs,
                                        loc.y as int,
                                        loc.x as int,
                                    )) by {
                                        let i = choose|i: int|
                                            0 <= i < sel_edges.len() && #[trigger] sel_edges[i]
                                                == pixel;
                                        assert(sel_edges[i] == pixel);
                                        assert(reaches(pixel, offs, loc.y as int, loc.x as int));
                                        assert(0 <= i < old(common).locked.edges@.len()
                                            && reaches(
                                            old(common).locked.edges@[i],
                                            offs,
                                            loc.y as int,
                                            loc.x as int,
                                        ));
                                    }
                                    assert forall|y: int, x: int|
                                        0 <= y < common.dimy && 0 <= x < common.dimx && !old(
                                            common,
                                        ).locked.placed(y, x)
                                            && #[trigger] common.locked.placed(y, x)
                                            implies grown_from(
                                        old(common).locked.edges@,
                                        offs,
                                        y,
                                        x,
                                    ) by {
                                        if y == loc.y as int && x == loc.x as int {
                                        } else {
                                            assert(common.locked.placed(y, x) == pre.locked.placed(
                                                y,
                                                x,
                                            )) by {
                                                if y == loc.y as int {
                                                    assert(common.locked.placed_pixels@[y]
                                                        == pre.locked.placed_pixels@[loc.y as int].update(
                                                        loc.x as int,
                                                        true,
                                                    ));
                                                } else {
                                                    assert(common.locked.placed_pixels@[y]
                                                        == pre.locked.placed_pixels@[y]);
                                                }
                                            }
                                        }
                                    }
                                    assert((
                                        common.locked.image.rawdata@,
                                        common.locked.placed_pixels@,
                                    ) == place_all(
                                        sel_image,
                                        sel_edges,
                                        (
                                            old(common).locked.image.rawdata@,
                                            old(common).locked.placed_pixels@,
                                        ),
                                        old(common).dimy as int,
                                        old(common).dimx as int,
                                        colors@,
                                        mf_view(self.maxfitness),
                                        offs,
                                        j as int + 1,
                                    )) by {
                                        assert(best_anchor(
                                            sel_image,
                                            sel_edges,
                                            colors@[j as int],
                                            mf_view(self.maxfitness),
                                            0,
                                            sel_edges.len() as int,
                                        ) matches Some((bp, bf)) && bp == pixel);
                                    }
                                }
                            }
                            common.pixels_placed = common.pixels_placed + 1;
                        },
                        Err(()) => {
                            // Transient placement miss: the anchor had no
                            // open neighbor; tolerated and skipped.
                        },
                    }
                },
            }
            j += 1;
        }
        let ghost placed_after = common.locked.placed_pixels@;
        let ghost image_after = common.locked.image;
        proof {
            if !reseeded {
                assert forall|y: int, x: int|
                    0 <= y < common.dimy && 0 <= x < common.dimx && !old(common).locked.placed(
                        y,
                        x,
                    ) && #[trigger] placed_after[y][x] implies grown_from(
                    old(common).locked.edges@,
                    offs,
                    y,
                    x,
                ) by {
                    assert(common.locked.placed(y, x));
                }
            }
            assert forall|y: int, x: int|
                0 <= y < common.dimy && 0 <= x < common.dimx && old(common).locked.placed(y, x)
                    implies #[trigger] image_after.spec_index(y, x) == old(
                common,
            ).locked.image.spec_index(y, x) by {
                assert(common.locked.image.spec_index(y, x) == old(
                    common,
                ).locked.image.spec_index(y, x));
            }
            assert forall|y: int, x: int|
                0 <= y < common.dimy && 0 <= x < common.dimx && !old(common).locked.placed(y, x)
                    && #[trigger] placed_after[y][x] implies model.model_sample(
                Some(image_after.spec_index(y, x)),
            ) by {
                assert(common.locked.placed(y, x));
                assert(model.model_sample(Some(common.locked.image.spec_index(y, x))));
            }
        }
        if common.pixels_placed == common.size {
            common.finished = true;
        } else {
            let ghost pre_edges = common.locked.edges@;
            proof {
                common.locked.placed_pixels.lemma_shape();
            }
            validate_inner_edges(
                common.dimy,
                common.dimx,
                &mut common.locked.edges,
                &common.locked.placed_pixels,
                work_offsets,
            );
            proof {
                lemma_kept_edges_sub(
                    pre_edges,
                    common.locked.placed_pixels@,
                    common.dimy as int,
                    common.dimx as int,
                    work_offsets@,
                );
                assert forall|i: int|
                    0 <= i < common.locked.edges@.len() implies {
                    let e = #[trigger] common.locked.edges@[i];
                    &&& 0 <= e.y < common.dimy
                    &&& 0 <= e.x < common.dimx
                    &&& common.locked.placed(e.y as int, e.x as int)
                } by {
                    let e = common.locked.edges@[i];
                    assert(common.locked.edges@.contains(e)) by {
                        assert(common.locked.edges@[i] == e);
                    }
                    assert(pre_edges.contains(e));
                    let k = choose|k: int| 0 <= k < pre_edges.len() && pre_edges[k] == e;
                    assert(keep_edge(
                        common.locked.placed_pixels@,
                        common.dimy as int,
                        common.dimx as int,
                        work_offsets@,
                        e,
                    ));
                }
                assert forall|i: int|
                    0 <= i < common.locked.edges@.len() implies keep_edge(
                    common.locked.placed_pixels@,
                    common.dimy as int,
                    common.dimx as int,
                    work_offsets@,
                    #[trigger] common.locked.edges@[i],
                ) by {
                    let e = common.locked.edges@[i];
                    assert(common.locked.edges@.contains(e)) by {
                        assert(common.locked.edges@[i] == e);
                    }
                }
            }
        }
        proof {
            if !reseeded {
                assert(step_places(
                    old(common).locked.image,
                    old(common).locked.edges@,
                    (old(common).locked.image.rawdata@, old(common).locked.placed_pixels@),
                    old(common).dimy as int,
                    old(common).dimx as int,
                    *model,
                    self.colorcount as int,
                    mf_view(self.maxfitness),
                    work_offsets@,
                    common.locked.image.rawdata@,
                    common.locked.placed_pixels@,
                )) by {
                    assert(cands_yield(
                        old(common).locked.image,
                        old(common).locked.edges@,
                        (old(common).locked.image.rawdata@, old(common).locked.placed_pixels@),
                        old(common).dimy as int,
                        old(common).dimx as int,
                        *model,
                        self.colorcount as int,
                        mf_view(self.maxfitness),
                        work_offsets@,
                        colors@,
                        common.locked.image.rawdata@,
                        common.locked.placed_pixels@,
                    ));
                }
            }
        }
    }
}

/// A private working copy of the stencil, for shuffling between steps.
fn copy_offsets(v: &Vec<Offset>) -> (r: Vec<Offset>)
    ensures
        r@ == v@,
{
    let mut out: Vec<Offset> = Vec::new();
    let mut i: usize = 0;
    while i < v.len()
        invariant
            i <= v@.len(),
            out@ == v@.take(i as int),
        decreases v@.len() - i,
    {
        proof {
            assert(v@.take(i as int + 1) =~= v@.take(i as int).push(v@[i as int]));
        }
        out.push(v[i]);
        i += 1;
    }
    proof {
        assert(v@.take(v@.len() as int) =~= v@);
    }
    out
}

/// An unsigned whole number for a count option.
pub open spec fn parse_usize_spec(s: Seq<char>) -> Option<int> {
    if s.len() == 0 || !all_digits(s) {
        None
    } else {
        let v = digits_val(s, s.len() as int);
        if v > usize::MAX {
            None
        } else {
            Some(v)
        }
    }
}

pub(crate) fn parse_usize_pub(cs: &Vec<char>) -> (r: Option<usize>)
    ensures
        match r {
            Some(v) => parse_usize_spec(cs@) == Some(v as int),
            None => parse_usize_spec(cs@) is None,
        },
{
    let n = cs.len();
    if n == 0 {
        return None;
    }
    let mut j: usize = 0;
    let mut val: usize = 0;
    let mut sat = false;
    while j < n
        invariant
            j <= n,
            n == cs@.len(),
            forall|q: int| 0 <= q < j ==> crate::color::is_digit(#[trigger] cs@[q]),
            !sat ==> val == digits_val(cs@, j as int),
            sat ==> digits_val(cs@, j as int) > usize::MAX,
        decreases n - j,
    {
        let c = cs[j];
        if !('0' <= c && c <= '9') {
            return None;
        }
        let d: usize = ((c as u64) - 48) as usize;
        proof {
            assert(digits_val(cs@, j as int + 1) == digits_val(cs@, j as int) * 10
                + crate::color::digit_val(cs@[j as int]));
            if sat {
                crate::color::lemma_digits_val_mono_pub(cs@, j as int, j as int + 1);
            }
        }
        if sat {
        } else {
            let next = match val.checked_mul(10) {
                Some(m) => m.checked_add(d),
                None => None,
            };
            match next {
                Some(v) => {
                    val = v;
                },
                None => {
                    sat = true;
                },
            }
        }
        j += 1;
    }
    if sat {
        None
    } else {
        Some(val)
    }
}

/// The stencil named by one `-O` argument: a preset letter or a literal
/// `dx,dy` pair.
pub open spec fn offsets_of(s: Seq<char>) -> Option<Seq<Offset>> {
    if s == "n"@ {
        Some(normal_offsets_ghost())
    } else if s == "o"@ {
        Some(orthogonal_offsets_ghost())
    } else if s == "d"@ {
        Some(diagonal_offsets_ghost())
    } else if s == "k"@ {
        Some(knight_offsets_ghost())
    } else {
        match parse_offset_spec(s) {
            Some(o) => Some(seq![o]),
            None => None,
        }
    }
}

/// A configuration fault in the generator options.
#[derive(Debug, Clone, Copy, PartialEq, Eq, Structural)]
pub enum GenError {
    /// A count option was given twice.
    Duplicate,
    /// A count or fitness argument does not parse, or a count is zero.
    BadValue,
    /// An `-O` argument is neither a preset letter nor a `dx,dy` pair.
    BadOffset,
    /// The outer-growth mode is not available.
    Unsupported,
}

/// The gathering generator configuration: each option as given, or unset.
pub struct GeneratorSettings {
    pub seeds: Option<int>,
    pub offsets: Option<Seq<Offset>>,
    pub workers: Option<int>,
    pub colorcount: Option<int>,
    pub maxfitness: Option<int>,
}

pub open spec fn gen_state0() -> GeneratorSettings {
    GeneratorSettings { seeds: None, offsets: None, workers: None, colorcount: None, maxfitness: None }
}

/// One option's effect on the gathering generator configuration.
pub open spec fn apply_gen_item(st: GeneratorSettings, it: ItemGhost) -> Result<
    GeneratorSettings,
    GenError,
> {
    match it {
        ItemGhost::Opt { opt, arg } => {
            if opt.long == Some("seeds"@) && arg is Some {
                match parse_usize_spec(arg->0) {
                    Some(v) => if v < 1 {
                        Err(GenError::BadValue)
                    } else if st.seeds is Some {
                        Err(GenError::Duplicate)
                    } else {
                        Ok(GeneratorSettings { seeds: Some(v), ..st })
                    },
                    None => Err(GenError::BadValue),
                }
            } else if opt.long == Some("offsets"@) && arg is Some {
                match offsets_of(arg->0) {
                    Some(os) => Ok(
                        GeneratorSettings {
                            offsets: Some(
                                match st.offsets {
                                    Some(cur) => cur + os,
                                    None => os,
                                },
                            ),
                            ..st
                        },
                    ),
                    None => Err(GenError::BadOffset),
                }
            } else if opt.long == Some("workers"@) && arg is Some {
                match parse_usize_spec(arg->0) {
                    Some(v) => if v < 1 {
                        Err(GenError::BadValue)
                    } else if st.workers is Some {
                        Err(GenError::Duplicate)
                    } else {
                        Ok(GeneratorSettings { workers: Some(v), ..st })
                    },
                    None => Err(GenError::BadValue),
                }
            } else if opt.long == Some("colorcount"@) && arg is Some {
                match parse_usize_spec(arg->0) {
                    Some(v) => if v < 1 {
                        Err(GenError::BadValue)
                    } else if st.colorcount is Some {
                        Err(GenError::Duplicate)
                    } else {
                        Ok(GeneratorSettings { colorcount: Some(v), ..st })
                    },
                    None => Err(GenError::BadValue),
                }
            } else if opt.long == Some("maxfitness"@) && arg is Some {
                match parse_fixed_spec(arg->0) {
                    Some(v) => if st.maxfitness is Some {
                        Err(GenError::Duplicate)
                    } else {
                        Ok(GeneratorSettings { maxfitness: Some(v * (UNIT as int)), ..st })
                    },
                    None => Err(GenError::BadValue),
                }
            } else if opt.long == Some("outer"@) && arg is None {
                Err(GenError::Unsupported)
            } else {
                Ok(st)
            }
        },
        ItemGhost::NonOpt(_) => Ok(st),
    }
}

/// The generator configuration after the first `n` parsed options.
pub open spec fn gen_fold(items: Seq<ItemGhost>, n: int) -> Result<GeneratorSettings, GenError>
    decreases n,
{
    if n <= 0 {
        Ok(gen_state0())
    } else {
        match gen_fold(items, n - 1) {
            Err(e) => Err(e),
            Ok(st) => apply_gen_item(st, items[n - 1]),
        }
    }
}

proof fn lemma_gen_fold_err_persists(items: Seq<ItemGhost>, k: int)
    requires
        0 < k <= items.len(),
        gen_fold(items, k) is Err,
    ensures
        gen_fold(items, items.len() as int) == gen_fold(items, k),
    decreases items.len() - k,
{
    if k < items.len() {
        lemma_gen_fold_err_persists(items, k + 1);
    }
}

/// The six option names are pairwise distinct character sequences.
proof fn lemma_gen_option_names_distinct()
    ensures
        "seeds"@ != "offsets"@ && "seeds"@ != "workers"@ && "seeds"@ != "colorcount"@ && "seeds"@
            != "maxfitness"@ && "seeds"@ != "outer"@,
        "offsets"@ != "workers"@ && "offsets"@ != "colorcount"@ && "offsets"@ != "maxfitness"@
            && "offsets"@ != "outer"@,
        "workers"@ != "colorcount"@ && "workers"@ != "maxfitness"@ && "workers"@ != "outer"@,
        "colorcount"@ != "maxfitness"@ && "colorcount"@ != "outer"@,
        "maxfitness"@ != "outer"@,
{
    reveal_strlit("seeds");
    reveal_strlit("offsets");
    reveal_strlit("workers");
    reveal_strlit("colorcount");
    reveal_strlit("maxfitness");
    reveal_strlit("outer");
    assert("seeds"@.len() == 5 && "outer"@.len() == 5 && "offsets"@.len() == 7 && "workers"@.len()
        == 7 && "colorcount"@.len() == 10 && "maxfitness"@.len() == 10);
    assert("seeds"@[0] == 's' && "outer"@[0] == 'o');
    assert("offsets"@[0] == 'o' && "workers"@[0] == 'w');
    assert("colorcount"@[0] == 'c' && "maxfitness"@[0] == 'm');
}

/// The options this module recognizes.
pub fn opts() -> (r: Vec<Opt>)
    ensures
        r@.len() == 6,
        r@[0]@ == (OptGhost { short: Some('e'), long: Some("seeds"@), has_argument: HasArgument::Yes }),
        r@[1]@ == (OptGhost {
            short: Some('O'),
            long: Some("offsets"@),
            has_argument: HasArgument::Yes,
        }),
        r@[2]@ == (OptGhost {
            short: Some('w'),
            long: Some("workers"@),
            has_argument: HasArgument::Yes,
        }),
        r@[3]@ == (OptGhost {
            short: Some('C'),
            long: Some("colorcount"@),
            has_argument: HasArgument::Yes,
        }),
        r@[4]@ == (OptGhost { short: None, long: Some("maxfitness"@), has_argument: HasArgument::Yes }),
        r@[5]@ == (OptGhost { short: None, long: Some("outer"@), has_argument: HasArgument::No }),
{
    let mut r: Vec<Opt> = Vec::new();
    r.push(Opt::short_long('e', "seeds", HasArgument::Yes));
    r.push(Opt::short_long('O', "offsets", HasArgument::Yes));
    r.push(Opt::short_long('w', "workers", HasArgument::Yes));
    r.push(Opt::short_long('C', "colorcount", HasArgument::Yes));
    r.push(Opt::long("maxfitness", HasArgument::Yes));
    r.push(Opt::long("outer", HasArgument::No));
    r
}

/// Builds the generator the parsed options ask for; unset counts default to
/// one, an unset stencil to the 8-neighborhood.
#[verifier::rlimit(100)]
#[verifier::spinoff_prover]
pub fn handle_opts(items: &Vec<GetoptItem>) -> (r: Result<InnerGenerator, GenError>)
    ensures
        ({
            let folded = gen_fold(crate::getopt::items_view(items@), items@.len() as int);
            match folded {
                Err(e) => r == Err::<InnerGenerator, GenError>(e),
                Ok(st) => {
                    &&& r matches Ok(g)
                    &&& g.seeds as int == match st.seeds {
                        Some(v) => v,
                        None => 1,
                    }
                    &&& g.offsets@ == match st.offsets {
                        Some(os) => os,
                        None => normal_offsets_ghost(),
                    }
                    &&& g.workers as int == match st.workers {
                        Some(v) => v,
                        None => 1,
                    }
                    &&& g.colorcount as int == match st.colorcount {
                        Some(v) => v,
                        None => 1,
                    }
                    &&& match (g.maxfitness, st.maxfitness) {
                        (Some(a), Some(b)) => a as int == b,
                        (None, None) => true,
                        _ => false,
                    }
                },
            }
        }),
        r matches Ok(g) ==> g.wf(),
{
    let ghost iv = crate::getopt::items_view(items@);
    let mut seeds: Option<usize> = None;
    let mut offsets: Option<Vec<Offset>> = None;
    let mut workers: Option<usize> = None;
    let mut colorcount: Option<usize> = None;
    let mut maxfitness: Option<i64> = None;
    let mut i: usize = 0;
    while i < items.len()
        invariant
            i <= items@.len(),
            iv == crate::getopt::items_view(items@),
            gen_fold(iv, i as int) == Ok::<GeneratorSettings, GenError>(
                GeneratorSettings {
                    seeds: match seeds {
                        Some(v) => Some(v as int),
                        None => None,
                    },
                    offsets: match offsets {
                        Some(ref os) => Some(os@),
                        None => None,
                    },
                    workers: match workers {
                        Some(v) => Some(v as int),
                        None => None,
                    },
                    colorcount: match colorcount {
                        Some(v) => Some(v as int),
                        None => None,
                    },
                    maxfitness: match maxfitness {
                        Some(v) => Some(v as int),
                        None => None,
                    },
                },
            ),
            match seeds {
                Some(v) => v >= 1,
                None => true,
            },
            match workers {
                Some(v) => v >= 1,
                None => true,
            },
            match colorcount {
                Some(v) => v >= 1,
                None => true,
            },
            match offsets {
                Some(ref os) => os@.len() >= 1,
                None => true,
            },
        decreases items@.len() - i,
    {
        let ghost st = GeneratorSettings {
            seeds: match seeds {
                Some(v) => Some(v as int),
                None => None,
            },
            offsets: match offsets {
                Some(ref os) => Some(os@),
                None => None,
            },
            workers: match workers {
                Some(v) => Some(v as int),
                None => None,
            },
            colorcount: match colorcount {
                Some(v) => Some(v as int),
                None => None,
            },
            maxfitness: match maxfitness {
                Some(v) => Some(v as int),
                None => None,
            },
        };
        proof {
            assert(iv[i as int] == items@[i as int]@);
            lemma_gen_option_names_distinct();
        }
        match &items[i] {
            GetoptItem::Opt { opt, arg } => {
                if opt.is_long("seeds") {
                    match arg {
                        Some(a) => {
                            let cs = crate::getopt::chars_of(a.as_str());
                            match parse_usize_pub(&cs) {
                                Some(v) if v >= 1 => {
                                    if seeds.is_some() {
                                        proof {
                                            lemma_gen_fold_err_persists(iv, i as int + 1);
                                        }
                                        return Err(GenError::Duplicate);
                                    }
                                    seeds = Some(v);
                                },
                                _ => {
                                    proof {
                                        lemma_gen_fold_err_persists(iv, i as int + 1);
                                    }
                                    return Err(GenError::BadValue);
                                },
                            }
                        },
                        None => {},
                    }
                } else if opt.is_long("offsets") {
                    match arg {
                        Some(a) => {
                            let next = if crate::getopt::str_eq(a.as_str(), "n") {
                                normal_offsets()
                            } else if crate::getopt::str_eq(a.as_str(), "o") {
                                orthogonal_offsets()
                            } else if crate::getopt::str_eq(a.as_str(), "d") {
                                diagonal_offsets()
                            } else if crate::getopt::str_eq(a.as_str(), "k") {
                                knight_offsets()
                            } else {
                                match parse_offset(a.as_str()) {
                                    Some(o) => {
                                        let mut v: Vec<Offset> = Vec::new();
                                        v.push(o);
                                        proof {
                                            assert(v@ =~= seq![o]);
                                        }
                                        v
                                    },
                                    None => {
                                        proof {
                                            lemma_gen_fold_err_persists(iv, i as int + 1);
                                        }
                                        return Err(GenError::BadOffset);
                                    },
                                }
                            };
                            match offsets {
                                Some(ref mut cur) => {
                                    let ghost curv = cur@;
                                    let mut next_m = next;
                                    cur.append(&mut next_m);
                                    proof {
                                        assert(cur@ == curv + offsets_of(a@)->0);
                                    }
                                },
                                None => {
                                    offsets = Some(next);
                                },
                            }
                        },
                        None => {},
                    }
                } else if opt.is_long("workers") {
                    match arg {
                        Some(a) => {
                            let cs = crate::getopt::chars_of(a.as_str());
                            match parse_usize_pub(&cs) {
                                Some(v) if v >= 1 => {
                                    if workers.is_some() {
                                        proof {
                                            lemma_gen_fold_err_persists(iv, i as int + 1);
                                        }
                                        return Err(GenError::Duplicate);
                                    }
                                    workers = Some(v);
                                },
                                _ => {
                                    proof {
                                        lemma_gen_fold_err_persists(iv, i as int + 1);
                                    }
                                    return Err(GenError::BadValue);
                                },
                            }
                        },
                        None => {},
                    }
                } else if opt.is_long("colorcount") {
                    match arg {
                        Some(a) => {
                            let cs = crate::getopt::chars_of(a.as_str());
                            match parse_usize_pub(&cs) {
                                Some(v) if v >= 1 => {
                                    if colorcount.is_some() {
                                        proof {
                                            lemma_gen_fold_err_persists(iv, i as int + 1);
                                        }
                                        return Err(GenError::Duplicate);
                                    }
                                    colorcount = Some(v);
                                },
                                _ => {
                                    proof {
                                        lemma_gen_fold_err_persists(iv, i as int + 1);
                                    }
                                    return Err(GenError::BadValue);
                                },
                            }
                        },
                        None => {},
                    }
                } else if opt.is_long("maxfitness") {
                    match arg {
                        Some(a) => {
                            let cs = crate::getopt::chars_of(a.as_str());
                            match crate::color::parse_fixed_pub(&cs) {
                                Some(v) => {
                                    if maxfitness.is_some() {
                                        proof {
                                            lemma_gen_fold_err_persists(iv, i as int + 1);
                                        }
                                        return Err(GenError::Duplicate);
                                    }
                                    proof {
                                        crate::color::lemma_parse_fixed_bounded_pub(cs@, v as int);
                                        assert(-CHAN_LIMIT * UNIT <= v * UNIT <= CHAN_LIMIT
                                            * UNIT) by (nonlinear_arith)
                                            requires -CHAN_LIMIT <= v <= CHAN_LIMIT, UNIT == 65536;
                                    }
                                    maxfitness = Some(v * UNIT);
                                },
                                None => {
                                    proof {
                                        lemma_gen_fold_err_persists(iv, i as int + 1);
                                    }
                                    return Err(GenError::BadValue);
                                },
                            }
                        },
                        None => {},
                    }
                } else if opt.is_long("outer") {
                    match arg {
                        Some(_) => {},
                        None => {
                            proof {
                                lemma_gen_fold_err_persists(iv, i as int + 1);
                            }
                            return Err(GenError::Unsupported);
                        },
                    }
                }
            },
            GetoptItem::NonOpt(_) => {},
        }
        proof {
            let new_st = GeneratorSettings {
                seeds: match seeds {
                    Some(v) => Some(v as int),
                    None => None,
                },
                offsets: match offsets {
                    Some(ref os) => Some(os@),
                    None => None,
                },
                workers: match workers {
                    Some(v) => Some(v as int),
                    None => None,
                },
                colorcount: match colorcount {
                    Some(v) => Some(v as int),
                    None => None,
                },
                maxfitness: match maxfitness {
                    Some(v) => Some(v as int),
                    None => None,
                },
            };
            assert(apply_gen_item(st, iv[i as int]) == Ok::<GeneratorSettings, GenError>(new_st));
        }
        i += 1;
    }
    let g = InnerGenerator {
        seeds: match seeds {
            Some(v) => v,
            None => 1,
        },
        offsets: match offsets {
            Some(os) => os,
            None => normal_offsets(),
        },
        workers: match workers {
            Some(v) => v,
            None => 1,
        },
        colorcount: match colorcount {
            Some(v) => v,
            None => 1,
        },
        maxfitness,
    };
    Ok(g)
}

} // verus!
