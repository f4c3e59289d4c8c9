//! The color model: colors as fixed-point vectors, and vector-set sampling.
//!
//! A channel value of [`UNIT`] stands for full intensity 1.0; channels are
//! held as signed fixed-point numbers so that every computation is exact.

use vstd::prelude::*;
use crate::getopt::{GetoptItem, HasArgument, ItemGhost, Opt, OptGhost};
use crate::rng::rng_below;

verus! {

/// The fixed-point scale: this channel value stands for intensity 1.0.
pub const UNIT: i64 = 65536;

/// The largest channel magnitude a color model may reach (256.0 in intensity
/// units): keeps every fitness computation inside `i64`.
pub const CHAN_LIMIT: i64 = 16777216;

/// A color: four fixed-point lanes, `(r, g, b, pad)`; the last lane is
/// padding and takes no part in fitness.
#[derive(Debug, Clone, Copy, PartialEq, Eq, Structural)]
pub struct Color {
    pub r: i64,
    pub g: i64,
    pub b: i64,
    pub pad: i64,
}

/// Lane `k` of the color.
pub open spec fn chan(c: Color, k: int) -> int {
    if k == 0 {
        c.r as int
    } else if k == 1 {
        c.g as int
    } else if k == 2 {
        c.b as int
    } else {
        c.pad as int
    }
}

/// Every lane within the model's magnitude limit.
pub open spec fn color_wf(c: Color) -> bool {
    forall|k: int| 0 <= k < 4 ==> -CHAN_LIMIT <= #[trigger] chan(c, k) <= CHAN_LIMIT
}

/// A color from three channel values; the padding lane is zero.
pub fn from_3(r: i64, g: i64, b: i64) -> (c: Color)
    ensures
        c == (Color { r, g, b, pad: 0 }),
{
    Color { r, g, b, pad: 0 }
}

pub fn zero_color() -> (c: Color)
    ensures
        c == (Color { r: 0, g: 0, b: 0, pad: 0 }),
        color_wf(c),
{
    Color { r: 0, g: 0, b: 0, pad: 0 }
}

/// How the multipliers of a vector set are drawn.
#[derive(Debug, Clone, Copy, PartialEq, Eq, Structural)]
pub enum VectorSetKind {
    /// Each multiplier uniform on `[0, 1]`, independent.
    Full,
    /// Multipliers nonnegative with sum at most one.
    Triangular,
    /// Multipliers nonnegative with sum exactly one.
    SumOne,
}

impl Default for VectorSetKind {
    fn default() -> (r: Self)
        ensures
            r == VectorSetKind::Full,
    {
        VectorSetKind::Full
    }
}

/// One sampling distribution: colors are `start + sum(vectors[i] * m_i)`,
/// the multipliers drawn by `kind`.
#[derive(Debug, Clone, PartialEq)]
pub struct VectorSet {
    pub start: Color,
    pub vectors: Vec<Color>,
    /// Weight of this set inside a group; at least one.
    pub chance: usize,
    pub kind: VectorSetKind,
}

/// The abstract value of a [`VectorSet`].
pub struct VectorSetGhost {
    pub start: Color,
    pub vectors: Seq<Color>,
    pub chance: int,
    pub kind: VectorSetKind,
}

impl View for VectorSet {
    type V = VectorSetGhost;

    open spec fn view(&self) -> VectorSetGhost {
        VectorSetGhost {
            start: self.start,
            vectors: self.vectors@,
            chance: self.chance as int,
            kind: self.kind,
        }
    }
}

/// The sum of the magnitudes of lane `k` over the first `n` vectors.
pub open spec fn abs_budget(vs: Seq<Color>, k: int, n: int) -> int
    decreases n,
{
    if n <= 0 {
        0
    } else {
        abs_budget(vs, k, n - 1) + abs_of(chan(vs[n - 1], k))
    }
}

pub open spec fn abs_of(x: int) -> int {
    if x >= 0 {
        x
    } else {
        -x
    }
}

/// A vector set whose samples always stay inside the channel limit: the
/// start plus the whole budget of any lane fits.
pub open spec fn vector_set_wf(v: VectorSetGhost) -> bool {
    &&& v.chance >= 1
    &&& forall|k: int|
        0 <= k < 4 ==> abs_of(chan(v.start, k)) + #[trigger] abs_budget(
            v.vectors,
            k,
            v.vectors.len() as int,
        ) <= CHAN_LIMIT
}

/// A group of vector sets with their precomputed total weight.
#[derive(Debug, Clone, PartialEq)]
pub struct VectorSetGroup {
    pub vectorsets: Vec<VectorSet>,
    /// Equals the sum of the members' chances; at least one.
    pub total_chance: usize,
}

pub open spec fn sets_view(v: Seq<VectorSet>) -> Seq<VectorSetGhost> {
    v.map_values(|s: VectorSet| s@)
}

/// The sum of the chances of the first `n` sets.
pub open spec fn chance_sum(sets: Seq<VectorSetGhost>, n: int) -> int
    decreases n,
{
    if n <= 0 {
        0
    } else {
        chance_sum(sets, n - 1) + sets[n - 1].chance
    }
}

pub open spec fn group_wf(g: VectorSetGroup) -> bool {
    &&& g.vectorsets@.len() >= 1
    &&& forall|j: int|
        0 <= j < g.vectorsets@.len() ==> vector_set_wf(#[trigger] sets_view(g.vectorsets@)[j])
    &&& g.total_chance == chance_sum(sets_view(g.vectorsets@), g.vectorsets@.len() as int)
    &&& g.total_chance >= 1
}

impl VectorSetGroup {
    /// Builds a group, computing the total weight; a list whose weights sum
    /// to zero (in particular an empty list) is handed back unchanged.
    pub fn new(vectorsets: Vec<VectorSet>) -> (r: Result<VectorSetGroup, Vec<VectorSet>>)
        requires
            chance_sum(sets_view(vectorsets@), vectorsets@.len() as int) <= usize::MAX,
            forall|j: int| 0 <= j < vectorsets@.len() ==> (#[trigger] vectorsets@[j])@.chance >= 0,
        ensures
            match r {
                Ok(g) => {
                    &&& g.vectorsets@ == vectorsets@
                    &&& g.total_chance == chance_sum(
                        sets_view(vectorsets@),
                        vectorsets@.len() as int,
                    )
                    &&& g.total_chance >= 1
                },
                Err(v) => {
                    &&& v@ == vectorsets@
                    &&& chance_sum(sets_view(vectorsets@), vectorsets@.len() as int) == 0
                },
            },
    {
        let ghost sv = sets_view(vectorsets@);
        proof {
            assert forall|jj: int| 0 <= jj < sv.len() implies (#[trigger] sv[jj]).chance >= 0 by {
                assert(sv[jj] == vectorsets@[jj]@);
            }
            lemma_chance_sum_mono(sv, 0, sv.len() as int);
        }
        let mut total: usize = 0;
        let mut j: usize = 0;
        while j < vectorsets.len()
            invariant
                j <= vectorsets@.len(),
                sv == sets_view(vectorsets@),
                chance_sum(sv, vectorsets@.len() as int) <= usize::MAX,
                forall|jj: int| 0 <= jj < vectorsets@.len() ==> (#[trigger] vectorsets@[jj])@.chance
                    >= 0,
                total == chance_sum(sv, j as int),
                total <= chance_sum(sv, vectorsets@.len() as int),
            decreases vectorsets@.len() - j,
        {
            proof {
                assert(sv[j as int] == vectorsets@[j as int]@);
                lemma_chance_sum_mono(sv, j as int + 1, vectorsets@.len() as int);
            }
            total += vectorsets[j].chance;
            j += 1;
        }
        if total == 0 {
            Err(vectorsets)
        } else {
            Ok(VectorSetGroup { vectorsets, total_chance: total })
        }
    }
}

/// Prefix sums of nonnegative chances grow with the prefix.
proof fn lemma_chance_sum_mono(sets: Seq<VectorSetGhost>, a: int, b: int)
    requires
        a <= b <= sets.len(),
        forall|j: int| 0 <= j < sets.len() ==> (#[trigger] sets[j]).chance >= 0,
    ensures
        chance_sum(sets, a) <= chance_sum(sets, b),
    decreases b - a,
{
    if a < b {
        lemma_chance_sum_mono(sets, a, b - 1);
    }
}

/// Scales lane value `v` by `m / UNIT` with `0 <= m <= UNIT`, rounding toward
/// zero; the result never exceeds `v` in magnitude.
pub open spec fn spec_scale(v: int, m: int) -> int {
    if v >= 0 {
        (v * m) / (UNIT as int)
    } else {
        -((-v * m) / (UNIT as int))
    }
}

fn scale_channel(v: i64, m: u64) -> (r: i64)
    requires
        -CHAN_LIMIT <= v <= CHAN_LIMIT,
        m <= UNIT,
    ensures
        r == spec_scale(v as int, m as int),
        abs_of(r as int) <= abs_of(v as int),
{
    let mag: i64 = if v >= 0 {
        v
    } else {
        -v
    };
    proof {
        assert(mag * m <= CHAN_LIMIT * UNIT) by (nonlinear_arith)
            requires 0 <= mag <= CHAN_LIMIT, 0 <= m <= UNIT;
        assert(0 <= mag * m) by (nonlinear_arith)
            requires 0 <= mag, 0 <= m;
    }
    let prod: i64 = mag * (m as i64);
    let scaled: i64 = prod / UNIT;
    proof {
        assert(prod / UNIT <= mag && 0 <= prod / UNIT) by (nonlinear_arith)
            requires 0 <= prod, prod == mag * m, m <= UNIT, 0 <= mag, UNIT >= 1;
    }
    if v >= 0 {
        scaled
    } else {
        -scaled
    }
}

/// The scaled contribution of the first `n` vectors to lane `k`, under the
/// multipliers `ms`.
pub open spec fn scaled_sum(vs: Seq<Color>, ms: Seq<int>, k: int, n: int) -> int
    decreases n,
{
    if n <= 0 {
        0
    } else {
        scaled_sum(vs, ms, k, n - 1) + spec_scale(chan(vs[n - 1], k), ms[n - 1])
    }
}

/// Prefix sums read only the multipliers they cover.
proof fn lemma_scaled_sum_prefix(vs: Seq<Color>, ms1: Seq<int>, ms2: Seq<int>, k: int, n: int)
    requires
        forall|j: int| 0 <= j < n ==> #[trigger] ms1[j] == ms2[j],
    ensures
        scaled_sum(vs, ms1, k, n) == scaled_sum(vs, ms2, k, n),
    decreases n,
{
    if n > 0 {
        lemma_scaled_sum_prefix(vs, ms1, ms2, k, n - 1);
    }
}

/// `c` is a sample of the `Full` law on `vs`: the start plus every vector
/// scaled by its own multiplier from `[0, UNIT]` (one independent draw per
/// vector, in order).
pub open spec fn full_sample(vs: VectorSetGhost, ms: Seq<int>, c: Color) -> bool {
    &&& ms.len() == vs.vectors.len()
    &&& forall|i: int| 0 <= i < ms.len() ==> 0 <= #[trigger] ms[i] <= UNIT
    &&& forall|k: int|
        0 <= k < 4 ==> #[trigger] chan(c, k) == chan(vs.start, k) + scaled_sum(
            vs.vectors,
            ms,
            k,
            vs.vectors.len() as int,
        )
}

/// What one vector set's sampler may answer, whatever the generator draws:
/// a `Full` sample of the set, or `None` exactly for the laws the sampler
/// leaves unimplemented.
/// Some multiplier choice explains the color as a `Full` sample of `vs`.
pub open spec fn has_full_sample(vs: VectorSetGhost, c: Color) -> bool {
    exists|ms: Seq<int>| #[trigger] full_sample(vs, ms, c)
}

pub open spec fn member_sample(vs: VectorSetGhost, r: Option<Color>) -> bool {
    match r {
        Some(c) => vs.kind == VectorSetKind::Full && has_full_sample(vs, c),
        None => vs.kind != VectorSetKind::Full,
    }
}

/// All sets of a group use the implemented `Full` multiplier law.
pub open spec fn all_full(sets: Seq<VectorSetGhost>) -> bool {
    forall|j: int| 0 <= j < sets.len() ==> (#[trigger] sets[j]).kind == VectorSetKind::Full
}

impl VectorSet {
    /// Samples a color: the start plus each vector scaled by an independent
    /// uniform multiplier on `[0, 1]`. Only the `Full` law is implemented;
    /// the others answer `None`, as an unknown kind would.
    pub fn new_color(&self, rng: &mut rand_chacha::ChaCha12Rng) -> (r: Option<Color>)
        requires
            vector_set_wf(self@),
        ensures
            r is Some <==> self@.kind == VectorSetKind::Full,
            r matches Some(c) ==> color_wf(c),
            member_sample(self@, r),
    {
        match self.kind {
            VectorSetKind::Full => {
                let mut c = self.start;
                let ghost vs = self.vectors@;
                let ghost mut ms = Seq::<int>::empty();
                let mut i: usize = 0;
                while i < self.vectors.len()
                    invariant
                        i <= vs.len(),
                        vs == self.vectors@,
                        vector_set_wf(self@),
                        ms.len() == i,
                        forall|ii: int| 0 <= ii < ms.len() ==> 0 <= #[trigger] ms[ii] <= UNIT,
                        forall|k: int|
                            0 <= k < 4 ==> #[trigger] chan(c, k) == chan(self@.start, k)
                                + scaled_sum(vs, ms, k, i as int),
                        forall|k: int|
                            0 <= k < 4 ==> abs_of(#[trigger] chan(c, k)) <= abs_of(
                                chan(self@.start, k),
                            ) + abs_budget(vs, k, i as int),
                    decreases vs.len() - i,
                {
                    let m = rng_below(rng, (UNIT as u64) + 1);
                    let v = self.vectors[i];
                    proof {
                        assert forall|k: int| 0 <= k < 4 implies {
                            &&& abs_of(#[trigger] chan(c, k)) + abs_of(chan(v, k)) <= CHAN_LIMIT
                            &&& abs_of(chan(v, k)) <= CHAN_LIMIT
                        } by {
                            assert(abs_budget(vs, k, i as int + 1) == abs_budget(vs, k, i as int)
                                + abs_of(chan(vs[i as int], k)));
                            lemma_abs_budget_mono(vs, k, i as int + 1, vs.len() as int);
                            lemma_abs_budget_nonneg(vs, k, i as int);
                            assert(self@.vectors == vs);
                            assert(abs_of(chan(self@.start, k)) + abs_budget(
                                self@.vectors,
                                k,
                                self@.vectors.len() as int,
                            ) <= CHAN_LIMIT);
                        }
                        assert(chan(v, 0) == v.r as int && chan(v, 1) == v.g as int && chan(v, 2)
                            == v.b as int && chan(v, 3) == v.pad as int);
                        assert(chan(c, 0) == c.r as int && chan(c, 1) == c.g as int && chan(c, 2)
                            == c.b as int && chan(c, 3) == c.pad as int);
                    }
                    let ghost cprev = c;
                    let ghost ms_prev = ms;
                    proof {
                        ms = ms.push(m as int);
                    }
                    let nr = add_scaled(c.r, v.r, m);
                    let ng = add_scaled(c.g, v.g, m);
                    let nb = add_scaled(c.b, v.b, m);
                    let np = add_scaled(c.pad, v.pad, m);
                    c = Color { r: nr, g: ng, b: nb, pad: np };
                    proof {
                        assert forall|k: int| 0 <= k < 4 implies #[trigger] chan(c, k) == chan(
                            self@.start,
                            k,
                        ) + scaled_sum(vs, ms, k, i as int + 1) by {
                            lemma_scaled_sum_prefix(vs, ms, ms_prev, k, i as int);
                            assert(scaled_sum(vs, ms, k, i as int + 1) == scaled_sum(
                                vs,
                                ms,
                                k,
                                i as int,
                            ) + spec_scale(chan(vs[i as int], k), ms[i as int]));
                            if k == 0 {
                                assert(chan(c, k) == chan(cprev, 0) + spec_scale(
                                    chan(v, 0),
                                    m as int,
                                ));
                            } else if k == 1 {
                                assert(chan(c, k) == chan(cprev, 1) + spec_scale(
                                    chan(v, 1),
                                    m as int,
                                ));
                            } else if k == 2 {
                                assert(chan(c, k) == chan(cprev, 2) + spec_scale(
                                    chan(v, 2),
                                    m as int,
                                ));
                            } else {
                                assert(chan(c, k) == chan(cprev, 3) + spec_scale(
                                    chan(v, 3),
                                    m as int,
                                ));
                            }
                        }
                        assert forall|k: int| 0 <= k < 4 implies abs_of(#[trigger] chan(c, k))
                            <= abs_of(chan(self@.start, k)) + abs_budget(vs, k, i as int + 1) by {
                            assert(abs_budget(vs, k, i as int + 1) == abs_budget(vs, k, i as int)
                                + abs_of(chan(vs[i as int], k)));
                            if k == 0 {
                                assert(abs_of(chan(c, k)) <= abs_of(chan(cprev, 0)) + abs_of(
                                    chan(v, 0),
                                ));
                            } else if k == 1 {
                                assert(abs_of(chan(c, k)) <= abs_of(chan(cprev, 1)) + abs_of(
                                    chan(v, 1),
                                ));
                            } else if k == 2 {
                                assert(abs_of(chan(c, k)) <= abs_of(chan(cprev, 2)) + abs_of(
                                    chan(v, 2),
                                ));
                            } else {
                                assert(abs_of(chan(c, k)) <= abs_of(chan(cprev, 3)) + abs_of(
                                    chan(v, 3),
                                ));
                            }
                        }
                    }
                    i += 1;
                }
                proof {
                    assert forall|k: int| 0 <= k < 4 implies -CHAN_LIMIT <= #[trigger] chan(c, k)
                        <= CHAN_LIMIT by {
                        assert(self@.vectors == vs);
                        assert(abs_of(chan(self@.start, k)) + abs_budget(
                            self@.vectors,
                            k,
                            self@.vectors.len() as int,
                        ) <= CHAN_LIMIT);
                        lemma_abs_budget_nonneg(vs, k, vs.len() as int);
                        assert(abs_of(chan(c, k)) <= abs_of(chan(self@.start, k)) + abs_budget(
                            vs,
                            k,
                            vs.len() as int,
                        ));
                    }
                    assert(full_sample(self@, ms, c));
                    assert(has_full_sample(self@, c)) by {
                        assert(full_sample(self@, ms, c));
                    }
                    assert(member_sample(self@, Some(c)));
                }
                Some(c)
            },
            VectorSetKind::Triangular => None,
            VectorSetKind::SumOne => None,
        }
    }
}

/// Adds `v` scaled by `m / UNIT` to lane value `c`; magnitudes add at worst.
fn add_scaled(c: i64, v: i64, m: u64) -> (r: i64)
    requires
        m <= UNIT,
        -CHAN_LIMIT <= v <= CHAN_LIMIT,
        abs_of(c as int) + abs_of(v as int) <= CHAN_LIMIT,
    ensures
        abs_of(r as int) <= abs_of(c as int) + abs_of(v as int),
        r as int == c + spec_scale(v as int, m as int),
{
    let d = scale_channel(v, m);
    c + d
}

/// Budgets over longer prefixes are no smaller.
proof fn lemma_abs_budget_mono(vs: Seq<Color>, k: int, a: int, b: int)
    requires
        a <= b,
    ensures
        abs_budget(vs, k, a) <= abs_budget(vs, k, b),
    decreases b - a,
{
    if a < b {
        lemma_abs_budget_mono(vs, k, a, b - 1);
    }
}

proof fn lemma_abs_budget_nonneg(vs: Seq<Color>, k: int, n: int)
    ensures
        abs_budget(vs, k, n) >= 0,
    decreases n,
{
    if n > 0 {
        lemma_abs_budget_nonneg(vs, k, n - 1);
    }
}

/// The first set whose cumulative weight exceeds the draw `k`.
pub open spec fn pick_index(sets: Seq<VectorSetGhost>, k: int) -> int
    decreases sets.len(),
{
    if sets.len() == 0 {
        0
    } else if k < sets[0].chance {
        0
    } else {
        1 + pick_index(sets.drop_first(), k - sets[0].chance)
    }
}

/// What the group sampler may answer, whatever the generator draws: some
/// draw below the total weight selects, by first-cumulative-exceeds, the
/// member whose own sampler produced the result.
pub open spec fn group_sample(g: VectorSetGroup, r: Option<Color>) -> bool {
    exists|k: int|
        0 <= k < g.total_chance && member_sample(
            sets_view(g.vectorsets@)[#[trigger] pick_index(sets_view(g.vectorsets@), k)],
            r,
        )
}

impl VectorSetGroup {
    /// Samples a color: picks one member by weighted draw, then samples from
    /// it. `None` exactly when the drawn member's law is not implemented;
    /// with every member `Full` the sample always succeeds.
    pub fn new_color(&self, rng: &mut rand_chacha::ChaCha12Rng) -> (r: Option<Color>)
        requires
            group_wf(*self),
        ensures
            r matches Some(c) ==> color_wf(c),
            all_full(sets_view(self.vectorsets@)) ==> r is Some,
            group_sample(*self, r),
    {
        let ghost sv = sets_view(self.vectorsets@);
        if self.vectorsets.len() == 1 {
            proof {
                assert(sv[0] == self.vectorsets@[0]@);
                assert(vector_set_wf(sv[0]));
            }
            let r = self.vectorsets[0].new_color(rng);
            proof {
                // Every draw selects the single member.
                assert(pick_index(sv, 0) == 0);
                assert(group_sample(*self, r)) by {
                    assert(member_sample(sv[pick_index(sv, 0)], r));
                }
            }
            return r;
        }
        let draw: u64 = rng_below(rng, self.total_chance as u64);
        let ghost k0 = draw as int;
        let mut remaining: u64 = draw;
        let mut j: usize = 0;
        proof {
            assert(sv.skip(0) =~= sv);
        }
        while j < self.vectorsets.len()
            invariant
                j <= self.vectorsets@.len(),
                sv == sets_view(self.vectorsets@),
                group_wf(*self),
                remaining < chance_sum(sv, sv.len() as int) - chance_sum(sv, j as int),
                0 <= k0 < self.total_chance,
                pick_index(sv, k0) == j + pick_index(sv.skip(j as int), remaining as int),
            decreases self.vectorsets@.len() - j,
        {
            proof {
                assert(sv[j as int] == self.vectorsets@[j as int]@);
                assert(vector_set_wf(sv[j as int]));
                assert(chance_sum(sv, j as int + 1) == chance_sum(sv, j as int)
                    + sv[j as int].chance);
                let suf = sv.skip(j as int);
                assert(suf[0] == sv[j as int]);
                assert(suf.drop_first() =~= sv.skip(j as int + 1));
            }
            if remaining < self.vectorsets[j].chance as u64 {
                proof {
                    assert(pick_index(sv, k0) == j as int);
                }
                let r = self.vectorsets[j].new_color(rng);
                proof {
                    assert(group_sample(*self, r)) by {
                        assert(member_sample(sv[pick_index(sv, k0)], r));
                    }
                }
                return r;
            }
            remaining -= self.vectorsets[j].chance as u64;
            j += 1;
        }
        // The total weight is the sum of the members' weights, so the loop
        // always stops inside a member.
        proof {
            assert(false);
        }
        None
    }
}

/// A configuration fault in the color options.
#[derive(Debug, Clone, Copy, PartialEq, Eq, Structural)]
pub enum ColorError {
    /// A `-v` or `-b` argument is not a well-formed color.
    BadColor,
    /// A `-t` argument names no known multiplier law.
    BadKind,
    /// Both `--normal` and an explicit vector set were given.
    TwoColorspaces,
    /// A vector or base would push a channel budget past the model limit.
    RangeExceeded,
}

pub open spec fn is_digit(c: char) -> bool {
    '0' <= c && c <= '9'
}

pub open spec fn digit_val(c: char) -> int {
    c as int - 48
}

/// The value of the first `n` digit characters read as a decimal number.
pub open spec fn digits_val(s: Seq<char>, n: int) -> int
    decreases n,
{
    if n <= 0 {
        0
    } else {
        digits_val(s, n - 1) * 10 + digit_val(s[n - 1])
    }
}

pub open spec fn all_digits(s: Seq<char>) -> bool {
    forall|j: int| 0 <= j < s.len() ==> is_digit(#[trigger] s[j])
}

pub open spec fn pow10(n: int) -> int
    decreases n,
{
    if n <= 0 {
        1
    } else {
        10 * pow10(n - 1)
    }
}

/// The fraction digits as a five-digit numerator (over 100000): extra digits
/// beyond the fifth are dropped, missing ones count as zero.
pub open spec fn frac5_val(fp: Seq<char>) -> int {
    if fp.len() >= 5 {
        digits_val(fp, 5)
    } else {
        digits_val(fp, fp.len() as int) * pow10(5 - fp.len())
    }
}

/// A signed decimal number as a fixed-point channel value, truncated to
/// five fraction digits; `None` for a malformed number or one beyond the
/// channel limit.
pub open spec fn parse_fixed_spec(s: Seq<char>) -> Option<int> {
    let neg = s.len() > 0 && s[0] == '-';
    let t = if neg {
        s.drop_first()
    } else {
        s
    };
    let (ip, fp): (Seq<char>, Seq<char>) = match crate::getopt::first_eq(t, '.') {
        Some(i) => (t.take(i), t.skip(i + 1)),
        None => (t, Seq::empty()),
    };
    if !all_digits(ip) || !all_digits(fp) || ip.len() + fp.len() == 0 {
        None
    } else {
        let mag = digits_val(ip, ip.len() as int) * (UNIT as int) + (frac5_val(fp) * (
        UNIT as int)) / 100000;
        if mag > CHAN_LIMIT {
            None
        } else if neg {
            Some(-mag)
        } else {
            Some(mag)
        }
    }
}

/// Digit strings have nonnegative values.
proof fn lemma_digits_val_nonneg(s: Seq<char>, n: int)
    requires
        forall|j: int| 0 <= j < n ==> is_digit(#[trigger] s[j]),
    ensures
        digits_val(s, n) >= 0,
    decreases n,
{
    if n > 0 {
        lemma_digits_val_nonneg(s, n - 1);
    }
}

/// Digits read left to right never shrink the value.
pub(crate) proof fn lemma_digits_val_mono_pub(s: Seq<char>, m: int, n: int)
    requires
        0 <= m <= n,
        forall|j: int| 0 <= j < n ==> is_digit(#[trigger] s[j]),
    ensures
        0 <= digits_val(s, m) <= digits_val(s, n),
    decreases n - m,
{
    lemma_digits_val_nonneg(s, m);
    if m < n {
        lemma_digits_val_mono_pub(s, m, n - 1);
        lemma_digits_val_nonneg(s, n - 1);
    }
}

pub proof fn lemma_pow10_pos(n: int)
    requires
        n <= 5,
    ensures
        1 <= pow10(n) <= 100000,
{
    reveal_with_fuel(pow10, 7);
    if n <= 0 {
    } else if n == 1 {
    } else if n == 2 {
    } else if n == 3 {
    } else if n == 4 {
    } else {
    }
}

/// Lane `k` of a color, as an executable read.
pub fn lane(c: &Color, k: usize) -> (r: i64)
    requires
        k < 4,
    ensures
        r == chan(*c, k as int),
{
    if k == 0 {
        c.r
    } else if k == 1 {
        c.g
    } else if k == 2 {
        c.b
    } else {
        c.pad
    }
}

fn pow10_small(n: u64) -> (r: u64)
    requires
        n <= 5,
    ensures
        r == pow10(n as int),
        1 <= r <= 100000,
{
    proof {
        reveal_with_fuel(pow10, 7);
    }
    if n == 0 {
        1
    } else if n == 1 {
        10
    } else if n == 2 {
        100
    } else if n == 3 {
        1000
    } else if n == 4 {
        10000
    } else {
        100000
    }
}

/// Parses one channel number, mirroring [`parse_fixed_spec`].
#[verifier::rlimit(100)]
#[verifier::spinoff_prover]
pub(crate) fn parse_fixed_pub(cs: &Vec<char>) -> (r: Option<i64>)
    ensures
        match r {
            Some(v) => parse_fixed_spec(cs@) == Some(v as int),
            None => parse_fixed_spec(cs@) is None,
        },
{
    let n = cs.len();
    let neg = n > 0 && cs[0] == '-';
    let start: usize = if neg {
        1
    } else {
        0
    };
    let ghost t = if neg {
        cs@.drop_first()
    } else {
        cs@
    };
    proof {
        assert(t =~= cs@.skip(start as int));
    }
    // Integer digits, up to a dot or the end.
    let mut j = start;
    let mut int_val: u64 = 0;
    let mut sat = false;
    while j < n && cs[j] != '.'
        invariant
            start <= j <= n,
            n == cs@.len(),
            neg == (cs@.len() > 0 && cs@[0] == '-'),
            start == if neg { 1int } else { 0int },
            t == cs@.skip(start as int),
            forall|q: int| start <= q < j ==> is_digit(#[trigger] cs@[q]) && cs@[q] != '.',
            !sat ==> int_val == digits_val(t, j - start) && int_val <= 256,
            sat ==> digits_val(t, j - start) > 256,
        decreases n - j,
    {
        let c = cs[j];
        if !('0' <= c && c <= '9') {
            proof {
                lemma_parse_fixed_bad_char(cs@, neg, start as int, j as int);
            }
            return None;
        }
        let d: u64 = (c as u64) - 48;
        proof {
            assert(t[j - start] == cs@[j as int]);
            assert(digits_val(t, j - start + 1) == digits_val(t, j - start) * 10 + digit_val(
                t[j - start],
            ));
            if sat {
                assert forall|q: int| 0 <= q < j - start + 1 implies is_digit(
                    #[trigger] t[q],
                ) by {
                    assert(t[q] == cs@[start + q]);
                }
                lemma_digits_val_mono_pub(t, j - start, j - start + 1);
            }
        }
        if sat {
        } else if int_val * 10 + d > 256 {
            sat = true;
        } else {
            int_val = int_val * 10 + d;
        }
        j += 1;
    }
    let dot_found = j < n;
    let int_digits = j - start;
    let ghost ip = if dot_found {
        t.take(j - start as int)
    } else {
        t
    };
    let ghost fp = if dot_found {
        t.skip(j - start as int + 1)
    } else {
        Seq::<char>::empty()
    };
    proof {
        if dot_found {
            assert(t[j - start] == cs@[j as int]);
            crate::getopt::lemma_first_eq_at(t, '.', j - start as int);
        } else {
            assert forall|q: int| 0 <= q < t.len() implies t[q] != '.' by {
                assert(t[q] == cs@[start + q]);
            }
            crate::getopt::lemma_first_eq_none(t, '.');
        }
        assert(all_digits(ip)) by {
            assert forall|z: int| 0 <= z < ip.len() implies is_digit(#[trigger] ip[z]) by {
                assert(ip[z] == cs@[start + z]);
            }
        }
        assert(ip.len() == int_digits);
        assert(digits_val(ip, ip.len() as int) == digits_val(t, j - start)) by {
            lemma_digits_val_prefix(t, ip, j - start as int);
        }
    }
    // Fraction digits after the dot; only the first five carry weight.
    let mut f5: u64 = 0;
    let mut frac_digits: usize = 0;
    if dot_found {
        let mut q = j + 1;
        while q < n
            invariant
                j < q <= n,
                n == cs@.len(),
                j < n,
                start <= j,
                neg == (cs@.len() > 0 && cs@[0] == '-'),
                start == if neg { 1int } else { 0int },
                t == cs@.skip(start as int),
                t == (if neg { cs@.drop_first() } else { cs@ }),
                crate::getopt::first_eq(t, '.') == Some(j - start as int),
                fp == t.skip(j - start as int + 1),
                fp.len() == n - j - 1,
                forall|z: int| j + 1 <= z < q ==> is_digit(#[trigger] cs@[z]),
                frac_digits == q - j - 1,
                f5 == digits_val(fp, if frac_digits <= 5 { frac_digits as int } else { 5int }),
                f5 <= 99999,
            decreases n - q,
        {
            let c = cs[q];
            proof {
                assert(fp[q - j - 1] == cs@[q as int]);
            }
            if !('0' <= c && c <= '9') {
                proof {
                    assert(!is_digit(fp[q - j - 1]));
                    assert(!all_digits(fp));
                }
                return None;
            }
            proof {
                if frac_digits < 5 {
                    assert(digits_val(fp, frac_digits + 1) == digits_val(
                        fp,
                        frac_digits as int,
                    ) * 10 + digit_val(fp[frac_digits as int]));
                }
                lemma_digits_val_range(fp, if frac_digits + 1 <= 5 {
                    frac_digits as int + 1
                } else {
                    5int
                });
            }
            if frac_digits < 5 {
                f5 = f5 * 10 + ((c as u64) - 48);
            }
            frac_digits += 1;
            q += 1;
        }
    }
    proof {
        assert(all_digits(fp)) by {
            if dot_found {
                assert forall|z: int| 0 <= z < fp.len() implies is_digit(#[trigger] fp[z]) by {
                    assert(fp[z] == cs@[j + 1 + z]);
                }
            }
        }
        assert(fp.len() == frac_digits);
        lemma_pow10_pos(5 - fp.len());
        lemma_digits_val_nonneg(fp, if fp.len() >= 5 { 5int } else { fp.len() as int });
        if fp.len() < 5 {
            assert(digits_val(fp, fp.len() as int) * pow10(5 - fp.len()) >= 0)
                by (nonlinear_arith)
                requires digits_val(fp, fp.len() as int) >= 0, pow10(5 - fp.len()) >= 1;
        }
        assert(frac5_val(fp) >= 0);
    }
    if int_digits == 0 && frac_digits == 0 {
        return None;
    }
    // Scale the fraction numerator to five digits.
    if frac_digits < 5 {
        let p = pow10_small(5 - (frac_digits as u64));
        proof {
            assert(f5 * p <= 99999 * 100000) by (nonlinear_arith)
                requires 0 <= f5 <= 99999, 0 <= p <= 100000;
        }
        f5 = f5 * p;
        proof {
            assert(f5 == frac5_val(fp));
        }
    }
    proof {
        assert(f5 == frac5_val(fp));
        assert(f5 <= 9999900000);
    }
    if sat {
        proof {
            lemma_digits_val_mono_pub(ip, (j - start) as int, ip.len() as int);
            assert(digits_val(ip, ip.len() as int) * (UNIT as int) > CHAN_LIMIT)
                by (nonlinear_arith)
                requires digits_val(ip, ip.len() as int) > 256, UNIT == 65536, CHAN_LIMIT
                    == 16777216;
            assert((frac5_val(fp) * (UNIT as int)) / 100000 >= 0) by (nonlinear_arith)
                requires frac5_val(fp) >= 0, UNIT == 65536;
        }
        return None;
    }
    let frac_scaled_u: u64 = (f5 * (UNIT as u64)) / 100000;
    proof {
        assert(f5 * (UNIT as u64) <= 9999900000 * 65536) by (nonlinear_arith)
            requires 0 <= f5 <= 9999900000;
    }
    let frac_scaled: i64 = frac_scaled_u as i64;
    proof {
        assert(frac_scaled_u <= 9999900000 * 65536 / 100000);
        assert(frac_scaled as int == (frac5_val(fp) * (UNIT as int)) / 100000);
    }
    let mag: i64 = (int_val as i64) * UNIT + frac_scaled;
    if mag > CHAN_LIMIT {
        None
    } else if neg {
        Some(-mag)
    } else {
        Some(mag)
    }
}

/// A prefix of a digit string carries the same value as the string cut there.
proof fn lemma_digits_val_prefix(t: Seq<char>, ip: Seq<char>, n: int)
    requires
        0 <= n <= t.len(),
        ip.len() >= n,
        forall|z: int| 0 <= z < n ==> #[trigger] ip[z] == t[z],
    ensures
        digits_val(ip, n) == digits_val(t, n),
    decreases n,
{
    if n > 0 {
        lemma_digits_val_prefix(t, ip, n - 1);
    }
}

/// Values of at most five digits stay under 100000.
proof fn lemma_digits_val_range(s: Seq<char>, n: int)
    requires
        0 <= n <= 5,
        forall|j: int| 0 <= j < n ==> is_digit(#[trigger] s[j]),
    ensures
        0 <= digits_val(s, n) < pow10(n),
        digits_val(s, n) <= 99999,
    decreases n,
{
    reveal_with_fuel(pow10, 7);
    lemma_pow10_pos(n);
    if n > 0 {
        lemma_digits_val_range(s, n - 1);
        assert(digits_val(s, n) == digits_val(s, n - 1) * 10 + digit_val(s[n - 1]));
        assert(digits_val(s, n - 1) * 10 <= (pow10(n - 1) - 1) * 10) by (nonlinear_arith)
            requires digits_val(s, n - 1) <= pow10(n - 1) - 1;
        assert(pow10(n) == 10 * pow10(n - 1));
    }
}

/// A non-digit, non-dot character in the integer part makes the whole number
/// malformed.
proof fn lemma_parse_fixed_bad_char(s: Seq<char>, neg: bool, start: int, j: int)
    requires
        neg == (s.len() > 0 && s[0] == '-'),
        start == if neg {
            1int
        } else {
            0int
        },
        start <= j < s.len(),
        !is_digit(s[j]),
        s[j] != '.',
        forall|q: int| start <= q < j ==> is_digit(#[trigger] s[q]) && s[q] != '.',
    ensures
        parse_fixed_spec(s) is None,
{
    let t = if neg {
        s.drop_first()
    } else {
        s
    };
    assert(t =~= s.skip(start));
    crate::getopt::lemma_first_eq_inv(t, '.');
    match crate::getopt::first_eq(t, '.') {
        Some(i) => {
            let ip = t.take(i);
            assert(t[j - start] == s[j]);
            assert(t[i] == '.');
            assert(i != j - start);
            assert(j - start < i) by {
                if i < j - start {
                    assert(s[start + i] == t[i]);
                }
            }
            assert(ip[j - start] == s[j]);
            assert(!all_digits(ip));
        },
        None => {
            assert(t[j - start] == s[j]);
            assert(!all_digits(t));
        },
    }
}

/// Writes `v` into lane `k`.
pub open spec fn set_lane(c: Color, k: int, v: int) -> Color {
    if k == 0 {
        Color { r: v as i64, ..c }
    } else if k == 1 {
        Color { g: v as i64, ..c }
    } else if k == 2 {
        Color { b: v as i64, ..c }
    } else {
        Color { pad: v as i64, ..c }
    }
}

/// Parses comma-separated channel values into lanes `lane..4` of `acc`;
/// pieces beyond the fourth are ignored, missing ones stay as in `acc`.
pub open spec fn parse_lanes_spec(s: Seq<char>, lane: int, acc: Color) -> Option<Color>
    decreases 4 - lane,
{
    if lane >= 4 {
        Some(acc)
    } else {
        match crate::getopt::first_eq(s, ',') {
            Some(i) => match parse_fixed_spec(s.take(i)) {
                None => None,
                Some(v) => parse_lanes_spec(s.skip(i + 1), lane + 1, set_lane(acc, lane, v)),
            },
            None => match parse_fixed_spec(s) {
                None => None,
                Some(v) => Some(set_lane(acc, lane, v)),
            },
        }
    }
}

/// A color string: up to four comma-separated channel numbers.
pub open spec fn parse_color_spec(s: Seq<char>) -> Option<Color> {
    parse_lanes_spec(s, 0, Color { r: 0, g: 0, b: 0, pad: 0 })
}

fn set_lane_exec(c: Color, k: usize, v: i64) -> (r: Color)
    requires
        k < 4,
    ensures
        r == set_lane(c, k as int, v as int),
{
    if k == 0 {
        Color { r: v, ..c }
    } else if k == 1 {
        Color { g: v, ..c }
    } else if k == 2 {
        Color { b: v, ..c }
    } else {
        Color { pad: v, ..c }
    }
}

fn parse_lanes(cs: &Vec<char>, lane: usize, acc: Color) -> (r: Option<Color>)
    requires
        lane <= 4,
    ensures
        match r {
            Some(c) => parse_lanes_spec(cs@, lane as int, acc) == Some(c),
            None => parse_lanes_spec(cs@, lane as int, acc) is None,
        },
    decreases 4 - lane,
{
    if lane == 4 {
        return Some(acc);
    }
    match crate::getopt::first_eq_exec(cs, ',') {
        Some(i) => {
            let head = crate::getopt::subvec(cs, 0, i);
            proof {
                assert(head@ =~= cs@.take(i as int));
            }
            match parse_fixed_pub(&head) {
                None => None,
                Some(v) => {
                    let clen = cs.len();
                    let tail = crate::getopt::subvec(cs, i + 1, clen);
                    proof {
                        assert(tail@ =~= cs@.skip(i as int + 1));
                    }
                    parse_lanes(&tail, lane + 1, set_lane_exec(acc, lane, v))
                },
            }
        },
        None => match parse_fixed_pub(cs) {
            None => None,
            Some(v) => Some(set_lane_exec(acc, lane, v)),
        },
    }
}

/// Parses one color option argument.
fn parse_color(s: &str) -> (r: Option<Color>)
    ensures
        match r {
            Some(c) => parse_color_spec(s@) == Some(c),
            None => parse_color_spec(s@) is None,
        },
{
    let cs = crate::getopt::chars_of(s);
    parse_lanes(&cs, 0, from_3(0, 0, 0))
}

/// Parsed colors keep every lane within the channel limit, as long as the
/// lanes they start from do.
proof fn lemma_parse_lanes_bounded(s: Seq<char>, lane: int, acc: Color, c: Color)
    requires
        0 <= lane,
        parse_lanes_spec(s, lane, acc) == Some(c),
        forall|k: int| 0 <= k < 4 ==> abs_of(#[trigger] chan(acc, k)) <= CHAN_LIMIT,
    ensures
        forall|k: int| 0 <= k < 4 ==> abs_of(#[trigger] chan(c, k)) <= CHAN_LIMIT,
    decreases 4 - lane,
{
    if lane >= 4 {
    } else {
        match crate::getopt::first_eq(s, ',') {
            Some(i) => match parse_fixed_spec(s.take(i)) {
                None => {},
                Some(v) => {
                    lemma_parse_fixed_bounded_pub(s.take(i), v);
                    let acc2 = set_lane(acc, lane, v);
                    assert forall|k: int| 0 <= k < 4 implies abs_of(#[trigger] chan(acc2, k))
                        <= CHAN_LIMIT by {
                        if k != lane {
                            assert(chan(acc2, k) == chan(acc, k));
                        }
                    }
                    lemma_parse_lanes_bounded(s.skip(i + 1), lane + 1, acc2, c);
                },
            },
            None => match parse_fixed_spec(s) {
                None => {},
                Some(v) => {
                    lemma_parse_fixed_bounded_pub(s, v);
                    let acc2 = set_lane(acc, lane, v);
                    assert forall|k: int| 0 <= k < 4 implies abs_of(#[trigger] chan(acc2, k))
                        <= CHAN_LIMIT by {
                        if k != lane {
                            assert(chan(acc2, k) == chan(acc, k));
                        }
                    }
                },
            },
        }
    }
}

/// A parsed channel value is within the channel limit.
pub(crate) proof fn lemma_parse_fixed_bounded_pub(s: Seq<char>, v: int)
    requires
        parse_fixed_spec(s) == Some(v),
    ensures
        -CHAN_LIMIT <= v <= CHAN_LIMIT,
{
    let neg = s.len() > 0 && s[0] == '-';
    let t = if neg {
        s.drop_first()
    } else {
        s
    };
    let (ip, fp): (Seq<char>, Seq<char>) = match crate::getopt::first_eq(t, '.') {
        Some(i) => (t.take(i), t.skip(i + 1)),
        None => (t, Seq::empty()),
    };
    lemma_digits_val_nonneg(ip, ip.len() as int);
    lemma_digits_val_nonneg(fp, if fp.len() >= 5 {
        5int
    } else {
        fp.len() as int
    });
    lemma_pow10_pos(5 - fp.len());
    if fp.len() < 5 {
        assert(digits_val(fp, fp.len() as int) * pow10(5 - fp.len()) >= 0) by (nonlinear_arith)
            requires digits_val(fp, fp.len() as int) >= 0, pow10(5 - fp.len()) >= 1;
    }
    assert(digits_val(ip, ip.len() as int) * (UNIT as int) >= 0) by (nonlinear_arith)
        requires digits_val(ip, ip.len() as int) >= 0, UNIT == 65536;
    assert((frac5_val(fp) * (UNIT as int)) / 100000 >= 0) by (nonlinear_arith)
        requires frac5_val(fp) >= 0, UNIT == 65536;
}

/// The default color model: independent full-range red, green and blue.
pub fn basic_color() -> (r: VectorSet)
    ensures
        r@ == basic_ghost(),
        vector_set_wf(r@),
        r@.chance == 1,
{
    let mut vectors: Vec<Color> = Vec::new();
    vectors.push(from_3(UNIT, 0, 0));
    vectors.push(from_3(0, UNIT, 0));
    vectors.push(from_3(0, 0, UNIT));
    let r = VectorSet { start: from_3(0, 0, 0), vectors, chance: 1, kind: VectorSetKind::Full };
    proof {
        assert(r@.vectors =~= basic_ghost().vectors);
        lemma_small_set_wf(r@);
    }
    r
}

pub open spec fn basic_ghost() -> VectorSetGhost {
    VectorSetGhost {
        start: Color { r: 0, g: 0, b: 0, pad: 0 },
        vectors: seq![
            Color { r: UNIT, g: 0, b: 0, pad: 0 },
            Color { r: 0, g: UNIT, b: 0, pad: 0 },
            Color { r: 0, g: 0, b: UNIT, pad: 0 },
        ],
        chance: 1,
        kind: VectorSetKind::Full,
    }
}

/// A set whose start and vectors all keep each lane within `UNIT` is well
/// formed as long as it has at most three vectors.
proof fn lemma_small_set_wf(v: VectorSetGhost)
    requires
        v.chance >= 1,
        v.vectors.len() <= 3,
        forall|k: int| 0 <= k < 4 ==> abs_of(#[trigger] chan(v.start, k)) <= UNIT,
        forall|j: int, k: int|
            0 <= j < v.vectors.len() && 0 <= k < 4 ==> abs_of(
                #[trigger] chan(v.vectors[j], k),
            ) <= UNIT,
    ensures
        vector_set_wf(v),
{
    assert forall|k: int| 0 <= k < 4 implies abs_of(chan(v.start, k)) + #[trigger] abs_budget(
        v.vectors,
        k,
        v.vectors.len() as int,
    ) <= CHAN_LIMIT by {
        lemma_budget_of_bounded(v.vectors, k, v.vectors.len() as int);
    }
}

/// A budget over vectors whose lanes stay within `UNIT` is at most
/// `UNIT` per vector.
proof fn lemma_budget_of_bounded(vs: Seq<Color>, k: int, n: int)
    requires
        n <= vs.len(),
        forall|j: int, kk: int|
            0 <= j < vs.len() && 0 <= kk < 4 ==> abs_of(#[trigger] chan(vs[j], kk)) <= UNIT,
        0 <= k < 4,
    ensures
        abs_budget(vs, k, n) <= if n <= 0 {
            0int
        } else {
            n * (UNIT as int)
        },
    decreases n,
{
    if n > 0 {
        lemma_budget_of_bounded(vs, k, n - 1);
        assert((n - 1) * (UNIT as int) + UNIT == n * (UNIT as int)) by (nonlinear_arith);
    }
}

/// The six full-intensity hue edges of the color cube.
pub open spec fn hues_ghost() -> Seq<VectorSetGhost> {
    seq![
        hue_set(Color { r: UNIT, g: 0, b: 0, pad: 0 }, Color { r: 0, g: UNIT, b: 0, pad: 0 }),
        hue_set(Color { r: 0, g: UNIT, b: 0, pad: 0 }, Color { r: UNIT, g: 0, b: 0, pad: 0 }),
        hue_set(Color { r: 0, g: UNIT, b: 0, pad: 0 }, Color { r: 0, g: 0, b: UNIT, pad: 0 }),
        hue_set(Color { r: 0, g: 0, b: UNIT, pad: 0 }, Color { r: 0, g: UNIT, b: 0, pad: 0 }),
        hue_set(Color { r: 0, g: 0, b: UNIT, pad: 0 }, Color { r: UNIT, g: 0, b: 0, pad: 0 }),
        hue_set(Color { r: UNIT, g: 0, b: 0, pad: 0 }, Color { r: 0, g: 0, b: UNIT, pad: 0 }),
    ]
}

pub open spec fn hue_set(start: Color, vector: Color) -> VectorSetGhost {
    VectorSetGhost { start, vectors: seq![vector], chance: 1, kind: VectorSetKind::Full }
}

fn hue_set_exec(start: Color, vector: Color) -> (r: VectorSet)
    requires
        forall|k: int| 0 <= k < 4 ==> abs_of(#[trigger] chan(start, k)) <= UNIT,
        forall|k: int| 0 <= k < 4 ==> abs_of(#[trigger] chan(vector, k)) <= UNIT,
    ensures
        r@ == hue_set(start, vector),
        vector_set_wf(r@),
        r@.chance == 1,
{
    let mut vectors: Vec<Color> = Vec::new();
    vectors.push(vector);
    let r = VectorSet { start, vectors, chance: 1, kind: VectorSetKind::Full };
    proof {
        assert(r@.vectors =~= seq![vector]);
        assert forall|j: int, k: int|
            0 <= j < r@.vectors.len() && 0 <= k < 4 implies abs_of(
            #[trigger] chan(r@.vectors[j], k),
        ) <= UNIT by {
            assert(r@.vectors[j] == vector);
        }
        lemma_small_set_wf(r@);
    }
    r
}

/// All full-intensity hues, as the `--hues` option adds them.
pub fn full_intensity_hues() -> (r: Vec<VectorSet>)
    ensures
        sets_view(r@) == hues_ghost(),
        forall|j: int|
            0 <= j < r@.len() ==> vector_set_wf(#[trigger] sets_view(r@)[j]) && sets_view(
                r@,
            )[j].chance == 1,
{
    let red = from_3(UNIT, 0, 0);
    let green = from_3(0, UNIT, 0);
    let blue = from_3(0, 0, UNIT);
    let mut out: Vec<VectorSet> = Vec::new();
    out.push(hue_set_exec(red, green));
    out.push(hue_set_exec(green, red));
    out.push(hue_set_exec(green, blue));
    out.push(hue_set_exec(blue, green));
    out.push(hue_set_exec(blue, red));
    out.push(hue_set_exec(red, blue));
    proof {
        assert(sets_view(out@) =~= hues_ghost());
    }
    out
}

fn empty_vector_set() -> (r: VectorSet)
    ensures
        r@ == empty_set_ghost(),
        vector_set_wf(r@),
        r@.chance == 1,
{
    let r = VectorSet {
        start: from_3(0, 0, 0),
        vectors: Vec::new(),
        chance: 1,
        kind: VectorSetKind::Full,
    };
    proof {
        assert(r@.vectors =~= Seq::<Color>::empty());
        lemma_small_set_wf(r@);
    }
    r
}

pub open spec fn empty_set_ghost() -> VectorSetGhost {
    VectorSetGhost {
        start: Color { r: 0, g: 0, b: 0, pad: 0 },
        vectors: Seq::empty(),
        chance: 1,
        kind: VectorSetKind::Full,
    }
}

/// The multiplier law named by a `-t` argument.
pub open spec fn kind_of(s: Seq<char>) -> Option<VectorSetKind> {
    if s == "full"@ || s == "f"@ {
        Some(VectorSetKind::Full)
    } else if s == "sum_one"@ || s == "sumone"@ || s == "one"@ || s == "o"@ {
        Some(VectorSetKind::SumOne)
    } else if s == "triangular"@ || s == "tri"@ || s == "t"@ {
        Some(VectorSetKind::Triangular)
    } else {
        None
    }
}

fn kind_of_exec(s: &str) -> (r: Option<VectorSetKind>)
    ensures
        r == kind_of(s@),
{
    if crate::getopt::str_eq(s, "full") || crate::getopt::str_eq(s, "f") {
        Some(VectorSetKind::Full)
    } else if crate::getopt::str_eq(s, "sum_one") || crate::getopt::str_eq(s, "sumone")
        || crate::getopt::str_eq(s, "one") || crate::getopt::str_eq(s, "o") {
        Some(VectorSetKind::SumOne)
    } else if crate::getopt::str_eq(s, "triangular") || crate::getopt::str_eq(s, "tri")
        || crate::getopt::str_eq(s, "t") {
        Some(VectorSetKind::Triangular)
    } else {
        None
    }
}

/// One option's effect on the gathering color configuration: the `--normal`
/// flag plus the vector sets built so far.
pub open spec fn apply_color_item(st: (bool, Option<Seq<VectorSetGhost>>), it: ItemGhost) -> Result<
    (bool, Option<Seq<VectorSetGhost>>),
    ColorError,
> {
    match it {
        ItemGhost::Opt { opt, arg } => {
            if opt.long == Some("normal"@) && arg is None {
                Ok((true, st.1))
            } else if opt.long == Some("hues"@) && arg is None {
                Ok(
                    (
                        st.0,
                        Some(
                            match st.1 {
                                Some(cur) => cur + hues_ghost(),
                                None => hues_ghost(),
                            },
                        ),
                    ),
                )
            } else if opt.long == Some("newvectorset"@) && arg is None {
                Ok(
                    (
                        st.0,
                        Some(
                            match st.1 {
                                Some(cur) => cur.push(empty_set_ghost()),
                                None => seq![empty_set_ghost()],
                            },
                        ),
                    ),
                )
            } else if opt.long == Some("vector"@) && arg is Some {
                match parse_color_spec(arg->0) {
                    None => Err(ColorError::BadColor),
                    Some(c) => match st.1 {
                        None => Ok(
                            (
                                st.0,
                                Some(
                                    seq![
                                        VectorSetGhost {
                                            start: Color { r: 0, g: 0, b: 0, pad: 0 },
                                            vectors: seq![c],
                                            chance: 1,
                                            kind: VectorSetKind::Full,
                                        },
                                    ],
                                ),
                            ),
                        ),
                        Some(cur) => {
                            let upd = VectorSetGhost {
                                vectors: cur.last().vectors.push(c),
                                ..cur.last()
                            };
                            if vector_set_wf(upd) {
                                Ok((st.0, Some(cur.update(cur.len() - 1, upd))))
                            } else {
                                Err(ColorError::RangeExceeded)
                            }
                        },
                    },
                }
            } else if opt.long == Some("base"@) && arg is Some {
                match parse_color_spec(arg->0) {
                    None => Err(ColorError::BadColor),
                    Some(c) => match st.1 {
                        None => Ok(
                            (
                                st.0,
                                Some(
                                    seq![
                                        VectorSetGhost {
                                            start: c,
                                            vectors: Seq::empty(),
                                            chance: 1,
                                            kind: VectorSetKind::Full,
                                        },
                                    ],
                                ),
                            ),
                        ),
                        Some(cur) => {
                            let upd = VectorSetGhost { start: c, ..cur.last() };
                            if vector_set_wf(upd) {
                                Ok((st.0, Some(cur.update(cur.len() - 1, upd))))
                            } else {
                                Err(ColorError::RangeExceeded)
                            }
                        },
                    },
                }
            } else if opt.long == Some("type"@) && arg is Some {
                match kind_of(arg->0) {
                    None => Err(ColorError::BadKind),
                    Some(kd) => match st.1 {
                        None => Ok(
                            (
                                st.0,
                                Some(
                                    seq![
                                        VectorSetGhost {
                                            start: Color { r: 0, g: 0, b: 0, pad: 0 },
                                            vectors: Seq::empty(),
                                            chance: 1,
                                            kind: kd,
                                        },
                                    ],
                                ),
                            ),
                        ),
                        Some(cur) => {
                            let upd = VectorSetGhost { kind: kd, ..cur.last() };
                            Ok((st.0, Some(cur.update(cur.len() - 1, upd))))
                        },
                    },
                }
            } else {
                Ok(st)
            }
        },
        ItemGhost::NonOpt(_) => Ok(st),
    }
}

/// The color configuration after the first `n` parsed options.
pub open spec fn color_fold(items: Seq<ItemGhost>, n: int) -> Result<
    (bool, Option<Seq<VectorSetGhost>>),
    ColorError,
>
    decreases n,
{
    if n <= 0 {
        Ok((false, None))
    } else {
        match color_fold(items, n - 1) {
            Err(e) => Err(e),
            Ok(st) => apply_color_item(st, items[n - 1]),
        }
    }
}

/// The options this module recognizes.
pub fn opts() -> (r: Vec<Opt>)
    ensures
        r@.len() == 6,
        r@[0]@ == (OptGhost { short: Some('N'), long: Some("normal"@), has_argument: HasArgument::No }),
        r@[1]@ == (OptGhost { short: None, long: Some("hues"@), has_argument: HasArgument::No }),
        r@[2]@ == (OptGhost {
            short: Some('n'),
            long: Some("newvectorset"@),
            has_argument: HasArgument::No,
        }),
        r@[3]@ == (OptGhost { short: Some('v'), long: Some("vector"@), has_argument: HasArgument::Yes }),
        r@[4]@ == (OptGhost { short: Some('b'), long: Some("base"@), has_argument: HasArgument::Yes }),
        r@[5]@ == (OptGhost { short: Some('t'), long: Some("type"@), has_argument: HasArgument::Yes }),
{
    let mut r: Vec<Opt> = Vec::new();
    r.push(Opt::short_long('N', "normal", HasArgument::No));
    r.push(Opt::long("hues", HasArgument::No));
    r.push(Opt::short_long('n', "newvectorset", HasArgument::No));
    r.push(Opt::short_long('v', "vector", HasArgument::Yes));
    r.push(Opt::short_long('b', "base", HasArgument::Yes));
    r.push(Opt::short_long('t', "type", HasArgument::Yes));
    r
}

/// A well-formed set keeps its start and every vector lane inside the limit.
proof fn lemma_wf_lane_bounds(v: VectorSetGhost)
    requires
        vector_set_wf(v),
    ensures
        forall|k: int| 0 <= k < 4 ==> abs_of(#[trigger] chan(v.start, k)) <= CHAN_LIMIT,
        forall|j: int, k: int|
            0 <= j < v.vectors.len() && 0 <= k < 4 ==> abs_of(
                #[trigger] chan(v.vectors[j], k),
            ) <= CHAN_LIMIT,
{
    assert forall|k: int| 0 <= k < 4 implies abs_of(#[trigger] chan(v.start, k))
        <= CHAN_LIMIT by {
        lemma_abs_budget_nonneg(v.vectors, k, v.vectors.len() as int);
        assert(abs_of(chan(v.start, k)) + abs_budget(v.vectors, k, v.vectors.len() as int)
            <= CHAN_LIMIT);
    }
    assert forall|j: int, k: int|
        0 <= j < v.vectors.len() && 0 <= k < 4 implies abs_of(
        #[trigger] chan(v.vectors[j], k),
    ) <= CHAN_LIMIT by {
        assert(abs_budget(v.vectors, k, j + 1) == abs_budget(v.vectors, k, j) + abs_of(
            chan(v.vectors[j], k),
        ));
        lemma_abs_budget_nonneg(v.vectors, k, j);
        lemma_abs_budget_mono(v.vectors, k, j + 1, v.vectors.len() as int);
        lemma_abs_budget_nonneg(v.vectors, k, v.vectors.len() as int);
        assert(abs_of(chan(v.start, k)) + abs_budget(v.vectors, k, v.vectors.len() as int)
            <= CHAN_LIMIT);
        assert(abs_of(chan(v.start, k)) >= 0);
    }
}

/// Decides [`vector_set_wf`] for a set whose lanes are individually bounded.
fn check_set_wf(set: &VectorSet) -> (r: bool)
    requires
        set@.chance >= 1,
        forall|k: int| 0 <= k < 4 ==> abs_of(#[trigger] chan(set@.start, k)) <= CHAN_LIMIT,
        forall|j: int, k: int|
            0 <= j < set@.vectors.len() && 0 <= k < 4 ==> abs_of(
                #[trigger] chan(set@.vectors[j], k),
            ) <= CHAN_LIMIT,
    ensures
        r == vector_set_wf(set@),
{
    let ghost vs = set@.vectors;
    let mut k: usize = 0;
    while k < 4
        invariant
            k <= 4,
            vs == set@.vectors,
            set@.chance >= 1,
            forall|kk: int| 0 <= kk < 4 ==> abs_of(#[trigger] chan(set@.start, kk)) <= CHAN_LIMIT,
            forall|j: int, kk: int|
                0 <= j < vs.len() && 0 <= kk < 4 ==> abs_of(#[trigger] chan(vs[j], kk))
                    <= CHAN_LIMIT,
            forall|kk: int|
                0 <= kk < k ==> abs_of(chan(set@.start, kk)) + #[trigger] abs_budget(
                    vs,
                    kk,
                    vs.len() as int,
                ) <= CHAN_LIMIT,
        decreases 4 - k,
    {
        proof {
            assert(abs_of(chan(set@.start, k as int)) <= CHAN_LIMIT);
        }
        let sl = lane(&set.start, k);
        let start_mag: i64 = if sl >= 0 {
            sl
        } else {
            -sl
        };
        let mut acc: i64 = start_mag;
        let mut j: usize = 0;
        while j < set.vectors.len()
            invariant
                j <= vs.len(),
                k < 4,
                vs == set@.vectors,
                forall|jj: int, kk: int|
                    0 <= jj < vs.len() && 0 <= kk < 4 ==> abs_of(#[trigger] chan(vs[jj], kk))
                        <= CHAN_LIMIT,
                start_mag == abs_of(chan(set@.start, k as int)),
                0 <= acc,
                acc == start_mag + abs_budget(vs, k as int, j as int),
                acc <= CHAN_LIMIT,
            decreases vs.len() - j,
        {
            let v = lane(&set.vectors[j], k);
            let mag: i64 = if v >= 0 {
                v
            } else {
                -v
            };
            proof {
                assert(vs[j as int] == set@.vectors[j as int]);
                assert(abs_budget(vs, k as int, j as int + 1) == abs_budget(vs, k as int, j as int)
                    + abs_of(chan(vs[j as int], k as int)));
            }
            if acc > CHAN_LIMIT - mag {
                // The budget only grows from here on.
                proof {
                    lemma_abs_budget_mono(vs, k as int, j as int + 1, vs.len() as int);
                }
                return false;
            }
            acc = acc + mag;
            j += 1;
        }
        k += 1;
    }
    proof {
        assert(vector_set_wf(set@));
    }
    true
}

/// Chances of one each sum to the number of sets.
proof fn lemma_chance_sum_ones(sets: Seq<VectorSetGhost>, n: int)
    requires
        n <= sets.len(),
        forall|j: int| 0 <= j < sets.len() ==> (#[trigger] sets[j]).chance == 1,
    ensures
        chance_sum(sets, n) == if n <= 0 {
            0int
        } else {
            n
        },
    decreases n,
{
    if n > 0 {
        lemma_chance_sum_ones(sets, n - 1);
    }
}

/// The configured color model: a single vector set, or a weighted group.
#[derive(Debug, Clone, PartialEq)]
pub enum ColorModel {
    Single(VectorSet),
    Group(VectorSetGroup),
}

impl ColorModel {
    pub open spec fn wf(&self) -> bool {
        match self {
            ColorModel::Single(s) => vector_set_wf(s@),
            ColorModel::Group(g) => group_wf(*g),
        }
    }

    /// Every distribution in the model uses the implemented `Full` law.
    pub open spec fn spec_all_full(&self) -> bool {
        match self {
            ColorModel::Single(s) => s@.kind == VectorSetKind::Full,
            ColorModel::Group(g) => all_full(sets_view(g.vectorsets@)),
        }
    }

    /// What the model's sampler may answer, whatever the generator draws.
    pub open spec fn model_sample(&self, r: Option<Color>) -> bool {
        match self {
            ColorModel::Single(s) => member_sample(s@, r),
            ColorModel::Group(g) => group_sample(*g, r),
        }
    }

    /// Samples one color; always succeeds when every law is `Full`, and the
    /// answer is always a lawful sample of the selected distribution.
    pub fn new_color(&self, rng: &mut rand_chacha::ChaCha12Rng) -> (r: Option<Color>)
        requires
            self.wf(),
        ensures
            r matches Some(c) ==> color_wf(c),
            self.spec_all_full() ==> r is Some,
            self.model_sample(r),
    {
        match self {
            ColorModel::Single(s) => s.new_color(rng),
            ColorModel::Group(g) => g.new_color(rng),
        }
    }

    /// The single vector set, where the model is one.
    pub fn as_vectorset(&self) -> (r: Option<&VectorSet>)
        ensures
            match r {
                Some(s) => self matches ColorModel::Single(x) && x == s,
                None => !(self matches ColorModel::Single(_)),
            },
    {
        match self {
            ColorModel::Single(s) => Some(s),
            ColorModel::Group(_) => None,
        }
    }

    /// The group, where the model is one.
    pub fn as_vectorsetgroup(&self) -> (r: Option<&VectorSetGroup>)
        ensures
            match r {
                Some(g) => self matches ColorModel::Group(x) && x == g,
                None => !(self matches ColorModel::Group(_)),
            },
    {
        match self {
            ColorModel::Single(_) => None,
            ColorModel::Group(g) => Some(g),
        }
    }
}

/// Once the fold rejects a prefix, it rejects every longer prefix the same
/// way.
proof fn lemma_color_fold_err_persists(items: Seq<ItemGhost>, k: int)
    requires
        0 < k <= items.len(),
        color_fold(items, k) is Err,
    ensures
        color_fold(items, items.len() as int) == color_fold(items, k),
    decreases items.len() - k,
{
    if k < items.len() {
        lemma_color_fold_err_persists(items, k + 1);
    }
}

/// Builds the color model the parsed options ask for: `--normal` or nothing
/// gives the default model; explicit vector sets give a weighted group; both
/// at once is a configuration fault.
pub fn handle_opts(items: &Vec<GetoptItem>) -> (r: Result<ColorModel, ColorError>)
    ensures
        ({
            let folded = color_fold(crate::getopt::items_view(items@), items@.len() as int);
            match folded {
                Err(e) => r == Err::<ColorModel, ColorError>(e),
                Ok((normal, setso)) => match setso {
                    None => r matches Ok(m) && m matches ColorModel::Single(vs) && vs@
                        == basic_ghost(),
                    Some(sets) => if normal {
                        r == Err::<ColorModel, ColorError>(ColorError::TwoColorspaces)
                    } else {
                        r matches Ok(m) && m matches ColorModel::Group(g) && sets_view(
                            g.vectorsets@,
                        ) == sets && g.total_chance == sets.len()
                    },
                },
            }
        }),
        r matches Ok(m) ==> m.wf(),
{
    let ghost iv = crate::getopt::items_view(items@);
    let mut normal = false;
    let mut have = false;
    let mut sets: Vec<VectorSet> = Vec::new();
    let mut i: usize = 0;
    while i < items.len()
        invariant
            i <= items@.len(),
            iv == crate::getopt::items_view(items@),
            color_fold(iv, i as int) == Ok::<_, ColorError>(
                (
                    normal,
                    if have {
                        Some(sets_view(sets@))
                    } else {
                        None::<Seq<VectorSetGhost>>
                    },
                ),
            ),
            !have ==> sets@.len() == 0,
            have ==> sets@.len() >= 1,
            forall|j: int|
                0 <= j < sets@.len() ==> vector_set_wf(#[trigger] sets_view(sets@)[j])
                    && sets_view(sets@)[j].chance == 1,
        decreases items@.len() - i,
    {
        let ghost st = (
            normal,
            if have {
                Some(sets_view(sets@))
            } else {
                None::<Seq<VectorSetGhost>>
            },
        );
        proof {
            assert(iv[i as int] == items@[i as int]@);
            reveal_strlit("normal");
            reveal_strlit("hues");
            reveal_strlit("newvectorset");
            reveal_strlit("vector");
            reveal_strlit("base");
            reveal_strlit("type");
        }
        match &items[i] {
            GetoptItem::Opt { opt, arg } => {
                let no_arg = arg.is_none();
                if opt.is_long("normal") && no_arg {
                    normal = true;
                } else if opt.is_long("hues") && no_arg {
                    let mut h = full_intensity_hues();
                    let ghost old_sets = sets@;
                    sets.append(&mut h);
                    have = true;
                    proof {
                        assert(sets_view(sets@) =~= sets_view(old_sets) + hues_ghost());
                        if st.1 is None {
                            assert(sets_view(old_sets) =~= Seq::<VectorSetGhost>::empty());
                            assert(sets_view(sets@) =~= hues_ghost());
                        }
                    }
                } else if opt.is_long("newvectorset") && no_arg {
                    let ghost old_sets = sets@;
                    sets.push(empty_vector_set());
                    have = true;
                    proof {
                        assert(sets_view(sets@) =~= sets_view(old_sets).push(empty_set_ghost()));
                        if st.1 is None {
                            assert(sets_view(sets@) =~= seq![empty_set_ghost()]);
                        }
                    }
                } else if opt.is_long("vector") {
                    match arg {
                        Some(a) => {
                            match parse_color(a.as_str()) {
                                None => {
                                    proof {
                                        assert(iv[i as int] == (ItemGhost::Opt {
                                            opt: opt@,
                                            arg: Some(a@),
                                        }));
                                        assert(opt@.long == Some("vector"@));
                                        assert(parse_color_spec(a@) is None);
                                        assert(apply_color_item(st, iv[i as int]) == Err::<(
                                            bool,
                                            Option<Seq<VectorSetGhost>>,
                                        ), ColorError>(ColorError::BadColor));
                                        assert(color_fold(iv, i as int + 1) == Err::<(
                                            bool,
                                            Option<Seq<VectorSetGhost>>,
                                        ), ColorError>(ColorError::BadColor));
                                        lemma_color_fold_err_persists(iv, i as int + 1);
                                    }
                                    return Err(ColorError::BadColor);
                                },
                                Some(c) => {
                                    proof {
                                        lemma_parse_lanes_bounded(
                                            a@,
                                            0,
                                            Color { r: 0, g: 0, b: 0, pad: 0 },
                                            c,
                                        );
                                    }
                                    if !have {
                                        let mut vectors: Vec<Color> = Vec::new();
                                        vectors.push(c);
                                        let ns = VectorSet {
                                            start: from_3(0, 0, 0),
                                            vectors,
                                            chance: 1,
                                            kind: VectorSetKind::Full,
                                        };
                                        proof {
                                            assert(ns@.vectors =~= seq![c]);
                                            assert forall|j: int, k: int|
                                                0 <= j < ns@.vectors.len() && 0 <= k
                                                    < 4 implies abs_of(
                                                #[trigger] chan(ns@.vectors[j], k),
                                            ) <= CHAN_LIMIT by {
                                                assert(ns@.vectors[j] == c);
                                            }
                                            assert forall|k: int| 0 <= k < 4 implies abs_of(
                                                chan(ns@.start, k),
                                            ) + #[trigger] abs_budget(
                                                ns@.vectors,
                                                k,
                                                ns@.vectors.len() as int,
                                            ) <= CHAN_LIMIT by {
                                                assert(abs_budget(ns@.vectors, k, 1) == abs_budget(
                                                    ns@.vectors,
                                                    k,
                                                    0,
                                                ) + abs_of(chan(ns@.vectors[0], k)));
                                            }
                                            assert(vector_set_wf(ns@));
                                        }
                                        sets.push(ns);
                                        have = true;
                                        proof {
                                            assert(sets_view(sets@) =~= seq![ns@]);
                                        }
                                    } else {
                                        let ghost pre = sets@;
                                        let last_opt = sets.pop();
                                        let mut last = match last_opt {
                                            Some(l) => l,
                                            None => {
                                                proof {
                                                    assert(false);
                                                }
                                                return Err(ColorError::BadColor);
                                            },
                                        };
                                        let ghost popped = sets@;
                                        let ghost lastv = last@;
                                        proof {
                                            assert(lastv == sets_view(pre)[pre.len() - 1]);
                                            assert(vector_set_wf(lastv) && lastv.chance == 1);
                                            lemma_wf_lane_bounds(lastv);
                                        }
                                        last.vectors.push(c);
                                        proof {
                                            assert(last@.vectors =~= lastv.vectors.push(c));
                                            assert(last@ == (VectorSetGhost {
                                                vectors: lastv.vectors.push(c),
                                                ..lastv
                                            }));
                                            assert forall|j: int, k: int|
                                                0 <= j < last@.vectors.len() && 0 <= k
                                                    < 4 implies abs_of(
                                                #[trigger] chan(last@.vectors[j], k),
                                            ) <= CHAN_LIMIT by {
                                                if j < lastv.vectors.len() {
                                                    assert(last@.vectors[j] == lastv.vectors[j]);
                                                } else {
                                                    assert(last@.vectors[j] == c);
                                                }
                                            }
                                        }
                                        if check_set_wf(&last) {
                                            let ghost upd = last@;
                                            sets.push(last);
                                            proof {
                                                let cur = st.1->0;
                                                assert(cur =~= sets_view(popped).push(lastv));
                                                assert(sets_view(sets@) =~= sets_view(
                                                    popped,
                                                ).push(upd));
                                                assert(cur.update(cur.len() - 1, upd)
                                                    =~= sets_view(sets@));
                                            }
                                        } else {
                                            proof {
                                                assert(color_fold(iv, i as int + 1) == Err::<(
                                                    bool,
                                                    Option<Seq<VectorSetGhost>>,
                                                ), ColorError>(ColorError::RangeExceeded));
                                                lemma_color_fold_err_persists(iv, i as int + 1);
                                            }
                                            return Err(ColorError::RangeExceeded);
                                        }
                                    }
                                },
                            }
                        },
                        None => {},
                    }
                } else if opt.is_long("base") {
                    match arg {
                        Some(a) => {
                            match parse_color(a.as_str()) {
                                None => {
                                    proof {
                                        assert(color_fold(iv, i as int + 1) == Err::<(
                                            bool,
                                            Option<Seq<VectorSetGhost>>,
                                        ), ColorError>(ColorError::BadColor));
                                        lemma_color_fold_err_persists(iv, i as int + 1);
                                    }
                                    return Err(ColorError::BadColor);
                                },
                                Some(c) => {
                                    proof {
                                        lemma_parse_lanes_bounded(
                                            a@,
                                            0,
                                            Color { r: 0, g: 0, b: 0, pad: 0 },
                                            c,
                                        );
                                    }
                                    if !have {
                                        let ns = VectorSet {
                                            start: c,
                                            vectors: Vec::new(),
                                            chance: 1,
                                            kind: VectorSetKind::Full,
                                        };
                                        proof {
                                            assert(ns@.vectors =~= Seq::<Color>::empty());
                                            assert(vector_set_wf(ns@));
                                        }
                                        sets.push(ns);
                                        have = true;
                                        proof {
                                            assert(sets_view(sets@) =~= seq![ns@]);
                                        }
                                    } else {
                                        let ghost pre = sets@;
                                        let last_opt = sets.pop();
                                        let mut last = match last_opt {
                                            Some(l) => l,
                                            None => {
                                                proof {
                                                    assert(false);
                                                }
                                                return Err(ColorError::BadColor);
                                            },
                                        };
                                        let ghost popped = sets@;
                                        let ghost lastv = last@;
                                        proof {
                                            assert(lastv == sets_view(pre)[pre.len() - 1]);
                                            assert(vector_set_wf(lastv) && lastv.chance == 1);
                                            lemma_wf_lane_bounds(lastv);
                                        }
                                        last.start = c;
                                        proof {
                                            assert(last@ == (VectorSetGhost { start: c, ..lastv }));
                                        }
                                        if check_set_wf(&last) {
                                            let ghost upd = last@;
                                            sets.push(last);
                                            proof {
                                                let cur = st.1->0;
                                                assert(cur =~= sets_view(popped).push(lastv));
                                                assert(sets_view(sets@) =~= sets_view(
                                                    popped,
                                                ).push(upd));
                                                assert(cur.update(cur.len() - 1, upd)
                                                    =~= sets_view(sets@));
                                            }
                                        } else {
                                            proof {
                                                assert(color_fold(iv, i as int + 1) == Err::<(
                                                    bool,
                                                    Option<Seq<VectorSetGhost>>,
                                                ), ColorError>(ColorError::RangeExceeded));
                                                lemma_color_fold_err_persists(iv, i as int + 1);
                                            }
                                            return Err(ColorError::RangeExceeded);
                                        }
                                    }
                                },
                            }
                        },
                        None => {},
                    }
                } else if opt.is_long("type") {
                    match arg {
                        Some(a) => {
                            match kind_of_exec(a.as_str()) {
                                None => {
                                    proof {
                                        assert(color_fold(iv, i as int + 1) == Err::<(
                                            bool,
                                            Option<Seq<VectorSetGhost>>,
                                        ), ColorError>(ColorError::BadKind));
                                        lemma_color_fold_err_persists(iv, i as int + 1);
                                    }
                                    return Err(ColorError::BadKind);
                                },
                                Some(kd) => {
                                    if !have {
                                        let ns = VectorSet {
                                            start: from_3(0, 0, 0),
                                            vectors: Vec::new(),
                                            chance: 1,
                                            kind: kd,
                                        };
                                        proof {
                                            assert(ns@.vectors =~= Seq::<Color>::empty());
                                            assert(vector_set_wf(ns@));
                                        }
                                        sets.push(ns);
                                        have = true;
                                        proof {
                                            assert(sets_view(sets@) =~= seq![ns@]);
                                        }
                                    } else {
                                        let ghost pre = sets@;
                                        let last_opt = sets.pop();
                                        let mut last = match last_opt {
                                            Some(l) => l,
                                            None => {
                                                proof {
                                                    assert(false);
                                                }
                                                return Err(ColorError::BadKind);
                                            },
                                        };
                                        let ghost popped = sets@;
                                        let ghost lastv = last@;
                                        proof {
                                            assert(lastv == sets_view(pre)[pre.len() - 1]);
                                            assert(vector_set_wf(lastv) && lastv.chance == 1);
                                        }
                                        last.kind = kd;
                                        proof {
                                            assert(last@ == (VectorSetGhost { kind: kd, ..lastv }));
                                        }
                                        let ghost upd = last@;
                                        sets.push(last);
                                        proof {
                                            let cur = st.1->0;
                                            assert(cur =~= sets_view(popped).push(lastv));
                                            assert(sets_view(sets@) =~= sets_view(popped).push(
                                                upd,
                                            ));
                                            assert(cur.update(cur.len() - 1, upd) =~= sets_view(
                                                sets@,
                                            ));
                                        }
                                    }
                                },
                            }
                        },
                        None => {},
                    }
                }
            },
            GetoptItem::NonOpt(_) => {},
        }
        i += 1;
    }
    if !have {
        return Ok(ColorModel::Single(basic_color()));
    }
    if normal {
        return Err(ColorError::TwoColorspaces);
    }
    let n_sets = sets.len();
    proof {
        assert forall|j: int| 0 <= j < sets@.len() implies (#[trigger] sets@[j])@.chance == 1
            && sets@[j]@.chance >= 0 by {
            assert(sets_view(sets@)[j] == sets@[j]@);
        }
        lemma_chance_sum_ones(sets_view(sets@), sets@.len() as int);
    }
    let ghost final_sets = sets_view(sets@);
    match VectorSetGroup::new(sets) {
        Ok(g) => Ok(ColorModel::Group(g)),
        Err(_) => {
            proof {
                assert(false);
            }
            Err(ColorError::BadColor)
        },
    }
}

} // verus!
