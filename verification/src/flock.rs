//! The flock: agents with positions, headings and per-frame scratch
//! state, the per-frame steering pipeline (neighbor cache, separation,
//! cohesion, alignment, border avoidance) and the integrator that moves
//! every agent and keeps the spatial grid consistent.
use vstd::prelude::*;
use crate::fixed::{SCALE, div_t, clamp_s, sqrt_f, div_trunc, clamp_i, isqrt};
use crate::fixed::{lemma_div_t_mag, lemma_div_t_bound, lemma_sqrt_ge_axis};
use crate::vec2::{Vec2F, COORD_LIMIT};
use crate::fixed::abs_s;
use crate::grid::{SpatialGrid, MAX_HALF, key_c, lemma_query_soundness};

verus! {

/// Default population of the simulation.
pub const NBR: usize = 10_000;

/// Default half-extent of the domain, in world units.
pub const SIZE: usize = 100;

/// Default view radius, fixed-point (one world unit).
pub const VIEW_DIST: i64 = 1000;

/// Default border margin, fixed-point (one world unit).
pub const BORDER: i64 = 1000;

/// Fixed weight of the border-repulsion term (0.2 in fixed point).
pub const BORDER_WEIGHT: i64 = 200;

/// Largest accepted population.
pub const MAX_POP: usize = 100_000;

/// Largest accepted view radius (1000 world units, fixed-point).
pub const MAX_VIEW: i64 = 1_000_000;

/// Largest accepted magnitude of a rule weight or speed (fixed-point).
pub const MAX_WEIGHT: i64 = 1_000_000;

/// Largest accepted frame time (fixed-point seconds).
pub const MAX_DT: i64 = 1_000_000;

/// Square of the fixed-point scale: the factor that turns `diff / d`
/// into fixed-point steps.
pub const SCALE_SQ: i64 = 1_000_000;

/// Bound on one component of one accumulated direction vector.
pub const DIR_COMP_MAX: i64 = 200_000_000_000_000;

/// The tunable rule weights, fixed-point: a weight of 1000 is 1.0.
#[derive(Clone, Copy, PartialEq, Eq, Structural, Debug)]
pub struct Params {
    pub sep: i64,
    pub ali: i64,
    pub coh: i64,
    pub speed: i64,
}

impl Default for Params {
    /// The reference tuning: separation 0.02, alignment 0.2,
    /// cohesion 0.02, speed 1.0.
    fn default() -> (p: Params)
        ensures
            p.sep == 20 && p.ali == 200 && p.coh == 20 && p.speed == 1000,
    {
        Params { sep: 20, ali: 200, coh: 20, speed: 1000 }
    }
}

/// One cached neighbor: its handle, the offset `own position minus
/// neighbor position`, and the squared distance.
#[derive(Clone, Copy, PartialEq, Eq, Structural, Debug)]
pub struct CacheEntry {
    pub nb: usize,
    pub diff: Vec2F,
    pub d: i64,
}

/// One agent: position, unit-heading velocity, the per-frame direction
/// accumulator and the per-frame neighbor cache.
#[derive(Clone, Debug)]
pub struct Agent {
    pub pos: Vec2F,
    pub vel: Vec2F,
    pub dir_vec: Vec<Vec2F>,
    pub prox_cache: Vec<CacheEntry>,
}

/// One axis of the inward border repulsion: a whole unit inward when
/// within `border` of that edge, zero elsewhere.
pub open spec fn border_axis(half_fp: int, border: int, c: int) -> int {
    if c < 0 - half_fp + border {
        SCALE as int
    } else if c > half_fp - border {
        0 - SCALE as int
    } else {
        0
    }
}

/// One axis of a separation contribution: `diff / d` in fixed point.
pub open spec fn sep_term_axis(c: int, d: int) -> int {
    div_t(c * (SCALE_SQ as int), d)
}

/// Squared magnitude of the separation contribution of one neighbor.
pub open spec fn sep_term_mag_sq(diff: Vec2F, d: int) -> int {
    let tx = sep_term_axis(diff.x as int, d);
    let ty = sep_term_axis(diff.y as int, d);
    tx * tx + ty * ty
}

/// Sum of the separation contributions of a cache.
pub open spec fn sum_sep(c: Seq<CacheEntry>) -> (int, int)
    decreases c.len(),
{
    if c.len() == 0 {
        (0, 0)
    } else {
        let r = sum_sep(c.drop_last());
        let e = c.last();
        (r.0 + sep_term_axis(e.diff.x as int, e.d as int), r.1 + sep_term_axis(
            e.diff.y as int,
            e.d as int,
        ))
    }
}

/// Sum of the offsets of a cache (cohesion is its negation).
pub open spec fn sum_coh(c: Seq<CacheEntry>) -> (int, int)
    decreases c.len(),
{
    if c.len() == 0 {
        (0, 0)
    } else {
        let r = sum_coh(c.drop_last());
        let e = c.last();
        (r.0 + e.diff.x, r.1 + e.diff.y)
    }
}

/// Sum of the cached neighbors' velocities, read from `agents`.
pub open spec fn sum_ali(c: Seq<CacheEntry>, agents: Seq<Agent>) -> (int, int)
    decreases c.len(),
{
    if c.len() == 0 {
        (0, 0)
    } else {
        let r = sum_ali(c.drop_last(), agents);
        let e = c.last();
        (r.0 + agents[e.nb as int].vel.x, r.1 + agents[e.nb as int].vel.y)
    }
}

/// A vector scaled by a fixed-point weight.
pub open spec fn scale_w(v: (int, int), w: int) -> (int, int) {
    (div_t(v.0 * w, SCALE as int), div_t(v.1 * w, SCALE as int))
}

/// Componentwise sum of the accumulated direction vectors.
pub open spec fn dir_sum(s: Seq<Vec2F>) -> (int, int)
    decreases s.len(),
{
    if s.len() == 0 {
        (0, 0)
    } else {
        let r = dir_sum(s.drop_last());
        (r.0 + s.last().x, r.1 + s.last().y)
    }
}

/// The heading after integration: the normalized direction sum, or the
/// previous heading unchanged when the sum is the zero vector.
pub open spec fn heading(v_old: Vec2F, s: (int, int)) -> (int, int) {
    if s.0 == 0 && s.1 == 0 {
        (v_old.x as int, v_old.y as int)
    } else {
        let m = sqrt_f((s.0 * s.0 + s.1 * s.1) as nat);
        (div_t(s.0 * (SCALE as int), m as int), div_t(s.1 * (SCALE as int), m as int))
    }
}

/// One axis of the movement step: position plus displacement, clamped
/// to the domain.
pub open spec fn move_axis(p: int, v: int, speed: int, dt: int, half_fp: int) -> int {
    clamp_s(p + div_t(v * speed * dt, SCALE_SQ as int), 0 - half_fp, half_fp)
}

/// Some entry of `c` names neighbor `j`.
pub open spec fn has_nb(c: Seq<CacheEntry>, j: usize) -> bool {
    exists|t: int| 0 <= t < c.len() && (#[trigger] c[t]).nb == j
}

/// Same domain, index parameters, weights and population size.
pub open spec fn same_config(a: Flock, b: Flock) -> bool {
    &&& a.grid_spec() == b.grid_spec()
    &&& a.view_spec() == b.view_spec()
    &&& a.border_spec() == b.border_spec()
    &&& a.params_spec() == b.params_spec()
    &&& a.agent_seq().len() == b.agent_seq().len()
}

/// Every agent keeps its position and velocity.
pub open spec fn same_pos_vel(a: Flock, b: Flock) -> bool {
    forall|j: int|
        0 <= j < b.agent_seq().len() ==> (#[trigger] a.agent_seq()[j]).pos == b.agent_seq()[j].pos
            && a.agent_seq()[j].vel == b.agent_seq()[j].vel
}

/// Every agent keeps its direction accumulator.
pub open spec fn same_dirs(a: Flock, b: Flock) -> bool {
    forall|j: int|
        0 <= j < b.agent_seq().len() ==> (#[trigger] a.agent_seq()[j]).dir_vec@
            == b.agent_seq()[j].dir_vec@
}

/// Every agent keeps its neighbor cache.
pub open spec fn same_caches(a: Flock, b: Flock) -> bool {
    forall|j: int|
        0 <= j < b.agent_seq().len() ==> (#[trigger] a.agent_seq()[j]).prox_cache@
            == b.agent_seq()[j].prox_cache@
}

/// The accumulator grew by exactly one vector with the given
/// components, everything before it unchanged.
pub open spec fn extended1(new: Seq<Vec2F>, base: Seq<Vec2F>, a: (int, int)) -> bool {
    &&& new.len() == base.len() + 1
    &&& forall|k: int| 0 <= k < base.len() ==> new[k] == base[k]
    &&& new[new.len() - 1].x as int == a.0
    &&& new[new.len() - 1].y as int == a.1
}

/// The accumulator grew by exactly two vectors with the given
/// components, everything before them unchanged.
pub open spec fn extended2(new: Seq<Vec2F>, base: Seq<Vec2F>, a: (int, int), b: (int, int)) -> bool {
    &&& new.len() == base.len() + 2
    &&& forall|k: int| 0 <= k < base.len() ==> new[k] == base[k]
    &&& new[new.len() - 2].x as int == a.0
    &&& new[new.len() - 2].y as int == a.1
    &&& new[new.len() - 1].x as int == b.0
    &&& new[new.len() - 1].y as int == b.1
}

/// The alignment sum only reads velocities: two agent sequences that
/// agree on them give the same sum.
proof fn lemma_sum_ali_same_vel(c: Seq<CacheEntry>, a1: Seq<Agent>, a2: Seq<Agent>)
    requires
        a1.len() == a2.len(),
        forall|j: int| 0 <= j < a1.len() ==> (#[trigger] a1[j]).vel == a2[j].vel,
        forall|t: int| 0 <= t < c.len() ==> ((#[trigger] c[t]).nb as int) < a1.len(),
    ensures
        sum_ali(c, a1) == sum_ali(c, a2),
    decreases c.len(),
{
    if c.len() > 0 {
        assert forall|t: int| 0 <= t < c.drop_last().len() implies ((#[trigger] c.drop_last()[
            t]).nb as int) < a1.len() by {
            assert((c[t].nb as int) < a1.len());
        }
        lemma_sum_ali_same_vel(c.drop_last(), a1, a2);
        assert((c[c.len() - 1].nb as int) < a1.len());
    }
}

/// The inward border repulsion of a position: a whole unit inward on
/// each axis within `border` of that edge, zero elsewhere.
pub fn border_vel(p0: &Vec2F, half_fp: i64, border: i64) -> (v: Vec2F)
    requires
        0 <= border <= half_fp <= 10_000_000,
        p0.bounded(COORD_LIMIT as int),
    ensures
        v.x as int == border_axis(half_fp as int, border as int, p0.x as int),
        v.y as int == border_axis(half_fp as int, border as int, p0.y as int),
        v.bounded(SCALE as int),
{
    let x: i64 = if p0.x < -half_fp + border {
        SCALE
    } else if p0.x > half_fp - border {
        -SCALE
    } else {
        0
    };
    let y: i64 = if p0.y < -half_fp + border {
        SCALE
    } else if p0.y > half_fp - border {
        -SCALE
    } else {
        0
    };
    Vec2F { x, y }
}

/// Separation weighting: for one offset vector considered at two
/// squared distances, the closer reading yields a contribution of
/// strictly larger squared magnitude whenever the two fixed-point
/// contributions differ at all — inverse-distance weighting never
/// favors the farther neighbor. (With truncating division the two
/// contributions can coincide, so equality is excluded explicitly.)
pub proof fn lemma_separation_weighting(diff: Vec2F, d1: i64, d2: i64)
    requires
        0 < d1 < d2,
        diff.mag_sq_s() > 0,
        sep_term_mag_sq(diff, d1 as int) != sep_term_mag_sq(diff, d2 as int),
    ensures
        sep_term_mag_sq(diff, d1 as int) > sep_term_mag_sq(diff, d2 as int),
{
    let k = SCALE_SQ as int;
    let nx = (diff.x as int) * k;
    let ny = (diff.y as int) * k;
    let t1x = sep_term_axis(diff.x as int, d1 as int);
    let t1y = sep_term_axis(diff.y as int, d1 as int);
    let t2x = sep_term_axis(diff.x as int, d2 as int);
    let t2y = sep_term_axis(diff.y as int, d2 as int);
    lemma_div_t_mag(nx, d1 as int);
    lemma_div_t_mag(nx, d2 as int);
    lemma_div_t_mag(ny, d1 as int);
    lemma_div_t_mag(ny, d2 as int);
    vstd::arithmetic::div_mod::lemma_div_is_ordered_by_denominator(
        abs_s(nx),
        d1 as int,
        d2 as int,
    );
    vstd::arithmetic::div_mod::lemma_div_is_ordered_by_denominator(
        abs_s(ny),
        d1 as int,
        d2 as int,
    );
    assert(abs_s(t1x) >= abs_s(t2x));
    assert(abs_s(t1y) >= abs_s(t2y));
    assert(t1x * t1x == abs_s(t1x) * abs_s(t1x)) by (nonlinear_arith)
        requires
            abs_s(t1x) == t1x || abs_s(t1x) == 0 - t1x,
    ;
    assert(t1y * t1y == abs_s(t1y) * abs_s(t1y)) by (nonlinear_arith)
        requires
            abs_s(t1y) == t1y || abs_s(t1y) == 0 - t1y,
    ;
    assert(t2x * t2x == abs_s(t2x) * abs_s(t2x)) by (nonlinear_arith)
        requires
            abs_s(t2x) == t2x || abs_s(t2x) == 0 - t2x,
    ;
    assert(t2y * t2y == abs_s(t2y) * abs_s(t2y)) by (nonlinear_arith)
        requires
            abs_s(t2y) == t2y || abs_s(t2y) == 0 - t2y,
    ;
    assert(abs_s(t1x) * abs_s(t1x) >= abs_s(t2x) * abs_s(t2x)) by (nonlinear_arith)
        requires
            abs_s(t1x) >= abs_s(t2x) >= 0,
    ;
    assert(abs_s(t1y) * abs_s(t1y) >= abs_s(t2y) * abs_s(t2y)) by (nonlinear_arith)
        requires
            abs_s(t1y) >= abs_s(t2y) >= 0,
    ;
}

/// The full per-frame steering sum of agent `i` over the cache `c`:
/// weighted separation, border repulsion, cohesion and alignment, with
/// positions, velocities and weights read from `f`.
pub open spec fn step_sum(f: Flock, i: int, c: Seq<CacheEntry>) -> (int, int) {
    let a = scale_w(sum_sep(c), f.params_spec().sep as int);
    let b = scale_w(
        (
            border_axis(f.half_fp(), f.border_spec(), f.agent_seq()[i].pos.x as int),
            border_axis(f.half_fp(), f.border_spec(), f.agent_seq()[i].pos.y as int),
        ),
        BORDER_WEIGHT as int,
    );
    let g = scale_w((0 - sum_coh(c).0, 0 - sum_coh(c).1), f.params_spec().coh as int);
    let h = scale_w(sum_ali(c, f.agent_seq()), f.params_spec().ali as int);
    (a.0 + b.0 + g.0 + h.0, a.1 + b.1 + g.1 + h.1)
}

/// Cache correctness only reads positions, the view radius and the
/// population size: it carries over to any state that agrees on them.
pub proof fn lemma_cache_correct_transfer(f1: Flock, f2: Flock, i: int, c: Seq<CacheEntry>)
    requires
        0 <= i < f1.agent_seq().len(),
        f1.cache_correct_seq(i, c),
        f1.agent_seq().len() == f2.agent_seq().len(),
        f1.view_spec() == f2.view_spec(),
        forall|j: int|
            0 <= j < f1.agent_seq().len() ==> (#[trigger] f1.agent_seq()[j]).pos
                == f2.agent_seq()[j].pos,
    ensures
        f2.cache_correct_seq(i, c),
{
    assert forall|t: int| 0 <= t < c.len() implies f2.exact_entry(i, #[trigger] c[t]) by {
        assert(f1.exact_entry(i, c[t]));
        assert(f2.agent_seq()[i].pos == f1.agent_seq()[i].pos);
        assert(f2.agent_seq()[c[t].nb as int].pos == f1.agent_seq()[c[t].nb as int].pos);
    }
    assert forall|t: int| 0 <= t < c.len() implies (#[trigger] c[t]).d == f2.dist_sq(
        i,
        c[t].nb as int,
    ) by {
        assert(c[t].d == f1.dist_sq(i, c[t].nb as int));
        assert(f2.agent_seq()[i].pos == f1.agent_seq()[i].pos);
        assert(f2.agent_seq()[c[t].nb as int].pos == f1.agent_seq()[c[t].nb as int].pos);
    }
    assert forall|j: int|
        0 <= j < f2.agent_seq().len() && j != i && 0 < #[trigger] f2.dist_sq(i, j)
            <= f2.view_spec() * f2.view_spec() implies has_nb(c, j as usize) by {
        assert(f2.agent_seq()[i].pos == f1.agent_seq()[i].pos);
        assert(f2.agent_seq()[j].pos == f1.agent_seq()[j].pos);
        assert(f1.dist_sq(i, j) == f2.dist_sq(i, j));
    }
}

/// A cache whose neighbor handles are pairwise distinct and all below
/// `n` cannot hold more than `n` entries.
proof fn lemma_nb_seq_len(c: Seq<CacheEntry>, n: int)
    requires
        n >= 0,
        forall|t1: int, t2: int|
            0 <= t1 < t2 < c.len() ==> (#[trigger] c[t1]).nb != (#[trigger] c[t2]).nb,
        forall|t: int| 0 <= t < c.len() ==> ((#[trigger] c[t]).nb as int) < n,
    ensures
        c.len() <= n,
{
    let nbs = c.map_values(|e: CacheEntry| e.nb as int);
    assert(nbs.no_duplicates()) by {
        assert forall|t1: int, t2: int|
            0 <= t1 < nbs.len() && 0 <= t2 < nbs.len() && t1 != t2 implies nbs[t1] != nbs[t2] by {
            if t1 < t2 {
                assert(c[t1].nb != c[t2].nb);
            } else {
                assert(c[t2].nb != c[t1].nb);
            }
        }
    }
    nbs.unique_seq_to_set();
    vstd::set_lib::lemma_int_range(0, n);
    assert(nbs.to_set().subset_of(vstd::set_lib::set_int_range(0, n))) by {
        assert forall|x: int| nbs.to_set().contains(x) implies vstd::set_lib::set_int_range(
            0,
            n,
        ).contains(x) by {
            let t = choose|t: int| 0 <= t < nbs.len() && nbs[t] == x;
            assert((c[t].nb as int) < n);
        }
    }
    vstd::set_lib::lemma_len_subset(nbs.to_set(), vstd::set_lib::set_int_range(0, n));
}

/// One axis of a separation contribution is at most a whole unit of
/// weight: with `c * c <= d` the quotient `c * SCALE_SQ / d` cannot
/// exceed `SCALE_SQ` in magnitude.
proof fn lemma_sep_axis_bound(c: int, d: int)
    requires
        0 < d,
        c * c <= d,
    ensures
        abs_s(sep_term_axis(c, d)) <= SCALE_SQ as int,
{
    let k = SCALE_SQ as int;
    if c != 0 {
        assert(abs_s(c) <= c * c) by (nonlinear_arith)
            requires
                c != 0,
        ;
    }
    assert(abs_s(c) <= d);
    lemma_div_t_mag(c * k, d);
    assert(abs_s(c * k) == abs_s(c) * k) by (nonlinear_arith)
        requires
            k == SCALE_SQ as int,
    ;
    assert(abs_s(c) * k <= d * k) by (nonlinear_arith)
        requires
            abs_s(c) <= d,
            k > 0,
    ;
    vstd::arithmetic::div_mod::lemma_div_is_ordered(abs_s(c) * k, d * k, d);
    vstd::arithmetic::div_mod::lemma_div_multiples_vanish(k, d);
    assert(d * k == k * d) by (nonlinear_arith);
}

/// Sum of the separation contributions of a cache, executable.
fn sum_sep_exec(cache: &Vec<CacheEntry>) -> (s: (i64, i64))
    requires
        cache@.len() <= MAX_POP,
        forall|t: int|
            0 <= t < cache@.len() ==> {
                let e = #[trigger] cache@[t];
                &&& 0 < e.d
                &&& e.d == e.diff.mag_sq_s()
                &&& abs_s(e.diff.x as int) <= MAX_VIEW
                &&& abs_s(e.diff.y as int) <= MAX_VIEW
            },
    ensures
        (s.0 as int, s.1 as int) == sum_sep(cache@),
        abs_s(s.0 as int) <= cache@.len() * (SCALE_SQ as int),
        abs_s(s.1 as int) <= cache@.len() * (SCALE_SQ as int),
{
    let mut sx: i64 = 0;
    let mut sy: i64 = 0;
    let mut k: usize = 0;
    let n = cache.len();
    while k < n
        invariant
            n == cache@.len() <= MAX_POP,
            k <= n,
            forall|t: int|
                0 <= t < cache@.len() ==> {
                    let e = #[trigger] cache@[t];
                    &&& 0 < e.d
                    &&& e.d == e.diff.mag_sq_s()
                    &&& abs_s(e.diff.x as int) <= MAX_VIEW
                    &&& abs_s(e.diff.y as int) <= MAX_VIEW
                },
            (sx as int, sy as int) == sum_sep(cache@.subrange(0, k as int)),
            abs_s(sx as int) <= k * (SCALE_SQ as int),
            abs_s(sy as int) <= k * (SCALE_SQ as int),
        decreases n - k,
    {
        let e = cache[k];
        proof {
            assert(abs_s(e.diff.x as int * (SCALE_SQ as int)) <= 1_000_000_000_000)
                by (nonlinear_arith)
                requires
                    abs_s(e.diff.x as int) <= MAX_VIEW,
            ;
            assert(abs_s(e.diff.y as int * (SCALE_SQ as int)) <= 1_000_000_000_000)
                by (nonlinear_arith)
                requires
                    abs_s(e.diff.y as int) <= MAX_VIEW,
            ;
            assert(e.diff.x as int * e.diff.x as int <= e.d && e.diff.y as int * e.diff.y as int
                <= e.d) by (nonlinear_arith)
                requires
                    e.d == e.diff.mag_sq_s(),
            ;
            lemma_sep_axis_bound(e.diff.x as int, e.d as int);
            lemma_sep_axis_bound(e.diff.y as int, e.d as int);
        }
        let tx = div_trunc(e.diff.x * SCALE_SQ, e.d);
        let ty = div_trunc(e.diff.y * SCALE_SQ, e.d);
        sx = sx + tx;
        sy = sy + ty;
        k += 1;
        proof {
            let c1 = cache@.subrange(0, k as int);
            assert(c1.drop_last() =~= cache@.subrange(0, k as int - 1));
            assert(c1.last() == cache@[k as int - 1]);
        }
    }
    proof {
        assert(cache@.subrange(0, n as int) =~= cache@);
    }
    (sx, sy)
}

/// Sum of the cached offsets, executable.
fn sum_coh_exec(cache: &Vec<CacheEntry>) -> (s: (i64, i64))
    requires
        cache@.len() <= MAX_POP,
        forall|t: int|
            0 <= t < cache@.len() ==> abs_s((#[trigger] cache@[t]).diff.x as int) <= MAX_VIEW
                && abs_s(cache@[t].diff.y as int) <= MAX_VIEW,
    ensures
        (s.0 as int, s.1 as int) == sum_coh(cache@),
        abs_s(s.0 as int) <= cache@.len() * (MAX_VIEW as int),
        abs_s(s.1 as int) <= cache@.len() * (MAX_VIEW as int),
{
    let mut sx: i64 = 0;
    let mut sy: i64 = 0;
    let mut k: usize = 0;
    let n = cache.len();
    while k < n
        invariant
            n == cache@.len() <= MAX_POP,
            k <= n,
            forall|t: int|
                0 <= t < cache@.len() ==> abs_s((#[trigger] cache@[t]).diff.x as int) <= MAX_VIEW
                    && abs_s(cache@[t].diff.y as int) <= MAX_VIEW,
            (sx as int, sy as int) == sum_coh(cache@.subrange(0, k as int)),
            abs_s(sx as int) <= k * (MAX_VIEW as int),
            abs_s(sy as int) <= k * (MAX_VIEW as int),
        decreases n - k,
    {
        let e = cache[k];
        sx = sx + e.diff.x;
        sy = sy + e.diff.y;
        k += 1;
        proof {
            let c1 = cache@.subrange(0, k as int);
            assert(c1.drop_last() =~= cache@.subrange(0, k as int - 1));
            assert(c1.last() == cache@[k as int - 1]);
        }
    }
    proof {
        assert(cache@.subrange(0, n as int) =~= cache@);
    }
    (sx, sy)
}

/// A sum vector scaled by a weight and pushed as one fixed-point
/// direction contribution.
fn scale_vec(v: (i64, i64), w: i64) -> (r: Vec2F)
    requires
        abs_s(v.0 as int) <= 200_000_000_000,
        abs_s(v.1 as int) <= 200_000_000_000,
        abs_s(w as int) <= MAX_WEIGHT,
    ensures
        (r.x as int, r.y as int) == scale_w((v.0 as int, v.1 as int), w as int),
        r.bounded(DIR_COMP_MAX as int),
{
    proof {
        assert(abs_s(v.0 as int * w as int) <= 200_000_000_000_000_000) by (nonlinear_arith)
            requires
                abs_s(v.0 as int) <= 200_000_000_000,
                abs_s(w as int) <= MAX_WEIGHT,
        ;
        assert(abs_s(v.1 as int * w as int) <= 200_000_000_000_000_000) by (nonlinear_arith)
            requires
                abs_s(v.1 as int) <= 200_000_000_000,
                abs_s(w as int) <= MAX_WEIGHT,
        ;
        lemma_div_t_bound(v.0 as int * w as int, SCALE as int, 200_000_000_000_000_000);
        lemma_div_t_bound(v.1 as int * w as int, SCALE as int, 200_000_000_000_000_000);
    }
    let x = div_trunc(v.0 * w, SCALE);
    let y = div_trunc(v.1 * w, SCALE);
    Vec2F { x, y }
}

/// The simulation state: the population and the spatial index.
pub struct Flock {
    view: i64,
    border: i64,
    params: Params,
    agents: Vec<Agent>,
    grid: SpatialGrid,
}

impl Flock {
    /// The agents.
    pub closed spec fn agent_seq(self) -> Seq<Agent> {
        self.agents@
    }

    /// The view radius (fixed-point).
    pub closed spec fn view_spec(self) -> int {
        self.view as int
    }

    /// The border margin (fixed-point).
    pub closed spec fn border_spec(self) -> int {
        self.border as int
    }

    /// The rule weights.
    pub closed spec fn params_spec(self) -> Params {
        self.params
    }

    /// The spatial index.
    pub closed spec fn grid_spec(self) -> SpatialGrid {
        self.grid
    }

    /// Half-extent of the domain in world units.
    pub open spec fn half(self) -> int {
        self.grid_spec().half()
    }

    /// Half-extent of the domain in fixed-point steps.
    pub open spec fn half_fp(self) -> int {
        self.half() * (SCALE as int)
    }

    /// Squared fixed-point distance between agents `i` and `j`.
    pub open spec fn dist_sq(self, i: int, j: int) -> int {
        let pi = self.agent_seq()[i].pos;
        let pj = self.agent_seq()[j].pos;
        (pi.x - pj.x) * (pi.x - pj.x) + (pi.y - pj.y) * (pi.y - pj.y)
    }

    /// A structurally valid cache entry of agent `i`: a real other
    /// agent, and a self-consistent offset/distance pair within view.
    pub open spec fn entry_ok(self, i: int, e: CacheEntry) -> bool {
        &&& e.nb < self.agent_seq().len()
        &&& e.nb as int != i
        &&& e.d == e.diff.mag_sq_s()
        &&& 0 < e.d <= self.view_spec() * self.view_spec()
        &&& abs_s(e.diff.x as int) <= self.view_spec()
        &&& abs_s(e.diff.y as int) <= self.view_spec()
    }

    /// Grid consistency: every live agent is indexed in exactly the
    /// cell of its current position, and the grid holds nothing else.
    pub open spec fn grid_consistent(self) -> bool {
        &&& forall|i: int|
            0 <= i < self.agent_seq().len() ==> self.grid_spec().located(
                i as usize,
                key_c(self.half(), (#[trigger] self.agent_seq()[i]).pos.x as int),
                key_c(self.half(), self.agent_seq()[i].pos.y as int),
            )
        &&& forall|h: usize| #[trigger]
            self.grid_spec().gcontains(h) ==> (h as int) < self.agent_seq().len()
    }

    /// All agents lie inside the domain.
    pub open spec fn contained(self) -> bool {
        forall|i: int|
            0 <= i < self.agent_seq().len() ==> (#[trigger] self.agent_seq()[i]).pos.bounded(
                self.half_fp(),
            )
    }

    /// The full invariant of the simulation state.
    pub open spec fn wf(self) -> bool {
        &&& self.grid_spec().wf()
        &&& 1 <= self.half() <= MAX_HALF
        &&& 1 <= self.view_spec() <= MAX_VIEW
        &&& 0 <= self.border_spec() <= self.half_fp()
        &&& abs_s(self.params_spec().sep as int) <= MAX_WEIGHT
        &&& abs_s(self.params_spec().ali as int) <= MAX_WEIGHT
        &&& abs_s(self.params_spec().coh as int) <= MAX_WEIGHT
        &&& 0 <= self.params_spec().speed <= MAX_WEIGHT
        &&& self.agent_seq().len() <= MAX_POP
        &&& self.contained()
        &&& forall|i: int|
            0 <= i < self.agent_seq().len() ==> (#[trigger] self.agent_seq()[i]).vel.bounded(
                SCALE as int,
            )
        &&& forall|i: int|
            0 <= i < self.agent_seq().len() ==> (#[trigger] self.agent_seq()[i]).dir_vec@.len()
                <= 8
        &&& forall|i: int, k: int|
            0 <= i < self.agent_seq().len() && 0 <= k < self.agent_seq()[i].dir_vec@.len() ==> (
            #[trigger] self.agent_seq()[i].dir_vec@[k]).bounded(DIR_COMP_MAX as int)
        &&& forall|i: int, k: int|
            0 <= i < self.agent_seq().len() && 0 <= k < self.agent_seq()[i].prox_cache@.len()
                ==> self.entry_ok(i, #[trigger] self.agent_seq()[i].prox_cache@[k])
        &&& forall|i: int|
            0 <= i < self.agent_seq().len() ==> (#[trigger] self.agent_seq()[
                i]).prox_cache@.len() <= MAX_POP
        &&& self.grid_consistent()
    }

    /// The weighted separation contribution appended for agent `i`.
    pub open spec fn sep_push(self, i: int) -> (int, int) {
        scale_w(sum_sep(self.agent_seq()[i].prox_cache@), self.params_spec().sep as int)
    }

    /// The weighted border repulsion appended for agent `i`.
    pub open spec fn border_push(self, i: int) -> (int, int) {
        scale_w(
            (
                border_axis(self.half_fp(), self.border_spec(), self.agent_seq()[i].pos.x as int),
                border_axis(self.half_fp(), self.border_spec(), self.agent_seq()[i].pos.y as int),
            ),
            BORDER_WEIGHT as int,
        )
    }

    /// The weighted cohesion contribution appended for agent `i`: the
    /// negated offset sum pulls toward the neighbor centroid.
    pub open spec fn coh_push(self, i: int) -> (int, int) {
        scale_w(
            (
                0 - sum_coh(self.agent_seq()[i].prox_cache@).0,
                0 - sum_coh(self.agent_seq()[i].prox_cache@).1,
            ),
            self.params_spec().coh as int,
        )
    }

    /// The weighted alignment contribution appended for agent `i`,
    /// over the velocities as they stand in `self`.
    pub open spec fn ali_push(self, i: int) -> (int, int) {
        scale_w(
            sum_ali(self.agent_seq()[i].prox_cache@, self.agent_seq()),
            self.params_spec().ali as int,
        )
    }

    /// A cache entry of agent `i` that is exactly right for the
    /// current positions.
    pub open spec fn exact_entry(self, i: int, e: CacheEntry) -> bool {
        &&& e.nb < self.agent_seq().len()
        &&& e.nb as int != i
        &&& e.diff.x == self.agent_seq()[i].pos.x - self.agent_seq()[e.nb as int].pos.x
        &&& e.diff.y == self.agent_seq()[i].pos.y - self.agent_seq()[e.nb as int].pos.y
        &&& e.d == e.diff.mag_sq_s()
        &&& 0 < e.d <= self.view_spec() * self.view_spec()
        &&& abs_s(e.diff.x as int) <= self.view_spec()
        &&& abs_s(e.diff.y as int) <= self.view_spec()
    }

    /// The cache sequence `c` is exactly right for agent `i` against
    /// the positions held in `self`: it holds exactly the other agents
    /// within the view disk — each exactly once, with its exact offset
    /// and squared distance; no false entry, no missing neighbor.
    pub open spec fn cache_correct_seq(self, i: int, c: Seq<CacheEntry>) -> bool {
        let n = self.agent_seq().len();
        &&& forall|t: int| 0 <= t < c.len() ==> self.exact_entry(i, #[trigger] c[t])
        &&& forall|t: int|
            0 <= t < c.len() ==> (#[trigger] c[t]).d == self.dist_sq(i, c[t].nb as int)
        &&& forall|j: int|
            0 <= j < n && j != i && 0 < #[trigger] self.dist_sq(i, j) <= self.view_spec()
                * self.view_spec() ==> has_nb(c, j as usize)
        &&& forall|t1: int, t2: int|
            0 <= t1 < t2 < c.len() ==> (#[trigger] c[t1]).nb != (#[trigger] c[t2]).nb
    }

    /// The stored neighbor cache of agent `i` is exactly right for the
    /// current positions.
    pub open spec fn cache_correct(self, i: int) -> bool {
        self.cache_correct_seq(i, self.agent_seq()[i].prox_cache@)
    }

    /// Rebuild every agent's neighbor cache from the grid: afterwards
    /// each cache holds exactly the other agents strictly within
    /// distance zero exclusive to view radius inclusive, with exact
    /// offsets and squared distances. Touches nothing else.
    pub fn boids_proxcache(&mut self)
        requires
            old(self).wf(),
        ensures
            final(self).wf(),
            same_config(*final(self), *old(self)),
            same_pos_vel(*final(self), *old(self)),
            same_dirs(*final(self), *old(self)),
            forall|i: int|
                0 <= i < final(self).agent_seq().len() ==> final(self).cache_correct(i),
    {
        let ghost orig = *old(self);
        let n = self.agents.len();
        let mut i: usize = 0;
        while i < n
            invariant
                self.wf(),
                i <= n,
                n == self.agent_seq().len(),
                same_config(*self, orig),
                same_pos_vel(*self, orig),
                same_dirs(*self, orig),
                forall|j: int| 0 <= j < i ==> self.cache_correct(j),
            decreases n - i,
        {
            let ghost pre = *self;
            let p0 = self.agents[i].pos;
            let view = self.view;
            proof {
                assert(self.agent_seq()[i as int].pos.bounded(self.half_fp()));
                assert(self.half_fp() <= 10_000_000);
            }
            let cand = self.grid.get(&p0, view);
            let mut cache: Vec<CacheEntry> = Vec::new();
            let mut k: usize = 0;
            while k < cand.len()
                invariant
                    self.wf(),
                    *self == pre,
                    i < n,
                    n == self.agent_seq().len(),
                    p0 == self.agent_seq()[i as int].pos,
                    view as int == self.view_spec(),
                    k <= cand@.len(),
                    crate::grid::no_dup(cand@),
                    forall|h: usize| #[trigger]
                        cand@.contains(h) <==> self.grid_spec().query_hit(
                            p0,
                            view as int,
                            h,
                        ),
                    forall|t: int|
                        0 <= t < cache@.len() ==> self.exact_entry(
                            i as int,
                            #[trigger] cache@[t],
                        ),
                    forall|t: int|
                        0 <= t < cache@.len() ==> cand@.subrange(0, k as int).contains(
                            (#[trigger] cache@[t]).nb,
                        ),
                    forall|t1: int, t2: int|
                        0 <= t1 < t2 < cache@.len() ==> (#[trigger] cache@[t1]).nb != (
                        #[trigger] cache@[t2]).nb,
                    forall|m: int|
                        0 <= m < k ==> ((#[trigger] cand@[m]) as int != i && 0
                            < self.dist_sq(i as int, cand@[m] as int) <= self.view_spec()
                            * self.view_spec()) ==> has_nb(cache@, cand@[m]),
                decreases cand@.len() - k,
            {
                let h = cand[k];
                let ghost cache0 = cache@;
                proof {
                    assert(cand@[k as int] == h);
                    assert(cand@.contains(h));
                    let (qx, qy) = choose|x: int, y: int|
                        self.grid_spec().in_box(p0, view as int, x, y) && #[trigger] self
                            .grid_spec()
                            .contains_at(x, y, h);
                    assert(self.grid_spec().gcontains(h));
                    assert((h as int) < n);
                }
                if h != i {
                    let p1 = self.agents[h].pos;
                    let diff = p0.sub(p1);
                    proof {
                        assert(self.agent_seq()[h as int].pos.bounded(self.half_fp()));
                    }
                    let d = diff.mag_sq();
                    proof {
                        assert((view as int) * (view as int) <= 1_000_000_000_000)
                            by (nonlinear_arith)
                            requires
                                0 < view <= 1_000_000,
                        ;
                    }
                    let vv = view * view;
                    if d != 0 && d <= vv {
                        proof {
                            assert(diff.x * diff.x >= 0 && diff.y * diff.y >= 0)
                                by (nonlinear_arith);
                            assert(abs_s(diff.x as int) <= view as int) by (nonlinear_arith)
                                requires
                                    (diff.x as int) * (diff.x as int) <= (view as int) * (
                                    view as int),
                                    view > 0,
                            ;
                            assert(abs_s(diff.y as int) <= view as int) by (nonlinear_arith)
                                requires
                                    (diff.y as int) * (diff.y as int) <= (view as int) * (
                                    view as int),
                                    view > 0,
                            ;
                        }
                        let ghost cpre = cache@;
                        cache.push(CacheEntry { nb: h, diff, d });
                        proof {
                            assert forall|t: int| 0 <= t < cache@.len() implies cand@.subrange(
                                0,
                                k as int + 1,
                            ).contains((#[trigger] cache@[t]).nb) by {
                                if t < cpre.len() {
                                    assert(cpre[t] == cache@[t]);
                                    let m = choose|m: int|
                                        0 <= m < k && cand@.subrange(0, k as int)[m]
                                            == cpre[t].nb;
                                    assert(cand@.subrange(0, k as int + 1)[m] == cpre[t].nb);
                                } else {
                                    assert(cache@[t].nb == h);
                                    assert(cand@.subrange(0, k as int + 1)[k as int] == h);
                                }
                            }
                            assert forall|t1: int, t2: int|
                                0 <= t1 < t2 < cache@.len() implies (#[trigger] cache@[t1]).nb
                                != (#[trigger] cache@[t2]).nb by {
                                if t2 == cpre.len() {
                                    if cpre[t1].nb == h {
                                        let m = choose|m: int|
                                            0 <= m < k && cand@.subrange(0, k as int)[m]
                                                == cpre[t1].nb;
                                        assert(cand@[m] == h);
                                        assert(cand@[k as int] == h);
                                    }
                                }
                            }
                        }
                    }
                }
                k += 1;
                proof {
                    assert forall|m: int|
                        0 <= m < k && ((#[trigger] cand@[m]) as int != i && 0 < self.dist_sq(
                            i as int,
                            cand@[m] as int,
                        ) <= self.view_spec() * self.view_spec()) implies has_nb(
                        cache@,
                        cand@[m],
                    ) by {
                        if m == k - 1 {
                            let j = cand@[m];
                            assert(j == h);
                            assert(cache@[cache@.len() - 1].nb == h);
                        } else {
                            assert(has_nb(cache0, cand@[m]));
                            let t = choose|t: int|
                                0 <= t < cache0.len() && (#[trigger] cache0[t]).nb == cand@[m];
                            assert(cache@[t].nb == cand@[m]);
                        }
                    }
                }
            }
            let ghost cfin = cache@;
            proof {
                // carry the inner-loop facts over to the snapshot name
                assert forall|t: int| 0 <= t < cfin.len() implies pre.exact_entry(
                    i as int,
                    #[trigger] cfin[t],
                ) by {
                    assert(self.exact_entry(i as int, cache@[t]));
                }
                assert forall|t1: int, t2: int|
                    0 <= t1 < t2 < cfin.len() implies (#[trigger] cfin[t1]).nb != (
                #[trigger] cfin[t2]).nb by {
                    assert(cache@[t1].nb != cache@[t2].nb);
                }
                assert forall|m: int|
                    0 <= m < cand@.len() && ((#[trigger] cand@[m]) as int != i && 0
                        < pre.dist_sq(i as int, cand@[m] as int) <= pre.view_spec()
                        * pre.view_spec()) implies has_nb(cfin, cand@[m]) by {
                    assert(has_nb(cache@, cand@[m]));
                }
            }
            self.agents[i].prox_cache = cache;
            proof {
                let fi = i as int;
                assert(self.agent_seq()[fi].prox_cache@ == cfin);
                assert(same_config(*self, orig) && same_pos_vel(*self, orig) && same_dirs(
                    *self,
                    orig,
                ));
                assert forall|t: int| 0 <= t < cfin.len() implies self.exact_entry(
                    fi,
                    #[trigger] cfin[t],
                ) by {
                    assert(pre.exact_entry(fi, cfin[t]));
                    assert(self.agent_seq()[fi].pos == pre.agent_seq()[fi].pos);
                    assert(self.agent_seq()[cfin[t].nb as int].pos == pre.agent_seq()[cfin[
                        t].nb as int].pos);
                }
                // completeness: every true neighbor was a candidate
                assert forall|j: int|
                    0 <= j < n && j != fi && 0 < #[trigger] self.dist_sq(fi, j)
                        <= self.view_spec() * self.view_spec() implies has_nb(
                    cfin,
                    j as usize,
                ) by {
                    let pj = self.agent_seq()[j].pos;
                    assert(pj == pre.agent_seq()[j].pos);
                    assert(self.grid_spec().located(
                        j as usize,
                        key_c(self.half(), pj.x as int),
                        key_c(self.half(), pj.y as int),
                    ));
                    assert((pj.x - p0.x) * (pj.x - p0.x) == (p0.x - pj.x) * (p0.x - pj.x))
                        by (nonlinear_arith);
                    assert((pj.y - p0.y) * (pj.y - p0.y) == (p0.y - pj.y) * (p0.y - pj.y))
                        by (nonlinear_arith);
                    assert((pj.x - p0.x) * (pj.x - p0.x) + (pj.y - p0.y) * (pj.y - p0.y)
                        == self.dist_sq(fi, j));
                    lemma_query_soundness(self.grid_spec(), p0, view, pj, j as usize);
                    assert(cand@.contains(j as usize));
                    let m = choose|m: int| 0 <= m < cand@.len() && cand@[m] == j as usize;
                    assert((j as usize) as int == j);
                    assert(cand@[m] as int != fi);
                    assert(pre.dist_sq(fi, cand@[m] as int) == self.dist_sq(fi, j));
                    assert(has_nb(cfin, cand@[m]));
                }
                assert(self.cache_correct(fi)) by {
                    assert forall|t: int| 0 <= t < cfin.len() implies (#[trigger] cfin[t]).d
                        == self.dist_sq(fi, cfin[t].nb as int) by {
                        assert(self.exact_entry(fi, cfin[t]));
                        assert(cfin[t].d == cfin[t].diff.mag_sq_s());
                    }
                }
                assert forall|j: int| 0 <= j < i + 1 implies self.cache_correct(j) by {
                    if j < i {
                        assert(pre.cache_correct(j));
                        let c = self.agent_seq()[j].prox_cache@;
                        assert(c == pre.agent_seq()[j].prox_cache@);
                        assert forall|t: int| 0 <= t < c.len() implies self.exact_entry(
                            j,
                            #[trigger] c[t],
                        ) by {
                            assert(pre.exact_entry(j, c[t]));
                            assert(self.agent_seq()[j].pos == pre.agent_seq()[j].pos);
                            assert(self.agent_seq()[c[t].nb as int].pos == pre.agent_seq()[c[
                                t].nb as int].pos);
                        }
                        assert forall|t: int| 0 <= t < c.len() implies (#[trigger] c[t]).d
                            == self.dist_sq(j, c[t].nb as int) by {
                            assert(c[t].d == pre.dist_sq(j, c[t].nb as int));
                            assert(self.agent_seq()[j].pos == pre.agent_seq()[j].pos);
                            assert(self.agent_seq()[c[t].nb as int].pos == pre.agent_seq()[c[
                                t].nb as int].pos);
                        }
                        assert forall|j2: int|
                            0 <= j2 < n && j2 != j && 0 < #[trigger] self.dist_sq(j, j2)
                                <= self.view_spec() * self.view_spec() implies has_nb(
                            c,
                            j2 as usize,
                        ) by {
                            assert(self.agent_seq()[j].pos == pre.agent_seq()[j].pos);
                            assert(self.agent_seq()[j2].pos == pre.agent_seq()[j2].pos);
                            assert(pre.dist_sq(j, j2) == self.dist_sq(j, j2));
                        }
                    }
                }
                lemma_nb_seq_len(cfin, n as int);
                assert(self.wf()) by {
                    assert forall|a: int, t: int|
                        0 <= a < self.agent_seq().len() && 0 <= t < self.agent_seq()[
                            a].prox_cache@.len() implies self.entry_ok(
                        a,
                        #[trigger] self.agent_seq()[a].prox_cache@[t],
                    ) by {
                        if a != fi {
                            assert(pre.entry_ok(a, pre.agent_seq()[a].prox_cache@[t]));
                        } else {
                            assert(self.exact_entry(fi, cfin[t]));
                        }
                    }
                }
            }
            i += 1;
        }
    }

    /// Separation pass: for every agent, append the inverse-distance
    /// weighted sum of cached offsets, then the border repulsion.
    pub fn boids_sep(&mut self)
        requires
            old(self).wf(),
            forall|i: int|
                0 <= i < old(self).agent_seq().len() ==> (#[trigger] old(self).agent_seq()[
                    i]).dir_vec@.len() <= 6,
        ensures
            final(self).wf(),
            same_config(*final(self), *old(self)),
            same_pos_vel(*final(self), *old(self)),
            same_caches(*final(self), *old(self)),
            forall|i: int|
                0 <= i < old(self).agent_seq().len() ==> extended2(
                    (#[trigger] final(self).agent_seq()[i]).dir_vec@,
                    old(self).agent_seq()[i].dir_vec@,
                    old(self).sep_push(i),
                    old(self).border_push(i),
                ),
    {
        let ghost orig = *old(self);
        let n = self.agents.len();
        let mut i: usize = 0;
        while i < n
            invariant
                self.wf(),
                i <= n,
                n == self.agent_seq().len(),
                same_config(*self, orig),
                same_pos_vel(*self, orig),
                same_caches(*self, orig),
                forall|j: int|
                    0 <= j < n ==> (#[trigger] orig.agent_seq()[j]).dir_vec@.len() <= 6,
                forall|j: int|
                    i <= j < n ==> (#[trigger] self.agent_seq()[j]).dir_vec@ == orig.agent_seq()[
                        j].dir_vec@,
                forall|j: int|
                    0 <= j < i ==> extended2(
                        (#[trigger] self.agent_seq()[j]).dir_vec@,
                        orig.agent_seq()[j].dir_vec@,
                        orig.sep_push(j),
                        orig.border_push(j),
                    ),
            decreases n - i,
        {
            let ghost pre = *self;
            proof {
                assert forall|t: int|
                    0 <= t < self.agent_seq()[i as int].prox_cache@.len() implies {
                    let e = #[trigger] self.agent_seq()[i as int].prox_cache@[t];
                    &&& 0 < e.d
                    &&& e.d == e.diff.mag_sq_s()
                    &&& abs_s(e.diff.x as int) <= MAX_VIEW
                    &&& abs_s(e.diff.y as int) <= MAX_VIEW
                } by {
                    assert(self.entry_ok(i as int, self.agent_seq()[i as int].prox_cache@[t]));
                }
            }
            let s = sum_sep_exec(&self.agents[i].prox_cache);
            let w = self.params.sep;
            let v1 = scale_vec(s, w);
            let half_fp = (self.grid.half_units() as i64) * SCALE;
            let bv = border_vel(&self.agents[i].pos, half_fp, self.border);
            let v2 = scale_vec((bv.x, bv.y), BORDER_WEIGHT);
            self.agents[i].dir_vec.push(v1);
            self.agents[i].dir_vec.push(v2);
            proof {
                let fi = i as int;
                assert(self.agent_seq()[fi].dir_vec@ == pre.agent_seq()[fi].dir_vec@.push(
                    v1,
                ).push(v2));
                assert(extended2(
                    self.agent_seq()[fi].dir_vec@,
                    orig.agent_seq()[fi].dir_vec@,
                    orig.sep_push(fi),
                    orig.border_push(fi),
                )) by {
                    assert(pre.agent_seq()[fi].prox_cache@ == orig.agent_seq()[fi].prox_cache@);
                    assert((v1.x as int, v1.y as int) == orig.sep_push(fi));
                    assert((v2.x as int, v2.y as int) == orig.border_push(fi));
                }
                assert forall|j: int| 0 <= j < i + 1 implies extended2(
                    (#[trigger] self.agent_seq()[j]).dir_vec@,
                    orig.agent_seq()[j].dir_vec@,
                    orig.sep_push(j),
                    orig.border_push(j),
                ) by {
                    if j < fi {
                        assert(extended2(
                            pre.agent_seq()[j].dir_vec@,
                            orig.agent_seq()[j].dir_vec@,
                            orig.sep_push(j),
                            orig.border_push(j),
                        ));
                        assert(self.agent_seq()[j].dir_vec@ == pre.agent_seq()[j].dir_vec@);
                    }
                }
                assert(self.wf()) by {
                    assert forall|a: int, k: int|
                        0 <= a < self.agent_seq().len() && 0 <= k < self.agent_seq()[
                            a].dir_vec@.len() implies (#[trigger] self.agent_seq()[a].dir_vec@[
                        k]).bounded(DIR_COMP_MAX as int) by {
                        if a == fi && k >= pre.agent_seq()[fi].dir_vec@.len() {
                        } else {
                            assert(self.agent_seq()[a].dir_vec@[k] == pre.agent_seq()[
                                a].dir_vec@[k]);
                            assert(pre.agent_seq()[a].dir_vec@[k].bounded(DIR_COMP_MAX as int));
                        }
                    }
                }
            }
            i += 1;
        }
    }

    /// Cohesion pass: for every agent, append the negated offset sum,
    /// weighted — a pull toward the centroid of its neighbors.
    pub fn boids_coh(&mut self)
        requires
            old(self).wf(),
            forall|i: int|
                0 <= i < old(self).agent_seq().len() ==> (#[trigger] old(self).agent_seq()[
                    i]).dir_vec@.len() <= 7,
        ensures
            final(self).wf(),
            same_config(*final(self), *old(self)),
            same_pos_vel(*final(self), *old(self)),
            same_caches(*final(self), *old(self)),
            forall|i: int|
                0 <= i < old(self).agent_seq().len() ==> extended1(
                    (#[trigger] final(self).agent_seq()[i]).dir_vec@,
                    old(self).agent_seq()[i].dir_vec@,
                    old(self).coh_push(i),
                ),
    {
        let ghost orig = *old(self);
        let n = self.agents.len();
        let mut i: usize = 0;
        while i < n
            invariant
                self.wf(),
                i <= n,
                n == self.agent_seq().len(),
                same_config(*self, orig),
                same_pos_vel(*self, orig),
                same_caches(*self, orig),
                forall|j: int|
                    0 <= j < n ==> (#[trigger] orig.agent_seq()[j]).dir_vec@.len() <= 7,
                forall|j: int|
                    i <= j < n ==> (#[trigger] self.agent_seq()[j]).dir_vec@ == orig.agent_seq()[
                        j].dir_vec@,
                forall|j: int|
                    0 <= j < i ==> extended1(
                        (#[trigger] self.agent_seq()[j]).dir_vec@,
                        orig.agent_seq()[j].dir_vec@,
                        orig.coh_push(j),
                    ),
            decreases n - i,
        {
            let ghost pre = *self;
            proof {
                assert forall|t: int|
                    0 <= t < self.agent_seq()[i as int].prox_cache@.len() implies abs_s((
                #[trigger] self.agent_seq()[i as int].prox_cache@[t]).diff.x as int) <= MAX_VIEW
                    && abs_s(self.agent_seq()[i as int].prox_cache@[t].diff.y as int)
                    <= MAX_VIEW by {
                    assert(self.entry_ok(i as int, self.agent_seq()[i as int].prox_cache@[t]));
                }
            }
            let s = sum_coh_exec(&self.agents[i].prox_cache);
            let w = self.params.coh;
            let v1 = scale_vec((-s.0, -s.1), w);
            self.agents[i].dir_vec.push(v1);
            proof {
                let fi = i as int;
                assert(self.agent_seq()[fi].dir_vec@ == pre.agent_seq()[fi].dir_vec@.push(v1));
                assert(extended1(
                    self.agent_seq()[fi].dir_vec@,
                    orig.agent_seq()[fi].dir_vec@,
                    orig.coh_push(fi),
                )) by {
                    assert(pre.agent_seq()[fi].prox_cache@ == orig.agent_seq()[fi].prox_cache@);
                    assert((v1.x as int, v1.y as int) == orig.coh_push(fi));
                }
                assert forall|j: int| 0 <= j < i + 1 implies extended1(
                    (#[trigger] self.agent_seq()[j]).dir_vec@,
                    orig.agent_seq()[j].dir_vec@,
                    orig.coh_push(j),
                ) by {
                    if j < fi {
                        assert(extended1(
                            pre.agent_seq()[j].dir_vec@,
                            orig.agent_seq()[j].dir_vec@,
                            orig.coh_push(j),
                        ));
                        assert(self.agent_seq()[j].dir_vec@ == pre.agent_seq()[j].dir_vec@);
                    }
                }
                assert(self.wf()) by {
                    assert forall|a: int, k: int|
                        0 <= a < self.agent_seq().len() && 0 <= k < self.agent_seq()[
                            a].dir_vec@.len() implies (#[trigger] self.agent_seq()[a].dir_vec@[
                        k]).bounded(DIR_COMP_MAX as int) by {
                        if a == fi && k >= pre.agent_seq()[fi].dir_vec@.len() {
                        } else {
                            assert(self.agent_seq()[a].dir_vec@[k] == pre.agent_seq()[
                                a].dir_vec@[k]);
                            assert(pre.agent_seq()[a].dir_vec@[k].bounded(DIR_COMP_MAX as int));
                        }
                    }
                }
            }
            i += 1;
        }
    }

    /// Alignment pass: for every agent, append the weighted sum of its
    /// cached neighbors' current velocities. Velocities themselves are
    /// not touched, so within one frame every agent reads the headings
    /// left by the previous integration.
    pub fn boids_ali(&mut self)
        requires
            old(self).wf(),
            forall|i: int|
                0 <= i < old(self).agent_seq().len() ==> (#[trigger] old(self).agent_seq()[
                    i]).dir_vec@.len() <= 7,
        ensures
            final(self).wf(),
            same_config(*final(self), *old(self)),
            same_pos_vel(*final(self), *old(self)),
            same_caches(*final(self), *old(self)),
            forall|i: int|
                0 <= i < old(self).agent_seq().len() ==> extended1(
                    (#[trigger] final(self).agent_seq()[i]).dir_vec@,
                    old(self).agent_seq()[i].dir_vec@,
                    old(self).ali_push(i),
                ),
    {
        let ghost orig = *old(self);
        let n = self.agents.len();
        let mut i: usize = 0;
        while i < n
            invariant
                self.wf(),
                i <= n,
                n == self.agent_seq().len(),
                same_config(*self, orig),
                same_pos_vel(*self, orig),
                same_caches(*self, orig),
                forall|j: int|
                    0 <= j < n ==> (#[trigger] orig.agent_seq()[j]).dir_vec@.len() <= 7,
                forall|j: int|
                    i <= j < n ==> (#[trigger] self.agent_seq()[j]).dir_vec@ == orig.agent_seq()[
                        j].dir_vec@,
                forall|j: int|
                    0 <= j < i ==> extended1(
                        (#[trigger] self.agent_seq()[j]).dir_vec@,
                        orig.agent_seq()[j].dir_vec@,
                        orig.ali_push(j),
                    ),
            decreases n - i,
        {
            let ghost pre = *self;
            let m = self.agents[i].prox_cache.len();
            let mut sx: i64 = 0;
            let mut sy: i64 = 0;
            let mut k: usize = 0;
            while k < m
                invariant
                    *self == pre,
                    self.wf(),
                    i < n,
                    n == self.agent_seq().len(),
                    m == self.agent_seq()[i as int].prox_cache@.len() <= MAX_POP,
                    k <= m,
                    (sx as int, sy as int) == sum_ali(
                        self.agent_seq()[i as int].prox_cache@.subrange(0, k as int),
                        self.agent_seq(),
                    ),
                    abs_s(sx as int) <= k * (SCALE as int),
                    abs_s(sy as int) <= k * (SCALE as int),
                decreases m - k,
            {
                proof {
                    assert(self.entry_ok(i as int, self.agent_seq()[i as int].prox_cache@[
                        k as int]));
                }
                let e = self.agents[i].prox_cache[k];
                let v = self.agents[e.nb].vel;
                sx = sx + v.x;
                sy = sy + v.y;
                k += 1;
                proof {
                    let c = self.agent_seq()[i as int].prox_cache@;
                    let c1 = c.subrange(0, k as int);
                    assert(c1.drop_last() =~= c.subrange(0, k as int - 1));
                    assert(c1.last() == c[k as int - 1]);
                }
            }
            proof {
                let c = self.agent_seq()[i as int].prox_cache@;
                assert(c.subrange(0, m as int) =~= c);
            }
            let w = self.params.ali;
            let v1 = scale_vec((sx, sy), w);
            self.agents[i].dir_vec.push(v1);
            proof {
                let fi = i as int;
                assert(self.agent_seq()[fi].dir_vec@ == pre.agent_seq()[fi].dir_vec@.push(v1));
                assert(extended1(
                    self.agent_seq()[fi].dir_vec@,
                    orig.agent_seq()[fi].dir_vec@,
                    orig.ali_push(fi),
                )) by {
                    let c = pre.agent_seq()[fi].prox_cache@;
                    assert(c == orig.agent_seq()[fi].prox_cache@);
                    assert forall|t: int| 0 <= t < c.len() implies ((#[trigger] c[t]).nb as int)
                        < orig.agent_seq().len() by {
                        assert(pre.entry_ok(fi, c[t]));
                    }
                    lemma_sum_ali_same_vel(c, orig.agent_seq(), pre.agent_seq());
                    assert((v1.x as int, v1.y as int) == orig.ali_push(fi));
                }
                assert forall|j: int| 0 <= j < i + 1 implies extended1(
                    (#[trigger] self.agent_seq()[j]).dir_vec@,
                    orig.agent_seq()[j].dir_vec@,
                    orig.ali_push(j),
                ) by {
                    if j < fi {
                        assert(extended1(
                            pre.agent_seq()[j].dir_vec@,
                            orig.agent_seq()[j].dir_vec@,
                            orig.ali_push(j),
                        ));
                        assert(self.agent_seq()[j].dir_vec@ == pre.agent_seq()[j].dir_vec@);
                    }
                }
                assert(self.wf()) by {
                    assert forall|a: int, k2: int|
                        0 <= a < self.agent_seq().len() && 0 <= k2 < self.agent_seq()[
                            a].dir_vec@.len() implies (#[trigger] self.agent_seq()[a].dir_vec@[
                        k2]).bounded(DIR_COMP_MAX as int) by {
                        if a == fi && k2 >= pre.agent_seq()[fi].dir_vec@.len() {
                        } else {
                            assert(self.agent_seq()[a].dir_vec@[k2] == pre.agent_seq()[
                                a].dir_vec@[k2]);
                            assert(pre.agent_seq()[a].dir_vec@[k2].bounded(
                                DIR_COMP_MAX as int,
                            ));
                        }
                    }
                }
            }
            i += 1;
        }
    }

    /// Integration of headings: for every agent, sum the accumulated
    /// direction vectors, set the velocity to the normalized sum — or
    /// keep the previous heading when the sum is the zero vector — and
    /// clear the accumulator.
    pub fn boids_dir(&mut self)
        requires
            old(self).wf(),
        ensures
            final(self).wf(),
            same_config(*final(self), *old(self)),
            same_caches(*final(self), *old(self)),
            forall|i: int|
                0 <= i < old(self).agent_seq().len() ==> (#[trigger] final(self).agent_seq()[
                    i]).pos == old(self).agent_seq()[i].pos,
            forall|i: int|
                0 <= i < old(self).agent_seq().len() ==> (#[trigger] final(self).agent_seq()[
                    i]).dir_vec@.len() == 0,
            forall|i: int|
                0 <= i < old(self).agent_seq().len() ==> ((#[trigger] final(self).agent_seq()[
                    i]).vel.x as int, final(self).agent_seq()[i].vel.y as int) == heading(
                    old(self).agent_seq()[i].vel,
                    dir_sum(old(self).agent_seq()[i].dir_vec@),
                ),
    {
        let ghost orig = *old(self);
        let n = self.agents.len();
        let mut i: usize = 0;
        while i < n
            invariant
                self.wf(),
                i <= n,
                n == self.agent_seq().len(),
                same_config(*self, orig),
                same_caches(*self, orig),
                forall|j: int|
                    0 <= j < n ==> (#[trigger] self.agent_seq()[j]).pos == orig.agent_seq()[
                        j].pos,
                forall|j: int|
                    i <= j < n ==> (#[trigger] self.agent_seq()[j]).vel == orig.agent_seq()[j].vel
                        && self.agent_seq()[j].dir_vec@ == orig.agent_seq()[j].dir_vec@,
                forall|j: int|
                    0 <= j < i ==> (#[trigger] self.agent_seq()[j]).dir_vec@.len() == 0,
                forall|j: int|
                    0 <= j < i ==> ((#[trigger] self.agent_seq()[j]).vel.x as int,
                    self.agent_seq()[j].vel.y as int) == heading(
                        orig.agent_seq()[j].vel,
                        dir_sum(orig.agent_seq()[j].dir_vec@),
                    ),
            decreases n - i,
        {
            let ghost pre = *self;
            let m = self.agents[i].dir_vec.len();
            let mut sx: i64 = 0;
            let mut sy: i64 = 0;
            let mut k: usize = 0;
            while k < m
                invariant
                    *self == pre,
                    self.wf(),
                    i < n,
                    n == self.agent_seq().len(),
                    m == self.agent_seq()[i as int].dir_vec@.len() <= 8,
                    k <= m,
                    (sx as int, sy as int) == dir_sum(
                        self.agent_seq()[i as int].dir_vec@.subrange(0, k as int),
                    ),
                    abs_s(sx as int) <= k * (DIR_COMP_MAX as int),
                    abs_s(sy as int) <= k * (DIR_COMP_MAX as int),
                decreases m - k,
            {
                let v = self.agents[i].dir_vec[k];
                proof {
                    assert(self.agent_seq()[i as int].dir_vec@[k as int].bounded(
                        DIR_COMP_MAX as int,
                    ));
                }
                sx = sx + v.x;
                sy = sy + v.y;
                k += 1;
                proof {
                    let c = self.agent_seq()[i as int].dir_vec@;
                    let c1 = c.subrange(0, k as int);
                    assert(c1.drop_last() =~= c.subrange(0, k as int - 1));
                    assert(c1.last() == c[k as int - 1]);
                }
            }
            proof {
                let c = self.agent_seq()[i as int].dir_vec@;
                assert(c.subrange(0, m as int) =~= c);
            }
            if !(sx == 0 && sy == 0) {
                let ax: i64 = if sx < 0 {
                    -sx
                } else {
                    sx
                };
                let ay: i64 = if sy < 0 {
                    -sy
                } else {
                    sy
                };
                proof {
                    assert((ax as int) * (ax as int) == (sx as int) * (sx as int) && (ay as int)
                        * (ay as int) == (sy as int) * (sy as int)) by (nonlinear_arith)
                        requires
                            ax as int == abs_s(sx as int),
                            ay as int == abs_s(sy as int),
                    ;
                    assert((ax as int) * (ax as int) + (ay as int) * (ay as int)
                        <= 6_400_000_000_000_000_000_000_000_000_000) by (nonlinear_arith)
                        requires
                            0 <= ax as int <= 1_600_000_000_000_000,
                            0 <= ay as int <= 1_600_000_000_000_000,
                    ;
                    assert(1 <= (ax as int) * (ax as int) + (ay as int) * (ay as int))
                        by (nonlinear_arith)
                        requires
                            ax >= 1 || ay >= 1,
                    ;
                }
                let nsq: u128 = (ax as u128) * (ax as u128) + (ay as u128) * (ay as u128);
                let mg = isqrt(nsq);
                proof {
                    assert(nsq as nat == (((sx as int) * (sx as int) + (sy as int) * (
                    sy as int)) as nat));
                    lemma_sqrt_ge_axis(nsq as nat, 1);
                    lemma_sqrt_ge_axis(nsq as nat, ax as nat);
                    lemma_sqrt_ge_axis(nsq as nat, ay as nat);
                    assert((ax as int) * (ax as int) <= nsq as int) by (nonlinear_arith)
                        requires
                            0 <= (ay as int) * (ay as int),
                            nsq as int == (ax as int) * (ax as int) + (ay as int) * (ay as int),
                    ;
                    assert((ax as int) * (SCALE as int) <= (mg as int) * (SCALE as int))
                        by (nonlinear_arith)
                        requires
                            ax as int <= mg as int,
                            SCALE as int > 0,
                    ;
                    assert((ay as int) * (SCALE as int) <= (mg as int) * (SCALE as int))
                        by (nonlinear_arith)
                        requires
                            ay as int <= mg as int,
                            SCALE as int > 0,
                    ;
                    vstd::arithmetic::div_mod::lemma_div_is_ordered(
                        (ax as int) * (SCALE as int),
                        (mg as int) * (SCALE as int),
                        mg as int,
                    );
                    vstd::arithmetic::div_mod::lemma_div_is_ordered(
                        (ay as int) * (SCALE as int),
                        (mg as int) * (SCALE as int),
                        mg as int,
                    );
                    vstd::arithmetic::div_mod::lemma_div_multiples_vanish(
                        SCALE as int,
                        mg as int,
                    );
                    assert((mg as int) * (SCALE as int) == (SCALE as int) * (mg as int))
                        by (nonlinear_arith);
                    vstd::arithmetic::div_mod::lemma_div_pos_is_pos(
                        (ax as int) * (SCALE as int),
                        mg as int,
                    );
                    vstd::arithmetic::div_mod::lemma_div_pos_is_pos(
                        (ay as int) * (SCALE as int),
                        mg as int,
                    );
                }
                let qx: u64 = (((ax as u128) * (SCALE as u128)) / (mg as u128)) as u64;
                let qy: u64 = (((ay as u128) * (SCALE as u128)) / (mg as u128)) as u64;
                let vx: i64 = if sx < 0 {
                    -(qx as i64)
                } else {
                    qx as i64
                };
                let vy: i64 = if sy < 0 {
                    -(qy as i64)
                } else {
                    qy as i64
                };
                proof {
                    let sxi = sx as int;
                    let syi = sy as int;
                    let mi = mg as int;
                    assert((ax as int) * (SCALE as int) == abs_s(sxi * (SCALE as int)))
                        by (nonlinear_arith)
                        requires
                            ax as int == abs_s(sxi),
                            SCALE as int > 0,
                    ;
                    assert((ay as int) * (SCALE as int) == abs_s(syi * (SCALE as int)))
                        by (nonlinear_arith)
                        requires
                            ay as int == abs_s(syi),
                            SCALE as int > 0,
                    ;
                    lemma_div_t_mag(sxi * (SCALE as int), mi);
                    lemma_div_t_mag(syi * (SCALE as int), mi);
                    assert(vx as int == div_t(sxi * (SCALE as int), mi));
                    assert(vy as int == div_t(syi * (SCALE as int), mi));
                }
                self.agents[i].vel = Vec2F { x: vx, y: vy };
            }
            self.agents[i].dir_vec = Vec::new();
            proof {
                let fi = i as int;
                assert(((self.agent_seq()[fi].vel.x as int, self.agent_seq()[fi].vel.y as int)
                    == heading(orig.agent_seq()[fi].vel, dir_sum(orig.agent_seq()[fi].dir_vec@))))
                    by {
                    assert(pre.agent_seq()[fi].dir_vec@ == orig.agent_seq()[fi].dir_vec@);
                    assert(pre.agent_seq()[fi].vel == orig.agent_seq()[fi].vel);
                }
                assert(self.wf()) by {
                    assert forall|a: int, t: int|
                        0 <= a < self.agent_seq().len() && 0 <= t < self.agent_seq()[
                            a].prox_cache@.len() implies self.entry_ok(
                        a,
                        #[trigger] self.agent_seq()[a].prox_cache@[t],
                    ) by {
                        assert(pre.entry_ok(a, pre.agent_seq()[a].prox_cache@[t]));
                    }
                    assert forall|a: int|
                        0 <= a < self.agent_seq().len() implies self.grid_spec().located(
                        a as usize,
                        key_c(self.half(), (#[trigger] self.agent_seq()[a]).pos.x as int),
                        key_c(self.half(), self.agent_seq()[a].pos.y as int),
                    ) by {
                        assert(pre.grid_spec().located(
                            a as usize,
                            key_c(pre.half(), pre.agent_seq()[a].pos.x as int),
                            key_c(pre.half(), pre.agent_seq()[a].pos.y as int),
                        ));
                        assert(self.agent_seq()[a].pos == pre.agent_seq()[a].pos);
                    }
                }
            }
            i += 1;
        }
    }

    /// Movement pass: advance every agent by its heading times speed
    /// times the elapsed time, clamped to the domain, and keep the
    /// spatial grid consistent with every position change. Afterwards
    /// every agent still lies inside the domain and is indexed in
    /// exactly the cell of its new position.
    pub fn boids_move(&mut self, dt: i64)
        requires
            old(self).wf(),
            0 <= dt <= MAX_DT,
        ensures
            final(self).wf(),
            final(self).half() == old(self).half(),
            final(self).view_spec() == old(self).view_spec(),
            final(self).border_spec() == old(self).border_spec(),
            final(self).params_spec() == old(self).params_spec(),
            final(self).agent_seq().len() == old(self).agent_seq().len(),
            forall|i: int|
                0 <= i < old(self).agent_seq().len() ==> (#[trigger] final(self).agent_seq()[
                    i]).vel == old(self).agent_seq()[i].vel && final(self).agent_seq()[
                    i].dir_vec@ == old(self).agent_seq()[i].dir_vec@ && (#[trigger] final(self).agent_seq()[
                    i]).prox_cache@ == old(self).agent_seq()[i].prox_cache@,
            forall|i: int|
                0 <= i < old(self).agent_seq().len() ==> ((#[trigger] final(self).agent_seq()[
                    i]).pos.x as int == move_axis(
                    old(self).agent_seq()[i].pos.x as int,
                    old(self).agent_seq()[i].vel.x as int,
                    old(self).params_spec().speed as int,
                    dt as int,
                    old(self).half_fp(),
                ) && final(self).agent_seq()[i].pos.y as int == move_axis(
                    old(self).agent_seq()[i].pos.y as int,
                    old(self).agent_seq()[i].vel.y as int,
                    old(self).params_spec().speed as int,
                    dt as int,
                    old(self).half_fp(),
                )),
            final(self).contained(),
            final(self).grid_consistent(),
    {
        let ghost orig = *old(self);
        let n = self.agents.len();
        let speed = self.params.speed;
        let half_fp = (self.grid.half_units() as i64) * SCALE;
        let mut i: usize = 0;
        while i < n
            invariant
                self.wf(),
                i <= n,
                n == self.agent_seq().len(),
                0 <= dt <= MAX_DT,
                speed == self.params_spec().speed,
                half_fp == self.half_fp(),
                self.half() == orig.half(),
                self.view_spec() == orig.view_spec(),
                self.border_spec() == orig.border_spec(),
                self.params_spec() == orig.params_spec(),
                n == orig.agent_seq().len(),
                forall|j: int|
                    0 <= j < n ==> (#[trigger] self.agent_seq()[j]).vel == orig.agent_seq()[
                        j].vel && self.agent_seq()[j].dir_vec@ == orig.agent_seq()[j].dir_vec@
                        && self.agent_seq()[j].prox_cache@ == orig.agent_seq()[j].prox_cache@,
                forall|j: int|
                    i <= j < n ==> (#[trigger] self.agent_seq()[j]).pos == orig.agent_seq()[
                        j].pos,
                forall|j: int|
                    0 <= j < i ==> ((#[trigger] self.agent_seq()[j]).pos.x as int == move_axis(
                        orig.agent_seq()[j].pos.x as int,
                        orig.agent_seq()[j].vel.x as int,
                        orig.params_spec().speed as int,
                        dt as int,
                        orig.half_fp(),
                    ) && self.agent_seq()[j].pos.y as int == move_axis(
                        orig.agent_seq()[j].pos.y as int,
                        orig.agent_seq()[j].vel.y as int,
                        orig.params_spec().speed as int,
                        dt as int,
                        orig.half_fp(),
                    )),
            decreases n - i,
        {
            let p = self.agents[i].pos;
            let v = self.agents[i].vel;
            proof {
                assert(abs_s((v.x as int) * (speed as int)) <= 1_000_000_000)
                    by (nonlinear_arith)
                    requires
                        abs_s(v.x as int) <= SCALE as int,
                        0 <= speed <= MAX_WEIGHT,
                        SCALE as int == 1000,
                        MAX_WEIGHT == 1_000_000,
                ;
                assert(abs_s((v.y as int) * (speed as int)) <= 1_000_000_000)
                    by (nonlinear_arith)
                    requires
                        abs_s(v.y as int) <= SCALE as int,
                        0 <= speed <= MAX_WEIGHT,
                        SCALE as int == 1000,
                        MAX_WEIGHT == 1_000_000,
                ;
                assert(abs_s((v.x as int) * (speed as int) * (dt as int))
                    <= 1_000_000_000_000_000) by (nonlinear_arith)
                    requires
                        abs_s((v.x as int) * (speed as int)) <= 1_000_000_000,
                        0 <= dt <= MAX_DT,
                        MAX_DT == 1_000_000,
                ;
                assert(abs_s((v.y as int) * (speed as int) * (dt as int))
                    <= 1_000_000_000_000_000) by (nonlinear_arith)
                    requires
                        abs_s((v.y as int) * (speed as int)) <= 1_000_000_000,
                        0 <= dt <= MAX_DT,
                        MAX_DT == 1_000_000,
                ;
                lemma_div_t_bound(
                    (v.x as int) * (speed as int) * (dt as int),
                    SCALE_SQ as int,
                    1_000_000_000_000_000,
                );
                lemma_div_t_bound(
                    (v.y as int) * (speed as int) * (dt as int),
                    SCALE_SQ as int,
                    1_000_000_000_000_000,
                );
            }
            let dx = div_trunc(v.x * speed * dt, SCALE_SQ);
            let dy = div_trunc(v.y * speed * dt, SCALE_SQ);
            let nx = clamp_i(p.x + dx, -half_fp, half_fp);
            let ny = clamp_i(p.y + dy, -half_fp, half_fp);
            let np = Vec2F { x: nx, y: ny };
            let ghost gpre = *self;
            if np != p {
                proof {
                    assert(self.grid_spec().located(
                        i,
                        key_c(self.half(), p.x as int),
                        key_c(self.half(), p.y as int),
                    ));
                }
                self.grid.update(&p, &np, i);
                self.agents[i].pos = np;
                proof {
                    let fi = i as int;
                    let hf = gpre.half();
                    assert forall|a: int|
                        0 <= a < self.agent_seq().len() implies self.grid_spec().located(
                        a as usize,
                        key_c(self.half(), (#[trigger] self.agent_seq()[a]).pos.x as int),
                        key_c(self.half(), self.agent_seq()[a].pos.y as int),
                    ) by {
                        if a == fi {
                            assert(self.grid_spec().located(
                                i,
                                key_c(hf, np.x as int),
                                key_c(hf, np.y as int),
                            ));
                        } else {
                            let ka = key_c(hf, gpre.agent_seq()[a].pos.x as int);
                            let kb = key_c(hf, gpre.agent_seq()[a].pos.y as int);
                            assert(gpre.grid_spec().located(a as usize, ka, kb));
                            assert(a as usize != i);
                            assert(self.grid_spec().contains_at(ka, kb, a as usize)) by {
                                assert(gpre.grid_spec().contains_at(ka, kb, a as usize));
                            }
                            assert forall|x: int, y: int| #[trigger]
                                self.grid_spec().contains_at(x, y, a as usize) implies x == ka
                                && y == kb by {
                                assert(gpre.grid_spec().contains_at(x, y, a as usize));
                            }
                            assert(self.agent_seq()[a].pos == gpre.agent_seq()[a].pos);
                        }
                    }
                    assert forall|h: usize| #[trigger] self.grid_spec().gcontains(h) implies (
                    h as int) < self.agent_seq().len() by {
                        if h != i {
                            let (x, y) = choose|x: int, y: int|
                                self.grid_spec().contains_at(x, y, h);
                            assert(gpre.grid_spec().contains_at(x, y, h));
                            assert(gpre.grid_spec().gcontains(h));
                        }
                    }
                }
            } else {
                self.agents[i].pos = np;
                proof {
                    assert forall|a: int|
                        0 <= a < self.agent_seq().len() implies self.grid_spec().located(
                        a as usize,
                        key_c(self.half(), (#[trigger] self.agent_seq()[a]).pos.x as int),
                        key_c(self.half(), self.agent_seq()[a].pos.y as int),
                    ) by {
                        assert(gpre.grid_spec().located(
                            a as usize,
                            key_c(gpre.half(), gpre.agent_seq()[a].pos.x as int),
                            key_c(gpre.half(), gpre.agent_seq()[a].pos.y as int),
                        ));
                        assert(self.agent_seq()[a].pos == gpre.agent_seq()[a].pos);
                    }
                }
            }
            proof {
                let fi = i as int;
                assert(self.agent_seq()[fi].pos.x as int == move_axis(
                    orig.agent_seq()[fi].pos.x as int,
                    orig.agent_seq()[fi].vel.x as int,
                    orig.params_spec().speed as int,
                    dt as int,
                    orig.half_fp(),
                ));
                assert(self.wf()) by {
                    assert forall|a: int, t: int|
                        0 <= a < self.agent_seq().len() && 0 <= t < self.agent_seq()[
                            a].prox_cache@.len() implies self.entry_ok(
                        a,
                        #[trigger] self.agent_seq()[a].prox_cache@[t],
                    ) by {
                        assert(gpre.entry_ok(a, gpre.agent_seq()[a].prox_cache@[t]));
                    }
                }
            }
            i += 1;
        }
    }

    /// One full simulation frame: rebuild every neighbor cache from
    /// the settled grid, run the three steering rules and the border
    /// term, integrate every heading, and move every agent with the
    /// grid kept consistent. Alignment reads the velocities exactly as
    /// the previous frame left them: every cache and every rule pass
    /// completes before any velocity or position changes.
    pub fn step(&mut self, dt: i64)
        requires
            old(self).wf(),
            0 <= dt <= MAX_DT,
            forall|i: int|
                0 <= i < old(self).agent_seq().len() ==> (#[trigger] old(self).agent_seq()[
                    i]).dir_vec@.len() == 0,
        ensures
            final(self).wf(),
            final(self).half() == old(self).half(),
            final(self).view_spec() == old(self).view_spec(),
            final(self).border_spec() == old(self).border_spec(),
            final(self).params_spec() == old(self).params_spec(),
            final(self).agent_seq().len() == old(self).agent_seq().len(),
            forall|i: int|
                0 <= i < old(self).agent_seq().len() ==> (#[trigger] final(self).agent_seq()[
                    i]).dir_vec@.len() == 0,
            forall|i: int|
                0 <= i < old(self).agent_seq().len() ==> old(self).cache_correct_seq(
                    i,
                    (#[trigger] final(self).agent_seq()[i]).prox_cache@,
                ),
            forall|i: int|
                0 <= i < old(self).agent_seq().len() ==> ((#[trigger] final(self).agent_seq()[
                    i]).vel.x as int, final(self).agent_seq()[i].vel.y as int) == heading(
                    old(self).agent_seq()[i].vel,
                    step_sum(*old(self), i, final(self).agent_seq()[i].prox_cache@),
                ),
            forall|i: int|
                0 <= i < old(self).agent_seq().len() ==> ((#[trigger] final(self).agent_seq()[
                    i]).pos.x as int == move_axis(
                    old(self).agent_seq()[i].pos.x as int,
                    final(self).agent_seq()[i].vel.x as int,
                    old(self).params_spec().speed as int,
                    dt as int,
                    old(self).half_fp(),
                ) && final(self).agent_seq()[i].pos.y as int == move_axis(
                    old(self).agent_seq()[i].pos.y as int,
                    final(self).agent_seq()[i].vel.y as int,
                    old(self).params_spec().speed as int,
                    dt as int,
                    old(self).half_fp(),
                )),
            final(self).contained(),
            final(self).grid_consistent(),
    {
        let ghost s0 = *old(self);
        self.boids_proxcache();
        let ghost s1 = *self;
        self.boids_sep();
        let ghost s2 = *self;
        self.boids_coh();
        let ghost s3 = *self;
        self.boids_ali();
        let ghost s4 = *self;
        self.boids_dir();
        let ghost s5 = *self;
        self.boids_move(dt);
        proof {
            let n = s0.agent_seq().len();
            assert forall|i: int| 0 <= i < n implies {
                &&& (#[trigger] self.agent_seq()[i]).prox_cache@ == s1.agent_seq()[
                    i].prox_cache@
                &&& s0.cache_correct_seq(i, self.agent_seq()[i].prox_cache@)
                &&& (self.agent_seq()[i].vel.x as int, self.agent_seq()[i].vel.y as int)
                    == heading(
                    s0.agent_seq()[i].vel,
                    step_sum(s0, i, self.agent_seq()[i].prox_cache@),
                )
            } by {
                let c = s1.agent_seq()[i].prox_cache@;
                assert(s2.agent_seq()[i].prox_cache@ == c);
                assert(s3.agent_seq()[i].prox_cache@ == c);
                assert(s4.agent_seq()[i].prox_cache@ == c);
                assert(s5.agent_seq()[i].prox_cache@ == c);
                assert(self.agent_seq()[i].prox_cache@ == c);
                // cache correctness against the pre-step positions
                assert(s1.cache_correct(i));
                lemma_cache_correct_transfer(s1, s0, i, c);
                // positions and velocities are untouched until the
                // integration phases
                assert(s1.agent_seq()[i].pos == s0.agent_seq()[i].pos);
                assert(s2.agent_seq()[i].pos == s0.agent_seq()[i].pos);
                assert(s3.agent_seq()[i].pos == s0.agent_seq()[i].pos);
                assert(s1.agent_seq()[i].vel == s0.agent_seq()[i].vel);
                assert(s2.agent_seq()[i].vel == s0.agent_seq()[i].vel);
                assert(s3.agent_seq()[i].vel == s0.agent_seq()[i].vel);
                assert(s4.agent_seq()[i].vel == s0.agent_seq()[i].vel);
                // the four accumulated contributions, in push order
                let dv = s4.agent_seq()[i].dir_vec@;
                assert(extended2(
                    s2.agent_seq()[i].dir_vec@,
                    s1.agent_seq()[i].dir_vec@,
                    s1.sep_push(i),
                    s1.border_push(i),
                ));
                assert(extended1(
                    s3.agent_seq()[i].dir_vec@,
                    s2.agent_seq()[i].dir_vec@,
                    s2.coh_push(i),
                ));
                assert(extended1(dv, s3.agent_seq()[i].dir_vec@, s3.ali_push(i)));
                assert(s1.agent_seq()[i].dir_vec@.len() == 0);
                assert(dv.len() == 4);
                let a = s1.sep_push(i);
                let b = s1.border_push(i);
                let g = s2.coh_push(i);
                let h = s3.ali_push(i);
                assert((dv[0].x as int, dv[0].y as int) == a);
                assert((dv[1].x as int, dv[1].y as int) == b);
                assert((dv[2].x as int, dv[2].y as int) == g);
                assert((dv[3].x as int, dv[3].y as int) == h);
                // sum the four
                let d3 = dv.drop_last();
                let d2 = d3.drop_last();
                let d1 = d2.drop_last();
                let d0 = d1.drop_last();
                assert(d0.len() == 0);
                assert(dir_sum(d0) == (0int, 0int));
                assert(d1[0] == dv[0] && d2[0] == dv[0] && d3[0] == dv[0]);
                assert(d2[1] == dv[1] && d3[1] == dv[1]);
                assert(d3[2] == dv[2]);
                assert(dir_sum(d1) == (a.0, a.1));
                assert(dir_sum(d2) == (a.0 + b.0, a.1 + b.1));
                assert(dir_sum(d3) == (a.0 + b.0 + g.0, a.1 + b.1 + g.1));
                assert(dir_sum(dv) == (a.0 + b.0 + g.0 + h.0, a.1 + b.1 + g.1 + h.1));
                // the four terms match step_sum over the original state
                assert(a == scale_w(sum_sep(c), s0.params_spec().sep as int));
                assert(b == scale_w(
                    (
                        border_axis(s0.half_fp(), s0.border_spec(), s0.agent_seq()[
                            i].pos.x as int),
                        border_axis(s0.half_fp(), s0.border_spec(), s0.agent_seq()[
                            i].pos.y as int),
                    ),
                    BORDER_WEIGHT as int,
                ));
                assert(g == scale_w(
                    (0 - sum_coh(c).0, 0 - sum_coh(c).1),
                    s0.params_spec().coh as int,
                ));
                assert forall|t: int| 0 <= t < c.len() implies ((#[trigger] c[t]).nb as int)
                    < n by {
                    assert(s1.entry_ok(i, c[t]));
                }
                lemma_sum_ali_same_vel(c, s3.agent_seq(), s0.agent_seq());
                assert(h == scale_w(sum_ali(c, s0.agent_seq()), s0.params_spec().ali as int));
                assert(dir_sum(dv) == step_sum(s0, i, c));
                // the integrated heading survives the movement pass
                assert((s5.agent_seq()[i].vel.x as int, s5.agent_seq()[i].vel.y as int)
                    == heading(s0.agent_seq()[i].vel, dir_sum(dv)));
                assert(self.agent_seq()[i].vel == s5.agent_seq()[i].vel);
            }
            assert forall|i: int| 0 <= i < n implies ((#[trigger] self.agent_seq()[
                i]).pos.x as int == move_axis(
                s0.agent_seq()[i].pos.x as int,
                self.agent_seq()[i].vel.x as int,
                s0.params_spec().speed as int,
                dt as int,
                s0.half_fp(),
            ) && self.agent_seq()[i].pos.y as int == move_axis(
                s0.agent_seq()[i].pos.y as int,
                self.agent_seq()[i].vel.y as int,
                s0.params_spec().speed as int,
                dt as int,
                s0.half_fp(),
            )) by {
                assert(s5.agent_seq()[i].pos == s0.agent_seq()[i].pos);
                assert(self.agent_seq()[i].vel == s5.agent_seq()[i].vel);
            }
        }
    }

    /// An empty flock over the domain `[-size, size]^2`.
    pub fn new(size: usize, view: i64, border: i64, params: Params) -> (f: Flock)
        requires
            1 <= size <= MAX_HALF,
            1 <= view <= MAX_VIEW,
            0 <= border <= size * (SCALE as int),
            abs_s(params.sep as int) <= MAX_WEIGHT,
            abs_s(params.ali as int) <= MAX_WEIGHT,
            abs_s(params.coh as int) <= MAX_WEIGHT,
            0 <= params.speed <= MAX_WEIGHT,
        ensures
            f.wf(),
            f.half() == size,
            f.view_spec() == view,
            f.border_spec() == border,
            f.params_spec() == params,
            f.agent_seq().len() == 0,
    {
        let grid = SpatialGrid::new(size);
        let f = Flock { view, border, params, agents: Vec::new(), grid };
        proof {
            assert forall|h: usize| #[trigger] f.grid_spec().gcontains(h) implies (h as int)
                < f.agent_seq().len() by {
                let (x, y) = choose|x: int, y: int| f.grid_spec().contains_at(x, y, h);
                assert(f.grid_spec().cell(x, y).len() == 0);
            }
        }
        f
    }

    /// Half-extent of the domain, in world units.
    pub fn domain_half(&self) -> (s: usize)
        ensures
            s == self.half(),
    {
        self.grid.half_units()
    }

    /// The view radius, fixed-point.
    pub fn view_dist_of(&self) -> (v: i64)
        ensures
            v == self.view_spec(),
    {
        self.view
    }

    /// The border margin, fixed-point.
    pub fn border_of(&self) -> (b: i64)
        ensures
            b == self.border_spec(),
    {
        self.border
    }

    /// The rule weights.
    pub fn params_of(&self) -> (p: Params)
        ensures
            p == self.params_spec(),
    {
        self.params
    }

    /// Position of agent `i`.
    pub fn position(&self, i: usize) -> (p: Vec2F)
        requires
            i < self.agent_seq().len(),
        ensures
            p == self.agent_seq()[i as int].pos,
    {
        self.agents[i].pos
    }

    /// Heading of agent `i`.
    pub fn velocity(&self, i: usize) -> (v: Vec2F)
        requires
            i < self.agent_seq().len(),
        ensures
            v == self.agent_seq()[i as int].vel,
    {
        self.agents[i].vel
    }

    /// Number of cached neighbors of agent `i`.
    pub fn cache_len(&self, i: usize) -> (m: usize)
        requires
            i < self.agent_seq().len(),
        ensures
            m == self.agent_seq()[i as int].prox_cache@.len(),
    {
        self.agents[i].prox_cache.len()
    }

    /// The `k`-th cached neighbor of agent `i`.
    pub fn cache_entry(&self, i: usize, k: usize) -> (e: CacheEntry)
        requires
            i < self.agent_seq().len(),
            k < self.agent_seq()[i as int].prox_cache@.len(),
        ensures
            e == self.agent_seq()[i as int].prox_cache@[k as int],
    {
        self.agents[i].prox_cache[k]
    }

    /// Number of accumulated direction vectors of agent `i`.
    pub fn dir_len(&self, i: usize) -> (m: usize)
        requires
            i < self.agent_seq().len(),
        ensures
            m == self.agent_seq()[i as int].dir_vec@.len(),
    {
        self.agents[i].dir_vec.len()
    }

    /// The `k`-th accumulated direction vector of agent `i`.
    pub fn dir_entry(&self, i: usize, k: usize) -> (v: Vec2F)
        requires
            i < self.agent_seq().len(),
            k < self.agent_seq()[i as int].dir_vec@.len(),
        ensures
            v == self.agent_seq()[i as int].dir_vec@[k as int],
    {
        self.agents[i].dir_vec[k]
    }

    /// Number of live agents.
    pub fn len(&self) -> (n: usize)
        ensures
            n == self.agent_seq().len(),
    {
        self.agents.len()
    }

    /// Register one new agent with the given position and heading;
    /// returns its handle. Used once per agent at startup.
    pub fn spawn(&mut self, pos: Vec2F, vel: Vec2F) -> (h: usize)
        requires
            old(self).wf(),
            old(self).agent_seq().len() < MAX_POP,
            pos.bounded(old(self).half_fp()),
            vel.bounded(SCALE as int),
        ensures
            final(self).wf(),
            h == old(self).agent_seq().len(),
            final(self).agent_seq().len() == h + 1,
            forall|j: int|
                0 <= j < h ==> final(self).agent_seq()[j] == old(self).agent_seq()[j],
            final(self).agent_seq()[h as int].pos == pos,
            final(self).agent_seq()[h as int].vel == vel,
            final(self).agent_seq()[h as int].dir_vec@.len() == 0,
            final(self).agent_seq()[h as int].prox_cache@.len() == 0,
            final(self).half() == old(self).half(),
            final(self).view_spec() == old(self).view_spec(),
            final(self).border_spec() == old(self).border_spec(),
            final(self).params_spec() == old(self).params_spec(),
    {
        let h = self.agents.len();
        proof {
            // a fresh handle: anything the grid holds is below the
            // current population
            assert(!self.grid.gcontains(h));
        }
        self.grid.insert(&pos, h);
        self.agents.push(Agent { pos, vel, dir_vec: Vec::new(), prox_cache: Vec::new() });
        proof {
            let f = *self;
            assert forall|i: int| 0 <= i < f.agent_seq().len() implies f.grid_spec().located(
                i as usize,
                key_c(f.half(), (#[trigger] f.agent_seq()[i]).pos.x as int),
                key_c(f.half(), f.agent_seq()[i].pos.y as int),
            ) by {
                if i < h {
                    let kx = key_c(f.half(), f.agent_seq()[i].pos.x as int);
                    let ky = key_c(f.half(), f.agent_seq()[i].pos.y as int);
                    assert(old(self).grid_spec().located(i as usize, kx, ky));
                    assert(f.grid_spec().contains_at(kx, ky, i as usize)) by {
                        assert(old(self).grid_spec().contains_at(kx, ky, i as usize));
                        if !(kx == key_c(f.half(), pos.x as int) && ky == key_c(
                            f.half(),
                            pos.y as int,
                        )) {
                        } else {
                            assert(f.grid_spec().cell(kx, ky) == old(self).grid_spec().cell(
                                kx,
                                ky,
                            ).push(h));
                            let t = choose|t: int|
                                0 <= t < old(self).grid_spec().cell(kx, ky).len() && old(
                                    self,
                                ).grid_spec().cell(kx, ky)[t] == i as usize;
                            assert(f.grid_spec().cell(kx, ky)[t] == i as usize);
                        }
                    }
                    assert forall|a: int, b: int| #[trigger]
                        f.grid_spec().contains_at(a, b, i as usize) implies a == kx && b == ky by {
                        assert(old(self).grid_spec().contains_at(a, b, i as usize) || (a == key_c(
                            f.half(),
                            pos.x as int,
                        ) && b == key_c(f.half(), pos.y as int)));
                        if !old(self).grid_spec().contains_at(a, b, i as usize) {
                            let ax = key_c(f.half(), pos.x as int);
                            let by2 = key_c(f.half(), pos.y as int);
                            assert(f.grid_spec().cell(ax, by2) == old(self).grid_spec().cell(
                                ax,
                                by2,
                            ).push(h));
                            let t = choose|t: int|
                                0 <= t < f.grid_spec().cell(ax, by2).len() && f.grid_spec().cell(
                                    ax,
                                    by2,
                                )[t] == i as usize;
                            assert(t < old(self).grid_spec().cell(ax, by2).len());
                            assert(old(self).grid_spec().contains_at(ax, by2, i as usize));
                        }
                    }
                } else {
                    assert(f.grid_spec().located(
                        h,
                        key_c(f.half(), pos.x as int),
                        key_c(f.half(), pos.y as int),
                    ));
                }
            }
            assert forall|h2: usize| #[trigger] f.grid_spec().gcontains(h2) implies (h2 as int)
                < f.agent_seq().len() by {
                if h2 != h {
                    let (x, y) = choose|x: int, y: int| f.grid_spec().contains_at(x, y, h2);
                    let kx = key_c(f.half(), pos.x as int);
                    let ky = key_c(f.half(), pos.y as int);
                    if x == kx && y == ky {
                        assert(f.grid_spec().cell(kx, ky) == old(self).grid_spec().cell(
                            kx,
                            ky,
                        ).push(h));
                        let t = choose|t: int|
                            0 <= t < f.grid_spec().cell(kx, ky).len() && f.grid_spec().cell(
                                kx,
                                ky,
                            )[t] == h2;
                        assert(t < old(self).grid_spec().cell(kx, ky).len());
                        assert(old(self).grid_spec().contains_at(kx, ky, h2));
                        assert(old(self).grid_spec().gcontains(h2));
                    } else {
                        assert(old(self).grid_spec().contains_at(x, y, h2));
                        assert(old(self).grid_spec().gcontains(h2));
                    }
                }
            }
        }
        h
    }
}

} // verus!
