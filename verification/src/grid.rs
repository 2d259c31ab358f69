//! Uniform spatial grid over the square domain `[-size, size]^2`:
//! unit cells indexed by clamped floor coordinates, each holding the
//! handles of the agents currently inside it.
use vstd::prelude::*;
use crate::fixed::{SCALE, clamp_s, clamp_i, floor_div_scale};
use crate::vec2::{Vec2F, COORD_LIMIT};

verus! {

/// Largest accepted half-extent of the domain, in world units.
pub const MAX_HALF: usize = 10_000;

/// Grid index of a fixed-point coordinate: the whole unit it falls in,
/// shifted by `half` and clamped onto the `2 * half + 1` cells per axis.
pub open spec fn key_c(half: int, c: int) -> int {
    clamp_s(c / (SCALE as int) + half, 0, 2 * half)
}

/// A sequence with no repeated element.
pub open spec fn no_dup(s: Seq<usize>) -> bool {
    forall|k1: int, k2: int| 0 <= k1 < k2 < s.len() ==> s[k1] != s[k2]
}

/// Cell keys never decrease along an axis.
pub proof fn lemma_key_monotone(half: int, c1: int, c2: int)
    requires
        half >= 0,
        c1 <= c2,
    ensures
        key_c(half, c1) <= key_c(half, c2),
{
    vstd::arithmetic::div_mod::lemma_div_is_ordered(c1, c2, SCALE as int);
}

/// Query soundness: a handle stored under a position whose Euclidean
/// distance to `pos` is at most `view_dist` lies in some cell of the
/// query box of `pos`, so `get` returns it — the box never misses a
/// true neighbor.
pub proof fn lemma_query_soundness(
    g: SpatialGrid,
    pos: Vec2F,
    view_dist: i64,
    p: Vec2F,
    h: usize,
)
    requires
        g.wf(),
        pos.bounded(1_000_000_000),
        p.bounded(1_000_000_000),
        0 < view_dist <= 1_000_000_000,
        g.contains_at(key_c(g.half(), p.x as int), key_c(g.half(), p.y as int), h),
        (p.x - pos.x) * (p.x - pos.x) + (p.y - pos.y) * (p.y - pos.y) <= view_dist * view_dist,
    ensures
        g.query_hit(pos, view_dist as int, h),
{
    let vd = view_dist as int;
    let dx = p.x - pos.x;
    let dy = p.y - pos.y;
    assert(0 - vd <= dx <= vd && 0 - vd <= dy <= vd) by (nonlinear_arith)
        requires
            dx * dx + dy * dy <= vd * vd,
            vd > 0,
    ;
    lemma_key_monotone(g.half(), pos.x as int - vd, p.x as int);
    lemma_key_monotone(g.half(), p.x as int, pos.x as int + vd);
    lemma_key_monotone(g.half(), pos.y as int - vd, p.y as int);
    lemma_key_monotone(g.half(), p.y as int, pos.y as int + vd);
    assert(g.in_box(pos, vd, key_c(g.half(), p.x as int), key_c(g.half(), p.y as int)));
}

/// Concatenation holds an element exactly when one part does.
proof fn lemma_concat_contains(a: Seq<usize>, b: Seq<usize>)
    ensures
        forall|h: usize| #[trigger] (a + b).contains(h) <==> a.contains(h) || b.contains(h),
{
    assert forall|h: usize| #[trigger] (a + b).contains(h) implies a.contains(h) || b.contains(h)
        by {
        let k = choose|k: int| 0 <= k < (a + b).len() && (a + b)[k] == h;
        if k < a.len() {
            assert(a[k] == h);
        } else {
            assert(b[k - a.len()] == h);
        }
    }
    assert forall|h: usize| a.contains(h) || b.contains(h) implies #[trigger] (a + b).contains(h)
        by {
        if a.contains(h) {
            let k = choose|k: int| 0 <= k < a.len() && a[k] == h;
            assert((a + b)[k] == h);
        } else {
            let k = choose|k: int| 0 <= k < b.len() && b[k] == h;
            assert((a + b)[a.len() + k] == h);
        }
    }
}

/// Append the whole contents of `cell` to `v`.
fn append_cell(v: &mut Vec<usize>, cell: &Vec<usize>)
    ensures
        final(v)@ == old(v)@ + cell@,
{
    let mut k: usize = 0;
    while k < cell.len()
        invariant
            k <= cell@.len(),
            v@ == old(v)@ + cell@.subrange(0, k as int),
        decreases cell@.len() - k,
    {
        v.push(cell[k]);
        proof {
            assert(v@ =~= old(v)@ + cell@.subrange(0, k as int + 1));
        }
        k += 1;
    }
    proof {
        assert(cell@.subrange(0, cell@.len() as int) =~= cell@);
    }
}

/// Index of `h` in `cell`, which must hold it.
fn find_handle(cell: &Vec<usize>, h: usize) -> (idx: usize)
    requires
        cell@.contains(h),
    ensures
        idx < cell@.len(),
        cell@[idx as int] == h,
{
    let mut idx: usize = 0;
    while idx < cell.len()
        invariant
            idx <= cell@.len(),
            cell@.contains(h),
            forall|k: int| 0 <= k < idx ==> cell@[k] != h,
        decreases cell@.len() - idx,
    {
        if cell[idx] == h {
            return idx;
        }
        idx += 1;
    }
    proof {
        let k = choose|k: int| 0 <= k < cell@.len() && cell@[k] == h;
        assert(false);
    }
    0
}

/// The spatial index: cell `(x, y)` holds the handles of the agents
/// whose position maps onto it.
pub struct SpatialGrid {
    size: usize,
    cells: Vec<Vec<Vec<usize>>>,
}

impl SpatialGrid {
    /// Half-extent of the indexed domain, in world units.
    pub closed spec fn half(self) -> int {
        self.size as int
    }

    /// Number of cells per axis.
    pub open spec fn side(self) -> int {
        2 * self.half() + 1
    }

    /// Contents of cell `(x, y)`.
    pub closed spec fn cell(self, x: int, y: int) -> Seq<usize> {
        self.cells@[y]@[x]@
    }

    /// Cell `(x, y)` exists and holds `h`.
    pub open spec fn contains_at(self, x: int, y: int, h: usize) -> bool {
        0 <= x < self.side() && 0 <= y < self.side() && self.cell(x, y).contains(h)
    }

    /// Some cell holds `h`.
    pub open spec fn gcontains(self, h: usize) -> bool {
        exists|x: int, y: int| self.contains_at(x, y, h)
    }

    /// `h` is stored in cell `(x, y)` and nowhere else.
    pub open spec fn located(self, h: usize, x: int, y: int) -> bool {
        self.contains_at(x, y, h) && forall|a: int, b: int|
            self.contains_at(a, b, h) ==> a == x && b == y
    }

    /// Structural invariant: square cell matrix of the right side, no
    /// handle stored twice, neither within a cell nor across cells.
    pub closed spec fn wf(self) -> bool {
        &&& 1 <= self.size <= MAX_HALF
        &&& self.cells@.len() == self.side()
        &&& forall|y: int| 0 <= y < self.side() ==> (#[trigger] self.cells@[y])@.len()
            == self.side()
        &&& forall|x: int, y: int|
            0 <= x < self.side() && 0 <= y < self.side() ==> no_dup(#[trigger] self.cell(x, y))
        &&& forall|x1: int, y1: int, x2: int, y2: int, h: usize|
            #[trigger] self.contains_at(x1, y1, h) && #[trigger] self.contains_at(x2, y2, h)
                ==> x1 == x2 && y1 == y2
    }

    /// A grid for the domain `[-size, size]^2`, all cells empty.
    pub fn new(size: usize) -> (g: SpatialGrid)
        requires
            1 <= size <= MAX_HALF,
        ensures
            g.wf(),
            g.half() == size,
            forall|x: int, y: int|
                0 <= x < g.side() && 0 <= y < g.side() ==> (#[trigger] g.cell(x, y)).len() == 0,
    {
        let side: usize = 2 * size + 1;
        let mut cells: Vec<Vec<Vec<usize>>> = Vec::new();
        let mut y: usize = 0;
        while y < side
            invariant
                cells@.len() == y <= side,
                forall|b: int| 0 <= b < y ==> (#[trigger] cells@[b])@.len() == side,
                forall|a: int, b: int|
                    0 <= b < y && 0 <= a < side ==> (#[trigger] cells@[b]@[a])@.len() == 0,
            decreases side - y,
        {
            let mut row: Vec<Vec<usize>> = Vec::new();
            let mut x: usize = 0;
            while x < side
                invariant
                    row@.len() == x <= side,
                    forall|a: int| 0 <= a < x ==> (#[trigger] row@[a])@.len() == 0,
                decreases side - x,
            {
                row.push(Vec::new());
                x += 1;
            }
            cells.push(row);
            y += 1;
        }
        let g = SpatialGrid { size, cells };
        proof {
            assert forall|x: int, y2: int|
                0 <= x < g.side() && 0 <= y2 < g.side() implies (#[trigger] g.cell(x, y2)).len()
                == 0 by {
                assert(g.cells@[y2]@[x]@.len() == 0);
            }
        }
        g
    }

    /// Half-extent of the indexed domain, in world units.
    pub fn half_units(&self) -> (s: usize)
        ensures
            s == self.half(),
    {
        self.size
    }

    /// The cell indices of a position, clamped onto the grid.
    pub fn get_key(&self, pos: &Vec2F) -> (k: (usize, usize))
        requires
            self.wf(),
            pos.bounded(COORD_LIMIT as int),
        ensures
            k.0 == key_c(self.half(), pos.x as int),
            k.1 == key_c(self.half(), pos.y as int),
            k.0 < self.side(),
            k.1 < self.side(),
    {
        let half: i64 = self.size as i64;
        let fx = floor_div_scale(pos.x);
        let fy = floor_div_scale(pos.y);
        let kx = clamp_i(fx + half, 0, 2 * half);
        let ky = clamp_i(fy + half, 0, 2 * half);
        (kx as usize, ky as usize)
    }

    /// Add `h` to the cell containing `pos`; the caller guarantees `h`
    /// is not anywhere in the grid yet.
    pub fn insert(&mut self, pos: &Vec2F, h: usize)
        requires
            old(self).wf(),
            pos.bounded(COORD_LIMIT as int),
            !old(self).gcontains(h),
        ensures
            final(self).wf(),
            final(self).half() == old(self).half(),
            final(self).cell(
                key_c(old(self).half(), pos.x as int),
                key_c(old(self).half(), pos.y as int),
            ) == old(self).cell(
                key_c(old(self).half(), pos.x as int),
                key_c(old(self).half(), pos.y as int),
            ).push(h),
            forall|x: int, y: int|
                0 <= x < old(self).side() && 0 <= y < old(self).side() && !(x == key_c(
                    old(self).half(),
                    pos.x as int,
                ) && y == key_c(old(self).half(), pos.y as int)) ==> #[trigger] final(self).cell(
                    x,
                    y,
                ) == old(self).cell(x, y),
            final(self).located(
                h,
                key_c(old(self).half(), pos.x as int),
                key_c(old(self).half(), pos.y as int),
            ),
    {
        let (kx, ky) = self.get_key(pos);
        let ghost pre = *self;
        self.cells[ky][kx].push(h);
        proof {
            let hf = pre.half();
            let cx = key_c(hf, pos.x as int);
            let cy = key_c(hf, pos.y as int);
            assert((*self).cell(cx, cy) == pre.cell(cx, cy).push(h));
            assert forall|x: int, y: int|
                0 <= x < pre.side() && 0 <= y < pre.side() && !(x == cx && y == cy)
                implies #[trigger] (*self).cell(x, y) == pre.cell(x, y) by {
                assert((*self).cells@[y] == pre.cells@[y] || y == cy);
            }
            assert forall|x1: int, y1: int, x2: int, y2: int, h2: usize|
                #[trigger] (*self).contains_at(x1, y1, h2) && #[trigger] self.contains_at(x2, y2, h2) implies x1 == x2 && y1 == y2 by {
                if h2 != h {
                    assert(pre.contains_at(x1, y1, h2) && pre.contains_at(x2, y2, h2));
                } else {
                    assert(!pre.gcontains(h));
                    if !(x1 == cx && y1 == cy) {
                        assert(pre.contains_at(x1, y1, h));
                    }
                    if !(x2 == cx && y2 == cy) {
                        assert(pre.contains_at(x2, y2, h));
                    }
                }
            }
            assert forall|x: int, y: int|
                0 <= x < (*self).side() && 0 <= y < (*self).side() implies no_dup(
                #[trigger] (*self).cell(x, y)) by {
                if x == cx && y == cy {
                    let c0 = pre.cell(cx, cy);
                    assert forall|k1: int, k2: int|
                        0 <= k1 < k2 < c0.push(h).len() implies c0.push(h)[k1] != c0.push(h)[k2]
                        by {
                        if k2 == c0.len() {
                            if c0[k1] == h {
                                assert(c0.contains(h));
                                assert(pre.contains_at(cx, cy, h));
                            }
                        }
                    }
                }
            }
            assert((*self).contains_at(cx, cy, h)) by {
                assert((*self).cell(cx, cy)[pre.cell(cx, cy).len() as int] == h);
            }
        }
    }

    /// Cell `(x, y)` lies in the query box of `pos` and `vd`: the
    /// axis-aligned square of cells spanned by `pos - (vd, vd)` and
    /// `pos + (vd, vd)`.
    pub open spec fn in_box(self, pos: Vec2F, vd: int, x: int, y: int) -> bool {
        &&& key_c(self.half(), pos.x as int - vd) <= x <= key_c(self.half(), pos.x as int + vd)
        &&& key_c(self.half(), pos.y as int - vd) <= y <= key_c(self.half(), pos.y as int + vd)
    }

    /// Some cell of the query box of `pos` and `vd` holds `h`.
    pub open spec fn query_hit(self, pos: Vec2F, vd: int, h: usize) -> bool {
        exists|x: int, y: int| self.in_box(pos, vd, x, y) && #[trigger] self.contains_at(x, y, h)
    }

    /// `h` sits in a fully traversed row of the query box.
    spec fn hit_before(self, fx: int, tx: int, fy: int, yy: int, h: usize) -> bool {
        exists|a: int, b: int|
            fx <= a <= tx && fy <= b < yy && #[trigger] self.contains_at(a, b, h)
    }

    /// `h` sits in a traversed column of the current row.
    spec fn hit_in_row(self, fx: int, xx: int, yy: int, h: usize) -> bool {
        exists|a: int| fx <= a < xx && #[trigger] self.contains_at(a, yy, h)
    }

    /// All handles stored in any cell of the query box around `pos`:
    /// a superset of the agents within Euclidean distance `view_dist`,
    /// with no handle repeated.
    pub fn get(&self, pos: &Vec2F, view_dist: i64) -> (v: Vec<usize>)
        requires
            self.wf(),
            pos.bounded(1_000_000_000),
            0 < view_dist <= 1_000_000_000,
        ensures
            no_dup(v@),
            forall|h: usize| #[trigger]
                v@.contains(h) <==> self.query_hit(*pos, view_dist as int, h),
    {
        let lo = Vec2F { x: pos.x - view_dist, y: pos.y - view_dist };
        let hi = Vec2F { x: pos.x + view_dist, y: pos.y + view_dist };
        let (fx, fy) = self.get_key(&lo);
        let (tx, ty) = self.get_key(&hi);
        proof {
            lemma_key_monotone(self.half(), lo.x as int, hi.x as int);
            lemma_key_monotone(self.half(), lo.y as int, hi.y as int);
        }
        let mut v: Vec<usize> = Vec::new();
        let mut y = fy;
        while y <= ty
            invariant
                self.wf(),
                fx as int == key_c(self.half(), pos.x as int - view_dist),
                tx as int == key_c(self.half(), pos.x as int + view_dist),
                fy as int == key_c(self.half(), pos.y as int - view_dist),
                ty as int == key_c(self.half(), pos.y as int + view_dist),
                fx <= tx < self.side(),
                fy <= ty < self.side(),
                fy <= y <= ty + 1,
                no_dup(v@),
                forall|h: usize| #[trigger]
                    v@.contains(h) <==> self.hit_before(
                        fx as int,
                        tx as int,
                        fy as int,
                        y as int,
                        h,
                    ),
            decreases ty + 1 - y,
        {
            let mut x = fx;
            while x <= tx
                invariant
                    self.wf(),
                    fx <= tx < self.side(),
                    fy <= y <= ty < self.side(),
                    fx <= x <= tx + 1,
                    no_dup(v@),
                    forall|h: usize| #[trigger]
                        v@.contains(h) <==> self.hit_before(
                            fx as int,
                            tx as int,
                            fy as int,
                            y as int,
                            h,
                        ) || self.hit_in_row(fx as int, x as int, y as int, h),
                decreases tx + 1 - x,
            {
                let ghost vpre = v@;
                let ghost cc = self.cell(x as int, y as int);
                append_cell(&mut v, &self.cells[y][x]);
                proof {
                    lemma_concat_contains(vpre, cc);
                    let xi = x as int;
                    let yi = y as int;
                    assert forall|h: usize| #[trigger] v@.contains(h) implies self.hit_before(
                        fx as int,
                        tx as int,
                        fy as int,
                        yi,
                        h,
                    ) || self.hit_in_row(fx as int, xi + 1, yi, h) by {
                        if vpre.contains(h) {
                            if self.hit_in_row(fx as int, xi, yi, h) {
                                let a = choose|a: int|
                                    fx <= a < xi && #[trigger] self.contains_at(a, yi, h);
                                assert(fx <= a < xi + 1 && self.contains_at(a, yi, h));
                            }
                        } else {
                            assert(cc.contains(h));
                            assert(self.contains_at(xi, yi, h));
                            assert(fx <= xi < xi + 1);
                        }
                    }
                    assert forall|h: usize|
                        self.hit_before(fx as int, tx as int, fy as int, yi, h) || self.hit_in_row(
                            fx as int,
                            xi + 1,
                            yi,
                            h,
                        ) implies #[trigger] v@.contains(h) by {
                        if self.hit_before(fx as int, tx as int, fy as int, yi, h) {
                            assert(vpre.contains(h));
                        } else {
                            let a = choose|a: int|
                                fx <= a < xi + 1 && #[trigger] self.contains_at(a, yi, h);
                            if a < xi {
                                assert(self.hit_in_row(fx as int, xi, yi, h));
                                assert(vpre.contains(h));
                            } else {
                                assert(cc.contains(h));
                            }
                        }
                    }
                    assert forall|k1: int, k2: int| 0 <= k1 < k2 < v@.len() implies v@[k1]
                        != v@[k2] by {
                        let h = v@[k2];
                        if k1 < vpre.len() && k2 >= vpre.len() {
                            if v@[k1] == h {
                                assert(vpre[k1] == h);
                                assert(vpre.contains(h));
                                assert(cc[k2 - vpre.len()] == h);
                                assert(cc.contains(h));
                                assert(self.contains_at(xi, yi, h));
                                if self.hit_before(fx as int, tx as int, fy as int, yi, h) {
                                    let (a, b) = choose|a: int, b: int|
                                        fx <= a <= tx && fy <= b < yi && #[trigger]
                                        self.contains_at(a, b, h);
                                    assert(b == yi);
                                    assert(false);
                                } else {
                                    let a = choose|a: int|
                                        fx <= a < xi && #[trigger] self.contains_at(a, yi, h);
                                    assert(a == xi);
                                    assert(false);
                                }
                            }
                        } else if k1 >= vpre.len() {
                            assert(v@[k1] == cc[k1 - vpre.len()]);
                            assert(v@[k2] == cc[k2 - vpre.len()]);
                            assert(no_dup(cc));
                        } else {
                            assert(v@[k1] == vpre[k1] && v@[k2] == vpre[k2]);
                        }
                    }
                }
                x += 1;
            }
            proof {
                let yi = y as int;
                assert forall|h: usize| #[trigger] v@.contains(h) implies self.hit_before(
                    fx as int,
                    tx as int,
                    fy as int,
                    yi + 1,
                    h,
                ) by {
                    if self.hit_in_row(fx as int, tx as int + 1, yi, h) {
                        let a = choose|a: int|
                            fx <= a < tx as int + 1 && #[trigger] self.contains_at(a, yi, h);
                        assert(fx <= a <= tx && fy <= yi < yi + 1 && self.contains_at(a, yi, h));
                    }
                }
                assert forall|h: usize|
                    self.hit_before(fx as int, tx as int, fy as int, yi + 1, h) implies #[trigger]
                    v@.contains(h) by {
                    let (a, b) = choose|a: int, b: int|
                        fx <= a <= tx && fy <= b < yi + 1 && #[trigger] self.contains_at(a, b, h);
                    if b < yi {
                        assert(self.hit_before(fx as int, tx as int, fy as int, yi, h));
                    } else {
                        assert(self.hit_in_row(fx as int, tx as int + 1, yi, h));
                    }
                }
            }
            y += 1;
        }
        proof {
            let vd = view_dist as int;
            assert forall|h: usize| #[trigger] v@.contains(h) implies self.query_hit(
                *pos,
                vd,
                h,
            ) by {
                let (a, b) = choose|a: int, b: int|
                    fx <= a <= tx && fy <= b < y as int && #[trigger] self.contains_at(a, b, h);
                assert(self.in_box(*pos, vd, a, b));
            }
            assert forall|h: usize| self.query_hit(*pos, vd, h) implies #[trigger] v@.contains(h)
                by {
                let (a, b) = choose|a: int, b: int|
                    self.in_box(*pos, vd, a, b) && #[trigger] self.contains_at(a, b, h);
                assert(self.hit_before(fx as int, tx as int, fy as int, y as int, h));
            }
        }
        v
    }

    /// Move `h` from the cell of `old_pos` to the cell of `new_pos`.
    /// When both positions map onto the same cell nothing changes at
    /// all — in particular a move with equal positions is a no-op.
    pub fn update(&mut self, old_pos: &Vec2F, new_pos: &Vec2F, h: usize)
        requires
            old(self).wf(),
            old_pos.bounded(COORD_LIMIT as int),
            new_pos.bounded(COORD_LIMIT as int),
            old(self).located(
                h,
                key_c(old(self).half(), old_pos.x as int),
                key_c(old(self).half(), old_pos.y as int),
            ),
        ensures
            final(self).wf(),
            final(self).half() == old(self).half(),
            final(self).located(
                h,
                key_c(old(self).half(), new_pos.x as int),
                key_c(old(self).half(), new_pos.y as int),
            ),
            ({
                let hf = old(self).half();
                let ox = key_c(hf, old_pos.x as int);
                let oy = key_c(hf, old_pos.y as int);
                let nx = key_c(hf, new_pos.x as int);
                let ny = key_c(hf, new_pos.y as int);
                &&& (ox == nx && oy == ny) ==> *final(self) == *old(self)
                &&& !(ox == nx && oy == ny) ==> {
                    &&& final(self).cell(nx, ny) == old(self).cell(nx, ny).push(h)
                    &&& final(self).cell(ox, oy).len() == old(self).cell(ox, oy).len() - 1
                    &&& forall|h2: usize| #[trigger]
                        final(self).cell(ox, oy).contains(h2) <==> (old(self).cell(
                            ox,
                            oy,
                        ).contains(h2) && h2 != h)
                    &&& forall|x: int, y: int|
                        0 <= x < old(self).side() && 0 <= y < old(self).side() && !(x == ox && y
                            == oy) && !(x == nx && y == ny) ==> #[trigger] final(self).cell(x, y)
                            == old(self).cell(x, y)
                }
            }),
            forall|x: int, y: int, h2: usize|
                h2 != h ==> (#[trigger] final(self).contains_at(x, y, h2)
                    <==> old(self).contains_at(x, y, h2)),
    {
        let (okx, oky) = self.get_key(old_pos);
        let (nkx, nky) = self.get_key(new_pos);
        if okx == nkx && oky == nky {
            return ;
        }
        let ghost pre = *self;
        proof {
            assert(pre.cell(okx as int, oky as int).contains(h)) by {
                assert(pre.contains_at(
                    key_c(pre.half(), old_pos.x as int),
                    key_c(pre.half(), old_pos.y as int),
                    h,
                ));
            }
        }
        let idx = find_handle(&self.cells[oky][okx], h);
        self.cells[oky][okx].swap_remove(idx);
        let ghost mid = *self;
        self.cells[nky][nkx].push(h);
        proof {
            let hf = pre.half();
            let ox = okx as int;
            let oy = oky as int;
            let nx = nkx as int;
            let ny = nky as int;
            let oc = pre.cell(ox, oy);
            let rc = mid.cell(ox, oy);
            // the removal cell: every element but `h` survives exactly once
            assert(rc == oc.update(idx as int, oc.last()).drop_last());
            assert forall|h2: usize| #[trigger] rc.contains(h2) implies oc.contains(h2) && h2 != h
                by {
                let k = choose|k: int| 0 <= k < rc.len() && rc[k] == h2;
                if k == idx {
                    assert(oc[oc.len() - 1] == h2);
                } else {
                    assert(oc[k] == h2);
                }
                if h2 == h {
                    let k2: int = if k == idx {
                        oc.len() - 1
                    } else {
                        k
                    };
                    assert(oc[k2] == h && oc[idx as int] == h);
                    assert(no_dup(oc));
                }
            }
            assert forall|h2: usize| oc.contains(h2) && h2 != h implies #[trigger] rc.contains(h2)
                by {
                let k = choose|k: int| 0 <= k < oc.len() && oc[k] == h2;
                if k == idx {
                    assert(false);
                } else if k == oc.len() - 1 {
                    assert(rc[idx as int] == h2);
                } else {
                    assert(rc[k] == h2);
                }
            }
            assert forall|x: int, y: int|
                0 <= x < pre.side() && 0 <= y < pre.side() && !(x == ox && y == oy) && !(x == nx
                    && y == ny) implies #[trigger] (*self).cell(x, y) == pre.cell(x, y) by {
                assert((*self).cells@[y] == pre.cells@[y] || y == oy || y == ny);
            }
            assert((*self).cell(nx, ny) == pre.cell(nx, ny).push(h));
            assert((*self).cell(ox, oy) == rc);
            // no cell holds h any more except (nx, ny)
            assert forall|x: int, y: int, h2: usize|
                h2 != h implies (#[trigger] (*self).contains_at(x, y, h2) <==> pre.contains_at(
                x,
                y,
                h2,
            )) by {
                if 0 <= x < pre.side() && 0 <= y < pre.side() {
                    if x == ox && y == oy {
                    } else if x == nx && y == ny {
                        assert((*self).cell(x, y) == pre.cell(x, y).push(h));
                        if pre.cell(x, y).contains(h2) {
                            let k = choose|k: int|
                                0 <= k < pre.cell(x, y).len() && pre.cell(x, y)[k] == h2;
                            assert((*self).cell(x, y)[k] == h2);
                        }
                        if (*self).cell(x, y).contains(h2) {
                            let k = choose|k: int|
                                0 <= k < (*self).cell(x, y).len() && (*self).cell(x, y)[k] == h2;
                            assert(k < pre.cell(x, y).len());
                            assert(pre.cell(x, y)[k] == h2);
                        }
                    }
                }
            }
            assert((*self).contains_at(nx, ny, h)) by {
                assert((*self).cell(nx, ny)[pre.cell(nx, ny).len() as int] == h);
            }
            assert forall|x: int, y: int| #[trigger] (*self).contains_at(x, y, h) implies x == nx
                && y == ny by {
                if !(x == nx && y == ny) {
                    if x == ox && y == oy {
                        assert(rc.contains(h) ==> false);
                    } else {
                        assert(pre.contains_at(x, y, h));
                        assert(pre.located(
                            h,
                            key_c(hf, old_pos.x as int),
                            key_c(hf, old_pos.y as int),
                        ));
                    }
                }
            }
            // well-formedness: no duplicates anywhere
            assert forall|x: int, y: int|
                0 <= x < (*self).side() && 0 <= y < (*self).side() implies no_dup(
                #[trigger] (*self).cell(x, y)) by {
                if x == ox && y == oy {
                    assert forall|k1: int, k2: int| 0 <= k1 < k2 < rc.len() implies rc[k1]
                        != rc[k2] by {
                        let a1: int = if k1 == idx {
                            oc.len() - 1
                        } else {
                            k1
                        };
                        let a2: int = if k2 == idx {
                            oc.len() - 1
                        } else {
                            k2
                        };
                        assert(rc[k1] == oc[a1] && rc[k2] == oc[a2]);
                        assert(no_dup(oc));
                    }
                } else if x == nx && y == ny {
                    let c0 = pre.cell(nx, ny);
                    assert forall|k1: int, k2: int|
                        0 <= k1 < k2 < c0.push(h).len() implies c0.push(h)[k1] != c0.push(h)[k2]
                        by {
                        if k2 == c0.len() {
                            if c0[k1] == h {
                                assert(c0.contains(h));
                                assert(pre.contains_at(nx, ny, h));
                                assert(pre.located(
                                    h,
                                    key_c(hf, old_pos.x as int),
                                    key_c(hf, old_pos.y as int),
                                ));
                            }
                        }
                    }
                }
            }
            assert forall|x1: int, y1: int, x2: int, y2: int, h2: usize|
                #[trigger] (*self).contains_at(x1, y1, h2) && #[trigger] (*self).contains_at(
                    x2,
                    y2,
                    h2,
                ) implies x1 == x2 && y1 == y2 by {
                if h2 == h {
                } else {
                    assert(pre.contains_at(x1, y1, h2) && pre.contains_at(x2, y2, h2));
                }
            }
        }
    }
}

} // verus!
