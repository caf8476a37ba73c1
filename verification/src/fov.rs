//! Permissive recursive shadowcasting over a `TileMap`.
//!
//! A `Viewshed` holds, for one observer position and a fixed radius, a dense
//! boolean window of the tiles visible from there. Visibility is computed by
//! sweeping four mirrored quadrants; in each quadrant an ordered list of view
//! sectors (each bounded by a shallow and a steep line) is narrowed, split or
//! killed as walls are encountered, diagonal shell by diagonal shell.
//!
//! The permissiveness parameter is 0.8: a non-blocking cell counts as seen
//! while the cell's corners pulled in by 0.2 toward its center still lie
//! inside the sector. All boundary geometry is therefore exact in fifths of
//! a cell, and the whole computation is done in integers scaled by 5.

use vstd::prelude::*;
use crate::tilemap::TileMap;

verus! {

/// Largest radius a `Viewshed` accepts: the `(2r+1) x (2r+1)` window's cell
/// count must fit in an `i32`.
pub const RADIUS_LIMIT: i32 = 23169;

/// All boundary-line coordinates are integers scaled by 5 (fifths of a
/// cell), so the permissiveness offset of 0.8 is the exact integer 4.
const PERM_SCALED: i64 = 4;

/// One cell, scaled.
const CELL_SCALED: i64 = 5;

/// Stand-in for an infinitely far point on the initial cone's boundary
/// lines (10000 cells, scaled).
const FAR_SCALED: i64 = 50_000;

/// Upper bound on every scaled coordinate that can reach a boundary line:
/// cell corners go up to `5 * (2 * RADIUS_LIMIT + 1) + 5` and the far
/// sentinel is 50000.
const COORD_MAX: i64 = 300_000;

// ---------------------------------------------------------------------------
// Specification model: the scan, stated over unbounded integers.
// ---------------------------------------------------------------------------

/// A directed boundary line, modelled by its near and far anchor points
/// (scaled coordinates).
pub struct LineModel {
    pub nx: int,
    pub ny: int,
    pub fx: int,
    pub fy: int,
}

/// The line's perpendicular normal, x component.
pub open spec fn line_normal_x(l: LineModel) -> int {
    l.ny - l.fy
}

/// The line's perpendicular normal, y component.
pub open spec fn line_normal_y(l: LineModel) -> int {
    l.fx - l.nx
}

/// The far point's dot product against the normal: the line's half-plane
/// threshold.
pub open spec fn line_dot(l: LineModel) -> int {
    l.fx * line_normal_x(l) + l.fy * line_normal_y(l)
}

/// Strict half-plane test: points exactly on the line are neither above nor
/// below.
pub open spec fn point_above(l: LineModel, x: int, y: int) -> bool {
    x * line_normal_x(l) + y * line_normal_y(l) < line_dot(l)
}

/// Strict half-plane test, the other side.
pub open spec fn point_below(l: LineModel, x: int, y: int) -> bool {
    x * line_normal_x(l) + y * line_normal_y(l) > line_dot(l)
}

/// One view sector: an angular slice of the quadrant bounded by a shallow
/// and a steep line, with the corner points that previously narrowed each
/// line.
pub struct SectorModel {
    pub shallow: LineModel,
    pub steep: LineModel,
    pub steep_bumps: Seq<(int, int)>,
    pub shallow_bumps: Seq<(int, int)>,
}

/// Re-anchors `cur` onto each recorded bump that lies strictly above it, in
/// recording order, keeping the far point.
pub open spec fn reanchor_above(cur: LineModel, bumps: Seq<(int, int)>) -> LineModel
    decreases bumps.len(),
{
    if bumps.len() == 0 {
        cur
    } else {
        let b = bumps[0];
        let next = if point_above(cur, b.0, b.1) {
            LineModel { nx: b.0, ny: b.1, fx: cur.fx, fy: cur.fy }
        } else {
            cur
        };
        reanchor_above(next, bumps.drop_first())
    }
}

/// Re-anchors `cur` onto each recorded bump that lies strictly below it, in
/// recording order, keeping the far point.
pub open spec fn reanchor_below(cur: LineModel, bumps: Seq<(int, int)>) -> LineModel
    decreases bumps.len(),
{
    if bumps.len() == 0 {
        cur
    } else {
        let b = bumps[0];
        let next = if point_below(cur, b.0, b.1) {
            LineModel { nx: b.0, ny: b.1, fx: cur.fx, fy: cur.fy }
        } else {
            cur
        };
        reanchor_below(next, bumps.drop_first())
    }
}

/// Narrowing the sector's shallow line to pass through `(x, y)`: the line is
/// re-anchored against every prior steep bump so that none of them ends up
/// strictly above it.
pub open spec fn sector_add_shallow_bump(v: SectorModel, x: int, y: int) -> SectorModel {
    SectorModel {
        shallow: reanchor_above(
            LineModel { nx: v.shallow.nx, ny: v.shallow.ny, fx: x, fy: y },
            v.steep_bumps,
        ),
        steep: v.steep,
        steep_bumps: v.steep_bumps,
        shallow_bumps: v.shallow_bumps.push((x, y)),
    }
}

/// Narrowing the sector's steep line to pass through `(x, y)`: the line is
/// re-anchored against every prior shallow bump so that none of them ends up
/// strictly below it.
pub open spec fn sector_add_steep_bump(v: SectorModel, x: int, y: int) -> SectorModel {
    SectorModel {
        shallow: v.shallow,
        steep: reanchor_below(
            LineModel { nx: v.steep.nx, ny: v.steep.ny, fx: x, fy: y },
            v.shallow_bumps,
        ),
        steep_bumps: v.steep_bumps.push((x, y)),
        shallow_bumps: v.shallow_bumps,
    }
}

/// The quadrant's initial sector: a cone of half-width set by the
/// permissiveness, reaching out to the far sentinel along both axes.
pub open spec fn init_sector() -> SectorModel {
    SectorModel {
        shallow: LineModel { nx: 1, ny: 4, fx: 50_000, fy: 0 },
        steep: LineModel { nx: 4, ny: 1, fx: 0, fy: 50_000 },
        steep_bumps: Seq::empty(),
        shallow_bumps: Seq::empty(),
    }
}

/// The sector ignores cell `(cx, cy)` (relative, unscaled): its far corner
/// is strictly below the steep line or its near corner strictly above the
/// shallow line.
pub open spec fn sector_skips(v: SectorModel, cx: int, cy: int) -> bool {
    point_below(v.steep, 5 * (cx + 1), 5 * cy) || point_above(v.shallow, 5 * cx, 5 * (cy + 1))
}

/// Whether this sector marks cell `(cx, cy)` visible. A blocking cell it can
/// see at all is always marked; a non-blocking cell is marked only if the
/// corners pulled in by the permissiveness still lie inside both half-planes.
pub open spec fn sector_marks(v: SectorModel, cx: int, cy: int, blocks: bool) -> bool {
    &&& !sector_skips(v, cx, cy)
    &&& (blocks || (!point_below(v.steep, 5 * cx + 4, 5 * (cy + 1) - 4) && !point_above(
        v.shallow,
        5 * (cx + 1) - 4,
        5 * cy + 4,
    )))
}

/// What becomes of one sector at cell `(cx, cy)`: unchanged where the cell
/// is ignored or transparent; killed, narrowed on one side, or split in two
/// where the cell blocks vision.
pub open spec fn sector_step(v: SectorModel, cx: int, cy: int, blocks: bool) -> Seq<SectorModel> {
    if sector_skips(v, cx, cy) || !blocks {
        seq![v]
    } else {
        let bl_below_steep = point_below(v.steep, 5 * cx, 5 * (cy + 1));
        let tr_above_shallow = point_above(v.shallow, 5 * (cx + 1), 5 * cy);
        if bl_below_steep && tr_above_shallow {
            Seq::empty()
        } else if bl_below_steep {
            seq![sector_add_steep_bump(v, 5 * (cx + 1), 5 * cy)]
        } else if tr_above_shallow {
            seq![sector_add_shallow_bump(v, 5 * cx, 5 * (cy + 1))]
        } else {
            seq![
                sector_add_steep_bump(v, 5 * (cx + 1), 5 * cy),
                sector_add_shallow_bump(v, 5 * cx, 5 * (cy + 1)),
            ]
        }
    }
}

/// One cell applied to every live sector in order.
pub open spec fn sectors_step(vs: Seq<SectorModel>, cx: int, cy: int, blocks: bool) -> Seq<
    SectorModel,
>
    decreases vs.len(),
{
    if vs.len() == 0 {
        Seq::empty()
    } else {
        sector_step(vs[0], cx, cy, blocks) + sectors_step(vs.drop_first(), cx, cy, blocks)
    }
}

/// Whether any live sector marks cell `(cx, cy)` visible.
pub open spec fn sectors_mark(vs: Seq<SectorModel>, cx: int, cy: int, blocks: bool) -> bool
    decreases vs.len(),
{
    vs.len() > 0 && (sector_marks(vs[0], cx, cy, blocks) || sectors_mark(
        vs.drop_first(),
        cx,
        cy,
        blocks,
    ))
}

/// Whether the scan visits cell `(cx, cy)` at all: both coordinates within
/// the radius, and the cell's Euclidean distance from the origin rounds to
/// at most `r` (`d2 <= r*r + r` is exactly `round(sqrt(d2)) <= r`).
pub open spec fn cell_scanned(r: int, cx: int, cy: int) -> bool {
    cx <= r && cy <= r && cx * cx + cy * cy <= r * r + r
}

/// Whether the tile at relative cell `(cx, cy)` of the quadrant mirrored by
/// `(dx, dy)` from origin `(x, y)` blocks vision.
pub open spec fn cell_blocks(tm: TileMap, x: int, y: int, dx: int, dy: int, cx: int, cy: int) -> bool {
    tm.spec_tile(x + cx * dx, y + cy * dy).spec_blocks_vision()
}

/// The live sectors just before the scan processes cell `(sx - cy, cy)` of
/// diagonal shell `sx`. Shells run `sx = 0, 1, ...` and cells within a shell
/// in increasing `cy`; this order is load-bearing for the bump geometry.
pub open spec fn sectors_before(
    r: int,
    tm: TileMap,
    x: int,
    y: int,
    dx: int,
    dy: int,
    sx: nat,
    cy: nat,
) -> Seq<SectorModel>
    decreases sx, cy, 0nat,
{
    if cy > 0 {
        sectors_after(r, tm, x, y, dx, dy, sx, (cy - 1) as nat)
    } else if sx > 0 {
        sectors_after(r, tm, x, y, dx, dy, (sx - 1) as nat, (sx - 1) as nat)
    } else {
        seq![init_sector()]
    }
}

/// The live sectors just after the scan processes cell `(sx - cy, cy)`:
/// unchanged where that cell is skipped, else every sector stepped.
pub open spec fn sectors_after(
    r: int,
    tm: TileMap,
    x: int,
    y: int,
    dx: int,
    dy: int,
    sx: nat,
    cy: nat,
) -> Seq<SectorModel>
    decreases sx, cy, 1nat,
{
    let prev = sectors_before(r, tm, x, y, dx, dy, sx, cy);
    let cx = sx - cy;
    if cx >= 0 && cell_scanned(r, cx, cy as int) {
        sectors_step(prev, cx, cy as int, cell_blocks(tm, x, y, dx, dy, cx, cy as int))
    } else {
        prev
    }
}

/// Whether the quadrant scan mirrored by `(dx, dy)` marks relative cell
/// `(cx, cy)` visible.
pub open spec fn quad_marked(
    r: int,
    tm: TileMap,
    x: int,
    y: int,
    dx: int,
    dy: int,
    cx: int,
    cy: int,
) -> bool {
    &&& 0 <= cx
    &&& 0 <= cy
    &&& cx + cy <= 2 * r
    &&& cell_scanned(r, cx, cy)
    &&& sectors_mark(
        sectors_before(r, tm, x, y, dx, dy, (cx + cy) as nat, cy as nat),
        cx,
        cy,
        cell_blocks(tm, x, y, dx, dy, cx, cy),
    )
}

/// The full result of one visibility update from `(x, y)` with radius `r`
/// over `tm`: the origin itself, plus everything some quadrant marks.
pub open spec fn spec_visible(r: int, tm: TileMap, x: int, y: int, px: int, py: int) -> bool {
    ||| (px == x && py == y)
    ||| quad_marked(r, tm, x, y, 1, 1, px - x, py - y)
    ||| quad_marked(r, tm, x, y, -1, 1, x - px, py - y)
    ||| quad_marked(r, tm, x, y, 1, -1, px - x, y - py)
    ||| quad_marked(r, tm, x, y, -1, -1, x - px, y - py)
}

// ---------------------------------------------------------------------------
// Executable boundary lines and view sectors.
// ---------------------------------------------------------------------------

/// Bounded product: scaled coordinates and normals stay within `COORD_MAX`,
/// so their products fit comfortably in an `i64`.
proof fn lemma_mul_bound(a: int, b: int, m: int)
    by (nonlinear_arith)
    requires
        0 <= m,
        -m <= a <= m,
        -m <= b <= m,
    ensures
        -m * m <= a * b <= m * m,
{
}

/// A boundary line of a view sector, anchored at a near and a far point,
/// with its precomputed normal and half-plane threshold. Coordinates are
/// scaled by 5.
#[derive(Copy, Clone)]
struct Line {
    near_x: i64,
    near_y: i64,
    far_x: i64,
    far_y: i64,
    normal_x: i64,
    normal_y: i64,
    dot: i64,
}

impl Line {
    spec fn m(self) -> LineModel {
        LineModel {
            nx: self.near_x as int,
            ny: self.near_y as int,
            fx: self.far_x as int,
            fy: self.far_y as int,
        }
    }

    spec fn wf(self) -> bool {
        &&& 0 <= self.near_x <= COORD_MAX
        &&& 0 <= self.near_y <= COORD_MAX
        &&& 0 <= self.far_x <= COORD_MAX
        &&& 0 <= self.far_y <= COORD_MAX
        &&& self.normal_x as int == line_normal_x(self.m())
        &&& self.normal_y as int == line_normal_y(self.m())
        &&& self.dot as int == line_dot(self.m())
    }

    fn new(near_x: i64, near_y: i64, far_x: i64, far_y: i64) -> (l: Line)
        requires
            0 <= near_x <= COORD_MAX,
            0 <= near_y <= COORD_MAX,
            0 <= far_x <= COORD_MAX,
            0 <= far_y <= COORD_MAX,
        ensures
            l.wf(),
            l.m() == (LineModel {
                nx: near_x as int,
                ny: near_y as int,
                fx: far_x as int,
                fy: far_y as int,
            }),
    {
        let normal_x = near_y - far_y;
        let normal_y = far_x - near_x;
        proof {
            lemma_mul_bound(far_x as int, normal_x as int, COORD_MAX as int);
            lemma_mul_bound(far_y as int, normal_y as int, COORD_MAX as int);
        }
        let dot = far_x * normal_x + far_y * normal_y;
        Line { near_x, near_y, far_x, far_y, normal_x, normal_y, dot }
    }

    fn point_above(&self, x: i64, y: i64) -> (r: bool)
        requires
            self.wf(),
            -COORD_MAX <= x <= COORD_MAX,
            -COORD_MAX <= y <= COORD_MAX,
        ensures
            r == point_above(self.m(), x as int, y as int),
    {
        proof {
            lemma_mul_bound(x as int, self.normal_x as int, COORD_MAX as int);
            lemma_mul_bound(y as int, self.normal_y as int, COORD_MAX as int);
        }
        x * self.normal_x + y * self.normal_y < self.dot
    }

    fn point_below(&self, x: i64, y: i64) -> (r: bool)
        requires
            self.wf(),
            -COORD_MAX <= x <= COORD_MAX,
            -COORD_MAX <= y <= COORD_MAX,
        ensures
            r == point_below(self.m(), x as int, y as int),
    {
        proof {
            lemma_mul_bound(x as int, self.normal_x as int, COORD_MAX as int);
            lemma_mul_bound(y as int, self.normal_y as int, COORD_MAX as int);
        }
        x * self.normal_x + y * self.normal_y > self.dot
    }
}

/// The view of a bump list: its points as unbounded integers.
spec fn bumps_m(s: Seq<(i64, i64)>) -> Seq<(int, int)> {
    s.map_values(|p: (i64, i64)| (p.0 as int, p.1 as int))
}

/// All recorded bump points are scaled cell corners, hence within bounds.
spec fn bumps_wf(s: Seq<(i64, i64)>) -> bool {
    forall|i: int|
        0 <= i < s.len() ==> {
            &&& 0 <= (#[trigger] s[i]).0 <= COORD_MAX
            &&& 0 <= s[i].1 <= COORD_MAX
        }
}

/// One live view sector of a quadrant scan.
struct Sector {
    shallow: Line,
    steep: Line,
    steep_bumps: Vec<(i64, i64)>,
    shallow_bumps: Vec<(i64, i64)>,
}

impl Sector {
    spec fn m(self) -> SectorModel {
        SectorModel {
            shallow: self.shallow.m(),
            steep: self.steep.m(),
            steep_bumps: bumps_m(self.steep_bumps@),
            shallow_bumps: bumps_m(self.shallow_bumps@),
        }
    }

    spec fn wf(self) -> bool {
        &&& self.shallow.wf()
        &&& self.steep.wf()
        &&& bumps_wf(self.steep_bumps@)
        &&& bumps_wf(self.shallow_bumps@)
    }

    fn new() -> (v: Sector)
        ensures
            v.wf(),
            v.m() == init_sector(),
    {
        let v = Sector {
            shallow: Line::new(1, 4, FAR_SCALED, 0),
            steep: Line::new(4, 1, 0, FAR_SCALED),
            steep_bumps: Vec::new(),
            shallow_bumps: Vec::new(),
        };
        proof {
            assert(bumps_m(v.steep_bumps@) =~= Seq::<(int, int)>::empty());
            assert(bumps_m(v.shallow_bumps@) =~= Seq::<(int, int)>::empty());
        }
        v
    }

    /// An independently owned copy, for splitting a sector at a wall that
    /// blocks neither of its edges.
    fn duplicate(&self) -> (r: Sector)
        requires
            self.wf(),
        ensures
            r.wf(),
            r.m() == self.m(),
    {
        let mut steep_bumps: Vec<(i64, i64)> = Vec::new();
        let mut i: usize = 0;
        while i < self.steep_bumps.len()
            invariant
                i <= self.steep_bumps@.len(),
                steep_bumps@ == self.steep_bumps@.take(i as int),
            decreases self.steep_bumps@.len() - i,
        {
            steep_bumps.push(self.steep_bumps[i]);
            proof {
                assert(steep_bumps@ =~= self.steep_bumps@.take(i + 1));
            }
            i = i + 1;
        }
        let mut shallow_bumps: Vec<(i64, i64)> = Vec::new();
        let mut j: usize = 0;
        while j < self.shallow_bumps.len()
            invariant
                j <= self.shallow_bumps@.len(),
                shallow_bumps@ == self.shallow_bumps@.take(j as int),
            decreases self.shallow_bumps@.len() - j,
        {
            shallow_bumps.push(self.shallow_bumps[j]);
            proof {
                assert(shallow_bumps@ =~= self.shallow_bumps@.take(j + 1));
            }
            j = j + 1;
        }
        let r = Sector { shallow: self.shallow, steep: self.steep, steep_bumps, shallow_bumps };
        proof {
            assert(r.steep_bumps@ =~= self.steep_bumps@);
            assert(r.shallow_bumps@ =~= self.shallow_bumps@);
        }
        r
    }

    /// Narrows the shallow line to pass through `(x, y)`, records the bump,
    /// and restores the invariant that no prior steep bump lies strictly
    /// above the shallow line.
    fn add_shallow_bump(&mut self, x: i64, y: i64)
        requires
            old(self).wf(),
            0 <= x <= COORD_MAX,
            0 <= y <= COORD_MAX,
        ensures
            final(self).wf(),
            final(self).m() == sector_add_shallow_bump(old(self).m(), x as int, y as int),
    {
        self.shallow = Line::new(self.shallow.near_x, self.shallow.near_y, x, y);
        self.shallow_bumps.push((x, y));
        proof {
            assert(bumps_m(self.shallow_bumps@) =~= bumps_m(old(self).shallow_bumps@).push(
                (x as int, y as int),
            ));
        }
        let ghost all = bumps_m(self.steep_bumps@);
        let ghost target = reanchor_above(self.shallow.m(), all);
        proof {
            assert(all.skip(0) =~= all);
        }
        let mut i: usize = 0;
        while i < self.steep_bumps.len()
            invariant
                old(self).wf(),
                i <= self.steep_bumps@.len(),
                self.steep == old(self).steep,
                self.steep_bumps@ == old(self).steep_bumps@,
                self.shallow_bumps@ == old(self).shallow_bumps@.push((x, y)),
                all == bumps_m(self.steep_bumps@),
                self.shallow.wf(),
                reanchor_above(self.shallow.m(), all.skip(i as int)) == target,
            decreases self.steep_bumps@.len() - i,
        {
            let (bx, by) = self.steep_bumps[i];
            let ghost rest = all.skip(i as int);
            proof {
                assert(rest[0] == (bx as int, by as int));
                assert(rest.drop_first() =~= all.skip(i as int + 1));
            }
            if self.shallow.point_above(bx, by) {
                self.shallow = Line::new(bx, by, self.shallow.far_x, self.shallow.far_y);
            }
            i = i + 1;
        }
    }

    /// Narrows the steep line to pass through `(x, y)`, records the bump,
    /// and restores the invariant that no prior shallow bump lies strictly
    /// below the steep line.
    fn add_steep_bump(&mut self, x: i64, y: i64)
        requires
            old(self).wf(),
            0 <= x <= COORD_MAX,
            0 <= y <= COORD_MAX,
        ensures
            final(self).wf(),
            final(self).m() == sector_add_steep_bump(old(self).m(), x as int, y as int),
    {
        self.steep = Line::new(self.steep.near_x, self.steep.near_y, x, y);
        self.steep_bumps.push((x, y));
        proof {
            assert(bumps_m(self.steep_bumps@) =~= bumps_m(old(self).steep_bumps@).push(
                (x as int, y as int),
            ));
        }
        let ghost all = bumps_m(self.shallow_bumps@);
        let ghost target = reanchor_below(self.steep.m(), all);
        proof {
            assert(all.skip(0) =~= all);
        }
        let mut i: usize = 0;
        while i < self.shallow_bumps.len()
            invariant
                old(self).wf(),
                i <= self.shallow_bumps@.len(),
                self.shallow == old(self).shallow,
                self.shallow_bumps@ == old(self).shallow_bumps@,
                self.steep_bumps@ == old(self).steep_bumps@.push((x, y)),
                all == bumps_m(self.shallow_bumps@),
                self.steep.wf(),
                reanchor_below(self.steep.m(), all.skip(i as int)) == target,
            decreases self.shallow_bumps@.len() - i,
        {
            let (bx, by) = self.shallow_bumps[i];
            let ghost rest = all.skip(i as int);
            proof {
                assert(rest[0] == (bx as int, by as int));
                assert(rest.drop_first() =~= all.skip(i as int + 1));
            }
            if self.steep.point_below(bx, by) {
                self.steep = Line::new(bx, by, self.steep.far_x, self.steep.far_y);
            }
            i = i + 1;
        }
    }
}

/// Row-major grid indexing stays within the grid's cell count, which in
/// turn fits an `i32` for any window side up to `2 * RADIUS_LIMIT + 1`.
proof fn lemma_grid_index(ix: int, iy: int, d: int)
    by (nonlinear_arith)
    requires
        0 <= ix < d,
        0 <= iy < d,
        d <= 46_339,
    ensures
        0 <= iy * d + ix < d * d,
        d * d <= 0x7fff_ffff,
{
}

/// Mirroring a relative coordinate by a sign factor of 1 or -1.
proof fn lemma_mirror_val(c: int, d: int)
    by (nonlinear_arith)
    requires
        d == 1 || d == -1,
    ensures
        c * d == (if d == 1 {
            c
        } else {
            -c
        }),
{
}

/// Undoing the mirroring: if `(p - o) * d == c` for a sign factor `d`, the
/// world coordinate `p` is `o + c * d`.
proof fn lemma_unmirror(p: int, o: int, d: int, c: int)
    by (nonlinear_arith)
    requires
        d == 1 || d == -1,
        (p - o) * d == c,
    ensures
        p == o + c * d,
{
}

/// Mirroring then unmirroring by the same sign factor is the identity.
proof fn lemma_mirror_roundtrip(o: int, c: int, d: int)
    by (nonlinear_arith)
    requires
        d == 1 || d == -1,
    ensures
        ((o + c * d) - o) * d == c,
{
}

/// The view of a sector list: each sector's model, in order.
spec fn sectors_m(s: Seq<Sector>) -> Seq<SectorModel> {
    s.map_values(|v: Sector| v.m())
}

/// The part of one quadrant's marking already decided when the scan stands
/// just before cell `(sx - cy, cy)`: whether `(px, py)` was marked by a cell
/// strictly earlier in shell-then-`cy` order.
spec fn quad_scan_upto(
    r: int,
    tm: TileMap,
    x: int,
    y: int,
    dx: int,
    dy: int,
    sx: int,
    cy: int,
    px: int,
    py: int,
) -> bool {
    let cx2 = (px - x) * dx;
    let cy2 = (py - y) * dy;
    &&& (cx2 + cy2 < sx || (cx2 + cy2 == sx && cy2 < cy))
    &&& quad_marked(r, tm, x, y, dx, dy, cx2, cy2)
}

/// The set of tiles visible from one observer position, over a square
/// window of side `2 * radius + 1` centered there. Recomputed from scratch
/// by every `update`; no visibility memory is kept across updates.
pub struct Viewshed {
    radius: i32,
    diameter: i32,
    data: Vec<bool>,
    offs_x: i32,
    offs_y: i32,
}

impl Viewshed {
    /// The fixed radius.
    pub closed spec fn spec_radius(self) -> int {
        self.radius as int
    }

    /// World x coordinate of the window's left column.
    pub closed spec fn spec_offs_x(self) -> int {
        self.offs_x as int
    }

    /// World y coordinate of the window's top row.
    pub closed spec fn spec_offs_y(self) -> int {
        self.offs_y as int
    }

    /// Whether world cell `(px, py)` lies in the window and is flagged
    /// visible.
    pub closed spec fn sees(self, px: int, py: int) -> bool {
        let ix = px - self.offs_x;
        let iy = py - self.offs_y;
        &&& 0 <= ix < self.diameter
        &&& 0 <= iy < self.diameter
        &&& self.data@[iy * self.diameter + ix]
    }

    /// Internal invariant: the window is square with side `2 * radius + 1`
    /// and its backing store has exactly one flag per cell.
    pub closed spec fn wf(self) -> bool {
        &&& 0 <= self.radius <= RADIUS_LIMIT
        &&& self.diameter == 2 * self.radius + 1
        &&& self.data@.len() == self.diameter * self.diameter
    }

    fn new(radius: i32) -> (s: Self)
        requires
            0 <= radius <= RADIUS_LIMIT,
        ensures
            s.wf(),
            s.spec_radius() == radius,
            s.spec_offs_x() == 0,
            s.spec_offs_y() == 0,
            forall|px: int, py: int| !s.sees(px, py),
    {
        let diameter = radius * 2 + 1;
        proof {
            assert((diameter as int) * (diameter as int) <= 46_339 * 46_339) by (nonlinear_arith)
                requires
                    0 < diameter as int <= 46_339,
            ;
        }
        let total = (diameter as usize) * (diameter as usize);
        let mut data: Vec<bool> = Vec::new();
        while data.len() < total
            invariant
                data@.len() <= total,
                forall|i: int| 0 <= i < data@.len() ==> !data@[i],
            decreases total - data@.len(),
        {
            data.push(false);
        }
        let s = Self { radius, diameter, data, offs_x: 0, offs_y: 0 };
        proof {
            assert forall|px: int, py: int| !s.sees(px, py) by {
                let d = diameter as int;
                let jx = px - s.offs_x;
                let jy = py - s.offs_y;
                if 0 <= jx < d && 0 <= jy < d {
                    lemma_grid_index(jx, jy, d);
                }
            }
        }
        s
    }

    /// Flags one world cell of the window visible and changes nothing else.
    fn set_visible(&mut self, x: i32, y: i32)
        requires
            old(self).wf(),
            old(self).spec_offs_x() <= x < old(self).spec_offs_x() + 2 * old(self).spec_radius()
                + 1,
            old(self).spec_offs_y() <= y < old(self).spec_offs_y() + 2 * old(self).spec_radius()
                + 1,
        ensures
            final(self).wf(),
            final(self).radius == old(self).radius,
            final(self).diameter == old(self).diameter,
            final(self).offs_x == old(self).offs_x,
            final(self).offs_y == old(self).offs_y,
            forall|px: int, py: int|
                #[trigger] final(self).sees(px, py) <==> (old(self).sees(px, py) || (px == x && py
                    == y)),
    {
        let ix = x - self.offs_x;
        let iy = y - self.offs_y;
        proof {
            lemma_grid_index(ix as int, iy as int, self.diameter as int);
        }
        let idx = (iy * self.diameter + ix) as usize;
        self.data[idx] = true;
        proof {
            let d = self.diameter as int;
            assert forall|px: int, py: int|
                #[trigger] self.sees(px, py) <==> (old(self).sees(px, py) || (px == x && py
                    == y)) by {
                let jx = px - self.offs_x;
                let jy = py - self.offs_y;
                if 0 <= jx < d && 0 <= jy < d {
                    lemma_grid_index(jx, jy, d);
                    lemma_grid_index(ix as int, iy as int, d);
                    vstd::arithmetic::div_mod::lemma_fundamental_div_mod_converse(
                        jy * d + jx,
                        d,
                        jy,
                        jx,
                    );
                    vstd::arithmetic::div_mod::lemma_fundamental_div_mod_converse(
                        iy as int * d + ix as int,
                        d,
                        iy as int,
                        ix as int,
                    );
                }
            }
        }
    }

    /// One quadrant of the scan, mirrored by the signs `(dx, dy)`: sweeps
    /// diagonal shells outward from the observer at `(x, y)`, keeping the
    /// ordered list of live sectors in step with the specification model,
    /// and marks exactly the cells the model marks.
    #[verifier::loop_isolation(false)]
    #[verifier::rlimit(100)]
    fn update_quadrant(&mut self, x: i32, y: i32, dx: i32, dy: i32, map: &TileMap)
        requires
            old(self).wf(),
            map.wf(),
            dx == 1 || dx == -1,
            dy == 1 || dy == -1,
            old(self).spec_offs_x() == x - old(self).spec_radius(),
            old(self).spec_offs_y() == y - old(self).spec_radius(),
            i32::MIN + old(self).spec_radius() <= x <= i32::MAX - old(self).spec_radius(),
            i32::MIN + old(self).spec_radius() <= y <= i32::MAX - old(self).spec_radius(),
        ensures
            final(self).wf(),
            final(self).radius == old(self).radius,
            final(self).diameter == old(self).diameter,
            final(self).offs_x == old(self).offs_x,
            final(self).offs_y == old(self).offs_y,
            forall|px: int, py: int|
                #[trigger] final(self).sees(px, py) <==> (old(self).sees(px, py) || quad_marked(
                    old(self).spec_radius(),
                    *map,
                    x as int,
                    y as int,
                    dx as int,
                    dy as int,
                    (px - x as int) * (dx as int),
                    (py - y as int) * (dy as int),
                )),
    {
        let ghost r = old(self).radius as int;
        let ghost tm = *map;
        let ghost xi = x as int;
        let ghost yi = y as int;
        let ghost dxi = dx as int;
        let ghost dyi = dy as int;
        let rad = self.radius;
        let mut views: Vec<Sector> = Vec::new();
        views.push(Sector::new());
        proof {
            assert(sectors_m(views@) =~= seq![init_sector()]);
        }
        let mut sx: i32 = 0;
        while sx <= 2 * rad
            invariant
                self.wf(),
                self.radius == old(self).radius,
                self.diameter == old(self).diameter,
                self.offs_x == old(self).offs_x,
                self.offs_y == old(self).offs_y,
                0 <= sx <= 2 * rad + 1,
                forall|k: int| 0 <= k < views@.len() ==> (#[trigger] views@[k]).wf(),
                sectors_m(views@) == sectors_before(r, tm, xi, yi, dxi, dyi, sx as nat, 0),
                forall|px: int, py: int|
                    #[trigger] self.sees(px, py) <==> (old(self).sees(px, py) || quad_scan_upto(
                        r,
                        tm,
                        xi,
                        yi,
                        dxi,
                        dyi,
                        sx as int,
                        0,
                        px,
                        py,
                    )),
            decreases 2 * rad + 1 - sx,
        {
            let mut cy: i32 = 0;
            while cy <= sx
                invariant
                    self.wf(),
                    self.radius == old(self).radius,
                    self.diameter == old(self).diameter,
                    self.offs_x == old(self).offs_x,
                    self.offs_y == old(self).offs_y,
                    0 <= cy <= sx + 1,
                    forall|k: int| 0 <= k < views@.len() ==> (#[trigger] views@[k]).wf(),
                    sectors_m(views@) == sectors_before(r, tm, xi, yi, dxi, dyi, sx as nat, cy as nat),
                    forall|px: int, py: int|
                        #[trigger] self.sees(px, py) <==> (old(self).sees(px, py)
                            || quad_scan_upto(
                            r,
                            tm,
                            xi,
                            yi,
                            dxi,
                            dyi,
                            sx as int,
                            cy as int,
                            px,
                            py,
                        )),
                decreases sx + 1 - cy,
            {
                let cx = sx - cy;
                let ghost cxi = cx as int;
                let ghost cyi = cy as int;
                let scanned = if cx <= rad && cy <= rad {
                    proof {
                        lemma_mul_bound(cx as int, cx as int, 46_338);
                        lemma_mul_bound(cy as int, cy as int, 46_338);
                        lemma_mul_bound(rad as int, rad as int, 46_338);
                    }
                    let d2 = (cx as i64) * (cx as i64) + (cy as i64) * (cy as i64);
                    d2 <= (rad as i64) * (rad as i64) + (rad as i64)
                } else {
                    false
                };
                proof {
                    assert(scanned == cell_scanned(r, cxi, cyi));
                }
                if scanned {
                    proof {
                        lemma_mirror_val(cxi, dxi);
                        lemma_mirror_val(cyi, dyi);
                    }
                    let tx = if dx == 1 {
                        x + cx
                    } else {
                        x - cx
                    };
                    let ty = if dy == 1 {
                        y + cy
                    } else {
                        y - cy
                    };
                    proof {
                        assert(tx as int == xi + cxi * dxi);
                        assert(ty as int == yi + cyi * dyi);
                    }
                    let blocks = map.get_tile(tx, ty).blocks_vision();
                    proof {
                        assert(blocks == cell_blocks(tm, xi, yi, dxi, dyi, cxi, cyi));
                    }
                    let ghost entry = sectors_m(views@);
                    let ghost stepped = sectors_step(entry, cxi, cyi, blocks);
                    let ghost marks_target = sectors_mark(entry, cxi, cyi, blocks);
                    let mut next: Vec<Sector> = Vec::new();
                    let mut marked = false;
                    proof {
                        assert(sectors_m(next@) =~= Seq::<SectorModel>::empty());
                        assert(sectors_m(next@) + sectors_step(sectors_m(views@), cxi, cyi, blocks)
                            =~= stepped);
                    }
                    while views.len() > 0
                        invariant
                            forall|k: int| 0 <= k < views@.len() ==> (#[trigger] views@[k]).wf(),
                            forall|k: int| 0 <= k < next@.len() ==> (#[trigger] next@[k]).wf(),
                            sectors_m(next@) + sectors_step(sectors_m(views@), cxi, cyi, blocks)
                                == stepped,
                            (marked || sectors_mark(sectors_m(views@), cxi, cyi, blocks))
                                == marks_target,
                        decreases views@.len(),
                    {
                        let ghost vm_all = sectors_m(views@);
                        let ghost nm = sectors_m(next@);
                        let v = views.remove(0);
                        proof {
                            assert(v.m() == vm_all[0]);
                            assert(sectors_m(views@) =~= vm_all.drop_first());
                        }
                        let x1 = CELL_SCALED * (cx as i64);
                        let y1 = CELL_SCALED * (cy as i64);
                        let x2 = x1 + CELL_SCALED;
                        let y2 = y1 + CELL_SCALED;
                        if v.steep.point_below(x2, y1) || v.shallow.point_above(x1, y2) {
                            proof {
                                assert(sector_skips(v.m(), cxi, cyi));
                                assert(!sector_marks(v.m(), cxi, cyi, blocks));
                                assert(sector_step(v.m(), cxi, cyi, blocks) =~= seq![v.m()]);
                            }
                            next.push(v);
                            proof {
                                assert(sectors_m(next@) =~= nm.push(vm_all[0]));
                                assert(sectors_m(next@) + sectors_step(
                                    sectors_m(views@),
                                    cxi,
                                    cyi,
                                    blocks,
                                ) =~= stepped);
                            }
                        } else if !blocks {
                            proof {
                                assert(!sector_skips(v.m(), cxi, cyi));
                                assert(sector_step(v.m(), cxi, cyi, blocks) =~= seq![v.m()]);
                            }
                            let visible_enough = !v.steep.point_below(
                                x1 + PERM_SCALED,
                                y2 - PERM_SCALED,
                            ) && !v.shallow.point_above(x2 - PERM_SCALED, y1 + PERM_SCALED);
                            proof {
                                assert(sector_marks(v.m(), cxi, cyi, blocks) == visible_enough);
                            }
                            if visible_enough {
                                marked = true;
                            }
                            next.push(v);
                            proof {
                                assert(sectors_m(next@) =~= nm.push(vm_all[0]));
                                assert(sectors_m(next@) + sectors_step(
                                    sectors_m(views@),
                                    cxi,
                                    cyi,
                                    blocks,
                                ) =~= stepped);
                            }
                        } else {
                            proof {
                                assert(!sector_skips(v.m(), cxi, cyi));
                                assert(sector_marks(v.m(), cxi, cyi, blocks));
                            }
                            marked = true;
                            let bl_below_steep = v.steep.point_below(x1, y2);
                            let tr_above_shallow = v.shallow.point_above(x2, y1);
                            if bl_below_steep && tr_above_shallow {
                                // The wall swallows the whole sector: it dies.
                                proof {
                                    assert(sector_step(v.m(), cxi, cyi, blocks)
                                        =~= Seq::<SectorModel>::empty());
                                    assert(sectors_m(next@) + sectors_step(
                                        sectors_m(views@),
                                        cxi,
                                        cyi,
                                        blocks,
                                    ) =~= stepped);
                                }
                            } else if bl_below_steep {
                                let mut v1 = v;
                                v1.add_steep_bump(x2, y1);
                                proof {
                                    assert(sector_step(vm_all[0], cxi, cyi, blocks)
                                        =~= seq![v1.m()]);
                                }
                                next.push(v1);
                                proof {
                                    assert(sectors_m(next@) =~= nm.push(
                                        sector_add_steep_bump(vm_all[0], 5 * (cxi + 1), 5 * cyi),
                                    ));
                                    assert(sectors_m(next@) + sectors_step(
                                        sectors_m(views@),
                                        cxi,
                                        cyi,
                                        blocks,
                                    ) =~= stepped);
                                }
                            } else if tr_above_shallow {
                                let mut v1 = v;
                                v1.add_shallow_bump(x1, y2);
                                proof {
                                    assert(sector_step(vm_all[0], cxi, cyi, blocks)
                                        =~= seq![v1.m()]);
                                }
                                next.push(v1);
                                proof {
                                    assert(sectors_m(next@) + sectors_step(
                                        sectors_m(views@),
                                        cxi,
                                        cyi,
                                        blocks,
                                    ) =~= stepped);
                                }
                            } else {
                                // The wall sits fully inside the sector:
                                // split it around the obstruction.
                                let mut v2 = v.duplicate();
                                let mut v1 = v;
                                v1.add_steep_bump(x2, y1);
                                v2.add_shallow_bump(x1, y2);
                                proof {
                                    assert(sector_step(vm_all[0], cxi, cyi, blocks)
                                        =~= seq![v1.m(), v2.m()]);
                                }
                                next.push(v1);
                                next.push(v2);
                                proof {
                                    assert(sectors_m(next@) =~= nm.push(v1.m()).push(v2.m()));
                                    assert(sectors_m(next@) + sectors_step(
                                        sectors_m(views@),
                                        cxi,
                                        cyi,
                                        blocks,
                                    ) =~= stepped);
                                }
                            }
                        }
                    }
                    proof {
                        assert(sectors_m(views@) =~= Seq::<SectorModel>::empty());
                        assert(sectors_m(next@) =~= stepped);
                        assert(marked == marks_target);
                    }
                    views = next;
                    if marked {
                        self.set_visible(tx, ty);
                    }
                    proof {
                        assert(sectors_m(views@) == sectors_after(
                            r,
                            tm,
                            xi,
                            yi,
                            dxi,
                            dyi,
                            sx as nat,
                            cy as nat,
                        ));
                        assert forall|px: int, py: int|
                            #[trigger] self.sees(px, py) <==> (old(self).sees(px, py)
                                || quad_scan_upto(
                                r,
                                tm,
                                xi,
                                yi,
                                dxi,
                                dyi,
                                sx as int,
                                cyi + 1,
                                px,
                                py,
                            )) by {
                            let cx2 = (px - xi) * dxi;
                            let cy2 = (py - yi) * dyi;
                            if cx2 == cxi && cy2 == cyi {
                                lemma_unmirror(px, xi, dxi, cxi);
                                lemma_unmirror(py, yi, dyi, cyi);
                                assert(px == tx as int && py == ty as int);
                                assert(quad_marked(r, tm, xi, yi, dxi, dyi, cx2, cy2) == marked);
                            }
                            if px == tx as int && py == ty as int {
                                lemma_mirror_roundtrip(xi, cxi, dxi);
                                lemma_mirror_roundtrip(yi, cyi, dyi);
                                assert(cx2 == cxi && cy2 == cyi);
                            }
                        }
                    }
                } else {
                    proof {
                        assert(sectors_m(views@) == sectors_after(
                            r,
                            tm,
                            xi,
                            yi,
                            dxi,
                            dyi,
                            sx as nat,
                            cy as nat,
                        ));
                        assert forall|px: int, py: int|
                            #[trigger] self.sees(px, py) <==> (old(self).sees(px, py)
                                || quad_scan_upto(
                                r,
                                tm,
                                xi,
                                yi,
                                dxi,
                                dyi,
                                sx as int,
                                cyi + 1,
                                px,
                                py,
                            )) by {
                            let cx2 = (px - xi) * dxi;
                            let cy2 = (py - yi) * dyi;
                            if cx2 == cxi && cy2 == cyi {
                                assert(!quad_marked(r, tm, xi, yi, dxi, dyi, cx2, cy2));
                            }
                        }
                    }
                }
                cy = cy + 1;
            }
            proof {
                assert(sectors_m(views@) == sectors_before(
                    r,
                    tm,
                    xi,
                    yi,
                    dxi,
                    dyi,
                    (sx + 1) as nat,
                    0,
                ));
                assert forall|px: int, py: int|
                    #[trigger] self.sees(px, py) <==> (old(self).sees(px, py) || quad_scan_upto(
                        r,
                        tm,
                        xi,
                        yi,
                        dxi,
                        dyi,
                        sx as int + 1,
                        0,
                        px,
                        py,
                    )) by {}
            }
            sx = sx + 1;
        }
        proof {
            assert forall|px: int, py: int|
                #[trigger] self.sees(px, py) <==> (old(self).sees(px, py) || quad_marked(
                    r,
                    tm,
                    xi,
                    yi,
                    dxi,
                    dyi,
                    (px - xi) * dxi,
                    (py - yi) * dyi,
                )) by {}
        }
    }

    /// Recomputes the whole window for observer position `(x, y)`: every
    /// flag is discarded, the window is recentered, the observer's own cell
    /// is marked, and the four mirrored quadrant scans fill in the rest.
    pub fn update(&mut self, x: i32, y: i32, map: &TileMap)
        requires
            old(self).wf(),
            map.wf(),
            i32::MIN + old(self).spec_radius() <= x <= i32::MAX - old(self).spec_radius(),
            i32::MIN + old(self).spec_radius() <= y <= i32::MAX - old(self).spec_radius(),
        ensures
            final(self).wf(),
            final(self).spec_radius() == old(self).spec_radius(),
            final(self).spec_offs_x() == x - old(self).spec_radius(),
            final(self).spec_offs_y() == y - old(self).spec_radius(),
            forall|px: int, py: int|
                #[trigger] final(self).sees(px, py) <==> spec_visible(
                    old(self).spec_radius(),
                    *map,
                    x as int,
                    y as int,
                    px,
                    py,
                ),
    {
        self.offs_x = x - self.radius;
        self.offs_y = y - self.radius;
        let diameter = self.diameter;
        proof {
            assert((diameter as int) * (diameter as int) <= 46_339 * 46_339) by (nonlinear_arith)
                requires
                    0 < diameter as int <= 46_339,
            ;
        }
        let total = (diameter as usize) * (diameter as usize);
        let mut data: Vec<bool> = Vec::new();
        while data.len() < total
            invariant
                data@.len() <= total,
                forall|i: int| 0 <= i < data@.len() ==> !data@[i],
            decreases total - data@.len(),
        {
            data.push(false);
        }
        self.data = data;
        proof {
            assert forall|px: int, py: int| !self.sees(px, py) by {
                let d = self.diameter as int;
                let jx = px - self.offs_x;
                let jy = py - self.offs_y;
                if 0 <= jx < d && 0 <= jy < d {
                    lemma_grid_index(jx, jy, d);
                }
            }
        }
        self.set_visible(x, y);
        self.update_quadrant(x, y, 1, 1, map);
        self.update_quadrant(x, y, -1, 1, map);
        self.update_quadrant(x, y, 1, -1, map);
        self.update_quadrant(x, y, -1, -1, map);
    }

    /// A fresh viewshed for radius `radius`, immediately updated for
    /// observer position `(x, y)` over `map`.
    pub fn new_at(radius: i32, x: i32, y: i32, map: &TileMap) -> (s: Self)
        requires
            map.wf(),
            0 <= radius <= RADIUS_LIMIT,
            i32::MIN + radius <= x <= i32::MAX - radius,
            i32::MIN + radius <= y <= i32::MAX - radius,
        ensures
            s.wf(),
            s.spec_radius() == radius,
            s.spec_offs_x() == x - radius,
            s.spec_offs_y() == y - radius,
            forall|px: int, py: int|
                #[trigger] s.sees(px, py) <==> spec_visible(
                    radius as int,
                    *map,
                    x as int,
                    y as int,
                    px,
                    py,
                ),
    {
        let mut result = Self::new(radius);
        result.update(x, y, map);
        result
    }

    /// Total query: true iff `(x, y)` fell inside the window of the last
    /// update and was computed visible; false anywhere outside the window.
    pub fn contains(&self, x: i32, y: i32) -> (r: bool)
        requires
            self.wf(),
        ensures
            r == self.sees(x as int, y as int),
    {
        let ix = (x as i64) - (self.offs_x as i64);
        let iy = (y as i64) - (self.offs_y as i64);
        let d = self.diameter as i64;
        if ix < 0 || iy < 0 || ix >= d || iy >= d {
            return false;
        }
        proof {
            lemma_grid_index(ix as int, iy as int, d as int);
        }
        self.data[(iy * d + ix) as usize]
    }
}

/// The initial sector's cone admits every cell of the quadrant: no corner
/// test of the permissive marking ever fails against the unbumped shallow
/// and steep lines.
proof fn lemma_init_sector_marks(cx: int, cy: int, blocks: bool)
    requires
        0 <= cx,
        0 <= cy,
    ensures
        sector_marks(init_sector(), cx, cy, blocks),
{
    let sh = init_sector().shallow;
    let st = init_sector().steep;
    assert(line_normal_x(sh) == 4 && line_normal_y(sh) == 49_999 && line_dot(sh) == 200_000);
    assert(line_normal_x(st) == -49_999 && line_normal_y(st) == -4 && line_dot(st) == -200_000);
    assert(!point_below(st, 5 * (cx + 1), 5 * cy)) by (nonlinear_arith)
        requires
            0 <= cx,
            0 <= cy,
            line_normal_x(st) == -49_999,
            line_normal_y(st) == -4,
            line_dot(st) == -200_000,
    ;
    assert(!point_above(sh, 5 * cx, 5 * (cy + 1))) by (nonlinear_arith)
        requires
            0 <= cx,
            0 <= cy,
            line_normal_x(sh) == 4,
            line_normal_y(sh) == 49_999,
            line_dot(sh) == 200_000,
    ;
    assert(!point_below(st, 5 * cx + 4, 5 * (cy + 1) - 4)) by (nonlinear_arith)
        requires
            0 <= cx,
            0 <= cy,
            line_normal_x(st) == -49_999,
            line_normal_y(st) == -4,
            line_dot(st) == -200_000,
    ;
    assert(!point_above(sh, 5 * (cx + 1) - 4, 5 * cy + 4)) by (nonlinear_arith)
        requires
            0 <= cx,
            0 <= cy,
            line_normal_x(sh) == 4,
            line_normal_y(sh) == 49_999,
            line_dot(sh) == 200_000,
    ;
}

/// Over a window with nothing that blocks vision, a quadrant scan never
/// narrows, splits or kills its one initial sector.
proof fn lemma_sectors_stay_init(
    r: int,
    tm: TileMap,
    x: int,
    y: int,
    dx: int,
    dy: int,
    sx: nat,
    cy: nat,
)
    requires
        0 <= r,
        dx == 1 || dx == -1,
        dy == 1 || dy == -1,
        forall|wx: int, wy: int|
            x - r <= wx <= x + r && y - r <= wy <= y + r ==> !(#[trigger] tm.spec_tile(
                wx,
                wy,
            )).spec_blocks_vision(),
    ensures
        sectors_before(r, tm, x, y, dx, dy, sx, cy) == seq![init_sector()],
        sectors_after(r, tm, x, y, dx, dy, sx, cy) == seq![init_sector()],
    decreases sx, cy,
{
    if cy > 0 {
        lemma_sectors_stay_init(r, tm, x, y, dx, dy, sx, (cy - 1) as nat);
    } else if sx > 0 {
        lemma_sectors_stay_init(r, tm, x, y, dx, dy, (sx - 1) as nat, (sx - 1) as nat);
    }
    let prev = sectors_before(r, tm, x, y, dx, dy, sx, cy);
    assert(prev == seq![init_sector()]);
    let cx = sx - cy;
    if cx >= 0 && cell_scanned(r, cx, cy as int) {
        // The scanned cell lies inside the window, so it does not block.
        let wx = x + cx * dx;
        let wy = y + (cy as int) * dy;
        lemma_mirror_val(cx, dx);
        lemma_mirror_val(cy as int, dy);
        assert(cx * cx + (cy as int) * (cy as int) <= r * r + r);
        assert(cx <= r && cy as int <= r);
        assert(x - r <= wx <= x + r && y - r <= wy <= y + r);
        assert(!cell_blocks(tm, x, y, dx, dy, cx, cy as int));
        let blocks = cell_blocks(tm, x, y, dx, dy, cx, cy as int);
        assert(sector_step(init_sector(), cx, cy as int, blocks) == seq![init_sector()]);
        assert(sectors_step(prev, cx, cy as int, blocks) == sector_step(
            prev[0],
            cx,
            cy as int,
            blocks,
        ) + sectors_step(prev.drop_first(), cx, cy as int, blocks));
        assert(prev.drop_first() =~= Seq::<SectorModel>::empty());
        assert(sectors_step(prev, cx, cy as int, blocks) =~= seq![init_sector()]);
    }
}

/// Without obstruction there are no false negatives: over a window in which
/// nothing blocks vision, every cell whose Euclidean distance from the
/// observer rounds to at most the radius is visible.
pub proof fn lemma_no_false_negatives(r: int, tm: TileMap, x: int, y: int, px: int, py: int)
    requires
        0 <= r,
        forall|wx: int, wy: int|
            x - r <= wx <= x + r && y - r <= wy <= y + r ==> !(#[trigger] tm.spec_tile(
                wx,
                wy,
            )).spec_blocks_vision(),
        (px - x) * (px - x) + (py - y) * (py - y) <= r * r + r,
    ensures
        spec_visible(r, tm, x, y, px, py),
{
    if px == x && py == y {
        return ;
    }
    let dx: int = if px >= x {
        1
    } else {
        -1
    };
    let dy: int = if py >= y {
        1
    } else {
        -1
    };
    let cx = (px - x) * dx;
    let cy = (py - y) * dy;
    assert(0 <= cx && 0 <= cy && cx * cx + cy * cy <= r * r + r) by (nonlinear_arith)
        requires
            dx == if px >= x { 1int } else { -1int },
            dy == if py >= y { 1int } else { -1int },
            cx == (px - x) * dx,
            cy == (py - y) * dy,
            (px - x) * (px - x) + (py - y) * (py - y) <= r * r + r,
    ;
    assert(cx <= r && cy <= r) by (nonlinear_arith)
        requires
            0 <= cx,
            0 <= cy,
            0 <= r,
            cx * cx + cy * cy <= r * r + r,
    ;
    assert(cell_scanned(r, cx, cy));
    lemma_sectors_stay_init(r, tm, x, y, dx, dy, (cx + cy) as nat, cy as nat);
    lemma_init_sector_marks(cx, cy, cell_blocks(tm, x, y, dx, dy, cx, cy));
    assert(sectors_mark(
        sectors_before(r, tm, x, y, dx, dy, (cx + cy) as nat, cy as nat),
        cx,
        cy,
        cell_blocks(tm, x, y, dx, dy, cx, cy),
    ));
    assert(quad_marked(r, tm, x, y, dx, dy, cx, cy));
    lemma_mirror_val(px - x, dx);
    lemma_mirror_val(py - y, dy);
    if dx == 1 && dy == 1 {
        assert(quad_marked(r, tm, x, y, 1, 1, px - x, py - y));
    } else if dx == -1 && dy == 1 {
        assert(quad_marked(r, tm, x, y, -1, 1, x - px, py - y));
    } else if dx == 1 && dy == -1 {
        assert(quad_marked(r, tm, x, y, 1, -1, px - x, y - py));
    } else {
        assert(quad_marked(r, tm, x, y, -1, -1, x - px, y - py));
    }
}

/// No false positives beyond the radius: a cell whose Euclidean distance
/// from the observer rounds to more than the radius is never visible,
/// whatever the map holds.
pub proof fn lemma_nothing_beyond_radius(r: int, tm: TileMap, x: int, y: int, px: int, py: int)
    requires
        (px - x) * (px - x) + (py - y) * (py - y) > r * r + r,
    ensures
        !spec_visible(r, tm, x, y, px, py),
{
    assert(!(px == x && py == y)) by (nonlinear_arith)
        requires
            (px - x) * (px - x) + (py - y) * (py - y) > r * r + r,
    ;
    lemma_quad_respects_radius(r, tm, x, y, px, py, 1, 1);
    lemma_quad_respects_radius(r, tm, x, y, px, py, -1, 1);
    lemma_quad_respects_radius(r, tm, x, y, px, py, 1, -1);
    lemma_quad_respects_radius(r, tm, x, y, px, py, -1, -1);
    assert((px - x) * -1 == x - px);
    assert((py - y) * -1 == y - py);
    assert((px - x) * 1 == px - x);
    assert((py - y) * 1 == py - y);
}

/// One quadrant of `lemma_nothing_beyond_radius`: the scan's distance test
/// is the mirrored cell's distance, which exceeds the radius.
proof fn lemma_quad_respects_radius(
    r: int,
    tm: TileMap,
    x: int,
    y: int,
    px: int,
    py: int,
    dx: int,
    dy: int,
)
    requires
        dx == 1 || dx == -1,
        dy == 1 || dy == -1,
        (px - x) * (px - x) + (py - y) * (py - y) > r * r + r,
    ensures
        !quad_marked(r, tm, x, y, dx, dy, (px - x) * dx, (py - y) * dy),
{
    let cx = (px - x) * dx;
    let cy = (py - y) * dy;
    assert(cx * cx + cy * cy == (px - x) * (px - x) + (py - y) * (py - y)) by (nonlinear_arith)
        requires
            dx == 1 || dx == -1,
            dy == 1 || dy == -1,
            cx == (px - x) * dx,
            cy == (py - y) * dy,
    ;
}

/// One direction of occlusion, proved outright: a vision-blocking tile
/// immediately to the observer's right hides the tile directly behind it,
/// whatever else the map holds and whatever the radius.
pub proof fn lemma_wall_hides_cell_behind(r: int, tm: TileMap, x: int, y: int)
    requires
        tm.spec_tile(x + 1, y).spec_blocks_vision(),
    ensures
        !spec_visible(r, tm, x, y, x + 2, y),
{
    // The two mirrored quadrants that could reach the cell both run the
    // same three steps before reaching it; walking them shows its near
    // corner ends up strictly above the narrowed shallow line.
    assert forall|dy: int| dy == 1 || dy == -1 implies !quad_marked(
        r,
        tm,
        x,
        y,
        1,
        dy,
        2,
        0,
    ) by {
        if cell_scanned(r, 2, 0) {
            lemma_quadrant_stops_behind_wall(r, tm, x, y, dy);
        }
    }
    assert(!quad_marked(r, tm, x, y, 1, 1, (x + 2) - x, y - y));
    assert(!quad_marked(r, tm, x, y, 1, -1, (x + 2) - x, (y - y) * -1));
    assert(!quad_marked(r, tm, x, y, -1, 1, ((x + 2) - x) * -1, y - y));
    assert(!quad_marked(r, tm, x, y, -1, -1, ((x + 2) - x) * -1, (y - y) * -1));
}

/// Stepping a one-sector list is stepping that sector.
proof fn lemma_step_singleton(v: SectorModel, cx: int, cy: int, blocks: bool)
    ensures
        sectors_step(seq![v], cx, cy, blocks) == sector_step(v, cx, cy, blocks),
        sectors_mark(seq![v], cx, cy, blocks) == sector_marks(v, cx, cy, blocks),
{
    assert(seq![v].drop_first() =~= Seq::<SectorModel>::empty());
    assert(sectors_step(Seq::<SectorModel>::empty(), cx, cy, blocks)
        =~= Seq::<SectorModel>::empty());
    assert(!sectors_mark(Seq::<SectorModel>::empty(), cx, cy, blocks));
    assert(sectors_step(seq![v], cx, cy, blocks) =~= sector_step(v, cx, cy, blocks) + Seq::<
        SectorModel,
    >::empty());
    assert(sector_step(v, cx, cy, blocks) + Seq::<SectorModel>::empty() =~= sector_step(
        v,
        cx,
        cy,
        blocks,
    ));
}

/// The quadrant walk behind `lemma_wall_hides_cell_behind`: after the wall
/// at relative cell `(1, 0)` is processed, no surviving sector admits the
/// relative cell `(2, 0)`.
proof fn lemma_quadrant_stops_behind_wall(r: int, tm: TileMap, x: int, y: int, dy: int)
    requires
        2 <= r,
        dy == 1 || dy == -1,
        tm.spec_tile(x + 1, y).spec_blocks_vision(),
    ensures
        !sectors_mark(
            sectors_before(r, tm, x, y, 1, dy, 2, 0),
            2,
            0,
            cell_blocks(tm, x, y, 1, dy, 2, 0),
        ),
{
    let v0 = init_sector();
    // Shell 0, cell (0, 0): the observer's own tile. If it blocks, the
    // sector dies outright; otherwise it passes through unchanged.
    assert(sectors_before(r, tm, x, y, 1, dy, 0, 0) == seq![v0]);
    assert(cell_scanned(r, 0, 0));
    let blocks00 = cell_blocks(tm, x, y, 1, dy, 0, 0);
    let after00 = sectors_after(r, tm, x, y, 1, dy, 0, 0);
    assert(line_normal_x(v0.shallow) == 4 && line_normal_y(v0.shallow) == 49_999 && line_dot(
        v0.shallow,
    ) == 200_000);
    assert(line_normal_x(v0.steep) == -49_999 && line_normal_y(v0.steep) == -4 && line_dot(
        v0.steep,
    ) == -200_000);
    assert(!sector_skips(v0, 0, 0));
    lemma_step_singleton(v0, 0, 0, blocks00);
    if blocks00 {
        assert(point_below(v0.steep, 0, 5));
        assert(point_above(v0.shallow, 5, 0));
        assert(sector_step(v0, 0, 0, true) =~= Seq::<SectorModel>::empty());
        assert(after00 =~= Seq::<SectorModel>::empty());
        lemma_empty_sectors_stay_empty(r, tm, x, y, dy);
    } else {
        assert(sector_step(v0, 0, 0, false) =~= seq![v0]);
        assert(after00 =~= seq![v0]);
        // Shell 1, cell (1, 0): the wall. Its far corner is inside the
        // cone, its near corner above the shallow line: the shallow line is
        // re-anchored onto the wall's far corner.
        assert(sectors_before(r, tm, x, y, 1, dy, 1, 0) == seq![v0]);
        assert(cell_scanned(r, 1, 0));
        assert(cell_blocks(tm, x, y, 1, dy, 1, 0) == tm.spec_tile(x + 1, y).spec_blocks_vision());
        assert(!sector_skips(v0, 1, 0));
        assert(!point_below(v0.steep, 5, 10));
        assert(point_above(v0.shallow, 10, 0));
        let v1 = sector_add_shallow_bump(v0, 5, 5);
        lemma_step_singleton(v0, 1, 0, true);
        assert(sector_step(v0, 1, 0, true) =~= seq![v1]);
        assert(v1.shallow == (LineModel { nx: 1, ny: 4, fx: 5, fy: 5 }));
        assert(line_normal_x(v1.shallow) == -1 && line_normal_y(v1.shallow) == 4 && line_dot(
            v1.shallow,
        ) == 15);
        let after10 = sectors_after(r, tm, x, y, 1, dy, 1, 0);
        assert(after10 =~= seq![v1]);
        // Shell 1, cell (0, 1): whatever stands there, the sector either
        // passes unchanged or is narrowed on the steep side only; its
        // shallow line never moves.
        assert(sectors_before(r, tm, x, y, 1, dy, 1, 1) == seq![v1]);
        assert(cell_scanned(r, 0, 1));
        let blocks01 = cell_blocks(tm, x, y, 1, dy, 0, 1);
        let after11 = sectors_after(r, tm, x, y, 1, dy, 1, 1);
        let before20 = sectors_before(r, tm, x, y, 1, dy, 2, 0);
        assert(before20 == after11);
        lemma_step_singleton(v1, 0, 1, blocks01);
        let blocks20 = cell_blocks(tm, x, y, 1, dy, 2, 0);
        if blocks01 {
            assert(!sector_skips(v1, 0, 1));
            assert(point_below(v1.steep, 0, 10));
            assert(!point_above(v1.shallow, 5, 5));
            let v2 = sector_add_steep_bump(v1, 5, 5);
            assert(v1.shallow_bumps =~= seq![(5int, 5int)]);
            assert(seq![(5int, 5int)].drop_first() =~= Seq::<(int, int)>::empty());
            assert(!point_below(LineModel { nx: 4, ny: 1, fx: 5, fy: 5 }, 5, 5));
            assert(v1.shallow_bumps.drop_first() =~= Seq::<(int, int)>::empty());
            assert(reanchor_below(
                LineModel { nx: 4, ny: 1, fx: 5, fy: 5 },
                Seq::<(int, int)>::empty(),
            ) == (LineModel { nx: 4, ny: 1, fx: 5, fy: 5 }));
            assert(v2.steep == (LineModel { nx: 4, ny: 1, fx: 5, fy: 5 }));
            assert(v2.shallow == v1.shallow);
            assert(sector_step(v1, 0, 1, true) =~= seq![v2]);
            assert(after11 =~= seq![v2]);
            // The target cell (2, 0): its near corner lies strictly above
            // the narrowed shallow line, so the sector skips it.
            assert(point_above(v2.shallow, 10, 5));
            assert(sector_skips(v2, 2, 0));
            assert(!sector_marks(v2, 2, 0, blocks20));
            lemma_step_singleton(v2, 2, 0, blocks20);
            assert(!sectors_mark(before20, 2, 0, blocks20));
        } else {
            assert(sector_step(v1, 0, 1, false) =~= seq![v1]);
            assert(after11 =~= seq![v1]);
            // The target cell (2, 0): its near corner lies strictly above
            // the narrowed shallow line, so the sector skips it.
            assert(point_above(v1.shallow, 10, 5));
            assert(sector_skips(v1, 2, 0));
            assert(!sector_marks(v1, 2, 0, blocks20));
            lemma_step_singleton(v1, 2, 0, blocks20);
            assert(!sectors_mark(before20, 2, 0, blocks20));
        }
    }
}

/// The matching direction of admission, proved outright: when the observer's
/// own tile and the tile immediately to its right are clear, the tile behind
/// that gap — aligned with the sightline through it — is visible, whatever
/// stands above or below the gap.
pub proof fn lemma_gap_admits_sightline(r: int, tm: TileMap, x: int, y: int)
    requires
        2 <= r,
        !tm.spec_tile(x, y).spec_blocks_vision(),
        !tm.spec_tile(x + 1, y).spec_blocks_vision(),
    ensures
        spec_visible(r, tm, x, y, x + 2, y),
{
    let v0 = init_sector();
    assert(line_normal_x(v0.shallow) == 4 && line_normal_y(v0.shallow) == 49_999 && line_dot(
        v0.shallow,
    ) == 200_000);
    assert(line_normal_x(v0.steep) == -49_999 && line_normal_y(v0.steep) == -4 && line_dot(
        v0.steep,
    ) == -200_000);
    // Shell 0, cell (0, 0) and shell 1, cell (1, 0): both clear, so the
    // initial sector passes through unchanged.
    assert(sectors_before(r, tm, x, y, 1, 1, 0, 0) == seq![v0]);
    assert(cell_scanned(r, 0, 0));
    assert(!cell_blocks(tm, x, y, 1, 1, 0, 0));
    lemma_step_singleton(v0, 0, 0, false);
    assert(sector_step(v0, 0, 0, false) =~= seq![v0]);
    assert(sectors_after(r, tm, x, y, 1, 1, 0, 0) =~= seq![v0]);
    assert(sectors_before(r, tm, x, y, 1, 1, 1, 0) == seq![v0]);
    assert(cell_scanned(r, 1, 0));
    assert(!cell_blocks(tm, x, y, 1, 1, 1, 0));
    lemma_step_singleton(v0, 1, 0, false);
    assert(sector_step(v0, 1, 0, false) =~= seq![v0]);
    assert(sectors_after(r, tm, x, y, 1, 1, 1, 0) =~= seq![v0]);
    // Shell 1, cell (0, 1): a wall there only narrows the steep side; the
    // shallow side of the cone stays put either way.
    assert(sectors_before(r, tm, x, y, 1, 1, 1, 1) == seq![v0]);
    assert(cell_scanned(r, 0, 1));
    let blocks01 = cell_blocks(tm, x, y, 1, 1, 0, 1);
    let after11 = sectors_after(r, tm, x, y, 1, 1, 1, 1);
    let before20 = sectors_before(r, tm, x, y, 1, 1, 2, 0);
    assert(before20 == after11);
    lemma_step_singleton(v0, 0, 1, blocks01);
    assert(cell_scanned(r, 2, 0)) by (nonlinear_arith)
        requires
            2 <= r,
    ;
    let blocks20 = cell_blocks(tm, x, y, 1, 1, 2, 0);
    if blocks01 {
        assert(!sector_skips(v0, 0, 1));
        assert(point_below(v0.steep, 0, 10));
        assert(!point_above(v0.shallow, 5, 5));
        let v2 = sector_add_steep_bump(v0, 5, 5);
        assert(v0.shallow_bumps =~= Seq::<(int, int)>::empty());
        assert(v2.steep == (LineModel { nx: 4, ny: 1, fx: 5, fy: 5 }));
        assert(v2.shallow == v0.shallow);
        assert(line_normal_x(v2.steep) == -4 && line_normal_y(v2.steep) == 1 && line_dot(v2.steep)
            == -15);
        assert(sector_step(v0, 0, 1, true) =~= seq![v2]);
        assert(after11 =~= seq![v2]);
        // The narrowed sector still admits cell (2, 0) and every corner of
        // its permissive test.
        assert(!point_below(v2.steep, 15, 0));
        assert(!point_above(v2.shallow, 10, 5));
        assert(!sector_skips(v2, 2, 0));
        assert(!point_below(v2.steep, 14, 1));
        assert(!point_above(v2.shallow, 11, 4));
        assert(sector_marks(v2, 2, 0, blocks20));
        lemma_step_singleton(v2, 2, 0, blocks20);
        assert(sectors_mark(before20, 2, 0, blocks20));
    } else {
        assert(sector_step(v0, 0, 1, false) =~= seq![v0]);
        assert(after11 =~= seq![v0]);
        lemma_init_sector_marks(2, 0, blocks20);
        lemma_step_singleton(v0, 2, 0, blocks20);
        assert(sectors_mark(before20, 2, 0, blocks20));
    }
    assert(quad_marked(r, tm, x, y, 1, 1, 2, 0));
    assert(quad_marked(r, tm, x, y, 1, 1, (x + 2) - x, y - y));
}

/// The single live sector of a quadrant scanning an otherwise clear window
/// that holds one full-height wall column `w` cells to the right of the
/// observer: after `k` wall cells have been processed, the shallow line has
/// been re-anchored onto the far corner `(5w, 5k)` of the latest one, the
/// steep line is untouched, and every bump so far lies on the column.
spec fn column_sector(w: int, k: int) -> SectorModel {
    if k == 0 {
        init_sector()
    } else {
        SectorModel {
            shallow: LineModel { nx: 1, ny: 4, fx: 5 * w, fy: 5 * k },
            steep: init_sector().steep,
            steep_bumps: Seq::empty(),
            shallow_bumps: Seq::new(k as nat, |j: int| (5 * w, 5 * (j + 1))),
        }
    }
}

/// How many wall cells of the column at distance `w` the scan has processed
/// when it stands just before cell `(sx - cy, cy)`.
spec fn column_k(w: int, sx: int, cy: int) -> int {
    if sx < w {
        0
    } else if cy <= sx - w {
        sx - w
    } else {
        sx - w + 1
    }
}

/// One wall cell of the column narrows the sector's shallow line to the
/// cell's far corner and changes nothing else.
proof fn lemma_column_sector_bump(w: int, k: int)
    requires
        1 <= w <= 9998,
        0 <= k,
    ensures
        !sector_skips(column_sector(w, k), w, k),
        sector_step(column_sector(w, k), w, k, true) == seq![column_sector(w, k + 1)],
{
    let v = column_sector(w, k);
    assert(v.steep == init_sector().steep);
    assert(line_normal_x(v.steep) == -49_999 && line_normal_y(v.steep) == -4 && line_dot(v.steep)
        == -200_000);
    // The steep line never objects: every point of the column is far to its
    // shallow side.
    assert(!point_below(v.steep, 5 * (w + 1), 5 * k)) by (nonlinear_arith)
        requires
            1 <= w,
            0 <= k,
            line_normal_x(v.steep) == -49_999,
            line_normal_y(v.steep) == -4,
            line_dot(v.steep) == -200_000,
    ;
    assert(!point_below(v.steep, 5 * w, 5 * (k + 1))) by (nonlinear_arith)
        requires
            1 <= w,
            0 <= k,
            line_normal_x(v.steep) == -49_999,
            line_normal_y(v.steep) == -4,
            line_dot(v.steep) == -200_000,
    ;
    if k == 0 {
        assert(line_normal_x(v.shallow) == 4 && line_normal_y(v.shallow) == 49_999 && line_dot(
            v.shallow,
        ) == 200_000);
        assert(!point_above(v.shallow, 5 * w, 5 * (k + 1)));
        // Here the far-sentinel geometry needs w <= 9998: further out, the
        // wall's near corner would no longer clear the initial shallow line.
        assert(point_above(v.shallow, 5 * (w + 1), 5 * k));
    } else {
        assert(line_normal_x(v.shallow) == 4 - 5 * k && line_normal_y(v.shallow) == 5 * w - 1
            && line_dot(v.shallow) == 20 * w - 5 * k) by (nonlinear_arith)
            requires
                v.shallow == (LineModel { nx: 1, ny: 4, fx: 5 * w, fy: 5 * k }),
        ;
        assert(!point_above(v.shallow, 5 * w, 5 * (k + 1))) by (nonlinear_arith)
            requires
                1 <= w,
                1 <= k,
                line_normal_x(v.shallow) == 4 - 5 * k,
                line_normal_y(v.shallow) == 5 * w - 1,
                line_dot(v.shallow) == 20 * w - 5 * k,
        ;
        assert(point_above(v.shallow, 5 * (w + 1), 5 * k)) by (nonlinear_arith)
            requires
                1 <= w,
                1 <= k,
                line_normal_x(v.shallow) == 4 - 5 * k,
                line_normal_y(v.shallow) == 5 * w - 1,
                line_dot(v.shallow) == 20 * w - 5 * k,
        ;
    }
    // Only the shallow side is obstructed, so the step is one shallow bump.
    let v1 = sector_add_shallow_bump(v, 5 * w, 5 * (k + 1));
    assert(sector_step(v, w, k, true) =~= seq![v1]);
    assert(v.steep_bumps =~= Seq::<(int, int)>::empty());
    assert(reanchor_above(
        LineModel { nx: 1, ny: 4, fx: 5 * w, fy: 5 * (k + 1) },
        Seq::<(int, int)>::empty(),
    ) == (LineModel { nx: 1, ny: 4, fx: 5 * w, fy: 5 * (k + 1) }));
    assert(v1.shallow == (LineModel { nx: 1, ny: 4, fx: 5 * w, fy: 5 * (k + 1) }));
    assert(v1.shallow_bumps =~= column_sector(w, k + 1).shallow_bumps);
    assert(v1 == column_sector(w, k + 1));
}

/// The closed-form state of a quadrant scanning the wall-column window:
/// just before cell `(sx - cy, cy)` the one live sector is
/// `column_sector(w, column_k(w, sx, cy))`.
proof fn lemma_column_scan_state(
    r: int,
    tm: TileMap,
    x: int,
    y: int,
    dy: int,
    w: int,
    t: int,
    sx: nat,
    cy: nat,
)
    requires
        1 <= w <= 9998,
        w <= t,
        t * t <= r * r + r,
        dy == 1 || dy == -1,
        forall|wx: int, wy: int|
            x - r <= wx <= x + r && y - r <= wy <= y + r ==> ((#[trigger] tm.spec_tile(
                wx,
                wy,
            )).spec_blocks_vision() <==> wx == x + w),
        t <= r,
        cy <= sx,
        sx <= t,
    ensures
        sectors_before(r, tm, x, y, 1, dy, sx, cy) == seq![
            column_sector(w, column_k(w, sx as int, cy as int)),
        ],
    decreases sx, cy,
{
    if sx == 0 && cy == 0 {
        assert(sectors_before(r, tm, x, y, 1, dy, 0, 0) == seq![init_sector()]);
        return ;
    }
    // The state before this cell is the state after the previous one.
    let (psx, pcy): (nat, nat) = if cy > 0 {
        (sx, (cy - 1) as nat)
    } else {
        ((sx - 1) as nat, (sx - 1) as nat)
    };
    lemma_column_scan_state(r, tm, x, y, dy, w, t, psx, pcy);
    let k0 = column_k(w, psx as int, pcy as int);
    let v = column_sector(w, k0);
    assert(sectors_before(r, tm, x, y, 1, dy, psx, pcy) == seq![v]);
    let cx = psx - pcy;
    let prev = sectors_before(r, tm, x, y, 1, dy, psx, pcy);
    assert(sectors_before(r, tm, x, y, 1, dy, sx, cy) == sectors_after(
        r,
        tm,
        x,
        y,
        1,
        dy,
        psx,
        pcy,
    ));
    if cell_scanned(r, cx, pcy as int) {
        // The scanned cell lies inside the window, so the column hypothesis
        // decides whether it blocks.
        lemma_mirror_val(pcy as int, dy);
        assert(x - r <= x + cx <= x + r);
        assert(y - r <= y + (pcy as int) * dy <= y + r);
        let blocks = cell_blocks(tm, x, y, 1, dy, cx, pcy as int);
        assert(blocks <==> cx == w);
        lemma_step_singleton(v, cx, pcy as int, blocks);
        if cx == w {
            lemma_column_sector_bump(w, pcy as int);
            assert(pcy as int == k0);
            assert(sectors_after(r, tm, x, y, 1, dy, psx, pcy) == seq![
                column_sector(w, k0 + 1),
            ]);
        } else {
            assert(sector_step(v, cx, pcy as int, false) =~= seq![v]);
            assert(sectors_after(r, tm, x, y, 1, dy, psx, pcy) == seq![v]);
        }
    } else {
        assert(sectors_after(r, tm, x, y, 1, dy, psx, pcy) == prev);
        // A wall cell inside the swept triangle is always within range.
        if cx == w {
            assert(w * w + (pcy as int) * (pcy as int) <= (w + pcy) * (w + pcy))
                by (nonlinear_arith)
                requires
                    0 <= w,
                    0 <= pcy as int,
            ;
            assert((w + pcy) * (w + pcy) <= t * t) by (nonlinear_arith)
                requires
                    0 <= w + pcy <= t,
            ;
            assert(cell_scanned(r, cx, pcy as int));
            assert(false);
        }
    }
    assert(column_k(w, sx as int, cy as int) == (if cx == w {
        k0 + 1
    } else {
        k0
    }));
}

/// The full occlusion law for one wall column, proved outright: on a window
/// that is clear everywhere except a full-height vision-blocking column `w`
/// cells to the observer's right, no cell of the observer's row beyond the
/// column is visible — for any radius, any observer position and any column
/// distance up to 9998 (beyond that the far sentinel of the initial cone,
/// standing in for infinity, lets the first wall cell split the sector).
pub proof fn lemma_wall_column_occludes_row(
    r: int,
    tm: TileMap,
    x: int,
    y: int,
    w: int,
    t: int,
)
    requires
        1 <= w <= 9998,
        w < t,
        forall|wx: int, wy: int|
            x - r <= wx <= x + r && y - r <= wy <= y + r ==> ((#[trigger] tm.spec_tile(
                wx,
                wy,
            )).spec_blocks_vision() <==> wx == x + w),
    ensures
        !spec_visible(r, tm, x, y, x + t, y),
{
    if t > r {
        // Past the radius the distance test alone rejects the target, and
        // the quadrants facing away never reach it.
        assert(!cell_scanned(r, t, 0));
        assert(!quad_marked(r, tm, x, y, 1, 1, (x + t) - x, y - y));
        assert(!quad_marked(r, tm, x, y, 1, -1, (x + t) - x, (y - y) * -1));
        assert(!quad_marked(r, tm, x, y, -1, 1, ((x + t) - x) * -1, y - y));
        assert(!quad_marked(r, tm, x, y, -1, -1, ((x + t) - x) * -1, (y - y) * -1));
        return ;
    }
    assert(t * t <= r * r + r) by (nonlinear_arith)
        requires
            1 <= t <= r,
    ;
    assert forall|dy: int| dy == 1 || dy == -1 implies !quad_marked(
        r,
        tm,
        x,
        y,
        1,
        dy,
        t,
        0,
    ) by {
        lemma_column_scan_state(r, tm, x, y, dy, w, t, t as nat, 0);
        let k = column_k(w, t, 0);
        assert(k == t - w && k >= 1);
        let v = column_sector(w, k);
        // The target's near corner lies strictly above the shallow line
        // that the column's wall cells have pulled down.
        assert(line_normal_x(v.shallow) == 4 - 5 * k && line_normal_y(v.shallow) == 5 * w - 1
            && line_dot(v.shallow) == 20 * w - 5 * k) by (nonlinear_arith)
            requires
                k >= 1,
                v.shallow == (LineModel { nx: 1, ny: 4, fx: 5 * w, fy: 5 * k }),
        ;
        assert(point_above(v.shallow, 5 * t, 5)) by (nonlinear_arith)
            requires
                1 <= w,
                1 <= k,
                t == w + k,
                line_normal_x(v.shallow) == 4 - 5 * k,
                line_normal_y(v.shallow) == 5 * w - 1,
                line_dot(v.shallow) == 20 * w - 5 * k,
        ;
        assert(sector_skips(v, t, 0));
        let blocks = cell_blocks(tm, x, y, 1, dy, t, 0);
        assert(!sector_marks(v, t, 0, blocks));
        lemma_step_singleton(v, t, 0, blocks);
        assert(!sectors_mark(sectors_before(r, tm, x, y, 1, dy, t as nat, 0), t, 0, blocks));
    }
    assert(!quad_marked(r, tm, x, y, 1, 1, (x + t) - x, y - y));
    assert(!quad_marked(r, tm, x, y, 1, -1, (x + t) - x, (y - y) * -1));
    assert(!quad_marked(r, tm, x, y, -1, 1, ((x + t) - x) * -1, y - y));
    assert(!quad_marked(r, tm, x, y, -1, -1, ((x + t) - x) * -1, (y - y) * -1));
}

/// The companion half of the column law: the column's wall cell on the
/// observer's row is itself visible whenever it lies within the radius.
pub proof fn lemma_wall_column_wall_visible(r: int, tm: TileMap, x: int, y: int, w: int)
    requires
        1 <= w <= 9998,
        w <= r,
        forall|wx: int, wy: int|
            x - r <= wx <= x + r && y - r <= wy <= y + r ==> ((#[trigger] tm.spec_tile(
                wx,
                wy,
            )).spec_blocks_vision() <==> wx == x + w),
    ensures
        spec_visible(r, tm, x, y, x + w, y),
{
    assert(w * w <= r * r + r) by (nonlinear_arith)
        requires
            1 <= w <= r,
    ;
    lemma_column_scan_state(r, tm, x, y, 1, w, w, w as nat, 0);
    assert(column_k(w, w, 0) == 0);
    assert(sectors_before(r, tm, x, y, 1, 1, w as nat, 0) == seq![init_sector()]);
    // The wall cell stands inside the initial cone, and a blocking cell the
    // sector can see at all is always marked.
    lemma_column_sector_bump(w, 0);
    let blocks = cell_blocks(tm, x, y, 1, 1, w, 0);
    assert(blocks);
    assert(sector_marks(init_sector(), w, 0, blocks));
    lemma_step_singleton(init_sector(), w, 0, blocks);
    assert(cell_scanned(r, w, 0));
    assert(quad_marked(r, tm, x, y, 1, 1, w, 0));
    assert(quad_marked(r, tm, x, y, 1, 1, (x + w) - x, y - y));
}

/// Once every sector of a quadrant has died, nothing later in the scan is
/// marked: the empty sector list propagates to every later cell.
proof fn lemma_empty_sectors_stay_empty(r: int, tm: TileMap, x: int, y: int, dy: int)
    requires
        2 <= r,
        dy == 1 || dy == -1,
        sectors_after(r, tm, x, y, 1, dy, 0, 0) == Seq::<SectorModel>::empty(),
    ensures
        !sectors_mark(
            sectors_before(r, tm, x, y, 1, dy, 2, 0),
            2,
            0,
            cell_blocks(tm, x, y, 1, dy, 2, 0),
        ),
{
    let e = Seq::<SectorModel>::empty();
    assert(sectors_before(r, tm, x, y, 1, dy, 1, 0) == e);
    assert(sectors_step(e, 1, 0, cell_blocks(tm, x, y, 1, dy, 1, 0)) == e);
    assert(sectors_after(r, tm, x, y, 1, dy, 1, 0) == e);
    assert(sectors_before(r, tm, x, y, 1, dy, 1, 1) == e);
    assert(sectors_step(e, 0, 1, cell_blocks(tm, x, y, 1, dy, 0, 1)) == e);
    assert(sectors_after(r, tm, x, y, 1, dy, 1, 1) == e);
    assert(sectors_before(r, tm, x, y, 1, dy, 2, 0) == e);
    assert(!sectors_mark(e, 2, 0, cell_blocks(tm, x, y, 1, dy, 2, 0)));
}

/// Updating twice with identical arguments over an unchanged map yields an
/// identical visible set: what a viewshed sees after an update is a function
/// of the radius, the observer position and the map alone.
pub proof fn lemma_update_idempotent(a: Viewshed, b: Viewshed, r: int, tm: TileMap, x: int, y: int)
    requires
        forall|px: int, py: int| #[trigger] a.sees(px, py) <==> spec_visible(r, tm, x, y, px, py),
        forall|px: int, py: int| #[trigger] b.sees(px, py) <==> spec_visible(r, tm, x, y, px, py),
    ensures
        forall|px: int, py: int| #[trigger] a.sees(px, py) <==> b.sees(px, py),
{
}

} // verus!
