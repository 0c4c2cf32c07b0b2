//! Brushes and shape fills on a voxel model.
//!
//! Every fill sets each in-volume position of its shape to one color, leaves
//! every other voxel alone, and returns how many voxels changed.

use vstd::prelude::*;
use crate::grid::{
    in_volume, cell_index, cell_x, cell_y, cell_z, volume, lemma_index_decodes, lemma_decode_index,
    lemma_volume_bound,
};
use crate::model::{
    diff_count, lemma_diff_count_update, lemma_diff_count_self, grid_contains, grid_voxel, Grid, IVec3,
    VoxelModel,
};
use crate::{ColorIndex, CoreError};

verus! {

#[derive(Debug, Clone, Copy, PartialEq, Eq, Structural)]
pub enum BrushKind {
    Voxel,
    Box,
    Sphere,
    Erase,
    FloodFill,
    Line,
    Plane,
    Circle,
}

#[derive(Debug, Clone, Copy, PartialEq, Eq, Structural)]
pub struct MirrorAxes {
    pub x: bool,
    pub y: bool,
    pub z: bool,
}

impl Default for MirrorAxes {
    fn default() -> (m: Self)
        ensures
            m == (MirrorAxes { x: false, y: false, z: false }),
    {
        MirrorAxes { x: false, y: false, z: false }
    }
}

#[derive(Debug, Clone, Copy, PartialEq, Eq, Structural)]
pub struct BrushOptions {
    pub kind: BrushKind,
    pub color: ColorIndex,
    /// Radius for sphere / half-extent for box around center.
    pub radius: u32,
    pub mirror: MirrorAxes,
}

impl Default for BrushOptions {
    fn default() -> (o: Self)
        ensures
            o == (BrushOptions {
                kind: BrushKind::Voxel,
                color: 1,
                radius: 0,
                mirror: MirrorAxes { x: false, y: false, z: false },
            }),
    {
        BrushOptions {
            kind: BrushKind::Voxel,
            color: 1,
            radius: 0,
            mirror: MirrorAxes { x: false, y: false, z: false },
        }
    }
}

/// The cells of a volume after every position satisfying `region` got `color`.
pub open spec fn painted(
    sx: int,
    sy: int,
    cells: Seq<u8>,
    region: spec_fn(int, int, int) -> bool,
    color: u8,
) -> Seq<u8> {
    Seq::new(
        cells.len(),
        |i: int|
            if region(cell_x(sx, sy, i), cell_y(sx, sy, i), cell_z(sx, sy, i)) {
                color
            } else {
                cells[i]
            },
    )
}

/// The model's cells after painting `region` with `color`.
pub open spec fn paint_model(m: &VoxelModel, region: spec_fn(int, int, int) -> bool, color: u8) -> Seq<
    u8,
> {
    painted(m.sx() as int, m.sy() as int, m.cells(), region, color)
}

pub open spec fn in_box(lo: IVec3, hi: IVec3, x: int, y: int, z: int) -> bool {
    &&& lo.x <= x <= hi.x
    &&& lo.y <= y <= hi.y
    &&& lo.z <= z <= hi.z
}

/// Within `r` of `c` on each axis (empty when `r < 0`).
pub open spec fn in_cube(c: IVec3, r: int, x: int, y: int, z: int) -> bool {
    &&& c.x - r <= x <= c.x + r
    &&& c.y - r <= y <= c.y + r
    &&& c.z - r <= z <= c.z + r
}

/// Within Euclidean distance `r` of `c`.
pub open spec fn in_ball(c: IVec3, r: int, x: int, y: int, z: int) -> bool {
    (x - c.x) * (x - c.x) + (y - c.y) * (y - c.y) + (z - c.z) * (z - c.z) <= r * r
}

pub open spec fn min_i(a: int, b: int) -> int {
    if a <= b {
        a
    } else {
        b
    }
}

pub open spec fn max_i(a: int, b: int) -> int {
    if a <= b {
        b
    } else {
        a
    }
}

/// Inclusive axis-aligned span of two corners.
pub open spec fn in_span(a: IVec3, b: IVec3, x: int, y: int, z: int) -> bool {
    &&& min_i(a.x as int, b.x as int) <= x <= max_i(a.x as int, b.x as int)
    &&& min_i(a.y as int, b.y as int) <= y <= max_i(a.y as int, b.y as int)
    &&& min_i(a.z as int, b.z as int) <= z <= max_i(a.z as int, b.z as int)
}

/// Plane axis of an axis name: 0, 1, 2 for `x|X`, `y|Y`, `z|Z`; -1 otherwise.
pub open spec fn axis_index(axis: char) -> int {
    if axis == 'x' || axis == 'X' {
        0
    } else if axis == 'y' || axis == 'Y' {
        1
    } else if axis == 'z' || axis == 'Z' {
        2
    } else {
        -1
    }
}

pub open spec fn coord(p: IVec3, axis: int) -> int {
    if axis == 0 {
        p.x as int
    } else if axis == 1 {
        p.y as int
    } else {
        p.z as int
    }
}

pub open spec fn nth(x: int, y: int, z: int, axis: int) -> int {
    if axis == 0 {
        x
    } else if axis == 1 {
        y
    } else {
        z
    }
}

/// The disk of radius `r` around `c` in the plane through `c` normal to `axis`.
pub open spec fn in_disk(c: IVec3, r: int, axis: char, x: int, y: int, z: int) -> bool {
    &&& 0 <= axis_index(axis)
    &&& nth(x, y, z, axis_index(axis)) == coord(c, axis_index(axis))
    &&& in_cube(c, r, x, y, z)
    &&& in_ball(c, r, x, y, z)
}

/// The rectangle spanned by `a` and `b` in the plane through `a` normal to `axis`.
pub open spec fn in_plane_rect(a: IVec3, b: IVec3, axis: char, x: int, y: int, z: int) -> bool {
    &&& 0 <= axis_index(axis)
    &&& nth(x, y, z, axis_index(axis)) == coord(a, axis_index(axis))
    &&& in_span(a, b, x, y, z)
}

pub open spec fn fits_i32(v: int) -> bool {
    i32::MIN <= v <= i32::MAX
}

/// `c - r` and `c + r` are `i32` values on every axis.
pub open spec fn cube_fits(c: IVec3, r: int) -> bool {
    &&& fits_i32(c.x - r) && fits_i32(c.x + r)
    &&& fits_i32(c.y - r) && fits_i32(c.y + r)
    &&& fits_i32(c.z - r) && fits_i32(c.z + r)
}

/// The squared distances of a ball of this radius fit in an `i64`.
/// The bounds of a disk of `radius` (taken as an `i32`) around `c` across
/// `axis` fit `i32` on the two axes of its plane.
pub open spec fn disk_fits(c: IVec3, radius: u32, axis: char) -> bool {
    let r = (radius as i32) as int;
    let k = axis_index(axis);
    0 <= k ==> {
        &&& k != 0 ==> fits_i32(c.x - r) && fits_i32(c.x + r)
        &&& k != 1 ==> fits_i32(c.y - r) && fits_i32(c.y + r)
        &&& k != 2 ==> fits_i32(c.z - r) && fits_i32(c.z + r)
    }
}

pub open spec fn ball_radius_fits(radius: int) -> bool {
    3 * radius * radius <= i64::MAX
}

spec fn before(zc: int, yc: int, xc: int, x: int, y: int, z: int) -> bool {
    z < zc || (z == zc && (y < yc || (y == yc && x < xc)))
}

spec fn shape_ok(ball: Option<(IVec3, i64)>, x: int, y: int, z: int) -> bool {
    match ball {
        None => true,
        Some((c, r)) => in_ball(c, r as int, x, y, z),
    }
}

pub proof fn lemma_diff_count_bound(a: Seq<u8>, b: Seq<u8>)
    ensures
        diff_count(a, b) <= a.len(),
    decreases a.len(),
{
    if a.len() > 0 {
        lemma_diff_count_bound(a.drop_last(), b.subrange(0, a.len() - 1));
    }
}

/// Set one voxel to `color` when it is inside the volume and differs; the
/// result counts the change.
fn set_if_changed(model: &mut VoxelModel, x: i32, y: i32, z: i32, color: ColorIndex) -> (n: usize)
    requires
        old(model).wf(),
    ensures
        final(model).wf(),
        final(model).sx() == old(model).sx(),
        final(model).sy() == old(model).sy(),
        final(model).sz() == old(model).sz(),
        n == (if old(model).contains(x as int, y as int, z as int) && old(model).voxel(
            x as int,
            y as int,
            z as int,
        ) != color {
            1usize
        } else {
            0usize
        }),
        final(model).cells() == if old(model).contains(x as int, y as int, z as int) {
            old(model).cells().update(old(model).index_of(x as int, y as int, z as int), color)
        } else {
            old(model).cells()
        },
{
    if !model.in_bounds(x, y, z) {
        return 0;
    }
    let prev = model.get_or_empty(x, y, z);
    proof {
        model.lemma_voxel_cells(x as int, y as int, z as int);
    }
    if prev == color {
        assert(model.cells().update(model.index_of(x as int, y as int, z as int), color)
            =~= model.cells());
        return 0;
    }
    let _ = model.set(x, y, z, color);
    1
}

fn ball_contains(c: IVec3, r: i64, x: i32, y: i32, z: i32) -> (b: bool)
    ensures
        b == in_ball(c, r as int, x as int, y as int, z as int),
{
    let dx = x as i128 - c.x as i128;
    let dy = y as i128 - c.y as i128;
    let dz = z as i128 - c.z as i128;
    let rr = r as i128;
    assert(0 <= dx * dx <= 0x1_0000_0000 * 0x1_0000_0000 && 0 <= dy * dy <= 0x1_0000_0000
        * 0x1_0000_0000 && 0 <= dz * dz <= 0x1_0000_0000 * 0x1_0000_0000) by (nonlinear_arith)
        requires
            -0x1_0000_0000 <= dx <= 0x1_0000_0000,
            -0x1_0000_0000 <= dy <= 0x1_0000_0000,
            -0x1_0000_0000 <= dz <= 0x1_0000_0000,
    ;
    assert(0 <= rr * rr <= 0x8000_0000_0000_0000 * 0x8000_0000_0000_0000) by (nonlinear_arith)
        requires
            -0x8000_0000_0000_0000 <= rr <= 0x8000_0000_0000_0000,
    ;
    dx * dx + dy * dy + dz * dz <= rr * rr
}

/// After painting one more position of a region the painted cells follow.
proof fn lemma_paint_point(
    sx: int,
    sy: int,
    sz: int,
    orig: Seq<u8>,
    cells: Seq<u8>,
    next: Seq<u8>,
    r1: spec_fn(int, int, int) -> bool,
    r2: spec_fn(int, int, int) -> bool,
    x: int,
    y: int,
    z: int,
    color: u8,
)
    requires
        sx > 0,
        sy > 0,
        sz > 0,
        orig.len() == volume(sx, sy, sz),
        cells == painted(sx, sy, orig, r1, color),
        forall|a: int, b: int, c: int|
            #![trigger r2(a, b, c)]
            in_volume(sx, sy, sz, a, b, c) ==> (r2(a, b, c) <==> (r1(a, b, c) || (a == x && b == y
                && c == z))),
        next == if in_volume(sx, sy, sz, x, y, z) {
            cells.update(cell_index(sx, sy, x, y, z), color)
        } else {
            cells
        },
    ensures
        next == painted(sx, sy, orig, r2, color),
{
    assert forall|i: int| 0 <= i < orig.len() implies #[trigger] next[i] == painted(
        sx,
        sy,
        orig,
        r2,
        color,
    )[i] by {
        lemma_decode_index(sx, sy, sz, i);
        let a = cell_x(sx, sy, i);
        let b = cell_y(sx, sy, i);
        let c = cell_z(sx, sy, i);
        assert(r2(a, b, c) <==> (r1(a, b, c) || (a == x && b == y && c == z)));
        if in_volume(sx, sy, sz, x, y, z) {
            lemma_index_decodes(sx, sy, sz, x, y, z);
            if a == x && b == y && c == z {
                assert(i == cell_index(sx, sy, x, y, z));
            } else {
                assert(i != cell_index(sx, sy, x, y, z));
            }
        }
    }
    assert(cells.len() == orig.len());
    if in_volume(sx, sy, sz, x, y, z) {
        lemma_index_decodes(sx, sy, sz, x, y, z);
    }
    assert(next.len() == orig.len());
    assert(next =~= painted(sx, sy, orig, r2, color));
}

/// Two regions that agree inside the volume paint the same cells.
proof fn lemma_paint_same(
    sx: int,
    sy: int,
    sz: int,
    orig: Seq<u8>,
    r1: spec_fn(int, int, int) -> bool,
    r2: spec_fn(int, int, int) -> bool,
    color: u8,
)
    requires
        sx > 0,
        sy > 0,
        sz > 0,
        orig.len() == volume(sx, sy, sz),
        forall|a: int, b: int, c: int|
            #![trigger r2(a, b, c)]
            in_volume(sx, sy, sz, a, b, c) ==> (r2(a, b, c) <==> r1(a, b, c)),
    ensures
        painted(sx, sy, orig, r1, color) == painted(sx, sy, orig, r2, color),
{
    assert forall|i: int| 0 <= i < orig.len() implies #[trigger] painted(
        sx,
        sy,
        orig,
        r1,
        color,
    )[i] == painted(sx, sy, orig, r2, color)[i] by {
        lemma_decode_index(sx, sy, sz, i);
        let a = cell_x(sx, sy, i);
        let b = cell_y(sx, sy, i);
        let c = cell_z(sx, sy, i);
        assert(r2(a, b, c) <==> r1(a, b, c));
    }
    assert(painted(sx, sy, orig, r1, color) =~= painted(sx, sy, orig, r2, color));
}

/// Painting nothing leaves the cells.
proof fn lemma_paint_nothing(sx: int, sy: int, orig: Seq<u8>, r: spec_fn(int, int, int) -> bool, color: u8)
    requires
        forall|a: int, b: int, c: int| !#[trigger] r(a, b, c),
    ensures
        painted(sx, sy, orig, r, color) == orig,
{
    assert(painted(sx, sy, orig, r, color) =~= orig);
}

/// One painting step counted: the cells after a `set_if_changed` that paints
/// one more position.
proof fn lemma_count_step(orig: Seq<u8>, cells: Seq<u8>, i: int, color: u8, n: int)
    requires
        orig.len() == cells.len(),
        0 <= i < cells.len(),
        cells[i] == orig[i] || cells[i] == color,
    ensures
        diff_count(orig, cells.update(i, color)) == diff_count(orig, cells) + (if cells[i]
            != color {
            1int
        } else {
            0int
        }),
{
    lemma_diff_count_update(orig, cells, i, color);
}

/// Paint every voxel of the box `lo..=hi` (and, with a ball, inside the ball).
fn fill_cuboid(
    model: &mut VoxelModel,
    lo: IVec3,
    hi: IVec3,
    ball: Option<(IVec3, i64)>,
    color: ColorIndex,
) -> (n: usize)
    requires
        old(model).wf(),
    ensures
        final(model).wf(),
        final(model).sx() == old(model).sx(),
        final(model).sy() == old(model).sy(),
        final(model).sz() == old(model).sz(),
        final(model).cells() == paint_model(
            old(model),
            |x: int, y: int, z: int| in_box(lo, hi, x, y, z) && shape_ok(ball, x, y, z),
            color,
        ),
        n == diff_count(old(model).cells(), final(model).cells()),
{
    let ghost m0 = *model;
    let (sx, sy, sz) = model.size();
    let mx = (sx - 1) as i32;
    let my = (sy - 1) as i32;
    let mz = (sz - 1) as i32;
    let lo2 = IVec3::new(
        if lo.x < 0 { 0 } else { lo.x },
        if lo.y < 0 { 0 } else { lo.y },
        if lo.z < 0 { 0 } else { lo.z },
    );
    let hi2 = IVec3::new(
        if hi.x > mx { mx } else { hi.x },
        if hi.y > my { my } else { hi.y },
        if hi.z > mz { mz } else { hi.z },
    );
    let n = fill_box_cells(model, lo2, hi2, ball, color);
    proof {
        lemma_paint_same(
            m0.sx() as int,
            m0.sy() as int,
            m0.sz() as int,
            m0.cells(),
            |x: int, y: int, z: int| in_box(lo2, hi2, x, y, z) && shape_ok(ball, x, y, z),
            |x: int, y: int, z: int| in_box(lo, hi, x, y, z) && shape_ok(ball, x, y, z),
            color,
        );
    }
    n
}

/// Paint the cells of the box from `lo` to `hi` (inclusive) that `ball`
/// admits, one by one.
fn fill_box_cells(
    model: &mut VoxelModel,
    lo: IVec3,
    hi: IVec3,
    ball: Option<(IVec3, i64)>,
    color: ColorIndex,
) -> (n: usize)
    requires
        old(model).wf(),
    ensures
        final(model).wf(),
        final(model).sx() == old(model).sx(),
        final(model).sy() == old(model).sy(),
        final(model).sz() == old(model).sz(),
        final(model).cells() == paint_model(
            old(model),
            |x: int, y: int, z: int| in_box(lo, hi, x, y, z) && shape_ok(ball, x, y, z),
            color,
        ),
        n == diff_count(old(model).cells(), final(model).cells()),
{
    let ghost orig = model.cells();
    let ghost sx = model.sx() as int;
    let ghost sy = model.sy() as int;
    let ghost sz = model.sz() as int;
    proof {
        lemma_volume_bound(sx, sy, sz);
    }
    let ghost full = |x: int, y: int, z: int| in_box(lo, hi, x, y, z) && shape_ok(ball, x, y, z);
    proof {
        lemma_diff_count_self(orig);
        lemma_paint_nothing(
            sx,
            sy,
            orig,
            |x: int, y: int, z: int| full(x, y, z) && before(lo.z as int, lo.y as int, lo.x as int, x, y, z),
            color,
        );
    }
    let mut n: usize = 0;
    let mut z: i64 = lo.z as i64;
    while z <= hi.z as i64
        invariant
            model.wf(),
            model.sx() == sx,
            model.sy() == sy,
            model.sz() == sz,
            orig.len() == volume(sx, sy, sz),
            lo.z <= z <= hi.z + 1 || (z == lo.z && lo.z > hi.z),
            model.cells() == painted(
                sx,
                sy,
                orig,
                |x: int, y: int, w: int| full(x, y, w) && w < z,
                color,
            ),
            n == diff_count(orig, model.cells()),
            full == (|x: int, y: int, z: int| in_box(lo, hi, x, y, z) && shape_ok(ball, x, y, z)),
        decreases hi.z - z + 1,
    {
        let mut y: i64 = lo.y as i64;
        proof {
            lemma_paint_same(
                sx,
                sy,
                sz,
                orig,
                |x: int, yy: int, w: int| full(x, yy, w) && w < z,
                |x: int, yy: int, w: int| full(x, yy, w) && (w < z || (w == z && yy < y)),
                color,
            );
        }
        while y <= hi.y as i64
            invariant
                model.wf(),
                model.sx() == sx,
                model.sy() == sy,
                model.sz() == sz,
                orig.len() == volume(sx, sy, sz),
                lo.z <= z <= hi.z,
                lo.y <= y <= hi.y + 1 || (y == lo.y && lo.y > hi.y),
                model.cells() == painted(
                    sx,
                    sy,
                    orig,
                    |x: int, yy: int, w: int| full(x, yy, w) && (w < z || (w == z && yy < y)),
                    color,
                ),
                n == diff_count(orig, model.cells()),
                full == (|x: int, y: int, z: int| in_box(lo, hi, x, y, z) && shape_ok(ball, x, y, z)),
            decreases hi.y - y + 1,
        {
            let mut x: i64 = lo.x as i64;
            proof {
                lemma_paint_same(
                    sx,
                    sy,
                    sz,
                    orig,
                    |xx: int, yy: int, w: int| full(xx, yy, w) && (w < z || (w == z && yy < y)),
                    |xx: int, yy: int, w: int|
                        full(xx, yy, w) && before(z as int, y as int, x as int, xx, yy, w),
                    color,
                );
            }
            while x <= hi.x as i64
                invariant
                    model.wf(),
                    model.sx() == sx,
                    model.sy() == sy,
                    model.sz() == sz,
                    orig.len() == volume(sx, sy, sz),
                    lo.z <= z <= hi.z,
                    lo.y <= y <= hi.y,
                    lo.x <= x <= hi.x + 1 || (x == lo.x && lo.x > hi.x),
                    model.cells() == painted(
                        sx,
                        sy,
                        orig,
                        |xx: int, yy: int, w: int|
                            full(xx, yy, w) && before(z as int, y as int, x as int, xx, yy, w),
                        color,
                    ),
                    n == diff_count(orig, model.cells()),
                    full == (|x: int, y: int, z: int| in_box(lo, hi, x, y, z) && shape_ok(ball, x, y, z)),
                decreases hi.x - x + 1,
            {
                let xi = x as i32;
                let yi = y as i32;
                let zi = z as i32;
                let inside = match ball {
                    None => true,
                    Some((c, r)) => ball_contains(c, r, xi, yi, zi),
                };
                let ghost cells0 = model.cells();
                let ghost r1 = |xx: int, yy: int, w: int|
                    full(xx, yy, w) && before(z as int, y as int, x as int, xx, yy, w);
                let ghost r2 = |xx: int, yy: int, w: int|
                    full(xx, yy, w) && before(z as int, y as int, x + 1, xx, yy, w);
                if inside {
                    let ghost m0 = *model;
                    let k = set_if_changed(model, xi, yi, zi, color);
                    proof {
                        if m0.contains(x as int, y as int, z as int) {
                            m0.lemma_voxel_cells(x as int, y as int, z as int);
                            lemma_count_step(
                                orig,
                                cells0,
                                m0.index_of(x as int, y as int, z as int),
                                color,
                                n as int,
                            );
                        }
                        lemma_diff_count_bound(orig, model.cells());
                        lemma_volume_bound(sx, sy, sz);
                        assert(n + k <= 16777216);
                        lemma_paint_point(
                            sx,
                            sy,
                            sz,
                            orig,
                            cells0,
                            model.cells(),
                            r1,
                            r2,
                            x as int,
                            y as int,
                            z as int,
                            color,
                        );
                    }
                    n = n + k;
                } else {
                    proof {
                        lemma_paint_same(sx, sy, sz, orig, r1, r2, color);
                    }
                }
                x = x + 1;
            }
            proof {
                lemma_paint_same(
                    sx,
                    sy,
                    sz,
                    orig,
                    |xx: int, yy: int, w: int|
                        full(xx, yy, w) && before(z as int, y as int, x as int, xx, yy, w),
                    |xx: int, yy: int, w: int| full(xx, yy, w) && (w < z || (w == z && yy < y + 1)),
                    color,
                );
            }
            y = y + 1;
        }
        proof {
            lemma_paint_same(
                sx,
                sy,
                sz,
                orig,
                |xx: int, yy: int, w: int| full(xx, yy, w) && (w < z || (w == z && yy < y)),
                |xx: int, yy: int, w: int| full(xx, yy, w) && w < z + 1,
                color,
            );
        }
        z = z + 1;
    }
    proof {
        lemma_paint_same(
            sx,
            sy,
            sz,
            orig,
            |xx: int, yy: int, w: int| full(xx, yy, w) && w < z,
            full,
            color,
        );
    }
    n
}

/// The result of a fill: `r` is `Ok(n)`, the new cells are the old ones with
/// `region` painted `color`, and `n` counts the voxels that changed.
pub open spec fn painted_result(
    old: &VoxelModel,
    new: &VoxelModel,
    r: Result<usize, CoreError>,
    region: spec_fn(int, int, int) -> bool,
    color: u8,
) -> bool {
    &&& new.wf()
    &&& new.sx() == old.sx()
    &&& new.sy() == old.sy()
    &&& new.sz() == old.sz()
    &&& new.cells() == paint_model(old, region, color)
    &&& r matches Ok(n) && n == diff_count(old.cells(), new.cells())
}

/// Painting a region, seen voxel by voxel: the region's positions inside the
/// volume hold `color`, every other position keeps its voxel.
pub proof fn lemma_painted_voxels(
    old: &VoxelModel,
    new: &VoxelModel,
    region: spec_fn(int, int, int) -> bool,
    color: u8,
)
    requires
        old.wf(),
        new.sx() == old.sx(),
        new.sy() == old.sy(),
        new.sz() == old.sz(),
        new.cells() == paint_model(old, region, color),
    ensures
        new.wf(),
        forall|x: int, y: int, z: int| #[trigger]
            new.voxel(x, y, z) == if old.contains(x, y, z) && region(x, y, z) {
                color
            } else {
                old.voxel(x, y, z)
            },
{
    assert forall|x: int, y: int, z: int| #[trigger]
        new.voxel(x, y, z) == if old.contains(x, y, z) && region(x, y, z) {
            color
        } else {
            old.voxel(x, y, z)
        } by {
        if old.contains(x, y, z) {
            lemma_index_decodes(old.sx() as int, old.sy() as int, old.sz() as int, x, y, z);
        }
    }
}

/// Fill the cube of half-extent `radius` around `center`.
pub fn fill_box(model: &mut VoxelModel, center: IVec3, radius: u32, color: ColorIndex) -> (r: Result<
    usize,
    CoreError,
>)
    requires
        old(model).wf(),
        cube_fits(center, (radius as i32) as int),
    ensures
        painted_result(
            old(model),
            final(model),
            r,
            |x: int, y: int, z: int| in_cube(center, (radius as i32) as int, x, y, z),
            color,
        ),
{
    let r = radius as i32;
    let lo = IVec3::new(center.x - r, center.y - r, center.z - r);
    let hi = IVec3::new(center.x + r, center.y + r, center.z + r);
    let ghost m0 = *model;
    let n = fill_cuboid(model, lo, hi, None, color);
    proof {
        lemma_paint_same(
            m0.sx() as int,
            m0.sy() as int,
            m0.sz() as int,
            m0.cells(),
            |x: int, y: int, z: int| in_box(lo, hi, x, y, z) && shape_ok(None, x, y, z),
            |x: int, y: int, z: int| in_cube(center, r as int, x, y, z),
            color,
        );
    }
    Ok(n)
}

pub fn min_i32(a: i32, b: i32) -> (m: i32)
    ensures
        m == min_i(a as int, b as int),
{
    if a <= b {
        a
    } else {
        b
    }
}

pub fn max_i32(a: i32, b: i32) -> (m: i32)
    ensures
        m == max_i(a as int, b as int),
{
    if a <= b {
        b
    } else {
        a
    }
}

/// Fill the inclusive box spanned by two corners (in either order).
pub fn fill_box_region(model: &mut VoxelModel, min: IVec3, max: IVec3, color: ColorIndex) -> (r:
    Result<usize, CoreError>)
    requires
        old(model).wf(),
    ensures
        painted_result(
            old(model),
            final(model),
            r,
            |x: int, y: int, z: int| in_span(min, max, x, y, z),
            color,
        ),
{
    let lo = IVec3::new(min_i32(min.x, max.x), min_i32(min.y, max.y), min_i32(min.z, max.z));
    let hi = IVec3::new(max_i32(min.x, max.x), max_i32(min.y, max.y), max_i32(min.z, max.z));
    let ghost m0 = *model;
    let n = fill_cuboid(model, lo, hi, None, color);
    proof {
        lemma_paint_same(
            m0.sx() as int,
            m0.sy() as int,
            m0.sz() as int,
            m0.cells(),
            |x: int, y: int, z: int| in_box(lo, hi, x, y, z) && shape_ok(None, x, y, z),
            |x: int, y: int, z: int| in_span(min, max, x, y, z),
            color,
        );
    }
    Ok(n)
}

/// Fill the ball of Euclidean `radius` around `center`.
pub fn fill_sphere(model: &mut VoxelModel, center: IVec3, radius: u32, color: ColorIndex) -> (r:
    Result<usize, CoreError>)
    requires
        old(model).wf(),
        cube_fits(center, radius as int),
        ball_radius_fits(radius as int),
    ensures
        painted_result(
            old(model),
            final(model),
            r,
            |x: int, y: int, z: int|
                in_cube(center, radius as int, x, y, z) && in_ball(center, radius as int, x, y, z),
            color,
        ),
{
    assert(radius <= 0x7fff_ffff) by (nonlinear_arith)
        requires
            3 * radius * radius <= i64::MAX,
    ;
    let r = radius as i32;
    let lo = IVec3::new(center.x - r, center.y - r, center.z - r);
    let hi = IVec3::new(center.x + r, center.y + r, center.z + r);
    let ghost m0 = *model;
    let n = fill_cuboid(model, lo, hi, Some((center, radius as i64)), color);
    proof {
        lemma_paint_same(
            m0.sx() as int,
            m0.sy() as int,
            m0.sz() as int,
            m0.cells(),
            |x: int, y: int, z: int|
                in_box(lo, hi, x, y, z) && shape_ok(Some((center, radius as i64)), x, y, z),
            |x: int, y: int, z: int|
                in_cube(center, radius as int, x, y, z) && in_ball(center, radius as int, x, y, z),
            color,
        );
    }
    Ok(n)
}

/// Which plane an axis name picks: 0, 1, 2, or 3 for none.
fn axis_number(axis: char) -> (k: u8)
    ensures
        k == (if axis_index(axis) < 0 {
            3
        } else {
            axis_index(axis)
        }),
{
    if axis == 'x' || axis == 'X' {
        0
    } else if axis == 'y' || axis == 'Y' {
        1
    } else if axis == 'z' || axis == 'Z' {
        2
    } else {
        3
    }
}

/// Filled disk on the plane whose normal is `axis` (`'x'|'y'|'z'`, either case);
/// another axis name changes nothing.
pub fn fill_circle(
    model: &mut VoxelModel,
    center: IVec3,
    radius: u32,
    axis: char,
    color: ColorIndex,
) -> (r: Result<usize, CoreError>)
    requires
        old(model).wf(),
        disk_fits(center, radius, axis),
    ensures
        painted_result(
            old(model),
            final(model),
            r,
            |x: int, y: int, z: int| in_disk(center, (radius as i32) as int, axis, x, y, z),
            color,
        ),
{
    let r = radius as i32;
    let k = axis_number(axis);
    let ghost m0 = *model;
    let ghost target = |x: int, y: int, z: int| in_disk(center, r as int, axis, x, y, z);
    if k == 3 {
        proof {
            lemma_paint_nothing(m0.sx() as int, m0.sy() as int, m0.cells(), target, color);
            lemma_diff_count_self(m0.cells());
        }
        return Ok(0);
    }
    let lo = IVec3::new(
        if k == 0 {
            center.x
        } else {
            center.x - r
        },
        if k == 1 {
            center.y
        } else {
            center.y - r
        },
        if k == 2 {
            center.z
        } else {
            center.z - r
        },
    );
    let hi = IVec3::new(
        if k == 0 {
            center.x
        } else {
            center.x + r
        },
        if k == 1 {
            center.y
        } else {
            center.y + r
        },
        if k == 2 {
            center.z
        } else {
            center.z + r
        },
    );
    let n = fill_cuboid(model, lo, hi, Some((center, r as i64)), color);
    proof {
        lemma_paint_same(
            m0.sx() as int,
            m0.sy() as int,
            m0.sz() as int,
            m0.cells(),
            |x: int, y: int, z: int|
                in_box(lo, hi, x, y, z) && shape_ok(Some((center, r as i64)), x, y, z),
            target,
            color,
        );
    }
    Ok(n)
}

/// Axis-aligned rectangle on a constant-`axis` plane.
///
/// The plane coordinate is `a`'s component on `axis` (not min of a/b).
/// The other two coordinates span the inclusive box of `a` and `b`.
/// Another axis name changes nothing.
pub fn fill_plane_rect(model: &mut VoxelModel, a: IVec3, b: IVec3, axis: char, color: ColorIndex) -> (r:
    Result<usize, CoreError>)
    requires
        old(model).wf(),
    ensures
        painted_result(
            old(model),
            final(model),
            r,
            |x: int, y: int, z: int| in_plane_rect(a, b, axis, x, y, z),
            color,
        ),
{
    let k = axis_number(axis);
    let ghost m0 = *model;
    let ghost target = |x: int, y: int, z: int| in_plane_rect(a, b, axis, x, y, z);
    if k == 3 {
        proof {
            lemma_paint_nothing(m0.sx() as int, m0.sy() as int, m0.cells(), target, color);
            lemma_diff_count_self(m0.cells());
        }
        return Ok(0);
    }
    let lo = IVec3::new(
        if k == 0 {
            a.x
        } else {
            min_i32(a.x, b.x)
        },
        if k == 1 {
            a.y
        } else {
            min_i32(a.y, b.y)
        },
        if k == 2 {
            a.z
        } else {
            min_i32(a.z, b.z)
        },
    );
    let hi = IVec3::new(
        if k == 0 {
            a.x
        } else {
            max_i32(a.x, b.x)
        },
        if k == 1 {
            a.y
        } else {
            max_i32(a.y, b.y)
        },
        if k == 2 {
            a.z
        } else {
            max_i32(a.z, b.z)
        },
    );
    let n = fill_cuboid(model, lo, hi, None, color);
    proof {
        lemma_paint_same(
            m0.sx() as int,
            m0.sy() as int,
            m0.sz() as int,
            m0.cells(),
            |x: int, y: int, z: int| in_box(lo, hi, x, y, z) && shape_ok(None, x, y, z),
            target,
            color,
        );
    }
    Ok(n)
}

pub open spec fn abs_i(v: int) -> int {
    if v < 0 {
        -v
    } else {
        v
    }
}

pub open spec fn step_sign(a: int, b: int) -> int {
    if a < b {
        1
    } else {
        -1
    }
}

/// Number of steps of the 3D Bresenham line: the largest axis distance.
pub open spec fn line_len(a: IVec3, b: IVec3) -> int {
    max_i(max_i(abs_i(b.x - a.x), abs_i(b.y - a.y)), abs_i(b.z - a.z))
}

/// Position and error term of one axis after `k` Bresenham steps: the error
/// starts at `dm / 2`, loses `d` per step, and the position advances by `s`
/// whenever the error would turn negative (the error then regains `dm`).
pub open spec fn axis_walk(p0: int, d: int, dm: int, s: int, k: nat) -> (int, int)
    decreases k,
{
    if k == 0 {
        (p0, dm / 2)
    } else {
        let (p, e) = axis_walk(p0, d, dm, s, (k - 1) as nat);
        if e - d < 0 {
            (p + s, e - d + dm)
        } else {
            (p, e - d)
        }
    }
}

/// The `k`-th voxel of the 3D Bresenham line from `a` to `b`.
pub open spec fn line_point(a: IVec3, b: IVec3, k: nat) -> (int, int, int) {
    let dm = line_len(a, b);
    (
        axis_walk(a.x as int, abs_i(b.x - a.x), dm, step_sign(a.x as int, b.x as int), k).0,
        axis_walk(a.y as int, abs_i(b.y - a.y), dm, step_sign(a.y as int, b.y as int), k).0,
        axis_walk(a.z as int, abs_i(b.z - a.z), dm, step_sign(a.z as int, b.z as int), k).0,
    )
}

/// On the Bresenham line from `a` to `b` (both ends included).
pub open spec fn on_line(a: IVec3, b: IVec3, x: int, y: int, z: int) -> bool {
    exists|k: nat| k <= line_len(a, b) && #[trigger] line_point(a, b, k) == (x, y, z)
}

/// The coordinate differences of a line fit in `i32`.
pub open spec fn line_fits(a: IVec3, b: IVec3) -> bool {
    &&& -i32::MAX <= b.x - a.x <= i32::MAX
    &&& -i32::MAX <= b.y - a.y <= i32::MAX
    &&& -i32::MAX <= b.z - a.z <= i32::MAX
}

/// After `k <= dm` steps an axis has moved `moves <= d` times, the error term
/// stays in `0..dm`, and `moves * dm == e - dm / 2 + k * d`.
pub proof fn lemma_axis_walk(p0: int, d: int, dm: int, s: int, k: nat) -> (moves: int)
    requires
        0 <= d <= dm,
        0 < dm,
        k <= dm,
    ensures
        0 <= moves <= d,
        moves <= k,
        axis_walk(p0, d, dm, s, k).0 == p0 + s * moves,
        0 <= axis_walk(p0, d, dm, s, k).1 < dm,
        moves * dm == axis_walk(p0, d, dm, s, k).1 - dm / 2 + k * d,
    decreases k,
{
    if k == 0 {
        0
    } else {
        let m = lemma_axis_walk(p0, d, dm, s, (k - 1) as nat);
        let (p, e) = axis_walk(p0, d, dm, s, (k - 1) as nat);
        let mv = if e - d < 0 {
            m + 1
        } else {
            m
        };
        let e2 = axis_walk(p0, d, dm, s, k).1;
        assert(mv * dm == e2 - dm / 2 + k * d) by (nonlinear_arith)
            requires
                m * dm == e - dm / 2 + (k - 1) * d,
                mv == (if e - d < 0 {
                    m + 1
                } else {
                    m
                }),
                e2 == (if e - d < 0 {
                    e - d + dm
                } else {
                    e - d
                }),
        ;
        assert(mv <= d) by (nonlinear_arith)
            requires
                mv * dm == e2 - dm / 2 + k * d,
                0 <= e2 < dm,
                k <= dm,
                0 < dm,
                0 <= d,
        ;
        if e - d < 0 {
            assert(s * (m + 1) == s * m + s) by (nonlinear_arith);
        }
        mv
    }
}

/// After `dm` steps each axis has moved exactly its distance.
pub proof fn lemma_axis_walk_end(p0: int, d: int, dm: int, s: int)
    requires
        0 <= d <= dm,
        0 < dm,
    ensures
        axis_walk(p0, d, dm, s, dm as nat).0 == p0 + s * d,
{
    let m = lemma_axis_walk(p0, d, dm, s, dm as nat);
    let e = axis_walk(p0, d, dm, s, dm as nat).1;
    assert(m == d) by (nonlinear_arith)
        requires
            m * dm == e - dm / 2 + dm * d,
            0 <= e < dm,
            0 < dm,
    ;
}

/// The Bresenham line starts at `a` and ends at `b`.
pub proof fn lemma_line_ends(a: IVec3, b: IVec3)
    ensures
        line_point(a, b, 0) == (a.x as int, a.y as int, a.z as int),
        line_point(a, b, line_len(a, b) as nat) == (b.x as int, b.y as int, b.z as int),
        on_line(a, b, a.x as int, a.y as int, a.z as int),
        on_line(a, b, b.x as int, b.y as int, b.z as int),
{
    let dm = line_len(a, b);
    if dm > 0 {
        lemma_axis_walk_end(a.x as int, abs_i(b.x - a.x), dm, step_sign(a.x as int, b.x as int));
        lemma_axis_walk_end(a.y as int, abs_i(b.y - a.y), dm, step_sign(a.y as int, b.y as int));
        lemma_axis_walk_end(a.z as int, abs_i(b.z - a.z), dm, step_sign(a.z as int, b.z as int));
    }
    assert(step_sign(a.x as int, b.x as int) * abs_i(b.x - a.x) == b.x - a.x) by (nonlinear_arith);
    assert(step_sign(a.y as int, b.y as int) * abs_i(b.y - a.y) == b.y - a.y) by (nonlinear_arith);
    assert(step_sign(a.z as int, b.z as int) * abs_i(b.z - a.z) == b.z - a.z) by (nonlinear_arith);
    assert(line_point(a, b, 0) == (a.x as int, a.y as int, a.z as int));
    assert(line_point(a, b, dm as nat) == (b.x as int, b.y as int, b.z as int));
}

/// Consecutive voxels of the line are at most one step apart on each axis.
pub proof fn lemma_line_steps(a: IVec3, b: IVec3, k: nat)
    requires
        k < line_len(a, b),
    ensures
        abs_i(line_point(a, b, k + 1).0 - line_point(a, b, k).0) <= 1,
        abs_i(line_point(a, b, k + 1).1 - line_point(a, b, k).1) <= 1,
        abs_i(line_point(a, b, k + 1).2 - line_point(a, b, k).2) <= 1,
{
}

fn abs_i32(v: i32) -> (r: i32)
    requires
        v != i32::MIN,
    ensures
        r == abs_i(v as int),
{
    if v < 0 {
        -v
    } else {
        v
    }
}

/// One exec Bresenham step of an axis.
fn walk_step(p: i32, e: i32, d: i32, dm: i32, s: i32, ghost_p0: Ghost<int>, k: Ghost<nat>) -> (r: (
    i32,
    i32,
))
    requires
        0 <= d <= dm,
        0 < dm,
        k@ < dm,
        s == 1 || s == -1,
        (p as int, e as int) == axis_walk(ghost_p0@, d as int, dm as int, s as int, k@),
        fits_i32(ghost_p0@),
        fits_i32(ghost_p0@ + s * d),
    ensures
        (r.0 as int, r.1 as int) == axis_walk(ghost_p0@, d as int, dm as int, s as int, k@ + 1),
{
    proof {
        let m = lemma_axis_walk(ghost_p0@, d as int, dm as int, s as int, (k@ + 1) as nat);
        assert(fits_i32(ghost_p0@ + s * m)) by (nonlinear_arith)
            requires
                0 <= m <= d,
                s == 1 || s == -1,
                fits_i32(ghost_p0@),
                fits_i32(ghost_p0@ + s * d),
        ;
        lemma_axis_walk(ghost_p0@, d as int, dm as int, s as int, k@);
    }
    let e2 = e - d;
    if e2 < 0 {
        (p + s, e2 + dm)
    } else {
        (p, e2)
    }
}

/// 3D Bresenham line, inclusive of both endpoints. Out-of-bounds cells are skipped.
pub fn fill_line(model: &mut VoxelModel, a: IVec3, b: IVec3, color: ColorIndex) -> (r: Result<
    usize,
    CoreError,
>)
    requires
        old(model).wf(),
        line_fits(a, b),
    ensures
        painted_result(
            old(model),
            final(model),
            r,
            |x: int, y: int, z: int| on_line(a, b, x, y, z),
            color,
        ),
{
    let dx = abs_i32(b.x - a.x);
    let dy = abs_i32(b.y - a.y);
    let dz = abs_i32(b.z - a.z);
    let sx: i32 = if a.x < b.x {
        1
    } else {
        -1
    };
    let sy: i32 = if a.y < b.y {
        1
    } else {
        -1
    };
    let sz: i32 = if a.z < b.z {
        1
    } else {
        -1
    };
    let dm = max_i32(max_i32(dx, dy), dz);
    let mut x = a.x;
    let mut y = a.y;
    let mut z = a.z;
    let mut x_err = dm / 2;
    let mut y_err = dm / 2;
    let mut z_err = dm / 2;
    let ghost orig = model.cells();
    let ghost vx = model.sx() as int;
    let ghost vy = model.sy() as int;
    let ghost vz = model.sz() as int;
    let ghost m0 = *model;
    proof {
        lemma_volume_bound(vx, vy, vz);
        assert(dm as int == line_len(a, b));
        lemma_diff_count_self(orig);
        lemma_paint_nothing(
            vx,
            vy,
            orig,
            |xx: int, yy: int, zz: int| exists|j: nat| j < 0 && #[trigger] line_point(a, b, j) == (xx, yy, zz),
            color,
        );
        assert(line_point(a, b, 0) == (x as int, y as int, z as int));
    }
    let ghost c0 = model.cells();
    let mut n = set_if_changed(model, x, y, z, color);
    proof {
        if m0.contains(x as int, y as int, z as int) {
            m0.lemma_voxel_cells(x as int, y as int, z as int);
            lemma_diff_count_update(orig, orig, m0.index_of(x as int, y as int, z as int), color);
        }
        assert forall|xx: int, yy: int, zz: int|
            in_volume(vx, vy, vz, xx, yy, zz) implies ((exists|j: nat|
            j <= 0 && #[trigger] line_point(a, b, j) == (xx, yy, zz)) <==> ((exists|j: nat|
            j < 0 && #[trigger] line_point(a, b, j) == (xx, yy, zz)) || (xx == x && yy == y && zz
            == z))) by {
            if xx == x && yy == y && zz == z {
                assert(line_point(a, b, 0) == (xx, yy, zz));
            }
        }
        lemma_paint_point(
            vx,
            vy,
            vz,
            orig,
            orig,
            model.cells(),
            |xx: int, yy: int, zz: int| exists|j: nat| j < 0 && #[trigger] line_point(a, b, j) == (xx, yy, zz),
            |xx: int, yy: int, zz: int| exists|j: nat| j <= 0 && #[trigger] line_point(a, b, j) == (xx, yy, zz),
            x as int,
            y as int,
            z as int,
            color,
        );
        if !m0.contains(x as int, y as int, z as int) {
            lemma_diff_count_self(orig);
        }
    }
    let mut i: i32 = 0;
    while i < dm
        invariant
            model.wf(),
            model.sx() == vx,
            model.sy() == vy,
            model.sz() == vz,
            orig.len() == volume(vx, vy, vz),
            volume(vx, vy, vz) <= 16777216,
            line_fits(a, b),
            0 <= i <= dm,
            dm as int == line_len(a, b),
            dx as int == abs_i(b.x - a.x),
            dy as int == abs_i(b.y - a.y),
            dz as int == abs_i(b.z - a.z),
            sx as int == step_sign(a.x as int, b.x as int),
            sy as int == step_sign(a.y as int, b.y as int),
            sz as int == step_sign(a.z as int, b.z as int),
            (x as int, x_err as int) == axis_walk(a.x as int, dx as int, dm as int, sx as int, i as nat),
            (y as int, y_err as int) == axis_walk(a.y as int, dy as int, dm as int, sy as int, i as nat),
            (z as int, z_err as int) == axis_walk(a.z as int, dz as int, dm as int, sz as int, i as nat),
            model.cells() == painted(
                vx,
                vy,
                orig,
                |xx: int, yy: int, zz: int|
                    exists|j: nat| j <= i && #[trigger] line_point(a, b, j) == (xx, yy, zz),
                color,
            ),
            n == diff_count(orig, model.cells()),
        decreases dm - i,
    {
        let (nx, nxe) = walk_step(x, x_err, dx, dm, sx, Ghost(a.x as int), Ghost(i as nat));
        let (ny, nye) = walk_step(y, y_err, dy, dm, sy, Ghost(a.y as int), Ghost(i as nat));
        let (nz, nze) = walk_step(z, z_err, dz, dm, sz, Ghost(a.z as int), Ghost(i as nat));
        x = nx;
        x_err = nxe;
        y = ny;
        y_err = nye;
        z = nz;
        z_err = nze;
        let ghost cells0 = model.cells();
        let ghost m1 = *model;
        let ghost r1 = |xx: int, yy: int, zz: int|
            exists|j: nat| j <= i && #[trigger] line_point(a, b, j) == (xx, yy, zz);
        let ghost r2 = |xx: int, yy: int, zz: int|
            exists|j: nat| j <= i + 1 && #[trigger] line_point(a, b, j) == (xx, yy, zz);
        let k = set_if_changed(model, x, y, z, color);
        proof {
            assert(line_point(a, b, (i + 1) as nat) == (x as int, y as int, z as int));
            assert forall|xx: int, yy: int, zz: int|
                in_volume(vx, vy, vz, xx, yy, zz) implies (r2(xx, yy, zz) <==> (r1(xx, yy, zz) || (
            xx == x && yy == y && zz == z))) by {
                if r2(xx, yy, zz) {
                    let j = choose|j: nat| j <= i + 1 && #[trigger] line_point(a, b, j) == (xx, yy, zz);
                    if j <= i {
                        assert(r1(xx, yy, zz));
                    }
                }
                if r1(xx, yy, zz) {
                    let j = choose|j: nat| j <= i && #[trigger] line_point(a, b, j) == (xx, yy, zz);
                    assert(j <= i + 1);
                }
            }
            if m1.contains(x as int, y as int, z as int) {
                m1.lemma_voxel_cells(x as int, y as int, z as int);
                lemma_count_step(orig, cells0, m1.index_of(x as int, y as int, z as int), color, n as int);
            }
            lemma_diff_count_bound(orig, model.cells());
            lemma_paint_point(vx, vy, vz, orig, cells0, model.cells(), r1, r2, x as int, y as int, z as int, color);
        }
        n = n + k;
        i = i + 1;
    }
    proof {
        lemma_paint_same(
            vx,
            vy,
            vz,
            orig,
            |xx: int, yy: int, zz: int|
                exists|j: nat| j <= i && #[trigger] line_point(a, b, j) == (xx, yy, zz),
            |xx: int, yy: int, zz: int| on_line(a, b, xx, yy, zz),
            color,
        );
    }
    Ok(n)
}

/// The six face neighbors of a position are adjacent to it.
pub open spec fn adjacent(p: (int, int, int), q: (int, int, int)) -> bool {
    ||| q == (p.0 + 1, p.1, p.2)
    ||| q == (p.0 - 1, p.1, p.2)
    ||| q == (p.0, p.1 + 1, p.2)
    ||| q == (p.0, p.1 - 1, p.2)
    ||| q == (p.0, p.1, p.2 + 1)
    ||| q == (p.0, p.1, p.2 - 1)
}

/// A walk through face-adjacent in-volume voxels that all hold `target`.
pub open spec fn region_path(m: Grid, target: u8, path: Seq<(int, int, int)>) -> bool {
    &&& path.len() > 0
    &&& forall|i: int| 0 <= i < path.len() ==> #[trigger] holds_at(m, target, path[i])
    &&& forall|i: int| 0 <= i < path.len() - 1 ==> #[trigger] adjacent(path[i], path[i + 1])
}

/// The position is inside the volume and holds `target`.
pub open spec fn holds_at(m: Grid, target: u8, p: (int, int, int)) -> bool {
    grid_contains(m, p.0, p.1, p.2) && grid_voxel(m, p.0, p.1, p.2) == target
}

/// `(x, y, z)` is reached from `start` through voxels of `start`'s color.
pub open spec fn connected(m: Grid, start: IVec3, x: int, y: int, z: int) -> bool {
    exists|path: Seq<(int, int, int)>|
        #![trigger region_path(m, grid_voxel(m, start.x as int, start.y as int, start.z as int), path)]
        region_path(m, grid_voxel(m, start.x as int, start.y as int, start.z as int), path) && path[0] == (
            start.x as int,
            start.y as int,
            start.z as int,
        ) && path.last() == (x, y, z)
}

/// The voxels a flood fill from `start` recolors: the face-connected region of
/// `start`'s color, when `start` is inside and does not already hold `color`.
pub open spec fn flood_region(m: Grid, start: IVec3, color: u8, x: int, y: int, z: int) -> bool {
    &&& grid_contains(m, start.x as int, start.y as int, start.z as int)
    &&& grid_voxel(m, start.x as int, start.y as int, start.z as int) != color
    &&& connected(m, start, x, y, z)
}

spec fn filled(old: &VoxelModel, cur: &VoxelModel, x: int, y: int, z: int) -> bool {
    old.contains(x, y, z) && cur.voxel(x, y, z) != old.voxel(x, y, z)
}

spec fn in_stack(stack: Seq<IVec3>, x: int, y: int, z: int) -> bool {
    exists|k: int| 0 <= k < stack.len() && #[trigger] stack[k] == (IVec3 { x: x as i32, y: y as i32, z: z as i32 })
}

spec fn settled(old: &VoxelModel, cur: &VoxelModel, stack: Seq<IVec3>, target: u8, x: int, y: int, z: int) -> bool {
    !old.contains(x, y, z) || cur.voxel(x, y, z) != target || in_stack(stack, x, y, z)
}

spec fn closed_at(old: &VoxelModel, cur: &VoxelModel, stack: Seq<IVec3>, target: u8, x: int, y: int, z: int) -> bool {
    &&& settled(old, cur, stack, target, x + 1, y, z)
    &&& settled(old, cur, stack, target, x - 1, y, z)
    &&& settled(old, cur, stack, target, x, y + 1, z)
    &&& settled(old, cur, stack, target, x, y - 1, z)
    &&& settled(old, cur, stack, target, x, y, z + 1)
    &&& settled(old, cur, stack, target, x, y, z - 1)
}

spec fn next_to_filled(old: &VoxelModel, cur: &VoxelModel, x: int, y: int, z: int) -> bool {
    ||| filled(old, cur, x + 1, y, z)
    ||| filled(old, cur, x - 1, y, z)
    ||| filled(old, cur, x, y + 1, z)
    ||| filled(old, cur, x, y - 1, z)
    ||| filled(old, cur, x, y, z + 1)
    ||| filled(old, cur, x, y, z - 1)
}

spec fn flood_inv(
    old: &VoxelModel,
    cur: &VoxelModel,
    stack: Seq<IVec3>,
    start: IVec3,
    target: u8,
    color: u8,
) -> bool {
    &&& cur.wf()
    &&& cur.sx() == old.sx()
    &&& cur.sy() == old.sy()
    &&& cur.sz() == old.sz()
    &&& forall|x: int, y: int, z: int|
        #![trigger cur.voxel(x, y, z)]
        cur.voxel(x, y, z) == old.voxel(x, y, z) || (old.voxel(x, y, z) == target && cur.voxel(
            x,
            y,
            z,
        ) == color)
    &&& forall|x: int, y: int, z: int|
        #![trigger filled(old, cur, x, y, z)]
        filled(old, cur, x, y, z) ==> connected(old.grid(), start, x, y, z) && closed_at(
            old,
            cur,
            stack,
            target,
            x,
            y,
            z,
        )
    &&& forall|k: int|
        #![trigger stack[k]]
        0 <= k < stack.len() ==> stack[k] == start || next_to_filled(
            old,
            cur,
            stack[k].x as int,
            stack[k].y as int,
            stack[k].z as int,
        )
    &&& (cur.voxel(start.x as int, start.y as int, start.z as int) != target || in_stack(
        stack,
        start.x as int,
        start.y as int,
        start.z as int,
    ))
}

proof fn lemma_path_push(m: Grid, target: u8, path: Seq<(int, int, int)>, p: (int, int, int))
    requires
        region_path(m, target, path),
        adjacent(path.last(), p),
        holds_at(m, target, p),
    ensures
        region_path(m, target, path.push(p)),
{
    let path2 = path.push(p);
    assert forall|i: int| 0 <= i < path2.len() - 1 implies #[trigger] adjacent(path2[i], path2[i + 1]) by {
        if i < path.len() - 1 {
            assert(adjacent(path[i], path[i + 1]));
            assert(path2[i] == path[i] && path2[i + 1] == path[i + 1]);
        } else {
            assert(path2[i] == path.last());
        }
    }
    assert forall|i: int| 0 <= i < path2.len() implies #[trigger] holds_at(m, target, path2[i]) by {
        if i < path.len() {
            assert(path2[i] == path[i]);
            assert(holds_at(m, target, path[i]));
        } else {
            assert(path2[i] == p);
        }
    }
    assert(region_path(m, target, path2));
}

/// Once nothing is pending, every voxel connected to a filled start is filled.
proof fn lemma_flood_complete(old: &VoxelModel, cur: &VoxelModel, start: IVec3, target: u8, color: u8)
    requires
        flood_inv(old, cur, Seq::empty(), start, target, color),
        old.contains(start.x as int, start.y as int, start.z as int),
        old.voxel(start.x as int, start.y as int, start.z as int) == target,
        target != color,
    ensures
        forall|x: int, y: int, z: int|
            connected(old.grid(), start, x, y, z) ==> #[trigger] filled(old, cur, x, y, z),
{
    assert forall|x: int, y: int, z: int|
        connected(old.grid(), start, x, y, z) implies #[trigger] filled(old, cur, x, y, z) by {
        let path = choose|path: Seq<(int, int, int)>|
            #![trigger region_path(old.grid(), grid_voxel(old.grid(), start.x as int, start.y as int, start.z as int), path)]
            region_path(old.grid(), grid_voxel(old.grid(), start.x as int, start.y as int, start.z as int), path)
                && path[0] == (start.x as int, start.y as int, start.z as int) && path.last() == (
                x,
                y,
                z,
            );
        lemma_flood_path(old, cur, start, target, color, path, path.len() - 1);
    }
}

proof fn lemma_flood_path(
    old: &VoxelModel,
    cur: &VoxelModel,
    start: IVec3,
    target: u8,
    color: u8,
    path: Seq<(int, int, int)>,
    k: int,
)
    requires
        flood_inv(old, cur, Seq::empty(), start, target, color),
        old.voxel(start.x as int, start.y as int, start.z as int) == target,
        target != color,
        region_path(old.grid(), target, path),
        path[0] == (start.x as int, start.y as int, start.z as int),
        0 <= k < path.len(),
    ensures
        filled(old, cur, path[k].0, path[k].1, path[k].2),
    decreases k,
{
    let p = path[k];
    assert(holds_at(old.grid(), target, path[k]));
    if k == 0 {
        assert(cur.voxel(start.x as int, start.y as int, start.z as int) != target);
    } else {
        lemma_flood_path(old, cur, start, target, color, path, k - 1);
        let q = path[k - 1];
        let i = k - 1;
        assert(adjacent(path[i], path[i + 1]));
        assert(path[i + 1] == p);
        assert(adjacent(q, p));
        assert(closed_at(old, cur, Seq::empty(), target, q.0, q.1, q.2));
        assert(!in_stack(Seq::<IVec3>::empty(), p.0, p.1, p.2));
        assert(settled(old, cur, Seq::empty(), target, p.0, p.1, p.2));
        assert(cur.voxel(p.0, p.1, p.2) != target);
    }
}

/// Recolor the face-connected region of `start`'s color to `color`.
pub fn flood_fill(model: &mut VoxelModel, start: IVec3, color: ColorIndex) -> (r: Result<
    usize,
    CoreError,
>)
    requires
        old(model).wf(),
    ensures
        painted_result(
            old(model),
            final(model),
            r,
            |x: int, y: int, z: int| flood_region(old(model).grid(), start, color, x, y, z),
            color,
        ),
{
    let ghost old_m = *model;
    let ghost region = |x: int, y: int, z: int| flood_region(old_m.grid(), start, color, x, y, z);
    if !model.in_bounds(start.x, start.y, start.z) {
        proof {
            lemma_paint_nothing(old_m.sx() as int, old_m.sy() as int, old_m.cells(), region, color);
            lemma_diff_count_self(old_m.cells());
        }
        return Ok(0);
    }
    let target = model.get_or_empty(start.x, start.y, start.z);
    if target == color {
        proof {
            lemma_paint_nothing(old_m.sx() as int, old_m.sy() as int, old_m.cells(), region, color);
            lemma_diff_count_self(old_m.cells());
        }
        return Ok(0);
    }
    let ghost orig = old_m.cells();
    proof {
        lemma_volume_bound(old_m.sx() as int, old_m.sy() as int, old_m.sz() as int);
        lemma_diff_count_self(orig);
    }
    let mut stack: Vec<IVec3> = Vec::new();
    stack.push(start);
    proof {
        assert(stack@[0] == start);
        assert(in_stack(stack@, start.x as int, start.y as int, start.z as int));
    }
    let mut n: usize = 0;
    while stack.len() > 0
        invariant
            old_m.wf(),
            old_m.contains(start.x as int, start.y as int, start.z as int),
            target == old_m.voxel(start.x as int, start.y as int, start.z as int),
            target != color,
            orig == old_m.cells(),
            orig.len() <= 16777216,
            flood_inv(&old_m, model, stack@, start, target, color),
            n == diff_count(orig, model.cells()),
            n <= orig.len(),
        decreases 6 * (orig.len() - n) + stack.len(),
    {
        let ghost st = stack@;
        let ghost cur0 = *model;
        let p = match stack.pop() {
            Some(p) => p,
            None => start,
        };
        assert(stack@ == st.drop_last());
        assert(p == st.last());
        if model.in_bounds(p.x, p.y, p.z) && model.get_or_empty(p.x, p.y, p.z) == target {
            proof {
                cur0.lemma_voxel_cells(p.x as int, p.y as int, p.z as int);
                old_m.lemma_voxel_cells(p.x as int, p.y as int, p.z as int);
                lemma_diff_count_update(orig, cur0.cells(), cur0.index_of(p.x as int, p.y as int, p.z as int), color);
                lemma_diff_count_bound(orig, cur0.cells().update(cur0.index_of(p.x as int, p.y as int, p.z as int), color));
                // the popped voxel is reached from start
                let px = p.x as int;
                let py = p.y as int;
                let pz = p.z as int;
                assert(old_m.voxel(px, py, pz) == target);
                assert(st[st.len() - 1] == p);
                if p != start {
                    assert(next_to_filled(&old_m, &cur0, px, py, pz));
                    let q = if filled(&old_m, &cur0, px + 1, py, pz) {
                        (px + 1, py, pz)
                    } else if filled(&old_m, &cur0, px - 1, py, pz) {
                        (px - 1, py, pz)
                    } else if filled(&old_m, &cur0, px, py + 1, pz) {
                        (px, py + 1, pz)
                    } else if filled(&old_m, &cur0, px, py - 1, pz) {
                        (px, py - 1, pz)
                    } else if filled(&old_m, &cur0, px, py, pz + 1) {
                        (px, py, pz + 1)
                    } else {
                        (px, py, pz - 1)
                    };
                    assert(filled(&old_m, &cur0, q.0, q.1, q.2));
                    assert(connected(old_m.grid(), start, q.0, q.1, q.2));
                    let path = choose|path: Seq<(int, int, int)>|
                        #![trigger region_path(old_m.grid(), target, path)]
                        region_path(old_m.grid(), target, path) && path[0] == (
                            start.x as int,
                            start.y as int,
                            start.z as int,
                        ) && path.last() == q;
                    let path2 = path.push((px, py, pz));
                    assert(adjacent(q, (px, py, pz)));
                    assert(path2[path2.len() - 2] == q);
                    assert(old_m.contains(px, py, pz));
                    assert(holds_at(old_m.grid(), target, (px, py, pz)));
                    lemma_path_push(old_m.grid(), target, path, (px, py, pz));
                    assert(region_path(old_m.grid(), target, path2));
                    assert(path2.last() == (px, py, pz));
                    assert(connected(old_m.grid(), start, px, py, pz));
                } else {
                    let path = seq![(px, py, pz)];
                    assert(holds_at(old_m.grid(), target, path[0]));
                    assert(region_path(old_m.grid(), target, path));
                    assert(connected(old_m.grid(), start, px, py, pz));
                }
            }
            let _ = model.set(p.x, p.y, p.z, color);
            n = n + 1;
            stack.push(IVec3::new(p.x + 1, p.y, p.z));
            stack.push(IVec3::new(p.x - 1, p.y, p.z));
            stack.push(IVec3::new(p.x, p.y + 1, p.z));
            stack.push(IVec3::new(p.x, p.y - 1, p.z));
            stack.push(IVec3::new(p.x, p.y, p.z + 1));
            stack.push(IVec3::new(p.x, p.y, p.z - 1));
            proof {
                let px = p.x as int;
                let py = p.y as int;
                let pz = p.z as int;
                let ns = stack@;
                assert(ns.len() == st.len() + 5);
                assert forall|k: int| 0 <= k < st.len() - 1 implies ns[k] == st[k] by {}
                let b = st.len() - 1;
                assert(ns[b] == IVec3 { x: (p.x + 1) as i32, y: p.y, z: p.z });
                assert(ns[b + 1] == IVec3 { x: (p.x - 1) as i32, y: p.y, z: p.z });
                assert(ns[b + 2] == IVec3 { x: p.x, y: (p.y + 1) as i32, z: p.z });
                assert(ns[b + 3] == IVec3 { x: p.x, y: (p.y - 1) as i32, z: p.z });
                assert(ns[b + 4] == IVec3 { x: p.x, y: p.y, z: (p.z + 1) as i32 });
                assert(ns[b + 5] == IVec3 { x: p.x, y: p.y, z: (p.z - 1) as i32 });
                assert(filled(&old_m, model, px, py, pz));
                // filled voxels stay filled
                assert forall|x: int, y: int, z: int|
                    #[trigger] filled(&old_m, &cur0, x, y, z) implies filled(&old_m, model, x, y, z) by {}
                // pending entries
                assert forall|k: int| 0 <= k < ns.len() implies (#[trigger] ns[k] == start
                    || next_to_filled(&old_m, model, ns[k].x as int, ns[k].y as int, ns[k].z as int)) by {
                    if k < st.len() - 1 {
                        assert(ns[k] == st[k]);
                        if ns[k] != start {
                            assert(next_to_filled(&old_m, &cur0, st[k].x as int, st[k].y as int, st[k].z as int));
                        }
                    }
                }
                // settled neighborhoods
                assert forall|x: int, y: int, z: int, a: int, b: int, c: int|
                    settled(&old_m, &cur0, st, target, a, b, c) && #[trigger] filled(&old_m, model, x, y, z)
                        && #[trigger] adjacent((x, y, z), (a, b, c)) implies settled(&old_m, model, ns, target, a, b, c) by {
                    if old_m.contains(a, b, c) && model.voxel(a, b, c) == target {
                        assert(!(a == px && b == py && c == pz));
                        assert(cur0.voxel(a, b, c) == target);
                        let k = choose|k: int| 0 <= k < st.len() && #[trigger] st[k] == (IVec3 { x: a as i32, y: b as i32, z: c as i32 });
                        if k == st.len() - 1 {
                            assert(st[k] == p);
                        }
                        assert(ns[k] == st[k]);
                    }
                }
                assert forall|x: int, y: int, z: int|
                    #[trigger] filled(&old_m, model, x, y, z) implies connected(old_m.grid(), start, x, y, z)
                        && closed_at(&old_m, model, ns, target, x, y, z) by {
                    if x == px && y == py && z == pz {
                        assert(in_stack(ns, x + 1, y, z));
                        assert(in_stack(ns, x - 1, y, z));
                        assert(in_stack(ns, x, y + 1, z));
                        assert(in_stack(ns, x, y - 1, z));
                        assert(in_stack(ns, x, y, z + 1));
                        assert(in_stack(ns, x, y, z - 1));
                    } else {
                        assert(filled(&old_m, &cur0, x, y, z));
                        assert(closed_at(&old_m, &cur0, st, target, x, y, z));
                        assert(adjacent((x, y, z), (x + 1, y, z)));
                        assert(adjacent((x, y, z), (x - 1, y, z)));
                        assert(adjacent((x, y, z), (x, y + 1, z)));
                        assert(adjacent((x, y, z), (x, y - 1, z)));
                        assert(adjacent((x, y, z), (x, y, z + 1)));
                        assert(adjacent((x, y, z), (x, y, z - 1)));
                    }
                }
                if model.voxel(start.x as int, start.y as int, start.z as int) == target {
                    let k = choose|k: int| 0 <= k < st.len() && #[trigger] st[k] == (IVec3 { x: start.x, y: start.y, z: start.z });
                    if k == st.len() - 1 {
                        assert(st[k] == p);
                    }
                    assert(ns[k] == st[k]);
                    assert(in_stack(ns, start.x as int, start.y as int, start.z as int));
                }
            }
        } else {
            proof {
                let px = p.x as int;
                let py = p.y as int;
                let pz = p.z as int;
                let ns = stack@;
                assert forall|x: int, y: int, z: int, a: int, b: int, c: int|
                    settled(&old_m, model, st, target, a, b, c) && #[trigger] filled(&old_m, model, x, y, z)
                        && #[trigger] adjacent((x, y, z), (a, b, c)) implies settled(&old_m, model, ns, target, a, b, c) by {
                    if old_m.contains(a, b, c) && model.voxel(a, b, c) == target {
                        let k = choose|k: int| 0 <= k < st.len() && #[trigger] st[k] == (IVec3 { x: a as i32, y: b as i32, z: c as i32 });
                        if k == st.len() - 1 {
                            assert(st[k] == p);
                        }
                        assert(ns[k] == st[k]);
                    }
                }
                assert forall|x: int, y: int, z: int|
                    #[trigger] filled(&old_m, model, x, y, z) implies connected(old_m.grid(), start, x, y, z)
                        && closed_at(&old_m, model, ns, target, x, y, z) by {
                    assert(closed_at(&old_m, model, st, target, x, y, z));
                    assert(adjacent((x, y, z), (x + 1, y, z)));
                    assert(adjacent((x, y, z), (x - 1, y, z)));
                    assert(adjacent((x, y, z), (x, y + 1, z)));
                    assert(adjacent((x, y, z), (x, y - 1, z)));
                    assert(adjacent((x, y, z), (x, y, z + 1)));
                    assert(adjacent((x, y, z), (x, y, z - 1)));
                }
                assert forall|k: int| 0 <= k < ns.len() implies (#[trigger] ns[k] == start
                    || next_to_filled(&old_m, model, ns[k].x as int, ns[k].y as int, ns[k].z as int)) by {
                    assert(ns[k] == st[k]);
                }
                if model.voxel(start.x as int, start.y as int, start.z as int) == target {
                    let k = choose|k: int| 0 <= k < st.len() && #[trigger] st[k] == (IVec3 { x: start.x, y: start.y, z: start.z });
                    if k == st.len() - 1 {
                        assert(st[k] == p);
                    }
                    assert(ns[k] == st[k]);
                    assert(in_stack(ns, start.x as int, start.y as int, start.z as int));
                }
            }
        }
    }
    proof {
        assert(stack@ == Seq::<IVec3>::empty());
        lemma_flood_complete(&old_m, model, start, target, color);
        let sx = old_m.sx() as int;
        let sy = old_m.sy() as int;
        let sz = old_m.sz() as int;
        assert forall|i: int| 0 <= i < orig.len() implies #[trigger] model.cells()[i] == paint_model(
            &old_m,
            region,
            color,
        )[i] by {
            lemma_decode_index(sx, sy, sz, i);
            let x = cell_x(sx, sy, i);
            let y = cell_y(sx, sy, i);
            let z = cell_z(sx, sy, i);
            model.lemma_voxel_cells(x, y, z);
            old_m.lemma_voxel_cells(x, y, z);
            assert(model.voxel(x, y, z) == old_m.voxel(x, y, z) || (old_m.voxel(x, y, z) == target
                && model.voxel(x, y, z) == color));
            if region(x, y, z) {
                assert(filled(&old_m, model, x, y, z));
            } else {
                if filled(&old_m, model, x, y, z) {
                    assert(connected(old_m.grid(), start, x, y, z));
                }
            }
        }
        assert(model.cells() =~= paint_model(&old_m, region, color));
    }
    Ok(n)
}

/// The cells after applying one brush dab at `c` (see [`apply_brush`]).
pub open spec fn brush_cells(g: Grid, c: IVec3, o: BrushOptions) -> Seq<u8> {
    let r = (o.radius as i32) as int;
    let rad = o.radius as int;
    match o.kind {
        BrushKind::Voxel | BrushKind::Line => painted(
            g.0,
            g.1,
            g.3,
            |x: int, y: int, z: int| x == c.x && y == c.y && z == c.z,
            o.color,
        ),
        BrushKind::Erase => painted(
            g.0,
            g.1,
            g.3,
            |x: int, y: int, z: int| x == c.x && y == c.y && z == c.z,
            0,
        ),
        BrushKind::Box => painted(g.0, g.1, g.3, |x: int, y: int, z: int| in_cube(c, r, x, y, z), o.color),
        BrushKind::Sphere => painted(
            g.0,
            g.1,
            g.3,
            |x: int, y: int, z: int| in_cube(c, rad, x, y, z) && in_ball(c, rad, x, y, z),
            o.color,
        ),
        BrushKind::FloodFill => painted(
            g.0,
            g.1,
            g.3,
            |x: int, y: int, z: int| flood_region(g, c, o.color, x, y, z),
            o.color,
        ),
        BrushKind::Circle => painted(
            g.0,
            g.1,
            g.3,
            |x: int, y: int, z: int| in_disk(c, r, 'z', x, y, z),
            o.color,
        ),
        BrushKind::Plane => painted(
            g.0,
            g.1,
            g.3,
            |x: int, y: int, z: int|
                in_plane_rect(
                    IVec3 { x: (c.x - r) as i32, y: (c.y - r) as i32, z: c.z },
                    IVec3 { x: (c.x + r) as i32, y: (c.y + r) as i32, z: c.z },
                    'z',
                    x,
                    y,
                    z,
                ),
            o.color,
        ),
    }
}

/// The color a brush writes.
pub open spec fn brush_color(o: BrushOptions) -> u8 {
    if o.kind == BrushKind::Erase {
        0
    } else {
        o.color
    }
}

/// The coordinates that a dab of this brush at `c` computes fit in their integer types.
pub open spec fn brush_fits(c: IVec3, o: BrushOptions) -> bool {
    let r = (o.radius as i32) as int;
    match o.kind {
        BrushKind::Box => cube_fits(c, r),
        BrushKind::Sphere => cube_fits(c, o.radius as int) && ball_radius_fits(o.radius as int),
        BrushKind::Circle => disk_fits(c, o.radius, 'z'),
        BrushKind::Plane => fits_i32(c.x - r) && fits_i32(c.x + r) && fits_i32(c.y - r) && fits_i32(
            c.y + r,
        ),
        _ => true,
    }
}

/// The grid after dabs at the first `n` centers, in order.
pub open spec fn brush_fold(g: Grid, centers: Seq<IVec3>, o: BrushOptions, n: int) -> Grid
    decreases n,
{
    if n <= 0 {
        g
    } else {
        let h = brush_fold(g, centers, o, n - 1);
        (h.0, h.1, h.2, brush_cells(h, centers[n - 1], o))
    }
}

/// `q` is `p` or a reflection of `p` through the middle of the volume on
/// some of the mirrored axes.
pub open spec fn is_mirror_of(sx: int, sy: int, sz: int, p: IVec3, m: MirrorAxes, q: IVec3) -> bool {
    &&& (q.x == p.x || (m.x && q.x == sx - 1 - p.x))
    &&& (q.y == p.y || (m.y && q.y == sy - 1 - p.y))
    &&& (q.z == p.z || (m.z && q.z == sz - 1 - p.z))
}

/// The reflections of `p` fit in `i32`.
pub open spec fn mirror_fits(sx: int, sy: int, sz: int, p: IVec3, m: MirrorAxes) -> bool {
    &&& m.x ==> fits_i32(sx - 1 - p.x)
    &&& m.y ==> fits_i32(sy - 1 - p.y)
    &&& m.z ==> fits_i32(sz - 1 - p.z)
}

/// Lexicographic order on `(x, y, z)`.
pub open spec fn lex_lt(a: IVec3, b: IVec3) -> bool {
    a.x < b.x || (a.x == b.x && (a.y < b.y || (a.y == b.y && a.z < b.z)))
}

pub open spec fn strictly_sorted(s: Seq<IVec3>) -> bool {
    forall|i: int, j: int| 0 <= i < j < s.len() ==> lex_lt(#[trigger] s[i], #[trigger] s[j])
}

/// The mirrored brush centers: all mirror images of `p`, each once, in
/// increasing `(x, y, z)` order.
pub open spec fn mirror_centers(sx: int, sy: int, sz: int, p: IVec3, m: MirrorAxes, s: Seq<IVec3>) -> bool {
    &&& strictly_sorted(s)
    &&& forall|q: IVec3| s.contains(q) <==> is_mirror_of(sx, sy, sz, p, m, q)
}

/// Two strictly sorted sequences with the same elements are equal; the
/// mirrored centers are thus determined by `p`, the axes and the size.
pub proof fn lemma_sorted_unique(s1: Seq<IVec3>, s2: Seq<IVec3>)
    requires
        strictly_sorted(s1),
        strictly_sorted(s2),
        forall|q: IVec3| s1.contains(q) <==> s2.contains(q),
    ensures
        s1 == s2,
    decreases s1.len(),
{
    if s1.len() == 0 {
        if s2.len() > 0 {
            assert(s2.contains(s2[0]));
        }
        assert(s1 =~= s2);
    } else {
        assert(s1.contains(s1.last()));
        assert(s2.len() > 0);
        assert(s2.contains(s2.last()));
        let a = s1.last();
        let b = s2.last();
        let ia = choose|i: int| 0 <= i < s2.len() && s2[i] == a;
        let ib = choose|i: int| 0 <= i < s1.len() && s1[i] == b;
        if ia < s2.len() - 1 {
            assert(lex_lt(s2[ia], s2[s2.len() - 1]));
        }
        if ib < s1.len() - 1 {
            assert(lex_lt(s1[ib], s1[s1.len() - 1]));
        }
        assert(a == b) by {
            if a != b {
                assert(ia < s2.len() - 1 || ia == s2.len() - 1);
                assert(ib < s1.len() - 1 || ib == s1.len() - 1);
            }
        }
        let t1 = s1.drop_last();
        let t2 = s2.drop_last();
        assert forall|q: IVec3| t1.contains(q) <==> t2.contains(q) by {
            if t1.contains(q) {
                let i = choose|i: int| 0 <= i < t1.len() && t1[i] == q;
                assert(s1[i] == q);
                assert(lex_lt(s1[i], s1[s1.len() - 1]));
                assert(s2.contains(q));
                let j = choose|j: int| 0 <= j < s2.len() && s2[j] == q;
                assert(j != s2.len() - 1);
                assert(t2[j] == q);
            }
            if t2.contains(q) {
                let i = choose|i: int| 0 <= i < t2.len() && t2[i] == q;
                assert(s2[i] == q);
                assert(lex_lt(s2[i], s2[s2.len() - 1]));
                assert(s1.contains(q));
                let j = choose|j: int| 0 <= j < s1.len() && s1[j] == q;
                assert(j != s1.len() - 1);
                assert(t1[j] == q);
            }
        }
        lemma_sorted_unique(t1, t2);
        assert(s1 =~= t1.push(a));
        assert(s2 =~= t2.push(b));
    }
}

fn lex_less(a: IVec3, b: IVec3) -> (r: bool)
    ensures
        r == lex_lt(a, b),
{
    a.x < b.x || (a.x == b.x && (a.y < b.y || (a.y == b.y && a.z < b.z)))
}

/// How many entries of `cand` lie above `l` in `(x, y, z)` order.
spec fn count_above(cand: Seq<IVec3>, l: IVec3) -> nat
    decreases cand.len(),
{
    if cand.len() == 0 {
        0
    } else {
        count_above(cand.drop_last(), l) + if lex_lt(l, cand.last()) {
            1nat
        } else {
            0nat
        }
    }
}

proof fn lemma_count_above_le(cand: Seq<IVec3>, l: IVec3)
    ensures
        count_above(cand, l) <= cand.len(),
    decreases cand.len(),
{
    if cand.len() > 0 {
        lemma_count_above_le(cand.drop_last(), l);
    }
}

/// Moving the bound up past an entry drops the count.
proof fn lemma_count_above_drops(cand: Seq<IVec3>, l: IVec3, b: IVec3)
    requires
        lex_lt(l, b),
        cand.contains(b),
    ensures
        count_above(cand, b) < count_above(cand, l),
    decreases cand.len(),
{
    let t = choose|t: int| 0 <= t < cand.len() && cand[t] == b;
    if t == cand.len() - 1 {
        lemma_count_above_mono(cand.drop_last(), l, b);
    } else {
        assert(cand.drop_last()[t] == b);
        lemma_count_above_drops(cand.drop_last(), l, b);
    }
}

proof fn lemma_count_above_mono(cand: Seq<IVec3>, l: IVec3, b: IVec3)
    requires
        lex_lt(l, b),
    ensures
        count_above(cand, b) <= count_above(cand, l),
    decreases cand.len(),
{
    if cand.len() > 0 {
        lemma_count_above_mono(cand.drop_last(), l, b);
    }
}

/// The brush centers of a dab at `p` with mirroring, sorted by `(x, y, z)`
/// without repeats.
fn mirrored_points(model: &VoxelModel, p: IVec3, m: MirrorAxes) -> (pts: Vec<IVec3>)
    requires
        model.wf(),
        mirror_fits(model.sx() as int, model.sy() as int, model.sz() as int, p, m),
    ensures
        mirror_centers(model.sx() as int, model.sy() as int, model.sz() as int, p, m, pts@),
{
    let (sx, sy, sz) = model.size();
    let ghost sxi = sx as int;
    let ghost syi = sy as int;
    let ghost szi = sz as int;
    let ax = if m.x {
        (sx as i32 - 1) - p.x
    } else {
        p.x
    };
    let ay = if m.y {
        (sy as i32 - 1) - p.y
    } else {
        p.y
    };
    let az = if m.z {
        (sz as i32 - 1) - p.z
    } else {
        p.z
    };
    // every mirror image, possibly repeated
    let cand: Vec<IVec3> = vec![
        IVec3::new(p.x, p.y, p.z),
        IVec3::new(ax, p.y, p.z),
        IVec3::new(p.x, ay, p.z),
        IVec3::new(ax, ay, p.z),
        IVec3::new(p.x, p.y, az),
        IVec3::new(ax, p.y, az),
        IVec3::new(p.x, ay, az),
        IVec3::new(ax, ay, az),
    ];
    assert forall|q: IVec3| cand@.contains(q) <==> is_mirror_of(sxi, syi, szi, p, m, q) by {
        if is_mirror_of(sxi, syi, szi, p, m, q) {
            let t = (if q.x == p.x { 0int } else { 1int }) + (if q.y == p.y { 0int } else { 2int }) + (
            if q.z == p.z { 0int } else { 4int });
            assert(cand@[t] == q);
        }
        if cand@.contains(q) {
            let t = choose|t: int| 0 <= t < cand@.len() && cand@[t] == q;
            assert(0 <= t < 8);
        }
    }
    let mut out: Vec<IVec3> = Vec::new();
    // Repeatedly take the smallest image above the last one taken.
    let mut done = false;
    proof {
        lemma_count_above_le(cand@, p);
    }
    while !done
        invariant
            cand@.len() == 8,
            forall|q: IVec3| cand@.contains(q) <==> is_mirror_of(sxi, syi, szi, p, m, q),
            strictly_sorted(out@),
            forall|q: IVec3| out@.contains(q) ==> cand@.contains(q),
            forall|q: IVec3|
                cand@.contains(q) && (out@.len() > 0 && !lex_lt(out@.last(), q)) ==> out@.contains(q),
            done ==> forall|q: IVec3| cand@.contains(q) ==> out@.contains(q),
        decreases (if out@.len() == 0 {
            9int
        } else {
            count_above(cand@, out@.last()) as int
        }) + (if done {
            0int
        } else {
            1int
        }),
    {
        let mut best: Option<IVec3> = None;
        let mut t: usize = 0;
        while t < cand.len()
            invariant
                t <= cand.len(),
                cand@.len() == 8,
                best matches Some(b) ==> cand@.contains(b) && (out@.len() == 0 || lex_lt(out@.last(), b)),
                forall|u: int|
                    0 <= u < t && (out@.len() == 0 || lex_lt(out@.last(), #[trigger] cand@[u]))
                        ==> (best matches Some(b) && !lex_lt(cand@[u], b)),
            decreases cand.len() - t,
        {
            let q = cand[t];
            let above = match out.last() {
                None => true,
                Some(l) => lex_less(*l, q),
            };
            if above {
                let take = match best {
                    None => true,
                    Some(b) => lex_less(q, b),
                };
                if take {
                    best = Some(q);
                }
            }
            t = t + 1;
        }
        match best {
            Some(b) => {
                proof {
                    assert forall|a: int, c: int| 0 <= a < c < out@.push(b).len() implies lex_lt(
                        #[trigger] out@.push(b)[a],
                        #[trigger] out@.push(b)[c],
                    ) by {
                        if c == out@.len() as int {
                            assert(out@.push(b)[c] == b);
                            assert(out@.push(b)[a] == out@[a]);
                            if a < out@.len() - 1 {
                                assert(lex_lt(out@[a], out@[out@.len() - 1]));
                            }
                        } else {
                            assert(out@.push(b)[a] == out@[a]);
                            assert(out@.push(b)[c] == out@[c]);
                        }
                    }
                    assert forall|q: IVec3| out@.push(b).contains(q) implies cand@.contains(q) by {
                        let k = choose|k: int| 0 <= k < out@.push(b).len() && out@.push(b)[k] == q;
                        if k < out@.len() {
                            assert(out@[k] == q);
                            assert(out@.contains(q));
                        }
                    }
                    assert forall|q: IVec3|
                        cand@.contains(q) && !lex_lt(out@.push(b).last(), q) implies out@.push(b).contains(
                        q) by {
                        let u = choose|u: int| 0 <= u < cand@.len() && cand@[u] == q;
                        if out@.len() > 0 && !lex_lt(out@.last(), q) {
                            let k = choose|k: int| 0 <= k < out@.len() && out@[k] == q;
                            assert(out@.push(b)[k] == q);
                        } else {
                            assert(!lex_lt(cand@[u], b));
                            assert(q == b);
                            assert(out@.push(b)[out@.len() as int] == q);
                        }
                    }
                    if out@.len() > 0 {
                        lemma_count_above_drops(cand@, out@.last(), b);
                    } else {
                        lemma_count_above_le(cand@, b);
                    }
                }
                out.push(b);
                proof {
                    assert(out@.last() == b);
                }
            },
            None => {
                proof {
                    assert forall|q: IVec3| cand@.contains(q) implies out@.contains(q) by {
                        let u = choose|u: int| 0 <= u < cand@.len() && cand@[u] == q;
                        if out@.len() > 0 && lex_lt(out@.last(), q) {
                            assert(lex_lt(out@.last(), cand@[u]));
                        }
                    }
                }
                done = true;
            },
        }
    }
    out
}

/// The position that `(x, y, z)` takes its voxel from when a volume of size
/// `(sx, sy, sz)` is mirrored along `axis`; every position for an unknown axis.
pub open spec fn mirror_source(sx: int, sy: int, sz: int, axis: char, x: int, y: int, z: int) -> (
    int,
    int,
    int,
) {
    let k = axis_index(axis);
    (
        if k == 0 {
            sx - 1 - x
        } else {
            x
        },
        if k == 1 {
            sy - 1 - y
        } else {
            y
        },
        if k == 2 {
            sz - 1 - z
        } else {
            z
        },
    )
}

/// `new` is `old` mirrored along `axis`.
pub open spec fn is_mirrored(old: &VoxelModel, new: &VoxelModel, axis: char) -> bool {
    &&& new.wf()
    &&& new.sx() == old.sx()
    &&& new.sy() == old.sy()
    &&& new.sz() == old.sz()
    &&& forall|x: int, y: int, z: int| #[trigger]
        new.voxel(x, y, z) == {
            let q = mirror_source(old.sx() as int, old.sy() as int, old.sz() as int, axis, x, y, z);
            old.voxel(q.0, q.1, q.2)
        }
}

/// MagicaVoxel-style axis mirror of the whole volume (`'x'|'y'|'z'`, either
/// case); another axis name changes nothing.
pub fn mirror_model(model: &mut VoxelModel, axis: char) -> (r: Result<(), CoreError>)
    requires
        old(model).wf(),
    ensures
        r is Ok,
        is_mirrored(old(model), final(model), axis),
{
    let k = axis_number(axis);
    if k == 3 {
        return Ok(());
    }
    let m = model.mirrored(k);
    *model = m;
    Ok(())
}

/// Mirroring twice along the same axis gives back the model.
pub proof fn lemma_mirror_twice(m0: &VoxelModel, m1: &VoxelModel, m2: &VoxelModel, axis: char)
    requires
        m0.wf(),
        is_mirrored(m0, m1, axis),
        is_mirrored(m1, m2, axis),
    ensures
        m2.same_as(m0),
{
    assert forall|x: int, y: int, z: int| #[trigger] m2.voxel(x, y, z) == m0.voxel(x, y, z) by {
        let q = mirror_source(m0.sx() as int, m0.sy() as int, m0.sz() as int, axis, x, y, z);
        assert(m1.voxel(q.0, q.1, q.2) == m0.voxel(x, y, z));
    }
    m2.lemma_cells_from_voxels(m0);
}

/// Counting changes across two steps that never touch the same position twice.
pub proof fn lemma_diff_count_split(a: Seq<u8>, b: Seq<u8>, c: Seq<u8>)
    requires
        a.len() == b.len(),
        b.len() == c.len(),
        forall|i: int| 0 <= i < a.len() ==> b[i] == a[i] || c[i] == b[i],
    ensures
        diff_count(a, c) == diff_count(a, b) + diff_count(b, c),
    decreases a.len(),
{
    if a.len() > 0 {
        let n = a.len() - 1;
        lemma_diff_count_split(a.drop_last(), b.subrange(0, n), c.subrange(0, n));
        assert(b.drop_last() == b.subrange(0, n));
        assert(c.subrange(0, n).subrange(0, n) =~= c.subrange(0, n));
    }
}

/// A dab writes only its brush color.
proof fn lemma_brush_cells_values(g: Grid, c: IVec3, o: BrushOptions)
    ensures
        brush_cells(g, c, o).len() == g.3.len(),
        forall|i: int|
            0 <= i < g.3.len() ==> #[trigger] brush_cells(g, c, o)[i] == g.3[i] || brush_cells(
                g,
                c,
                o,
            )[i] == brush_color(o),
{
}

/// Paint one position.
fn paint_point(model: &mut VoxelModel, c: IVec3, color: ColorIndex) -> (n: usize)
    requires
        old(model).wf(),
    ensures
        painted_result(
            old(model),
            final(model),
            Ok(n),
            |x: int, y: int, z: int| x == c.x && y == c.y && z == c.z,
            color,
        ),
{
    let ghost m0 = *model;
    let n = set_if_changed(model, c.x, c.y, c.z, color);
    proof {
        let sx = m0.sx() as int;
        let sy = m0.sy() as int;
        let sz = m0.sz() as int;
        lemma_diff_count_self(m0.cells());
        lemma_paint_nothing(sx, sy, m0.cells(), |x: int, y: int, z: int| false, color);
        lemma_paint_point(
            sx,
            sy,
            sz,
            m0.cells(),
            m0.cells(),
            model.cells(),
            |x: int, y: int, z: int| false,
            |x: int, y: int, z: int| x == c.x && y == c.y && z == c.z,
            c.x as int,
            c.y as int,
            c.z as int,
            color,
        );
        if m0.contains(c.x as int, c.y as int, c.z as int) {
            m0.lemma_voxel_cells(c.x as int, c.y as int, c.z as int);
            lemma_diff_count_update(m0.cells(), m0.cells(), m0.index_of(c.x as int, c.y as int, c.z as int), color);
        }
    }
    n
}

/// One dab of the brush at `center`.
fn apply_once(model: &mut VoxelModel, center: IVec3, opts: BrushOptions) -> (r: Result<usize, CoreError>)
    requires
        old(model).wf(),
        brush_fits(center, opts),
    ensures
        final(model).wf(),
        final(model).sx() == old(model).sx(),
        final(model).sy() == old(model).sy(),
        final(model).sz() == old(model).sz(),
        final(model).cells() == brush_cells(old(model).grid(), center, opts),
        r matches Ok(n) && n == diff_count(old(model).cells(), final(model).cells()),
{
    match opts.kind {
        BrushKind::Voxel | BrushKind::Line => Ok(paint_point(model, center, opts.color)),
        BrushKind::Erase => Ok(paint_point(model, center, 0)),
        BrushKind::Box => fill_box(model, center, opts.radius, opts.color),
        BrushKind::Sphere => fill_sphere(model, center, opts.radius, opts.color),
        BrushKind::FloodFill => flood_fill(model, center, opts.color),
        BrushKind::Circle => fill_circle(model, center, opts.radius, 'z', opts.color),
        BrushKind::Plane => {
            let r = opts.radius as i32;
            fill_plane_rect(
                model,
                IVec3::new(center.x - r, center.y - r, center.z),
                IVec3::new(center.x + r, center.y + r, center.z),
                'z',
                opts.color,
            )
        },
    }
}

/// The mirrored brush centers of a dab at `p` (the one sequence satisfying
/// [`mirror_centers`]).
pub open spec fn mirror_center_seq(sx: int, sy: int, sz: int, p: IVec3, m: MirrorAxes) -> Seq<IVec3> {
    choose|s: Seq<IVec3>| mirror_centers(sx, sy, sz, p, m, s)
}

/// Apply a brush at `center`, and at its mirror images on the mirrored axes,
/// one dab per distinct center in increasing `(x, y, z)` order. Returns
/// number of voxels changed.
pub fn apply_brush(model: &mut VoxelModel, center: IVec3, opts: BrushOptions) -> (r: Result<
    usize,
    CoreError,
>)
    requires
        old(model).wf(),
        mirror_fits(old(model).sx() as int, old(model).sy() as int, old(model).sz() as int, center, opts.mirror),
        forall|q: IVec3|
            is_mirror_of(old(model).sx() as int, old(model).sy() as int, old(model).sz() as int, center, opts.mirror, q)
                ==> brush_fits(q, opts),
    ensures
        final(model).wf(),
        final(model).grid() == ({
            let cs = mirror_center_seq(
                old(model).sx() as int,
                old(model).sy() as int,
                old(model).sz() as int,
                center,
                opts.mirror,
            );
            brush_fold(old(model).grid(), cs, opts, cs.len() as int)
        }),
        r matches Ok(n) && n == diff_count(old(model).cells(), final(model).cells()),
{
    let ghost m0 = *model;
    let ghost g0 = m0.grid();
    let centers = mirrored_points(model, center, opts.mirror);
    proof {
        let cs = mirror_center_seq(m0.sx() as int, m0.sy() as int, m0.sz() as int, center, opts.mirror);
        assert(mirror_centers(m0.sx() as int, m0.sy() as int, m0.sz() as int, center, opts.mirror, centers@));
        lemma_sorted_unique(centers@, cs);
        lemma_diff_count_self(m0.cells());
        assert forall|k: int| 0 <= k < centers@.len() implies brush_fits(#[trigger] centers@[k], opts) by {
            assert(centers@.contains(centers@[k]));
        }
        lemma_volume_bound(m0.sx() as int, m0.sy() as int, m0.sz() as int);
    }
    let mut changed: usize = 0;
    let mut i: usize = 0;
    while i < centers.len()
        invariant
            i <= centers.len(),
            model.wf(),
            m0.wf(),
            m0.cells().len() <= 16777216,
            model.grid() == brush_fold(g0, centers@, opts, i as int),
            model.sx() == m0.sx(),
            model.sy() == m0.sy(),
            model.sz() == m0.sz(),
            g0 == m0.grid(),
            forall|j: int|
                0 <= j < model.cells().len() ==> model.cells()[j] == m0.cells()[j] || model.cells()[j]
                    == brush_color(opts),
            changed == diff_count(m0.cells(), model.cells()),
            changed <= m0.cells().len(),
            forall|k: int| 0 <= k < centers@.len() ==> brush_fits(#[trigger] centers@[k], opts),
        decreases centers.len() - i,
    {
        let ghost cur = model.cells();
        let ghost gcur = model.grid();
        proof {
            assert(centers@.contains(centers@[i as int]));
        }
        let k = apply_once(model, centers[i], opts)?;
        proof {
            lemma_brush_cells_values(gcur, centers@[i as int], opts);
            assert forall|j: int| 0 <= j < cur.len() implies cur[j] == m0.cells()[j] || model.cells()[j]
                == cur[j] by {
                assert(model.cells()[j] == cur[j] || model.cells()[j] == brush_color(opts));
            }
            lemma_diff_count_split(m0.cells(), cur, model.cells());
            lemma_diff_count_bound(m0.cells(), model.cells());
        }
        changed = changed + k;
        i = i + 1;
    }
    Ok(changed)
}


/// Whether `v` fits an `i32`.
fn fits_i32_check(v: i64) -> (b: bool)
    ensures
        b == fits_i32(v as int),
{
    i32::MIN as i64 <= v && v <= i32::MAX as i64
}

/// Whether the cube of half-extent `r` around `c` has `i32` corners.
pub fn cube_fits_check(c: IVec3, r: i64) -> (b: bool)
    requires
        -0x1_0000_0000 <= r <= 0x1_0000_0000,
    ensures
        b == cube_fits(c, r as int),
{
    fits_i32_check(c.x as i64 - r) && fits_i32_check(c.x as i64 + r) && fits_i32_check(c.y as i64 - r)
        && fits_i32_check(c.y as i64 + r) && fits_i32_check(c.z as i64 - r) && fits_i32_check(
        c.z as i64 + r,
    )
}

/// Whether squared distances within `radius` fit an `i64`.
pub fn ball_radius_fits_check(radius: u32) -> (b: bool)
    ensures
        b == ball_radius_fits(radius as int),
{
    let r = radius as u128;
    assert(r * r <= 0xffff_ffff * 0xffff_ffff) by (nonlinear_arith)
        requires
            r <= 0xffff_ffff,
    ;
    let sq = r * r;
    assert(3 * radius * radius == 3 * sq) by (nonlinear_arith)
        requires
            sq == r * r,
            r == radius,
    ;
    3 * sq <= i64::MAX as u128
}

/// Whether a disk of `radius` around `c` across `axis` has `i32` bounds on its plane.
pub fn disk_fits_check(c: IVec3, radius: u32, axis: char) -> (b: bool)
    ensures
        b == disk_fits(c, radius, axis),
{
    let r = (radius as i32) as i64;
    let k = axis_number(axis);
    if k == 3 {
        return true;
    }
    (k == 0 || (fits_i32_check(c.x as i64 - r) && fits_i32_check(c.x as i64 + r))) && (k == 1 || (
    fits_i32_check(c.y as i64 - r) && fits_i32_check(c.y as i64 + r))) && (k == 2 || (fits_i32_check(
        c.z as i64 - r,
    ) && fits_i32_check(c.z as i64 + r)))
}

/// Whether the coordinate differences of a line from `a` to `b` fit.
pub fn line_fits_check(a: IVec3, b: IVec3) -> (ok: bool)
    ensures
        ok == line_fits(a, b),
{
    let dx = b.x as i64 - a.x as i64;
    let dy = b.y as i64 - a.y as i64;
    let dz = b.z as i64 - a.z as i64;
    -(i32::MAX as i64) <= dx && dx <= i32::MAX as i64 && -(i32::MAX as i64) <= dy && dy
        <= i32::MAX as i64 && -(i32::MAX as i64) <= dz && dz <= i32::MAX as i64
}

/// Whether a dab of the brush at `c` stays within `i32` coordinates.
pub fn brush_fits_check(c: IVec3, o: BrushOptions) -> (b: bool)
    ensures
        b == brush_fits(c, o),
{
    let r = (o.radius as i32) as i64;
    match o.kind {
        BrushKind::Box => cube_fits_check(c, r),
        BrushKind::Sphere => cube_fits_check(c, o.radius as i64) && ball_radius_fits_check(o.radius),
        BrushKind::Circle => disk_fits_check(c, o.radius, 'z'),
        BrushKind::Plane => fits_i32_check(c.x as i64 - r) && fits_i32_check(c.x as i64 + r)
            && fits_i32_check(c.y as i64 - r) && fits_i32_check(c.y as i64 + r),
        _ => true,
    }
}

/// Mirror combination `k` (bit 0: x, bit 1: y, bit 2: z) of the candidate coordinates.
spec fn combo(xs: Seq<i32>, ys: Seq<i32>, zs: Seq<i32>, k: int) -> IVec3 {
    IVec3 { x: xs[k % 2], y: ys[(k / 2) % 2], z: zs[k / 4] }
}

/// Whether `apply_brush` can be asked to stamp at `center` in `model`: every
/// mirror image has `i32` coordinates and every dab fits.
pub fn brush_fits_everywhere(model: &VoxelModel, center: IVec3, opts: BrushOptions) -> (b: bool)
    requires
        model.wf(),
    ensures
        b == (mirror_fits(model.sx() as int, model.sy() as int, model.sz() as int, center, opts.mirror)
            && forall|q: IVec3|
            is_mirror_of(model.sx() as int, model.sy() as int, model.sz() as int, center, opts.mirror, q)
                ==> brush_fits(q, opts)),
{
    let ghost sx = model.sx() as int;
    let ghost sy = model.sy() as int;
    let ghost sz = model.sz() as int;
    let (mx, my, mz) = model.size();
    let m = opts.mirror;
    let ox = mx as i64 - 1 - center.x as i64;
    let oy = my as i64 - 1 - center.y as i64;
    let oz = mz as i64 - 1 - center.z as i64;
    if (m.x && !fits_i32_check(ox)) || (m.y && !fits_i32_check(oy)) || (m.z && !fits_i32_check(oz)) {
        return false;
    }
    let xs: [i32; 2] = [center.x, if m.x { ox as i32 } else { center.x }];
    let ys: [i32; 2] = [center.y, if m.y { oy as i32 } else { center.y }];
    let zs: [i32; 2] = [center.z, if m.z { oz as i32 } else { center.z }];
    let mut ok = true;
    let mut i: usize = 0;
    while i < 8
        invariant
            i <= 8,
            sx == model.sx() && sy == model.sy() && sz == model.sz(),
            mirror_fits(sx, sy, sz, center, m),
            xs@ == seq![center.x, if m.x { (sx - 1 - center.x) as i32 } else { center.x }],
            ys@ == seq![center.y, if m.y { (sy - 1 - center.y) as i32 } else { center.y }],
            zs@ == seq![center.z, if m.z { (sz - 1 - center.z) as i32 } else { center.z }],
            ok == forall|k: int| 0 <= k < i ==> brush_fits(#[trigger] combo(xs@, ys@, zs@, k), opts),
        decreases 8 - i,
    {
        let q = IVec3 { x: xs[i % 2], y: ys[(i / 2) % 2], z: zs[i / 4] };
        assert(q == combo(xs@, ys@, zs@, i as int));
        let f = brush_fits_check(q, opts);
        ok = ok && f;
        i = i + 1;
    }
    proof {
        assert forall|q: IVec3| is_mirror_of(sx, sy, sz, center, m, q) implies exists|k: int|
            0 <= k < 8 && q == #[trigger] combo(xs@, ys@, zs@, k) by {
            let a: int = if q.x == center.x { 0 } else { 1 };
            let b: int = if q.y == center.y { 0 } else { 1 };
            let c: int = if q.z == center.z { 0 } else { 1 };
            let k = a + 2 * b + 4 * c;
            assert(k % 2 == a && (k / 2) % 2 == b && k / 4 == c);
            assert(q == combo(xs@, ys@, zs@, k));
        }
        if ok {
            assert forall|q: IVec3| is_mirror_of(sx, sy, sz, center, m, q) implies brush_fits(q, opts) by {
                let k = choose|k: int| 0 <= k < 8 && q == #[trigger] combo(xs@, ys@, zs@, k);
                assert(brush_fits(combo(xs@, ys@, zs@, k), opts));
            }
        } else {
            let k = choose|k: int| 0 <= k < 8 && !brush_fits(#[trigger] combo(xs@, ys@, zs@, k), opts);
            let q = combo(xs@, ys@, zs@, k);
            assert(is_mirror_of(sx, sy, sz, center, m, q));
            assert(!brush_fits(q, opts));
        }
    }
    ok
}

/// The grid after one brush dab at `c`.
pub open spec fn dab_grid(g: Grid, c: IVec3, o: BrushOptions) -> Grid {
    (g.0, g.1, g.2, brush_cells(g, c, o))
}

proof fn lemma_painted_grid(g: Grid, region: spec_fn(int, int, int) -> bool, color: u8)
    requires
        g.0 > 0,
        g.1 > 0,
        g.2 > 0,
        g.3.len() == volume(g.0, g.1, g.2),
    ensures
        forall|x: int, y: int, z: int|
            in_volume(g.0, g.1, g.2, x, y, z) ==> #[trigger] grid_voxel(
                (g.0, g.1, g.2, painted(g.0, g.1, g.3, region, color)),
                x,
                y,
                z,
            ) == if region(x, y, z) {
                color
            } else {
                grid_voxel(g, x, y, z)
            },
{
    assert forall|x: int, y: int, z: int| in_volume(g.0, g.1, g.2, x, y, z) implies #[trigger] grid_voxel(
        (g.0, g.1, g.2, painted(g.0, g.1, g.3, region, color)),
        x,
        y,
        z,
    ) == if region(x, y, z) {
        color
    } else {
        grid_voxel(g, x, y, z)
    } by {
        lemma_index_decodes(g.0, g.1, g.2, x, y, z);
    }
}

proof fn lemma_square_bound(d: int, r: int)
    requires
        0 <= r,
        d * d <= r * r,
    ensures
        -r <= d <= r,
{
    if d > r {
        assert(d * d > r * r) by (nonlinear_arith)
            requires
                d > r,
                r >= 0,
        ;
    }
    if d < -r {
        assert(d * d > r * r) by (nonlinear_arith)
            requires
                d < -r,
                r >= 0,
        ;
    }
}

/// What one brush dab does to each voxel of the volume, written out per
/// brush: a voxel or line dab paints the center, erase clears it, a box
/// paints the cube of half-extent `radius`, a sphere every voxel within
/// Euclidean distance `radius`, a circle the disk of that radius on the
/// center's `z` plane, a plane the square on that plane, and a flood fill the
/// region connected to the center that holds the center's color (when that
/// is not already the brush's color). Every other voxel keeps its value. The
/// plane is stated where its corners fit `i32`, as `brush_fits` asks.
pub proof fn lemma_dab_cells(g: Grid, c: IVec3, o: BrushOptions)
    requires
        g.0 > 0,
        g.1 > 0,
        g.2 > 0,
        g.3.len() == volume(g.0, g.1, g.2),
    ensures
        forall|x: int, y: int, z: int|
            in_volume(g.0, g.1, g.2, x, y, z) ==> {
                let old_v = grid_voxel(g, x, y, z);
                let new_v = #[trigger] grid_voxel(dab_grid(g, c, o), x, y, z);
                let r = (o.radius as i32) as int;
                let rad = o.radius as int;
                let (dx, dy, dz) = (x - c.x, y - c.y, z - c.z);
                let at_center = x == c.x && y == c.y && z == c.z;
                new_v == match o.kind {
                    BrushKind::Voxel | BrushKind::Line => if at_center { o.color } else { old_v },
                    BrushKind::Erase => if at_center { 0 } else { old_v },
                    BrushKind::Box => if -r <= dx <= r && -r <= dy <= r && -r <= dz <= r {
                        o.color
                    } else {
                        old_v
                    },
                    BrushKind::Sphere => if dx * dx + dy * dy + dz * dz <= rad * rad {
                        o.color
                    } else {
                        old_v
                    },
                    BrushKind::Circle => if z == c.z && 0 <= r && dx * dx + dy * dy <= r * r {
                        o.color
                    } else {
                        old_v
                    },
                    BrushKind::Plane => if !(fits_i32(c.x - r) && fits_i32(c.x + r) && fits_i32(c.y - r)
                        && fits_i32(c.y + r)) {
                        new_v
                    } else if z == c.z && (-r <= dx <= r && -r <= dy <= r || r <= dx <= -r && r <= dy
                        <= -r) {
                        o.color
                    } else {
                        old_v
                    },
                    BrushKind::FloodFill => if grid_contains(g, c.x as int, c.y as int, c.z as int)
                        && grid_voxel(g, c.x as int, c.y as int, c.z as int) != o.color && connected(
                        g,
                        c,
                        x,
                        y,
                        z,
                    ) {
                        o.color
                    } else {
                        old_v
                    },
                }
            },
{
    let r = (o.radius as i32) as int;
    let rad = o.radius as int;
    match o.kind {
        BrushKind::Voxel | BrushKind::Line => {
            lemma_painted_grid(g, |x: int, y: int, z: int| x == c.x && y == c.y && z == c.z, o.color);
        },
        BrushKind::Erase => {
            lemma_painted_grid(g, |x: int, y: int, z: int| x == c.x && y == c.y && z == c.z, 0);
        },
        BrushKind::Box => {
            lemma_painted_grid(g, |x: int, y: int, z: int| in_cube(c, r, x, y, z), o.color);
        },
        BrushKind::Sphere => {
            let region = |x: int, y: int, z: int| in_cube(c, rad, x, y, z) && in_ball(c, rad, x, y, z);
            lemma_painted_grid(g, region, o.color);
            assert forall|x: int, y: int, z: int|
                #![trigger region(x, y, z)]
                region(x, y, z) == ((x - c.x) * (x - c.x) + (y - c.y) * (y - c.y) + (z - c.z) * (z
                    - c.z) <= rad * rad) by {
                let (dx, dy, dz) = (x - c.x, y - c.y, z - c.z);
                if dx * dx + dy * dy + dz * dz <= rad * rad {
                    assert(0 <= dx * dx && 0 <= dy * dy && 0 <= dz * dz) by (nonlinear_arith);
                    lemma_square_bound(dx, rad);
                    lemma_square_bound(dy, rad);
                    lemma_square_bound(dz, rad);
                }
            }
        },
        BrushKind::Circle => {
            let region = |x: int, y: int, z: int| in_disk(c, r, 'z', x, y, z);
            lemma_painted_grid(g, region, o.color);
            assert forall|x: int, y: int, z: int|
                #![trigger region(x, y, z)]
                region(x, y, z) == (z == c.z && 0 <= r && (x - c.x) * (x - c.x) + (y - c.y) * (y - c.y)
                    <= r * r) by {
                let (dx, dy) = (x - c.x, y - c.y);
                if z == c.z && 0 <= r && dx * dx + dy * dy <= r * r {
                    assert(0 <= dx * dx && 0 <= dy * dy) by (nonlinear_arith);
                    lemma_square_bound(dx, r);
                    lemma_square_bound(dy, r);
                }
                assert((z - c.z) * (z - c.z) == 0 <== z == c.z);
            }
        },
        BrushKind::Plane => {
            let a = IVec3 { x: (c.x - r) as i32, y: (c.y - r) as i32, z: c.z };
            let b = IVec3 { x: (c.x + r) as i32, y: (c.y + r) as i32, z: c.z };
            lemma_painted_grid(g, |x: int, y: int, z: int| in_plane_rect(a, b, 'z', x, y, z), o.color);
            if fits_i32(c.x - r) && fits_i32(c.x + r) && fits_i32(c.y - r) && fits_i32(c.y + r) {
                assert(a.x == c.x - r && a.y == c.y - r && b.x == c.x + r && b.y == c.y + r);
            }
        },
        BrushKind::FloodFill => {
            lemma_painted_grid(g, |x: int, y: int, z: int| flood_region(g, c, o.color, x, y, z), o.color);
        },
    }
}

/// Without mirroring, applying a brush is one dab at the center (see
/// [`lemma_dab_cells`] for what a dab paints).
pub proof fn lemma_unmirrored_brush(g: Grid, c: IVec3, o: BrushOptions)
    requires
        !o.mirror.x && !o.mirror.y && !o.mirror.z,
    ensures
        ({
            let cs = mirror_center_seq(g.0, g.1, g.2, c, o.mirror);
            brush_fold(g, cs, o, cs.len() as int)
        }) == dab_grid(g, c, o),
{
    let one = seq![c];
    assert forall|q: IVec3| one.contains(q) <==> is_mirror_of(g.0, g.1, g.2, c, o.mirror, q) by {
        if is_mirror_of(g.0, g.1, g.2, c, o.mirror, q) {
            assert(q == c);
            assert(one[0] == q);
        }
    }
    assert(mirror_centers(g.0, g.1, g.2, c, o.mirror, one));
    let cs = mirror_center_seq(g.0, g.1, g.2, c, o.mirror);
    assert(mirror_centers(g.0, g.1, g.2, c, o.mirror, cs));
    lemma_sorted_unique(cs, one);
    assert(brush_fold(g, one, o, 0) == g);
}

} // verus!
