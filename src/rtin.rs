use vstd::prelude::*;
use crate::geometry::{Point, Triangle, Vertex};
use crate::heightmap::{Heightmap, RtinError};
use crate::label::{coords, coords_of, idx_to_label, is_pow2, is_power_of_two, label_of,
    lemma_coords_in_grid, lemma_node_shape, num_triangles, num_triangles_of, right_isosceles};
use crate::ratio::Ratio;

verus! {

/// Largest grid side whose hierarchy `2 (s - 1)^2` fits 32-bit indices.
pub const MAX_GRID_SIZE: u32 = 32769;

/// A node of the hierarchy: its corners and its approximation error.
#[derive(Debug, Clone, Copy, PartialEq, Eq, Structural)]
pub struct RtinTriangle {
    pub error: Ratio,
    /// Counter-clockwise, the right angle last.
    pub vertices: Triangle<Vertex>,
}

/// Everything that can be computed offline for a heightmap: the error of
/// every node of the triangle hierarchy, in level order.
#[derive(Debug, Clone)]
pub struct RtinData {
    pub min_height: u16,
    pub max_height: u16,
    pub grid_size: u32,
    pub triangles: Vec<RtinTriangle>,
}

pub open spec fn vertex_in_grid(v: Vertex, s: u32) -> bool {
    v.x < s && v.y < s
}

pub open spec fn node_fits(t: RtinTriangle, s: u32) -> bool {
    &&& t.error.wf()
    &&& vertex_in_grid(t.vertices.a, s)
    &&& vertex_in_grid(t.vertices.b, s)
    &&& vertex_in_grid(t.vertices.c, s)
}

/// The contents of a hierarchy.
pub struct RtinView {
    pub min_height: u16,
    pub max_height: u16,
    pub grid_size: u32,
    pub triangles: Seq<RtinTriangle>,
}

impl View for RtinData {
    type V = RtinView;

    open spec fn view(&self) -> RtinView {
        RtinView {
            min_height: self.min_height,
            max_height: self.max_height,
            grid_size: self.grid_size,
            triangles: self.triangles@,
        }
    }
}

/// A hierarchy of `2^(2k+1)` nodes for a grid of side `2^k + 1` that 32-bit
/// indices address, with corners on the grid and errors with a positive
/// denominator.
pub open spec fn view_wf(v: RtinView) -> bool {
    &&& v.grid_size <= MAX_GRID_SIZE
    &&& valid_side(v.grid_size as nat)
    &&& v.triangles.len() == num_triangles_of(v.grid_size as nat)
    &&& v.triangles.len() <= 0x8000_0000
    &&& forall|i: int| 0 <= i < v.triangles.len() ==> #[trigger] node_fits(v.triangles[i], v.grid_size)
}

impl RtinData {
    pub open spec fn wf(&self) -> bool {
        view_wf(self@)
    }
}

/// A side the hierarchy can be built for: `s >= 3` and `s - 1` a power of two.
pub open spec fn valid_side(s: nat) -> bool {
    s >= 3 && is_pow2((s - 1) as nat)
}

pub open spec fn dot(ux: int, uy: int, vx: int, vy: int) -> int {
    ux * vx + uy * vy
}

/// `d00 * d11 - d01^2` for `v0 = b - a`, `v1 = c - a`: the common denominator
/// of the barycentric coordinates.
pub open spec fn bary_denom(t: Triangle<Point>) -> int {
    let v0x = t.b.x - t.a.x;
    let v0y = t.b.y - t.a.y;
    let v1x = t.c.x - t.a.x;
    let v1y = t.c.y - t.a.y;
    dot(v0x, v0y, v0x, v0y) * dot(v1x, v1y, v1x, v1y) - dot(v0x, v0y, v1x, v1y) * dot(
        v0x,
        v0y,
        v1x,
        v1y,
    )
}

/// The weight of `b` at `(px, py)`, times `bary_denom(t)`.
pub open spec fn bary_v(t: Triangle<Point>, px: int, py: int) -> int {
    let v0x = t.b.x - t.a.x;
    let v0y = t.b.y - t.a.y;
    let v1x = t.c.x - t.a.x;
    let v1y = t.c.y - t.a.y;
    let v2x = px - t.a.x;
    let v2y = py - t.a.y;
    dot(v1x, v1y, v1x, v1y) * dot(v2x, v2y, v0x, v0y) - dot(v0x, v0y, v1x, v1y) * dot(
        v2x,
        v2y,
        v1x,
        v1y,
    )
}

/// The weight of `c` at `(px, py)`, times `bary_denom(t)`.
pub open spec fn bary_w(t: Triangle<Point>, px: int, py: int) -> int {
    let v0x = t.b.x - t.a.x;
    let v0y = t.b.y - t.a.y;
    let v1x = t.c.x - t.a.x;
    let v1y = t.c.y - t.a.y;
    let v2x = px - t.a.x;
    let v2y = py - t.a.y;
    dot(v0x, v0y, v0x, v0y) * dot(v2x, v2y, v1x, v1y) - dot(v0x, v0y, v1x, v1y) * dot(
        v2x,
        v2y,
        v0x,
        v0y,
    )
}

/// The weight of `a` at `(px, py)`, times `bary_denom(t)`.
pub open spec fn bary_u(t: Triangle<Point>, px: int, py: int) -> int {
    bary_denom(t) - bary_v(t, px, py) - bary_w(t, px, py)
}

/// Whether `(px, py)` lies in the closed triangle `t`: no barycentric
/// coordinate is negative.
pub open spec fn covers(t: Triangle<Point>, px: int, py: int) -> bool {
    &&& bary_denom(t) > 0
    &&& bary_u(t, px, py) >= 0
    &&& bary_v(t, px, py) >= 0
    &&& bary_w(t, px, py) >= 0
}

pub open spec fn min3(a: int, b: int, c: int) -> int {
    if a <= b && a <= c {
        a
    } else if b <= c {
        b
    } else {
        c
    }
}

pub open spec fn max3(a: int, b: int, c: int) -> int {
    if a >= b && a >= c {
        a
    } else if b >= c {
        b
    } else {
        c
    }
}

/// Whether `(x, y)` lies in the axis-aligned bounding box of `t`.
pub open spec fn in_bbox(t: Triangle<Point>, x: int, y: int) -> bool {
    &&& min3(t.a.x as int, t.b.x as int, t.c.x as int) <= x <= max3(
        t.a.x as int,
        t.b.x as int,
        t.c.x as int,
    )
    &&& min3(t.a.y as int, t.b.y as int, t.c.y as int) <= y <= max3(
        t.a.y as int,
        t.b.y as int,
        t.c.y as int,
    )
}

pub open spec fn abs(v: int) -> int {
    if v < 0 {
        -v
    } else {
        v
    }
}

/// `|interpolated - true height|` at `(x, y)`, times `bary_denom(t)`.
pub open spec fn deviation(hm: &Heightmap, t: Triangle<Point>, x: int, y: int) -> int {
    let ha = hm.pixel(t.a.x as int, t.a.y as int) as int;
    let hb = hm.pixel(t.b.x as int, t.b.y as int) as int;
    let hc = hm.pixel(t.c.x as int, t.c.y as int) as int;
    abs(
        bary_u(t, x, y) * ha + bary_v(t, x, y) * hb + bary_w(t, x, y) * hc - bary_denom(t)
            * hm.pixel(x, y),
    )
}

/// `m` is the largest scaled deviation over the lattice points that `t`
/// covers, or 0 when it covers none.
pub open spec fn is_max_deviation(hm: &Heightmap, t: Triangle<Point>, m: int) -> bool {
    &&& forall|x: int, y: int|
        in_bbox(t, x, y) && covers(t, x, y) ==> #[trigger] deviation(hm, t, x, y) <= m
    &&& (m == 0 || exists|x: int, y: int|
        in_bbox(t, x, y) && covers(t, x, y) && #[trigger] deviation(hm, t, x, y) == m)
}

/// The error of triangle `t`: the largest vertical distance between its
/// linear interpolation and the heightmap over the lattice points it covers,
/// as a ratio over `bary_denom(t)`; 0 for a degenerate triangle.
pub open spec fn is_triangle_error(hm: &Heightmap, t: Triangle<Point>, e: Ratio) -> bool {
    if bary_denom(t) > 0 {
        e.den == bary_denom(t) && is_max_deviation(hm, t, e.num as int)
    } else {
        e == (Ratio { num: 0, den: 1 })
    }
}

pub open spec fn has_point(s: Seq<Point>, x: int, y: int) -> bool {
    exists|k: int| 0 <= k < s.len() && s[k].x == x && s[k].y == y
}

proof fn lemma_has_point_push(s: Seq<Point>, p: Point, x: int, y: int)
    requires
        has_point(s, x, y) || (p.x == x && p.y == y),
    ensures
        has_point(s.push(p), x, y),
{
    if p.x == x && p.y == y {
        assert(s.push(p)[s.len() as int] == p);
    } else {
        let k = choose|k: int| 0 <= k < s.len() && s[k].x == x && s[k].y == y;
        assert(s.push(p)[k] == s[k]);
    }
}

fn min3_exec(a: u32, b: u32, c: u32) -> (r: u32)
    ensures
        r == min3(a as int, b as int, c as int),
{
    if a <= b && a <= c {
        a
    } else if b <= c {
        b
    } else {
        c
    }
}

fn max3_exec(a: u32, b: u32, c: u32) -> (r: u32)
    ensures
        r == max3(a as int, b as int, c as int),
{
    if a >= b && a >= c {
        a
    } else if b >= c {
        b
    } else {
        c
    }
}

pub open spec fn corners_below(t: Triangle<Point>, bound: int) -> bool {
    &&& t.a.x < bound && t.a.y < bound
    &&& t.b.x < bound && t.b.y < bound
    &&& t.c.x < bound && t.c.y < bound
}

/// Number of lattice rows of the bounding box of `t`.
pub open spec fn bbox_rows(t: Triangle<Point>) -> int {
    max3(t.a.y as int, t.b.y as int, t.c.y as int) - min3(t.a.y as int, t.b.y as int, t.c.y as int) + 1
}

/// Number of lattice columns of the bounding box of `t`.
pub open spec fn bbox_columns(t: Triangle<Point>) -> int {
    max3(t.a.x as int, t.b.x as int, t.c.x as int) - min3(t.a.x as int, t.b.x as int, t.c.x as int) + 1
}

/// The `k`-th lattice point of the bounding box of `t`, column by column
/// from the lowest `x`, and from the lowest `y` within a column.
pub open spec fn bbox_point(t: Triangle<Point>, k: int) -> Point {
    Point {
        x: (min3(t.a.x as int, t.b.x as int, t.c.x as int) + k / bbox_rows(t)) as u32,
        y: (min3(t.a.y as int, t.b.y as int, t.c.y as int) + k % bbox_rows(t)) as u32,
    }
}

/// Every lattice point of the bounding box of `t`, once each, column by
/// column.
pub fn points_in_bounding_box(t: &Triangle<Point>) -> (r: Vec<Point>)
    requires
        corners_below(*t, 0x8000_0000),
    ensures
        r@.len() == bbox_columns(*t) * bbox_rows(*t),
        forall|k: int| 0 <= k < r@.len() ==> #[trigger] r@[k] == bbox_point(*t, k),
        forall|k: int| 0 <= k < r@.len() ==> in_bbox(*t, #[trigger] r@[k].x as int, r@[k].y as int),
        forall|x: int, y: int| in_bbox(*t, x, y) ==> has_point(r@, x, y),
{
    let x0 = min3_exec(t.a.x, t.b.x, t.c.x);
    let x1 = max3_exec(t.a.x, t.b.x, t.c.x);
    let y0 = min3_exec(t.a.y, t.b.y, t.c.y);
    let y1 = max3_exec(t.a.y, t.b.y, t.c.y);
    let mut points: Vec<Point> = Vec::new();
    let ghost h = bbox_rows(*t);
    let mut i = x0;
    while i <= x1
        invariant
            h == bbox_rows(*t),
            points@.len() == (i - x0) * h,
            forall|k: int| 0 <= k < points@.len() ==> #[trigger] points@[k] == bbox_point(*t, k),
            x0 == min3(t.a.x as int, t.b.x as int, t.c.x as int),
            x1 == max3(t.a.x as int, t.b.x as int, t.c.x as int),
            y0 == min3(t.a.y as int, t.b.y as int, t.c.y as int),
            y1 == max3(t.a.y as int, t.b.y as int, t.c.y as int),
            x1 < 0x8000_0000,
            y1 < 0x8000_0000,
            x0 <= i <= x1 + 1,
            forall|k: int|
                0 <= k < points@.len() ==> in_bbox(
                    *t,
                    #[trigger] points@[k].x as int,
                    points@[k].y as int,
                ),
            forall|x: int, y: int| x0 <= x < i && y0 <= y <= y1 ==> has_point(points@, x, y),
        decreases x1 + 1 - i,
    {
        let mut j = y0;
        while j <= y1
            invariant
                h == bbox_rows(*t),
                points@.len() == (i - x0) * h + (j - y0),
                forall|k: int| 0 <= k < points@.len() ==> #[trigger] points@[k] == bbox_point(*t, k),
                x0 == min3(t.a.x as int, t.b.x as int, t.c.x as int),
                x1 == max3(t.a.x as int, t.b.x as int, t.c.x as int),
                y0 == min3(t.a.y as int, t.b.y as int, t.c.y as int),
                y1 == max3(t.a.y as int, t.b.y as int, t.c.y as int),
                x1 < 0x8000_0000,
                y1 < 0x8000_0000,
                x0 <= i <= x1,
                y0 <= j <= y1 + 1,
                forall|k: int|
                    0 <= k < points@.len() ==> in_bbox(
                        *t,
                        #[trigger] points@[k].x as int,
                        points@[k].y as int,
                    ),
                forall|x: int, y: int|
                    (x0 <= x < i && y0 <= y <= y1) || (x == i && y0 <= y < j) ==> has_point(
                        points@,
                        x,
                        y,
                    ),
            decreases y1 + 1 - j,
        {
            let p = Point { x: i, y: j };
            let ghost before = points@;
            proof {
                vstd::arithmetic::div_mod::lemma_fundamental_div_mod_converse(
                    before.len() as int,
                    h,
                    i - x0,
                    j - y0,
                );
                assert(p == bbox_point(*t, before.len() as int));
            }
            points.push(p);
            proof {
                assert forall|x: int, y: int|
                    (x0 <= x < i && y0 <= y <= y1) || (x == i && y0 <= y < j + 1) implies has_point(
                    points@,
                    x,
                    y,
                ) by {
                    lemma_has_point_push(before, p, x, y);
                }
            }
            j = j + 1;
        }
        proof {
            assert((i - x0) * h + h == (i + 1 - x0) * h) by (nonlinear_arith);
        }
        i = i + 1;
    }
    proof {
        assert(i - x0 == bbox_columns(*t));
    }
    points
}

proof fn lemma_mul_bound(a: int, b: int, ba: int, bb: int)
    requires
        -ba <= a <= ba,
        -bb <= b <= bb,
    ensures
        -(ba * bb) <= a * b <= ba * bb,
{
    assert(-(ba * bb) <= a * b <= ba * bb) by (nonlinear_arith)
        requires
            -ba <= a <= ba,
            -bb <= b <= bb,
    ;
}

proof fn lemma_weighted_bound(u: int, v: int, w: int, ha: int, hb: int, hc: int)
    requires
        u >= 0,
        v >= 0,
        w >= 0,
        0 <= ha <= 65535,
        0 <= hb <= 65535,
        0 <= hc <= 65535,
    ensures
        0 <= u * ha + v * hb + w * hc <= 65535 * (u + v + w),
{
    assert(0 <= u * ha + v * hb + w * hc <= 65535 * (u + v + w)) by (nonlinear_arith)
        requires
            u >= 0,
            v >= 0,
            w >= 0,
            0 <= ha <= 65535,
            0 <= hb <= 65535,
            0 <= hc <= 65535,
    ;
}

/// The error of one triangle of the heightmap, exactly, as a ratio over the
/// barycentric denominator.
fn triangle_error(hm: &Heightmap, t: &Triangle<Point>) -> (r: Ratio)
    requires
        hm.wf(),
        hm.width <= MAX_GRID_SIZE,
        corners_below(*t, hm.width as int),
        hm.width == hm.height,
    ensures
        r.wf(),
        is_triangle_error(hm, *t, r),
{
    let ax = t.a.x as i128;
    let ay = t.a.y as i128;
    let v0x = t.b.x as i128 - ax;
    let v0y = t.b.y as i128 - ay;
    let v1x = t.c.x as i128 - ax;
    let v1y = t.c.y as i128 - ay;
    proof {
        lemma_mul_bound(v0x as int, v0x as int, 0x8000, 0x8000);
        lemma_mul_bound(v0y as int, v0y as int, 0x8000, 0x8000);
        lemma_mul_bound(v0x as int, v1x as int, 0x8000, 0x8000);
        lemma_mul_bound(v0y as int, v1y as int, 0x8000, 0x8000);
        lemma_mul_bound(v1x as int, v1x as int, 0x8000, 0x8000);
        lemma_mul_bound(v1y as int, v1y as int, 0x8000, 0x8000);
    }
    let d00 = v0x * v0x + v0y * v0y;
    let d01 = v0x * v1x + v0y * v1y;
    let d11 = v1x * v1x + v1y * v1y;
    proof {
        lemma_mul_bound(d00 as int, d11 as int, 0x8000_0000, 0x8000_0000);
        lemma_mul_bound(d01 as int, d01 as int, 0x8000_0000, 0x8000_0000);
        assert(d01 * d01 >= 0) by (nonlinear_arith);
    }
    let denom = d00 * d11 - d01 * d01;
    if denom <= 0 {
        return Ratio { num: 0, den: 1 };
    }
    let ha = hm.get_pixel(t.a.x, t.a.y) as i128;
    let hb = hm.get_pixel(t.b.x, t.b.y) as i128;
    let hc = hm.get_pixel(t.c.x, t.c.y) as i128;
    let points = points_in_bounding_box(t);
    let mut max: i128 = 0;
    let mut k: usize = 0;
    while k < points.len()
        invariant
            hm.wf(),
            hm.width <= MAX_GRID_SIZE,
            hm.width == hm.height,
            corners_below(*t, hm.width as int),
            k <= points@.len(),
            denom == bary_denom(*t),
            0 < denom <= 0x4000_0000_0000_0000,
            -0x8000_0000 <= d00 <= 0x8000_0000,
            -0x8000_0000 <= d01 <= 0x8000_0000,
            -0x8000_0000 <= d11 <= 0x8000_0000,
            ax == t.a.x,
            ay == t.a.y,
            v0x == t.b.x - t.a.x,
            v0y == t.b.y - t.a.y,
            v1x == t.c.x - t.a.x,
            v1y == t.c.y - t.a.y,
            d00 == dot(v0x as int, v0y as int, v0x as int, v0y as int),
            d01 == dot(v0x as int, v0y as int, v1x as int, v1y as int),
            d11 == dot(v1x as int, v1y as int, v1x as int, v1y as int),
            ha == hm.pixel(t.a.x as int, t.a.y as int),
            hb == hm.pixel(t.b.x as int, t.b.y as int),
            hc == hm.pixel(t.c.x as int, t.c.y as int),
            forall|q: int|
                0 <= q < points@.len() ==> in_bbox(
                    *t,
                    #[trigger] points@[q].x as int,
                    points@[q].y as int,
                ),
            0 <= max <= 65535 * denom,
            forall|q: int|
                0 <= q < k && covers(*t, points@[q].x as int, points@[q].y as int) ==> deviation(
                    hm,
                    *t,
                    #[trigger] points@[q].x as int,
                    points@[q].y as int,
                ) <= max,
            max == 0 || exists|q: int|
                0 <= q < k && covers(*t, points@[q].x as int, points@[q].y as int) && deviation(
                    hm,
                    *t,
                    #[trigger] points@[q].x as int,
                    points@[q].y as int,
                ) == max,
        decreases points@.len() - k,
    {
        let p = points[k];
        proof {
            assert(in_bbox(*t, points@[k as int].x as int, points@[k as int].y as int));
        }
        let v2x = p.x as i128 - ax;
        let v2y = p.y as i128 - ay;
        proof {
            lemma_mul_bound(v2x as int, v0x as int, 0x8000, 0x8000);
            lemma_mul_bound(v2y as int, v0y as int, 0x8000, 0x8000);
            lemma_mul_bound(v2x as int, v1x as int, 0x8000, 0x8000);
            lemma_mul_bound(v2y as int, v1y as int, 0x8000, 0x8000);
        }
        let d20 = v2x * v0x + v2y * v0y;
        let d21 = v2x * v1x + v2y * v1y;
        proof {
            lemma_mul_bound(d11 as int, d20 as int, 0x8000_0000, 0x8000_0000);
            lemma_mul_bound(d01 as int, d21 as int, 0x8000_0000, 0x8000_0000);
            lemma_mul_bound(d00 as int, d21 as int, 0x8000_0000, 0x8000_0000);
            lemma_mul_bound(d01 as int, d20 as int, 0x8000_0000, 0x8000_0000);
        }
        let j = d11 * d20 - d01 * d21;
        let ghost px = p.x as int;
        let ghost py = p.y as int;
        let ghost old_max = max;
        if j >= 0 {
            let kk = d00 * d21 - d01 * d20;
            if kk >= 0 {
                let i = denom - j - kk;
                if i >= 0 {
                    let hp = hm.get_pixel(p.x, p.y) as i128;
                    proof {
                        lemma_weighted_bound(i as int, j as int, kk as int, ha as int, hb as int, hc as int);
                        lemma_mul_bound(ha as int, i as int, 65535, 0x4000_0000_0000_0000);
                        lemma_mul_bound(hb as int, j as int, 65535, 0x4000_0000_0000_0000);
                        lemma_mul_bound(hc as int, kk as int, 65535, 0x4000_0000_0000_0000);
                        lemma_mul_bound(denom as int, hp as int, denom as int, 65535);
                        assert(denom * hp >= 0) by (nonlinear_arith)
                            requires
                                denom > 0,
                                hp >= 0,
                        ;
                    }
                    let interpolated = ha * i + hb * j + hc * kk;
                    let diff = interpolated - denom * hp;
                    let error = if diff < 0 {
                        -diff
                    } else {
                        diff
                    };
                    proof {
                        assert(covers(*t, px, py));
                        assert(i * ha == ha * i && j * hb == hb * j && kk * hc == hc * kk) by (nonlinear_arith);
                        assert(error == deviation(hm, *t, px, py));
                    }
                    if error > max {
                        max = error;
                    }
                }
            }
        }
        proof {
            if max != old_max {
                assert(covers(*t, points@[k as int].x as int, points@[k as int].y as int));
            }
        }
        k = k + 1;
    }
    proof {
        assert forall|x: int, y: int| in_bbox(*t, x, y) && covers(*t, x, y) implies #[trigger] deviation(
            hm,
            *t,
            x,
            y,
        ) <= max by {
            let q = choose|q: int|
                0 <= q < points@.len() && points@[q].x == x && points@[q].y == y;
            assert(deviation(hm, *t, points@[q].x as int, points@[q].y as int) <= max);
        }
        if max != 0 {
            let q = choose|q: int|
                0 <= q < k && covers(*t, points@[q].x as int, points@[q].y as int) && deviation(
                    hm,
                    *t,
                    #[trigger] points@[q].x as int,
                    points@[q].y as int,
                ) == max;
            assert(in_bbox(*t, points@[q].x as int, points@[q].y as int));
        }
    }
    Ratio { num: max as u128, den: denom as u64 }
}

/// The stored corner of the heightmap at lattice point `p`.
pub open spec fn vertex_at(hm: &Heightmap, p: Point) -> Vertex {
    Vertex { x: p.x, y: p.y, height: hm.pixel(p.x as int, p.y as int) }
}

pub open spec fn lift(hm: &Heightmap, t: Triangle<Point>) -> Triangle<Vertex> {
    Triangle { a: vertex_at(hm, t.a), b: vertex_at(hm, t.b), c: vertex_at(hm, t.c) }
}

pub open spec fn zero_vertex() -> Vertex {
    Vertex { x: 0, y: 0, height: 0 }
}

/// The entry at index 0, which stands for the undivided square.
pub open spec fn sentinel() -> RtinTriangle {
    RtinTriangle {
        error: Ratio { num: 0, den: 1 },
        vertices: Triangle { a: zero_vertex(), b: zero_vertex(), c: zero_vertex() },
    }
}

/// Node `i >= 1` of the hierarchy of `hm`: its labelled triangle, with heights,
/// and that triangle's error.
pub open spec fn is_node_of(hm: &Heightmap, i: nat, n: RtinTriangle) -> bool {
    let t = coords_of(label_of(i), hm.width);
    n.vertices == lift(hm, t) && is_triangle_error(hm, t, n.error)
}

pub open spec fn is_min_of(s: Seq<u16>, m: u16) -> bool {
    (forall|k: int| 0 <= k < s.len() ==> m <= #[trigger] s[k]) && exists|k: int|
        0 <= k < s.len() && s[k] == m
}

pub open spec fn is_max_of(s: Seq<u16>, m: u16) -> bool {
    (forall|k: int| 0 <= k < s.len() ==> #[trigger] s[k] <= m) && exists|k: int|
        0 <= k < s.len() && s[k] == m
}

/// `r` is the hierarchy of `hm`.
pub open spec fn is_rtin_of(r: RtinData, hm: &Heightmap) -> bool {
    &&& r.grid_size == hm.width
    &&& r.triangles@.len() == num_triangles_of(hm.width as nat)
    &&& is_min_of(hm.pixels@, r.min_height)
    &&& is_max_of(hm.pixels@, r.max_height)
    &&& r.triangles@[0] == sentinel()
    &&& forall|i: int| 1 <= i < r.triangles@.len() ==> is_node_of(hm, i as nat, #[trigger] r.triangles@[i])
}

/// The lowest and highest value of a non-empty grid, in one scan.
fn height_extrema(pixels: &Vec<u16>) -> (r: (u16, u16))
    requires
        pixels@.len() > 0,
    ensures
        is_min_of(pixels@, r.0),
        is_max_of(pixels@, r.1),
{
    let mut min_height: u16 = 65535;
    let mut max_height: u16 = 0;
    let mut k: usize = 0;
    while k < pixels.len()
        invariant
            k <= pixels@.len(),
            forall|q: int| 0 <= q < k ==> min_height <= #[trigger] pixels@[q] <= max_height,
            k == 0 ==> min_height == 65535 && max_height == 0,
            k > 0 ==> exists|q: int| 0 <= q < k && pixels@[q] == min_height,
            k > 0 ==> exists|q: int| 0 <= q < k && pixels@[q] == max_height,
        decreases pixels@.len() - k,
    {
        let p = pixels[k];
        let ghost (old_min, old_max) = (min_height, max_height);
        if p < min_height || k == 0 {
            min_height = p;
        }
        if p > max_height || k == 0 {
            max_height = p;
        }
        proof {
            if min_height != old_min || k == 0 {
                assert(pixels@[k as int] == min_height);
            } else {
                let q = choose|q: int| 0 <= q < k && pixels@[q] == min_height;
                assert(pixels@[q] == min_height);
            }
            if max_height != old_max || k == 0 {
                assert(pixels@[k as int] == max_height);
            } else {
                let q = choose|q: int| 0 <= q < k && pixels@[q] == max_height;
                assert(pixels@[q] == max_height);
            }
        }
        k = k + 1;
    }
    (min_height, max_height)
}

fn vertex_of(hm: &Heightmap, p: Point) -> (r: Vertex)
    requires
        hm.wf(),
        p.x < hm.width,
        p.y < hm.height,
    ensures
        r == vertex_at(hm, p),
{
    Vertex { x: p.x, y: p.y, height: hm.get_pixel(p.x, p.y) }
}

/// A square grid of a valid side is at most `MAX_GRID_SIZE` wide.
pub open spec fn within_limit(hm: &Heightmap) -> bool {
    hm.width == hm.height && valid_side(hm.width as nat) ==> hm.width <= MAX_GRID_SIZE
}

/// What preprocessing `hm` yields: the hierarchy when the grid is square of
/// a valid side, else the error that says which check failed.
pub open spec fn is_preprocess_result(hm: &Heightmap, r: Result<RtinData, RtinError>) -> bool {
    &&& (r is Ok <==> hm.width == hm.height && valid_side(hm.width as nat))
    &&& (r matches Ok(d) ==> is_rtin_of(d, hm) && d.wf())
    &&& (r == Err::<RtinData, RtinError>(RtinError::InvalidShape) <==> hm.width != hm.height)
    &&& (r == Err::<RtinData, RtinError>(RtinError::InvalidSize) <==> hm.width == hm.height
        && !valid_side(hm.width as nat))
}

/// Builds the triangle hierarchy of a square heightmap of side `2^k + 1`,
/// `k >= 1`, with the error of every node. Valid sides beyond
/// `MAX_GRID_SIZE` have more nodes than 32-bit indices address.
pub fn preprocess_heightmap(heightmap: &Heightmap) -> (r: Result<RtinData, RtinError>)
    requires
        heightmap.wf(),
        within_limit(heightmap),
    ensures
        is_preprocess_result(heightmap, r),
{
    let (x, y) = heightmap.dimensions();
    if x != y {
        return Err(RtinError::InvalidShape);
    }
    if x < 3 || !is_power_of_two(x - 1) {
        return Err(RtinError::InvalidSize);
    }
    proof {
        crate::heightmap::lemma_grid_offset(0, 0, x as int, y as int);
    }
    let (min_height, max_height) = height_extrema(&heightmap.pixels);
    let num_triangles = num_triangles(x);
    proof {
        assert(2 * (x - 1) * (x - 1) <= 0x8000_0000) by (nonlinear_arith)
            requires
                1 <= x <= MAX_GRID_SIZE,
        ;
        assert(2 * (x - 1) * (x - 1) >= 8) by (nonlinear_arith)
            requires
                3 <= x,
        ;
    }
    let mut triangles: Vec<RtinTriangle> = Vec::with_capacity(num_triangles as usize);
    let mut i: u32 = 0;
    while i < num_triangles
        invariant
            heightmap.wf(),
            x == heightmap.width,
            x == heightmap.height,
            3 <= x <= MAX_GRID_SIZE,
            num_triangles == num_triangles_of(x as nat),
            num_triangles <= 0x8000_0000,
            i <= num_triangles,
            triangles@.len() == i,
            i > 0 ==> triangles@[0] == sentinel(),
            forall|j: int| 1 <= j < i ==> is_node_of(heightmap, j as nat, #[trigger] triangles@[j]),
            forall|j: int| 0 <= j < i ==> node_fits(#[trigger] triangles@[j], x),
        decreases num_triangles - i,
    {
        if i == 0 {
            let zero = Vertex { x: 0, y: 0, height: 0 };
            triangles.push(
                RtinTriangle { error: Ratio { num: 0, den: 1 }, vertices: Triangle::new(zero, zero, zero) },
            );
        } else {
            let label = idx_to_label(i);
            let t = coords(label, x);
            proof {
                lemma_coords_in_grid(label.0 as nat, x);
            }
            let error = triangle_error(heightmap, &t);
            let vertices = Triangle::new(
                vertex_of(heightmap, t.a),
                vertex_of(heightmap, t.b),
                vertex_of(heightmap, t.c),
            );
            triangles.push(RtinTriangle { error, vertices });
        }
        i = i + 1;
    }
    Ok(RtinData { grid_size: x, min_height, max_height, triangles })
}

/// Same as `preprocess_heightmap`.
pub fn preprocess_heightmap_from_img(img: &Heightmap) -> (r: Result<RtinData, RtinError>)
    requires
        img.wf(),
        within_limit(img),
    ensures
        is_preprocess_result(img, r),
{
    preprocess_heightmap(img)
}

proof fn lemma_isosceles_denom(t: Triangle<Point>, norm: nat)
    requires
        right_isosceles(t, norm),
        norm > 0,
    ensures
        bary_denom(t) == norm * norm,
        bary_denom(t) > 0,
{
    let u0 = t.a.x - t.c.x;
    let u1 = t.a.y - t.c.y;
    let v0x = t.b.x - t.a.x;
    let v0y = t.b.y - t.a.y;
    let v1x = t.c.x - t.a.x;
    let v1y = t.c.y - t.a.y;
    assert(v0x == u1 - u0 && v0y == -u0 - u1 && v1x == -u0 && v1y == -u1);
    assert(dot(v0x, v0y, v0x, v0y) * dot(v1x, v1y, v1x, v1y) - dot(v0x, v0y, v1x, v1y) * dot(
        v0x,
        v0y,
        v1x,
        v1y,
    ) == (u0 * u0 + u1 * u1) * (u0 * u0 + u1 * u1)) by (nonlinear_arith)
        requires
            v0x == u1 - u0,
            v0y == -u0 - u1,
            v1x == -u0,
            v1y == -u1,
    ;
    assert(norm * norm > 0) by (nonlinear_arith)
        requires
            norm > 0,
    ;
}

/// Every node of the hierarchy but the root is a proper triangle: its
/// barycentric denominator is positive, so its error is a maximum over the
/// points it covers.
pub proof fn lemma_nodes_non_degenerate(i: nat, s: u32)
    requires
        valid_side(s as nat),
        1 <= i < num_triangles_of(s as nat),
    ensures
        bary_denom(coords_of(label_of(i), s)) > 0,
{
    lemma_node_shape(i, s);
    let e = (2 * crate::label::log2((s - 1) as nat) + 2 - crate::label::depth_of(i)) as nat;
    vstd::arithmetic::power2::lemma_pow2_pos(e);
    lemma_isosceles_denom(coords_of(label_of(i), s), vstd::arithmetic::power2::pow2(e));
}

} // verus!
