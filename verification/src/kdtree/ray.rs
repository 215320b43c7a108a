//! Rays, and whether they have a point in a box.

use vstd::prelude::*;

use crate::dto::{Point2D, COORD_LIMIT};
use crate::geometry::{cross, dist2, dot, lemma_dist2_symmetric, segment_hits_disk};
use crate::kdtree::aabb::AABB;

verus! {

/// Largest magnitude of a component of the direction of a ray.
pub const DIRECTION_LIMIT: i64 = 4_294_967_296;

/// A half line: the points `origin + t * direction` for `t >= 0`.
#[derive(Clone, Copy, Debug, PartialEq, Eq, Structural)]
pub struct Ray {
    /// The origin of the ray
    pub origin: Point2D,
    /// The direction of the ray
    pub direction: Point2D,
}

/// On which side of the line through `origin` along `direction` the point
/// `p` lies: positive on the right, negative on the left, zero on the line.
pub open spec fn side(origin: Point2D, direction: Point2D, p: Point2D) -> int {
    (p.x - origin.x) * direction.y - (p.y - origin.y) * direction.x
}

/// The corners of the box do not all lie strictly on one side of the line
/// through `origin` along `direction`.
pub open spec fn line_meets_box(origin: Point2D, direction: Point2D, aabb: AABB) -> bool {
    let a = side(origin, direction, aabb.min);
    let b = side(origin, direction, Point2D { x: aabb.min.x, y: aabb.max.y });
    let c = side(origin, direction, Point2D { x: aabb.max.x, y: aabb.min.y });
    let d = side(origin, direction, aabb.max);
    !(a > 0 && b > 0 && c > 0 && d > 0) && !(a < 0 && b < 0 && c < 0 && d < 0)
}

/// The ray from `origin` along `direction` has a point in the box: the box
/// is not empty, it does not lie behind the origin along either axis, and
/// the line of the ray passes through it.
pub open spec fn ray_meets_box(origin: Point2D, direction: Point2D, aabb: AABB) -> bool {
    &&& !aabb.is_empty()
    &&& direction.x >= 0 ==> origin.x <= aabb.max.x
    &&& direction.x <= 0 ==> origin.x >= aabb.min.x
    &&& direction.y >= 0 ==> origin.y <= aabb.max.y
    &&& direction.y <= 0 ==> origin.y >= aabb.min.y
    &&& line_meets_box(origin, direction, aabb)
}

impl Ray {
    /// Origin and direction are such that the sides of any box can be
    /// computed.
    pub open spec fn wf(&self) -> bool {
        &&& self.origin.wf()
        &&& -DIRECTION_LIMIT <= self.direction.x <= DIRECTION_LIMIT
        &&& -DIRECTION_LIMIT <= self.direction.y <= DIRECTION_LIMIT
    }

    /// The ray from `origin` along `direction`.
    pub fn new(origin: &Point2D, direction: &Point2D) -> (ray: Self)
        ensures
            ray.origin == *origin,
            ray.direction == *direction,
    {
        Self { origin: *origin, direction: *direction }
    }

    /// On which side of the line of the ray the point `(x, y)` lies.
    fn side_of(&self, x: i64, y: i64) -> (s: i128)
        requires
            self.wf(),
        ensures
            s == side(self.origin, self.direction, Point2D { x, y }),
    {
        let dx: i128 = x as i128 - self.origin.x as i128;
        let dy: i128 = y as i128 - self.origin.y as i128;
        proof {
            let bound: int = 0x1_0000_0000_0000_0000;
            crate::geometry::lemma_product_bound(
                dx as int,
                self.direction.y as int,
                bound,
                DIRECTION_LIMIT as int,
            );
            crate::geometry::lemma_product_bound(
                dy as int,
                self.direction.x as int,
                bound,
                DIRECTION_LIMIT as int,
            );
        }
        dx * self.direction.y as i128 - dy * self.direction.x as i128
    }

    /// Tells whether the ray has a point in the box.
    pub fn intersect(&self, b: &AABB) -> (hit: bool)
        requires
            self.wf(),
        ensures
            hit == ray_meets_box(self.origin, self.direction, *b),
    {
        if b.min.x > b.max.x || b.min.y > b.max.y {
            return false;
        }
        if self.direction.x >= 0 && self.origin.x > b.max.x {
            return false;
        }
        if self.direction.x <= 0 && self.origin.x < b.min.x {
            return false;
        }
        if self.direction.y >= 0 && self.origin.y > b.max.y {
            return false;
        }
        if self.direction.y <= 0 && self.origin.y < b.min.y {
            return false;
        }
        let s1 = self.side_of(b.min.x, b.min.y);
        let s2 = self.side_of(b.min.x, b.max.y);
        let s3 = self.side_of(b.max.x, b.min.y);
        let s4 = self.side_of(b.max.x, b.max.y);
        !(s1 > 0 && s2 > 0 && s3 > 0 && s4 > 0) && !(s1 < 0 && s2 < 0 && s3 < 0 && s4 < 0)
    }
}

/// A ray that has a point in a box has one in every box around it.
pub proof fn lemma_ray_meets_larger_box(
    origin: Point2D,
    direction: Point2D,
    inner: AABB,
    outer: AABB,
)
    requires
        ray_meets_box(origin, direction, inner),
        outer.encloses(inner),
    ensures
        ray_meets_box(origin, direction, outer),
{
    lemma_line_meets_larger_box(origin, direction, inner, outer);
}

/// Moving a point in the direction in which the side grows does not lower
/// the side.
proof fn lemma_side_step(ox: int, oy: int, vx: int, vy: int, px: int, py: int, qx: int, qy: int)
    requires
        (vy >= 0 && qx >= px) || (vy <= 0 && qx <= px),
        (vx >= 0 && qy <= py) || (vx <= 0 && qy >= py),
    ensures
        (px - ox) * vy - (py - oy) * vx <= (qx - ox) * vy - (qy - oy) * vx,
{
    assert((qx - px) * vy >= 0) by (nonlinear_arith)
        requires
            (vy >= 0 && qx >= px) || (vy <= 0 && qx <= px),
    ;
    assert((qy - py) * vx <= 0) by (nonlinear_arith)
        requires
            (vx >= 0 && qy <= py) || (vx <= 0 && qy >= py),
    ;
    assert((qx - ox) * vy - (qy - oy) * vx - ((px - ox) * vy - (py - oy) * vx) == (qx - px) * vy
        - (qy - py) * vx) by (nonlinear_arith);
}

/// A line that passes through a box passes through every box around it.
pub proof fn lemma_line_meets_larger_box(
    origin: Point2D,
    direction: Point2D,
    inner: AABB,
    outer: AABB,
)
    requires
        !inner.is_empty(),
        outer.encloses(inner),
        line_meets_box(origin, direction, inner),
    ensures
        line_meets_box(origin, direction, outer),
{
    let vx = direction.x as int;
    let vy = direction.y as int;
    let ox = origin.x as int;
    let oy = origin.y as int;
    let x0 = outer.min.x as int;
    let x1 = outer.max.x as int;
    let y0 = outer.min.y as int;
    let y1 = outer.max.y as int;
    let u0 = inner.min.x as int;
    let u1 = inner.max.x as int;
    let w0 = inner.min.y as int;
    let w1 = inner.max.y as int;
    // the corner of the outer box that lies furthest to the right, and the one that
    // lies furthest to the left
    let rx = if vy >= 0 {
        x1
    } else {
        x0
    };
    let ry = if vx >= 0 {
        y0
    } else {
        y1
    };
    let lx = if vy >= 0 {
        x0
    } else {
        x1
    };
    let ly = if vx >= 0 {
        y1
    } else {
        y0
    };
    lemma_side_step(ox, oy, vx, vy, u0, w0, rx, ry);
    lemma_side_step(ox, oy, vx, vy, u0, w1, rx, ry);
    lemma_side_step(ox, oy, vx, vy, u1, w0, rx, ry);
    lemma_side_step(ox, oy, vx, vy, u1, w1, rx, ry);
    lemma_side_step(ox, oy, vx, vy, lx, ly, u0, w0);
    lemma_side_step(ox, oy, vx, vy, lx, ly, u0, w1);
    lemma_side_step(ox, oy, vx, vy, lx, ly, u1, w0);
    lemma_side_step(ox, oy, vx, vy, lx, ly, u1, w1);
}

/// Where the foot of the perpendicular from a point falls before the far
/// end of a segment that does not run to the left, and the point lies more
/// than `r` to the left of the near end, the point is more than `r` from
/// the line.
proof fn lemma_foot_ahead(ux: int, uy: int, vx: int, vy: int, r: int)
    requires
        r >= 0,
        vx >= 0,
        ux < -r,
        ux * vx + uy * vy > 0,
    ensures
        (ux * vy - uy * vx) * (ux * vy - uy * vx) > r * r * (vx * vx + vy * vy),
{
    let a = -ux;
    let p = uy * vy;
    let len2 = vx * vx + vy * vy;
    let area = ux * vy - uy * vx;
    assert(p > a * vx) by (nonlinear_arith)
        requires
            ux * vx + uy * vy > 0,
            p == uy * vy,
            a == -ux,
    ;
    assert(a * vx >= 0) by (nonlinear_arith)
        requires
            a > 0,
            vx >= 0,
    ;
    let m = a * vy;
    let n = uy * vx;
    assert(area == -(m + n)) by (nonlinear_arith)
        requires
            area == ux * vy - uy * vx,
            a == -ux,
            m == a * vy,
            n == uy * vx,
    ;
    assert(area * area == m * m + 2 * (m * n) + n * n) by (nonlinear_arith)
        requires
            area == -(m + n),
    ;
    assert(m * n == (a * vx) * p) by (nonlinear_arith)
        requires
            m == a * vy,
            n == uy * vx,
            p == uy * vy,
    ;
    assert(m * m == a * a * (vy * vy)) by (nonlinear_arith)
        requires
            m == a * vy,
    ;
    assert(n * n == uy * uy * (vx * vx)) by (nonlinear_arith)
        requires
            n == uy * vx,
    ;
    assert(area * area == a * a * (vy * vy) + 2 * (a * vx) * p + uy * uy * (vx * vx))
        by (nonlinear_arith)
        requires
            area * area == m * m + 2 * (m * n) + n * n,
            m * n == (a * vx) * p,
            m * m == a * a * (vy * vy),
            n * n == uy * uy * (vx * vx),
    ;
    assert(2 * (a * vx) * p >= 2 * (a * vx) * (a * vx)) by (nonlinear_arith)
        requires
            p > a * vx,
            a * vx >= 0,
    ;
    assert(2 * (a * vx) * (a * vx) == 2 * (a * a * (vx * vx))) by (nonlinear_arith);
    assert(uy * uy * (vx * vx) >= 0) by (nonlinear_arith);
    assert(a * a * (vx * vx) >= 0) by (nonlinear_arith);
    assert(area * area >= a * a * len2) by (nonlinear_arith)
        requires
            area * area == a * a * (vy * vy) + 2 * (a * vx) * p + uy * uy * (vx * vx),
            2 * (a * vx) * p >= 2 * (a * a * (vx * vx)),
            uy * uy * (vx * vx) >= 0,
            a * a * (vx * vx) >= 0,
            len2 == vx * vx + vy * vy,
    ;
    assert(vy != 0) by (nonlinear_arith)
        requires
            p > 0,
            p == uy * vy,
    ;
    assert(len2 > 0) by (nonlinear_arith)
        requires
            vy != 0,
            len2 == vx * vx + vy * vy,
    ;
    assert(a * a * len2 > r * r * len2) by (nonlinear_arith)
        requires
            a > r,
            r >= 0,
            len2 > 0,
    ;
}

/// A segment that meets a disk does not start beyond the side of the disk
/// towards which it does not run.
proof fn lemma_disk_not_behind(ux: int, uy: int, vx: int, vy: int, r: int)
    requires
        r >= 0,
        vx >= 0,
        ({
            let along = ux * vx + uy * vy;
            let len2 = vx * vx + vy * vy;
            let area = ux * vy - uy * vx;
            if along <= 0 {
                ux * ux + uy * uy <= r * r
            } else if along >= len2 {
                (ux - vx) * (ux - vx) + (uy - vy) * (uy - vy) <= r * r
            } else {
                area * area <= r * r * len2
            }
        }),
    ensures
        -ux <= r,
{
    let along = ux * vx + uy * vy;
    let len2 = vx * vx + vy * vy;
    if -ux > r {
        if along <= 0 {
            assert(ux * ux + uy * uy > r * r) by (nonlinear_arith)
                requires
                    ux < -r,
                    r >= 0,
            ;
        } else if along >= len2 {
            assert((ux - vx) * (ux - vx) + (uy - vy) * (uy - vy) > r * r) by (nonlinear_arith)
                requires
                    ux - vx < -r,
                    r >= 0,
            ;
        } else {
            lemma_foot_ahead(ux, uy, vx, vy, r);
        }
    }
}

/// The line of a segment that meets a disk passes no further from the
/// centre than the radius, measured along the axes.
proof fn lemma_line_near_disk(ux: int, uy: int, vx: int, vy: int, r: int, ax: int, ay: int)
    requires
        r >= 0,
        ax >= 0,
        ay >= 0,
        ax == vx || ax == -vx,
        ay == vy || ay == -vy,
        ({
            let along = ux * vx + uy * vy;
            let len2 = vx * vx + vy * vy;
            let area = ux * vy - uy * vx;
            if along <= 0 {
                ux * ux + uy * uy <= r * r
            } else if along >= len2 {
                (ux - vx) * (ux - vx) + (uy - vy) * (uy - vy) <= r * r
            } else {
                area * area <= r * r * len2
            }
        }),
    ensures
        -(r * (ax + ay)) <= ux * vy - uy * vx <= r * (ax + ay),
{
    let along = ux * vx + uy * vy;
    let len2 = vx * vx + vy * vy;
    let area = ux * vy - uy * vx;
    let s = ax + ay;
    if along <= 0 {
        lemma_within_radius(ux, uy, r);
        lemma_area_of_short(ux, uy, vx, vy, r, ax, ay);
    } else if along >= len2 {
        let wx = ux - vx;
        let wy = uy - vy;
        lemma_within_radius(wx, wy, r);
        lemma_area_of_short(wx, wy, vx, vy, r, ax, ay);
        assert(wx * vy - wy * vx == area) by (nonlinear_arith)
            requires
                wx == ux - vx,
                wy == uy - vy,
                area == ux * vy - uy * vx,
        ;
    } else {
        assert(len2 <= s * s) by (nonlinear_arith)
            requires
                len2 == vx * vx + vy * vy,
                s == ax + ay,
                ax >= 0,
                ay >= 0,
                ax == vx || ax == -vx,
                ay == vy || ay == -vy,
        ;
        assert(area * area <= (r * s) * (r * s)) by (nonlinear_arith)
            requires
                area * area <= r * r * len2,
                len2 <= s * s,
                r >= 0,
        ;
        assert(r * s >= 0) by (nonlinear_arith)
            requires
                r >= 0,
                s >= 0,
        ;
        assert(-(r * s) <= area <= r * s) by (nonlinear_arith)
            requires
                area * area <= (r * s) * (r * s),
                r * s >= 0,
        ;
    }
}

/// A vector that is not longer than `r` is not longer than `r` along
/// either axis.
proof fn lemma_within_radius(wx: int, wy: int, r: int)
    requires
        r >= 0,
        wx * wx + wy * wy <= r * r,
    ensures
        -r <= wx <= r,
        -r <= wy <= r,
{
    assert(-r <= wx <= r) by (nonlinear_arith)
        requires
            r >= 0,
            wx * wx + wy * wy <= r * r,
    ;
    assert(-r <= wy <= r) by (nonlinear_arith)
        requires
            r >= 0,
            wx * wx + wy * wy <= r * r,
    ;
}

/// The area spanned with a vector that is not longer than `r` along
/// either axis.
proof fn lemma_area_of_short(wx: int, wy: int, vx: int, vy: int, r: int, ax: int, ay: int)
    requires
        r >= 0,
        -r <= wx <= r,
        -r <= wy <= r,
        ax >= 0,
        ay >= 0,
        ax == vx || ax == -vx,
        ay == vy || ay == -vy,
    ensures
        -(r * (ax + ay)) <= wx * vy - wy * vx <= r * (ax + ay),
{
    assert(-(r * ay) <= wx * vy <= r * ay) by (nonlinear_arith)
        requires
            -r <= wx <= r,
            r >= 0,
            ay >= 0,
            ay == vy || ay == -vy,
    ;
    assert(-(r * ax) <= wy * vx <= r * ax) by (nonlinear_arith)
        requires
            -r <= wy <= r,
            r >= 0,
            ax >= 0,
            ax == vx || ax == -vx,
    ;
    assert(r * (ax + ay) == r * ax + r * ay) by (nonlinear_arith);
}

/// The least box around the disk of radius `r` around `c`.
pub open spec fn disk_box(c: Point2D, r: int) -> AABB {
    AABB {
        min: Point2D { x: (c.x - r) as i64, y: (c.y - r) as i64 },
        max: Point2D { x: (c.x + r) as i64, y: (c.y + r) as i64 },
    }
}

/// A segment that meets a disk lies on a ray, from its start along the
/// vector to its end, that has a point in every box around the disk.
pub proof fn lemma_ray_reaches_disk(
    origin: Point2D,
    target: Point2D,
    center: Point2D,
    radius: int,
    direction: Point2D,
    outer: AABB,
)
    requires
        origin.wf(),
        target.wf(),
        center.wf(),
        0 <= radius <= COORD_LIMIT,
        direction.x == target.x - origin.x,
        direction.y == target.y - origin.y,
        segment_hits_disk(origin, target, center, radius),
        outer.encloses(disk_box(center, radius)),
    ensures
        ray_meets_box(origin, direction, outer),
{
    let ux = center.x - origin.x;
    let uy = center.y - origin.y;
    let vx = direction.x as int;
    let vy = direction.y as int;
    let r = radius;
    let inner = disk_box(center, radius);
    lemma_dist2_symmetric(center, origin);
    lemma_dist2_symmetric(center, target);
    lemma_dist2_symmetric(origin, target);
    assert(dot(origin, center, target) == ux * vx + uy * vy);
    assert(cross(origin, center, target) == ux * vy - uy * vx);
    assert(dist2(origin, target) == vx * vx + vy * vy) by {
        assert((origin.x - target.x) * (origin.x - target.x) == vx * vx) by (nonlinear_arith)
            requires
                vx == target.x - origin.x,
        ;
        assert((origin.y - target.y) * (origin.y - target.y) == vy * vy) by (nonlinear_arith)
            requires
                vy == target.y - origin.y,
        ;
    }
    assert(dist2(center, origin) == ux * ux + uy * uy);
    assert(dist2(center, target) == (ux - vx) * (ux - vx) + (uy - vy) * (uy - vy));
    if vx >= 0 {
        lemma_disk_not_behind(ux, uy, vx, vy, r);
    }
    if vx <= 0 {
        assert((-ux) * (-vx) + uy * vy == ux * vx + uy * vy) by (nonlinear_arith);
        assert((-vx) * (-vx) + vy * vy == vx * vx + vy * vy) by (nonlinear_arith);
        assert(((-ux) * vy - uy * (-vx)) * ((-ux) * vy - uy * (-vx)) == (ux * vy - uy * vx) * (ux
            * vy - uy * vx)) by (nonlinear_arith);
        assert((-ux) * (-ux) + uy * uy == ux * ux + uy * uy) by (nonlinear_arith);
        assert(((-ux) - (-vx)) * ((-ux) - (-vx)) + (uy - vy) * (uy - vy) == (ux - vx) * (ux - vx)
            + (uy - vy) * (uy - vy)) by (nonlinear_arith);
        lemma_disk_not_behind(-ux, uy, -vx, vy, r);
    }
    if vy >= 0 {
        assert(uy * vy + ux * vx == ux * vx + uy * vy);
        assert(vy * vy + vx * vx == vx * vx + vy * vy);
        assert((uy * vx - ux * vy) * (uy * vx - ux * vy) == (ux * vy - uy * vx) * (ux * vy - uy
            * vx)) by (nonlinear_arith);
        lemma_disk_not_behind(uy, ux, vy, vx, r);
    }
    if vy <= 0 {
        assert((-uy) * (-vy) + ux * vx == ux * vx + uy * vy) by (nonlinear_arith);
        assert((-vy) * (-vy) + vx * vx == vx * vx + vy * vy) by (nonlinear_arith);
        assert(((-uy) * vx - ux * (-vy)) * ((-uy) * vx - ux * (-vy)) == (ux * vy - uy * vx) * (ux
            * vy - uy * vx)) by (nonlinear_arith);
        assert((-uy) * (-uy) + ux * ux == ux * ux + uy * uy) by (nonlinear_arith);
        assert(((-uy) - (-vy)) * ((-uy) - (-vy)) + (ux - vx) * (ux - vx) == (ux - vx) * (ux - vx)
            + (uy - vy) * (uy - vy)) by (nonlinear_arith);
        lemma_disk_not_behind(-uy, ux, -vy, vx, r);
    }
    let ax = if vx >= 0 {
        vx
    } else {
        -vx
    };
    let ay = if vy >= 0 {
        vy
    } else {
        -vy
    };
    lemma_line_near_disk(ux, uy, vx, vy, r, ax, ay);
    let area = ux * vy - uy * vx;
    // the sides of the four corners of the box around the disk
    let s_mm = side(origin, direction, inner.min);
    let s_mp = side(origin, direction, Point2D { x: inner.min.x, y: inner.max.y });
    let s_pm = side(origin, direction, Point2D { x: inner.max.x, y: inner.min.y });
    let s_pp = side(origin, direction, inner.max);
    assert(s_mm == area - r * vy + r * vx) by (nonlinear_arith)
        requires
            s_mm == (ux - r) * vy - (uy - r) * vx,
            area == ux * vy - uy * vx,
    ;
    assert(s_mp == area - r * vy - r * vx) by (nonlinear_arith)
        requires
            s_mp == (ux - r) * vy - (uy + r) * vx,
            area == ux * vy - uy * vx,
    ;
    assert(s_pm == area + r * vy + r * vx) by (nonlinear_arith)
        requires
            s_pm == (ux + r) * vy - (uy - r) * vx,
            area == ux * vy - uy * vx,
    ;
    assert(s_pp == area + r * vy - r * vx) by (nonlinear_arith)
        requires
            s_pp == (ux + r) * vy - (uy + r) * vx,
            area == ux * vy - uy * vx,
    ;
    assert(r * (ax + ay) == r * ax + r * ay) by (nonlinear_arith);
    assert(r * ax == r * vx || r * ax == -(r * vx)) by (nonlinear_arith)
        requires
            ax == vx || ax == -vx,
    ;
    assert(r * ay == r * vy || r * ay == -(r * vy)) by (nonlinear_arith)
        requires
            ay == vy || ay == -vy,
    ;
    assert(r * ax >= 0 && r * ay >= 0) by (nonlinear_arith)
        requires
            r >= 0,
            ax >= 0,
            ay >= 0,
    ;
    assert(line_meets_box(origin, direction, inner));
    assert(ray_meets_box(origin, direction, inner));
    lemma_ray_meets_larger_box(origin, direction, inner, outer);
}

} // verus!
