//! Lines of sight and the disks that cut them, in exact whole-number
//! arithmetic.

use vstd::prelude::*;

use crate::dto::{Point2D, COORD_LIMIT};

verus! {

/// Squared Euclidean distance between two points.
pub open spec fn dist2(a: Point2D, b: Point2D) -> int {
    (a.x - b.x) * (a.x - b.x) + (a.y - b.y) * (a.y - b.y)
}

/// Scalar product of the vectors `from -> p` and `from -> q`.
pub open spec fn dot(from: Point2D, p: Point2D, q: Point2D) -> int {
    (p.x - from.x) * (q.x - from.x) + (p.y - from.y) * (q.y - from.y)
}

/// Signed area spanned by the vectors `from -> p` and `from -> q`.
pub open spec fn cross(from: Point2D, p: Point2D, q: Point2D) -> int {
    (p.x - from.x) * (q.y - from.y) - (p.y - from.y) * (q.x - from.x)
}

/// The closed segment from `a` to `b` meets the closed disk around `c` of
/// radius `r`.
///
/// The centre is projected on the line through `a` and `b`. Where the
/// foot of the perpendicular falls before `a` or behind `b`, the nearest
/// point of the segment is that end; otherwise it is the foot itself, whose
/// squared distance from `c` is `cross^2 / |b - a|^2`. A disk that merely
/// touches the segment meets it.
pub open spec fn segment_hits_disk(a: Point2D, b: Point2D, c: Point2D, r: int) -> bool {
    let along = dot(a, c, b);
    let len2 = dist2(a, b);
    let area = cross(a, c, b);
    if along <= 0 {
        dist2(c, a) <= r * r
    } else if along >= len2 {
        dist2(c, b) <= r * r
    } else {
        area * area <= r * r * len2
    }
}

/// The squared distance does not depend on the order of the two points.
pub proof fn lemma_dist2_symmetric(a: Point2D, b: Point2D)
    ensures
        dist2(a, b) == dist2(b, a),
        dist2(a, b) >= 0,
        dist2(a, b) == 0 <==> a == b,
{
    let dx = a.x - b.x;
    let dy = a.y - b.y;
    assert(dx * dx == (-dx) * (-dx)) by (nonlinear_arith);
    assert(dy * dy == (-dy) * (-dy)) by (nonlinear_arith);
    assert(dx * dx >= 0 && (dx * dx == 0 <==> dx == 0)) by (nonlinear_arith);
    assert(dy * dy >= 0 && (dy * dy == 0 <==> dy == 0)) by (nonlinear_arith);
}

/// A product is bounded by the product of the bounds of its factors.
pub proof fn lemma_product_bound(a: int, b: int, m: int, n: int)
    requires
        -m <= a <= m,
        -n <= b <= n,
    ensures
        -(m * n) <= a * b <= m * n,
{
    assert(-(m * n) <= a * b <= m * n) by (nonlinear_arith)
        requires
            -m <= a <= m,
            -n <= b <= n,
    ;
}

/// Squared Euclidean distance between two points.
pub fn distance2(c0: &Point2D, c1: &Point2D) -> (d: u64)
    requires
        c0.wf(),
        c1.wf(),
    ensures
        d == dist2(*c0, *c1),
{
    let x: i128 = c0.x as i128 - c1.x as i128;
    let y: i128 = c0.y as i128 - c1.y as i128;
    proof {
        lemma_product_bound(x as int, x as int, 2 * COORD_LIMIT as int, 2 * COORD_LIMIT as int);
        lemma_product_bound(y as int, y as int, 2 * COORD_LIMIT as int, 2 * COORD_LIMIT as int);
        assert(x * x >= 0) by (nonlinear_arith);
        assert(y * y >= 0) by (nonlinear_arith);
    }
    (x * x + y * y) as u64
}

/// Tells whether the line of sight from `line_start` to `line_end` is cut
/// by the disk around `circle_center`.
pub fn line_circle_intersection(
    line_start: &Point2D,
    line_end: &Point2D,
    circle_center: &Point2D,
    radius: i64,
) -> (blocked: bool)
    requires
        line_start.wf(),
        line_end.wf(),
        circle_center.wf(),
        0 <= radius <= COORD_LIMIT,
    ensures
        blocked == segment_hits_disk(*line_start, *line_end, *circle_center, radius as int),
        blocked == some_point_within(*line_start, *line_end, *circle_center, radius as int),
{
    proof {
        lemma_hits_iff_point_within(*line_start, *line_end, *circle_center, radius as int);
    }
    let start_to_center_x: i128 = circle_center.x as i128 - line_start.x as i128;
    let start_to_center_y: i128 = circle_center.y as i128 - line_start.y as i128;
    let line_vector_x: i128 = line_end.x as i128 - line_start.x as i128;
    let line_vector_y: i128 = line_end.y as i128 - line_start.y as i128;
    let r: i128 = radius as i128;
    let ghost m: int = 2 * COORD_LIMIT as int;
    proof {
        lemma_product_bound(line_vector_x as int, line_vector_x as int, m, m);
        lemma_product_bound(line_vector_y as int, line_vector_y as int, m, m);
        lemma_product_bound(start_to_center_x as int, line_vector_x as int, m, m);
        lemma_product_bound(start_to_center_y as int, line_vector_y as int, m, m);
        lemma_product_bound(start_to_center_x as int, line_vector_y as int, m, m);
        lemma_product_bound(start_to_center_y as int, line_vector_x as int, m, m);
        lemma_product_bound(r as int, r as int, m, m);
        assert(line_vector_x * line_vector_x >= 0) by (nonlinear_arith);
        assert(line_vector_y * line_vector_y >= 0) by (nonlinear_arith);
        assert(r * r >= 0) by (nonlinear_arith);
        lemma_dist2_symmetric(*line_start, *line_end);
    }
    let line_len_sq: i128 = line_vector_x * line_vector_x + line_vector_y * line_vector_y;
    let dot_product: i128 = start_to_center_x * line_vector_x + start_to_center_y * line_vector_y;
    let radius_sq: i128 = r * r;
    if dot_product <= 0 {
        distance2(circle_center, line_start) as i128 <= radius_sq
    } else if dot_product >= line_len_sq {
        distance2(circle_center, line_end) as i128 <= radius_sq
    } else {
        let area: i128 = start_to_center_x * line_vector_y - start_to_center_y * line_vector_x;
        proof {
            lemma_product_bound(area as int, area as int, 2 * m * m, 2 * m * m);
            lemma_product_bound(radius_sq as int, line_len_sq as int, m * m, 2 * m * m);
        }
        area * area <= radius_sq * line_len_sq
    }
}

/// Sight lines have no direction: swapping the ends of the segment does not
/// change whether the disk cuts it.
pub proof fn lemma_intersection_symmetric(a: Point2D, b: Point2D, c: Point2D, r: int)
    ensures
        segment_hits_disk(a, b, c, r) == segment_hits_disk(b, a, c, r),
{
    let ux = c.x - a.x;
    let uy = c.y - a.y;
    let vx = b.x - a.x;
    let vy = b.y - a.y;
    lemma_dist2_symmetric(a, b);
    assert((ux - vx) * (-vx) + (uy - vy) * (-vy) == (vx * vx + vy * vy) - (ux * vx + uy * vy))
        by (nonlinear_arith);
    assert(dot(b, c, a) == dist2(b, a) - dot(a, c, b));
    assert((ux - vx) * (-vy) - (uy - vy) * (-vx) == -(ux * vy - uy * vx)) by (nonlinear_arith);
    assert(cross(b, c, a) == -cross(a, c, b));
    assert(cross(b, c, a) * cross(b, c, a) == cross(a, c, b) * cross(a, c, b))
        by (nonlinear_arith)
        requires
            cross(b, c, a) == -cross(a, c, b),
    ;
}

/// The point that lies `p / q` of the way from `a` to `b` is within `r`
/// of `c`. Both sides of the comparison of squared distances are
/// multiplied by the square of `q`.
pub open spec fn point_within(a: Point2D, b: Point2D, c: Point2D, r: int, p: int, q: int) -> bool {
    let x = q * (a.x - c.x) + p * (b.x - a.x);
    let y = q * (a.y - c.y) + p * (b.y - a.y);
    x * x + y * y <= r * r * (q * q)
}

/// Some point of the segment from `a` to `b` that divides it in a ratio
/// of whole numbers is within `r` of `c`.
pub open spec fn some_point_within(a: Point2D, b: Point2D, c: Point2D, r: int) -> bool {
    exists|p: int, q: int| 0 <= p <= q && q > 0 && #[trigger] point_within(a, b, c, r, p, q)
}

/// Products of four numbers can be regrouped.
proof fn lemma_regroup(a: int, b: int, c: int, d: int)
    ensures
        (a * b) * (c * d) == (a * c) * (b * d),
        (a * b) * (c * d) == (a * d) * (b * c),
{
    assert((a * b) * (c * d) == (a * c) * (b * d)) by (nonlinear_arith);
    assert((a * b) * (c * d) == (a * d) * (b * c)) by (nonlinear_arith);
}

/// The squared distance, times the square of `q`, between `c` and the
/// point `p / q` of the way along a segment, in terms of the vectors from
/// the start of the segment to `c` and to its end.
proof fn lemma_point_distance(ux: int, uy: int, vx: int, vy: int, p: int, q: int)
    ensures
        (p * vx - q * ux) * (p * vx - q * ux) + (p * vy - q * uy) * (p * vy - q * uy) == p * p * (
        vx * vx + vy * vy) - 2 * (p * q * (ux * vx + uy * vy)) + q * q * (ux * ux + uy * uy),
{
    let a1 = p * vx;
    let b1 = q * ux;
    let a2 = p * vy;
    let b2 = q * uy;
    assert((a1 - b1) * (a1 - b1) == a1 * a1 - 2 * (a1 * b1) + b1 * b1) by (nonlinear_arith);
    assert((a2 - b2) * (a2 - b2) == a2 * a2 - 2 * (a2 * b2) + b2 * b2) by (nonlinear_arith);
    lemma_regroup(p, vx, p, vx);
    lemma_regroup(p, vy, p, vy);
    lemma_regroup(q, ux, q, ux);
    lemma_regroup(q, uy, q, uy);
    let pp = p * p;
    let qq = q * q;
    let vxx = vx * vx;
    let vyy = vy * vy;
    let uxx = ux * ux;
    let uyy = uy * uy;
    assert(pp * vxx + pp * vyy == pp * (vxx + vyy)) by (nonlinear_arith);
    assert(qq * uxx + qq * uyy == qq * (uxx + uyy)) by (nonlinear_arith);
    assert(a1 * a1 + a2 * a2 == p * p * (vx * vx + vy * vy));
    assert(b1 * b1 + b2 * b2 == q * q * (ux * ux + uy * uy));
    lemma_regroup(p, vx, q, ux);
    lemma_regroup(p, vy, q, uy);
    assert(a1 * b1 == (p * q) * (vx * ux));
    assert(a2 * b2 == (p * q) * (vy * uy));
    let k = p * q;
    let m = vx * ux;
    let n = vy * uy;
    assert(k * m + k * n == k * (m + n)) by (nonlinear_arith);
    assert(m == ux * vx && n == uy * vy) by (nonlinear_arith)
        requires
            m == vx * ux,
            n == vy * uy,
    ;
}

/// The squares of two vectors multiply to the square of their scalar
/// product plus the square of the area they span.
proof fn lemma_lagrange(ux: int, uy: int, vx: int, vy: int)
    ensures
        (ux * ux + uy * uy) * (vx * vx + vy * vy) == (ux * vx + uy * vy) * (ux * vx + uy * vy) + (ux
            * vy - uy * vx) * (ux * vy - uy * vx),
{
    let a = ux * vx;
    let b = uy * vy;
    let c = ux * vy;
    let d = uy * vx;
    assert((a + b) * (a + b) == a * a + 2 * (a * b) + b * b) by (nonlinear_arith);
    assert((c - d) * (c - d) == c * c - 2 * (c * d) + d * d) by (nonlinear_arith);
    lemma_regroup(ux, vx, uy, vy);
    assert(a * b == c * d);
    lemma_regroup(ux, ux, vx, vx);
    lemma_regroup(ux, ux, vy, vy);
    lemma_regroup(uy, uy, vx, vx);
    lemma_regroup(uy, uy, vy, vy);
    let uxx = ux * ux;
    let uyy = uy * uy;
    let vxx = vx * vx;
    let vyy = vy * vy;
    assert((uxx + uyy) * (vxx + vyy) == uxx * vxx + uxx * vyy + uyy * vxx + uyy * vyy)
        by (nonlinear_arith);
    assert((ux * ux + uy * uy) * (vx * vx + vy * vy) == a * a + c * c + d * d + b * b);
}

/// The occlusion predicate says what it should: the segment is cut by the
/// disk exactly if one of its points lies within the disk. It is enough to
/// look at the points that divide the segment in a ratio of whole numbers,
/// because the point nearest to the centre is one of them.
pub proof fn lemma_hits_iff_point_within(a: Point2D, b: Point2D, c: Point2D, r: int)
    requires
        r >= 0,
    ensures
        segment_hits_disk(a, b, c, r) == some_point_within(a, b, c, r),
{
    let ux = c.x - a.x;
    let uy = c.y - a.y;
    let vx = b.x - a.x;
    let vy = b.y - a.y;
    let len2 = vx * vx + vy * vy;
    let along = ux * vx + uy * vy;
    let uu = ux * ux + uy * uy;
    let area = ux * vy - uy * vx;
    lemma_dist2_symmetric(a, b);
    lemma_dist2_symmetric(c, a);
    assert(dist2(b, a) == len2);
    assert(dist2(c, a) == uu);
    assert(dot(a, c, b) == along);
    assert(cross(a, c, b) == area);
    let wx = ux - vx;
    let wy = uy - vy;
    assert(dist2(c, b) == wx * wx + wy * wy);
    lemma_lagrange(ux, uy, vx, vy);
    assert(len2 >= 0 && uu >= 0) by (nonlinear_arith)
        requires
            len2 == vx * vx + vy * vy,
            uu == ux * ux + uy * uy,
    ;
    if segment_hits_disk(a, b, c, r) {
        // the nearest point of the segment is within the disk
        let (p, q) = if along <= 0 {
            (0int, 1int)
        } else if along >= len2 {
            (1int, 1int)
        } else {
            (along, len2)
        };
        let x = q * (a.x - c.x) + p * (b.x - a.x);
        let y = q * (a.y - c.y) + p * (b.y - a.y);
        assert(x == p * vx - q * ux && y == p * vy - q * uy) by (nonlinear_arith)
            requires
                x == q * (a.x - c.x) + p * (b.x - a.x),
                y == q * (a.y - c.y) + p * (b.y - a.y),
                ux == c.x - a.x,
                uy == c.y - a.y,
                vx == b.x - a.x,
                vy == b.y - a.y,
        ;
        lemma_point_distance(ux, uy, vx, vy, p, q);
        if along <= 0 {
            assert(p * vx == 0 && q * ux == ux && p * vy == 0 && q * uy == uy)
                by (nonlinear_arith)
                requires
                    p == 0,
                    q == 1,
            ;
            assert(x * x + y * y == uu) by (nonlinear_arith)
                requires
                    x == -ux,
                    y == -uy,
                    uu == ux * ux + uy * uy,
            ;
            assert(r * r * (q * q) == r * r) by (nonlinear_arith)
                requires
                    q == 1,
            ;
        } else if along >= len2 {
            assert(p * vx == vx && q * ux == ux && p * vy == vy && q * uy == uy)
                by (nonlinear_arith)
                requires
                    p == 1,
                    q == 1,
            ;
            assert(x == -wx && y == -wy);
            assert(x * x + y * y == wx * wx + wy * wy) by (nonlinear_arith)
                requires
                    x == -wx,
                    y == -wy,
            ;
            assert(r * r * (q * q) == r * r) by (nonlinear_arith)
                requires
                    q == 1,
            ;
        } else {
            let aa = along * along;
            assert(p * p * len2 == aa * len2 && p * q * along == aa * len2 && q * q * uu == len2
                * (uu * len2)) by (nonlinear_arith)
                requires
                    p == along,
                    q == len2,
                    aa == along * along,
            ;
            assert(len2 * (uu * len2) == len2 * aa + len2 * (area * area)) by (nonlinear_arith)
                requires
                    uu * len2 == aa + area * area,
            ;
            assert(len2 * aa == aa * len2) by (nonlinear_arith);
            assert(p * p * len2 - 2 * (p * q * along) + q * q * uu == len2 * (area * area));
            assert(len2 * (area * area) <= r * r * (q * q)) by (nonlinear_arith)
                requires
                    area * area <= r * r * len2,
                    len2 >= 0,
                    q == len2,
            ;
        }
        assert(point_within(a, b, c, r, p, q));
    }
    if some_point_within(a, b, c, r) {
        let (p, q) = choose|p: int, q: int|
            0 <= p <= q && q > 0 && #[trigger] point_within(a, b, c, r, p, q);
        let x = q * (a.x - c.x) + p * (b.x - a.x);
        let y = q * (a.y - c.y) + p * (b.y - a.y);
        assert(x == p * vx - q * ux && y == p * vy - q * uy) by (nonlinear_arith)
            requires
                x == q * (a.x - c.x) + p * (b.x - a.x),
                y == q * (a.y - c.y) + p * (b.y - a.y),
                ux == c.x - a.x,
                uy == c.y - a.y,
                vx == b.x - a.x,
                vy == b.y - a.y,
        ;
        lemma_point_distance(ux, uy, vx, vy, p, q);
        let f = x * x + y * y;
        assert(f == p * p * len2 - 2 * (p * q * along) + q * q * uu);
        assert(f <= r * r * (q * q));
        assert(q * q > 0) by (nonlinear_arith)
            requires
                q > 0,
        ;
        if along <= 0 {
            assert(f >= q * q * uu) by (nonlinear_arith)
                requires
                    f == p * p * len2 - 2 * (p * q * along) + q * q * uu,
                    len2 >= 0,
                    along <= 0,
                    p >= 0,
                    q > 0,
            ;
            assert(uu <= r * r) by (nonlinear_arith)
                requires
                    q * q * uu <= r * r * (q * q),
                    q * q > 0,
            ;
        } else if along >= len2 {
            // seen from the far end, the point is `q - p` of `q` along the way back
            let back = q - p;
            lemma_point_distance(wx, wy, -vx, -vy, back, q);
            assert(back * (-vx) - q * wx == x && back * (-vy) - q * wy == y) by (nonlinear_arith)
                requires
                    back == q - p,
                    wx == ux - vx,
                    wy == uy - vy,
                    x == p * vx - q * ux,
                    y == p * vy - q * uy,
            ;
            let ww = wx * wx + wy * wy;
            let toward = wx * (-vx) + wy * (-vy);
            assert((-vx) * (-vx) + (-vy) * (-vy) == len2) by (nonlinear_arith)
                requires
                    len2 == vx * vx + vy * vy,
            ;
            assert(toward == len2 - along) by (nonlinear_arith)
                requires
                    toward == wx * (-vx) + wy * (-vy),
                    wx == ux - vx,
                    wy == uy - vy,
                    len2 == vx * vx + vy * vy,
                    along == ux * vx + uy * vy,
            ;
            assert(f == back * back * len2 - 2 * (back * q * toward) + q * q * ww);
            assert(f >= q * q * ww) by (nonlinear_arith)
                requires
                    f == back * back * len2 - 2 * (back * q * toward) + q * q * ww,
                    len2 >= 0,
                    toward <= 0,
                    back >= 0,
                    q > 0,
            ;
            assert(ww <= r * r) by (nonlinear_arith)
                requires
                    q * q * ww <= r * r * (q * q),
                    q * q > 0,
            ;
        } else {
            let gap = p * len2 - q * along;
            let big = p * len2;
            let small = q * along;
            assert(gap * gap == big * big - 2 * (big * small) + small * small) by (nonlinear_arith)
                requires
                    gap == big - small,
            ;
            lemma_regroup(p, len2, p, len2);
            lemma_regroup(p, len2, q, along);
            lemma_regroup(q, along, q, along);
            let pp = p * p;
            let qq = q * q;
            let pq = p * q;
            let t1 = pp * len2;
            let t2 = pq * along;
            let t3 = qq * uu;
            assert(f == t1 - 2 * t2 + t3);
            assert(len2 * f == len2 * t1 - 2 * (len2 * t2) + len2 * t3) by (nonlinear_arith)
                requires
                    f == t1 - 2 * t2 + t3,
            ;
            assert(len2 * t1 == pp * (len2 * len2)) by (nonlinear_arith)
                requires
                    t1 == pp * len2,
            ;
            assert(len2 * t2 == pq * (len2 * along)) by (nonlinear_arith)
                requires
                    t2 == pq * along,
            ;
            assert(len2 * t3 == qq * (uu * len2)) by (nonlinear_arith)
                requires
                    t3 == qq * uu,
            ;
            assert(qq * (uu * len2) == qq * (along * along) + qq * (area * area))
                by (nonlinear_arith)
                requires
                    uu * len2 == along * along + area * area,
            ;
            assert(big * big == pp * (len2 * len2));
            assert(big * small == pq * (len2 * along));
            assert(small * small == qq * (along * along));
            assert(len2 * f == gap * gap + q * q * (area * area));
            assert(q * q * (area * area) <= len2 * f) by (nonlinear_arith)
                requires
                    len2 * f == gap * gap + q * q * (area * area),
            ;
            assert(len2 * f <= len2 * (r * r * (q * q))) by (nonlinear_arith)
                requires
                    f <= r * r * (q * q),
                    len2 >= 0,
            ;
            assert(area * area <= r * r * len2) by (nonlinear_arith)
                requires
                    q * q * (area * area) <= len2 * (r * r * (q * q)),
                    q * q > 0,
            ;
        }
    }
}

} // verus!
