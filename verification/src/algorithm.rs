//! Planar geometry primitives: integer points, floor square roots,
//! Euclidean distances, and linear referencing of a point onto a polyline.

use vstd::prelude::*;

use crate::MMError;

verus! {

/// Largest coordinate magnitude the geometry accepts.  With coordinates
/// in `[-COORD_LIMIT, COORD_LIMIT]`, every squared distance fits
/// comfortably in `i128`, every distance in `u64`, and -- what caps the
/// bound -- the spatial index's own span and area products over stored
/// rectangle corners stay inside `i64`: a span is at most `2 *
/// COORD_LIMIT = 3e9` and a two-dimensional area at most `9e18 <
/// i64::MAX`.
pub const COORD_LIMIT: i64 = 1_500_000_000;

/// A point of the plane, in the caller's linear unit.
#[derive(Clone, Copy, Debug, PartialEq, Eq, Structural)]
pub struct Point {
    pub x: i64,
    pub y: i64,
}

/// A polyline: the geometry of a road segment.
#[derive(Debug)]
pub struct Line(pub Vec<Point>);

pub open spec fn wf_point(p: Point) -> bool {
    &&& -COORD_LIMIT <= p.x <= COORD_LIMIT
    &&& -COORD_LIMIT <= p.y <= COORD_LIMIT
}

pub open spec fn wf_polyline(ps: Seq<Point>) -> bool {
    forall|i: int| 0 <= i < ps.len() ==> wf_point(#[trigger] ps[i])
}

pub open spec fn sq(a: int) -> int {
    a * a
}

/// Squared Euclidean distance between two points.
pub open spec fn dist2(p: Point, q: Point) -> int {
    sq(q.x - p.x) + sq(q.y - p.y)
}

/// The floor of the square root of a nonnegative integer.
pub open spec fn sqrt_floor(n: int) -> int {
    choose|r: int| 0 <= r && #[trigger] sq(r) <= n < sq(r + 1)
}

/// `sqrt_floor` is pinned down by its defining inequalities.
pub proof fn lemma_sqrt_floor_unique(n: int, r: int)
    requires
        0 <= r,
        sq(r) <= n,
        n < sq(r + 1),
    ensures
        sqrt_floor(n) == r,
{
    assert(exists|s: int| 0 <= s && #[trigger] sq(s) <= n < sq(s + 1)) by {
        assert(0 <= r && sq(r) <= n < sq(r + 1));
    }
    let s = sqrt_floor(n);
    assert(0 <= s && sq(s) <= n < sq(s + 1));
    assert(s == r) by (nonlinear_arith)
        requires
            0 <= r,
            sq(r) <= n < sq(r + 1),
            0 <= s,
            sq(s) <= n < sq(s + 1),
    ;
}

/// Floor square root of a `u128`, by binary search.
pub fn isqrt(n: u128) -> (r: u64)
    ensures
        sq(r as int) <= n as int,
        (n as int) < sq(r as int + 1),
        r == sqrt_floor(n as int),
{
    let mut lo: u64 = 0;
    let mut hi: u64 = u64::MAX;
    if (lo as u128) * (lo as u128) > n {
        proof {
            assert(false);
        }
    }
    while lo < hi
        invariant
            sq(lo as int) <= n as int,
            (n as int) < sq(hi as int + 1),
            lo <= hi,
        decreases hi - lo,
    {
        let mid: u64 = hi - (hi - lo) / 2;
        proof {
            let top: int = u64::MAX as int;
            assert(0 <= (mid as int) * (mid as int) <= top * top) by (nonlinear_arith)
                requires
                    0 <= mid as int <= top,
            ;
        }
        if (mid as u128) * (mid as u128) <= n {
            lo = mid;
        } else {
            hi = mid - 1;
        }
    }
    proof {
        lemma_sqrt_floor_unique(n as int, lo as int);
    }
    lo
}

/// Euclidean distance between two points, rounded down to an integer.
pub fn eu_distance(p: &Point, q: &Point) -> (d: u64)
    requires
        wf_point(*p),
        wf_point(*q),
    ensures
        d == sqrt_floor(dist2(*p, *q)),
        sq(d as int) <= dist2(*p, *q),
        dist2(*p, *q) < sq(d as int + 1),
        0 <= d <= 12_000_000_000,
{
    let dx: i128 = (q.x as i128) - (p.x as i128);
    let dy: i128 = (q.y as i128) - (p.y as i128);
    proof {
        let b: int = 2 * COORD_LIMIT as int;
        assert(0 <= dx * dx <= b * b && 0 <= dy * dy <= b * b) by (nonlinear_arith)
            requires
                -b <= dx <= b,
                -b <= dy <= b,
                0 <= b,
        ;
        assert(dx * dx == sq(q.x - p.x) && dy * dy == sq(q.y - p.y)) by (nonlinear_arith)
            requires
                dx == q.x - p.x,
                dy == q.y - p.y,
        ;
    }
    let n2: u128 = ((dx * dx) as u128) + ((dy * dy) as u128);
    let d = isqrt(n2);
    proof {
        let lim: int = 12_000_000_000;
        assert(dist2(*p, *q) < sq(lim)) by (nonlinear_arith)
            requires
                -COORD_LIMIT <= p.x <= COORD_LIMIT,
                -COORD_LIMIT <= p.y <= COORD_LIMIT,
                -COORD_LIMIT <= q.x <= COORD_LIMIT,
                -COORD_LIMIT <= q.y <= COORD_LIMIT,
                lim == 12_000_000_000,
                COORD_LIMIT == 1_500_000_000,
        ;
        assert(d as int <= lim - 1) by (nonlinear_arith)
            requires
                sq(d as int) <= dist2(*p, *q),
                dist2(*p, *q) < sq(lim),
                0 <= d as int,
                0 < lim,
        ;
    }
    d
}

/// Dot product of `q - a` with `b - a`.
pub open spec fn seg_dot(q: Point, a: Point, b: Point) -> int {
    (q.x - a.x) * (b.x - a.x) + (q.y - a.y) * (b.y - a.y)
}

/// The dot product clamped to `[0, |b - a|^2]`: the numerator of the
/// projection parameter, clamped so the projection stays on the segment.
pub open spec fn clamped_dot(q: Point, a: Point, b: Point) -> int {
    let d = seg_dot(q, a, b);
    let l2 = dist2(a, b);
    if d < 0 {
        0
    } else if d > l2 {
        l2
    } else {
        d
    }
}

/// One coordinate of the projection displacement `t/l2 * d`, rounded
/// towards the segment start.
pub open spec fn proj_delta(t: int, d: int, l2: int) -> int {
    if d >= 0 {
        t * d / l2
    } else {
        -(t * (-d) / l2)
    }
}

/// The point of segment `a..b` closest to `q` (up to integer rounding);
/// `a` itself when the segment is degenerate.
pub open spec fn seg_closest(q: Point, a: Point, b: Point) -> Point {
    if dist2(a, b) == 0 {
        a
    } else {
        let t = clamped_dot(q, a, b);
        let l2 = dist2(a, b);
        Point {
            x: (a.x + proj_delta(t, b.x - a.x, l2)) as i64,
            y: (a.y + proj_delta(t, b.y - a.y, l2)) as i64,
        }
    }
}

/// `0 <= t * d / l2 <= d` for `0 <= t <= l2`.
proof fn lemma_proj_step_bounds(t: int, d: int, l2: int)
    requires
        0 <= t <= l2,
        0 < l2,
        0 <= d,
    ensures
        0 <= t * d / l2 <= d,
{
    vstd::arithmetic::mul::lemma_mul_inequality(t, l2, d);
    vstd::arithmetic::mul::lemma_mul_nonnegative(t, d);
    vstd::arithmetic::div_mod::lemma_div_is_ordered(t * d, l2 * d, l2);
    vstd::arithmetic::div_mod::lemma_div_by_multiple(d, l2);
    assert(l2 * d == d * l2) by (nonlinear_arith);
    vstd::arithmetic::div_mod::lemma_div_pos_is_pos(t * d, l2);
}

/// Projection of `q` onto the segment from `a` to `b`: returns the
/// perpendicular distance, the along-segment distance from `a`, and
/// the closest point.
pub fn point_to_line_distance(q: &Point, a: &Point, b: &Point) -> (r: (u64, u64, Point))
    requires
        wf_point(*q),
        wf_point(*a),
        wf_point(*b),
    ensures
        r.2 == seg_closest(*q, *a, *b),
        wf_point(r.2),
        r.0 == sqrt_floor(dist2(*q, seg_closest(*q, *a, *b))),
        r.1 == sqrt_floor(dist2(*a, seg_closest(*q, *a, *b))),
        r.0 <= 12_000_000_000,
        r.1 <= 12_000_000_000,
{
    let dx: i128 = (b.x as i128) - (a.x as i128);
    let dy: i128 = (b.y as i128) - (a.y as i128);
    proof {
        let w: int = 2 * COORD_LIMIT as int;
        assert(0 <= dx * dx <= w * w && 0 <= dy * dy <= w * w) by (nonlinear_arith)
            requires
                -w <= dx <= w,
                -w <= dy <= w,
                0 <= w,
        ;
        assert(dx * dx == sq(b.x - a.x) && dy * dy == sq(b.y - a.y)) by (nonlinear_arith)
            requires
                dx == b.x - a.x,
                dy == b.y - a.y,
        ;
    }
    let len2: i128 = dx * dx + dy * dy;
    if len2 == 0 {
        let d = eu_distance(q, a);
        proof {
            lemma_sqrt_floor_unique(0, 0);
        }
        return (d, 0u64, *a);
    }
    let vx: i128 = (q.x as i128) - (a.x as i128);
    let vy: i128 = (q.y as i128) - (a.y as i128);
    proof {
        let w: int = 2 * COORD_LIMIT as int;
        assert(-(w * w) <= vx * dx <= w * w && -(w * w) <= vy * dy <= w * w)
            by (nonlinear_arith)
            requires
                -w <= vx <= w,
                -w <= vy <= w,
                -w <= dx <= w,
                -w <= dy <= w,
                0 <= w,
        ;
        assert(vx * dx + vy * dy == seg_dot(*q, *a, *b)) by (nonlinear_arith)
            requires
                vx == q.x - a.x,
                vy == q.y - a.y,
                dx == b.x - a.x,
                dy == b.y - a.y,
        ;
    }
    let dot: i128 = vx * dx + vy * dy;
    let t: i128 = if dot < 0 {
        0
    } else if dot > len2 {
        len2
    } else {
        dot
    };
    assert(t as int == clamped_dot(*q, *a, *b));
    let dx_abs: u128 = (if dx >= 0 {
        dx
    } else {
        -dx
    }) as u128;
    let dy_abs: u128 = (if dy >= 0 {
        dy
    } else {
        -dy
    }) as u128;
    proof {
        lemma_proj_step_bounds(t as int, dx_abs as int, len2 as int);
        lemma_proj_step_bounds(t as int, dy_abs as int, len2 as int);
        let w: int = 2 * COORD_LIMIT as int;
        assert((t as int) * (dx_abs as int) <= (len2 as int) * w) by (nonlinear_arith)
            requires
                0 <= t as int <= len2 as int,
                0 <= dx_abs as int <= w,
        ;
        assert((t as int) * (dy_abs as int) <= (len2 as int) * w) by (nonlinear_arith)
            requires
                0 <= t as int <= len2 as int,
                0 <= dy_abs as int <= w,
        ;
        assert((len2 as int) * w <= (8 * COORD_LIMIT as int * COORD_LIMIT as int) * w)
            by (nonlinear_arith)
            requires
                0 <= len2 as int <= 8 * COORD_LIMIT as int * COORD_LIMIT as int,
                0 <= w,
        ;
    }
    let xstep: u128 = (t as u128) * dx_abs / (len2 as u128);
    let ystep: u128 = (t as u128) * dy_abs / (len2 as u128);
    let px: i64 = if dx >= 0 {
        a.x + (xstep as i64)
    } else {
        a.x - (xstep as i64)
    };
    let py: i64 = if dy >= 0 {
        a.y + (ystep as i64)
    } else {
        a.y - (ystep as i64)
    };
    let cp = Point { x: px, y: py };
    assert(px as int == a.x + proj_delta(t as int, b.x - a.x, len2 as int));
    assert(py as int == a.y + proj_delta(t as int, b.y - a.y, len2 as int));
    assert(cp == seg_closest(*q, *a, *b));
    let offset = eu_distance(a, &cp);
    let dist = eu_distance(q, &cp);
    (dist, offset, cp)
}

/// Squared distances are nonnegative.
pub proof fn lemma_dist2_nonneg(p: Point, q: Point)
    ensures
        dist2(p, q) >= 0,
{
    assert(sq(q.x - p.x) >= 0 && sq(q.y - p.y) >= 0) by (nonlinear_arith);
}

/// Every nonnegative integer has a floor square root, so `sqrt_floor`
/// satisfies its defining inequalities.
pub proof fn lemma_sqrt_floor_props(n: int)
    requires
        n >= 0,
    ensures
        0 <= sqrt_floor(n),
        sq(sqrt_floor(n)) <= n,
        n < sq(sqrt_floor(n) + 1),
    decreases n,
{
    if n == 0 {
        lemma_sqrt_floor_unique(0, 0);
    } else {
        lemma_sqrt_floor_props(n - 1);
        let r = sqrt_floor(n - 1);
        if n < sq(r + 1) {
            lemma_sqrt_floor_unique(n, r);
        } else {
            assert(n == sq(r + 1));
            assert(sq(r + 1) < sq(r + 2)) by (nonlinear_arith)
                requires
                    0 <= r,
            ;
            lemma_sqrt_floor_unique(n, r + 1);
        }
    }
}

/// Length of the `k`-th segment of a polyline, rounded down.
pub open spec fn seg_len(ps: Seq<Point>, k: int) -> int {
    sqrt_floor(dist2(ps[k], ps[k + 1]))
}

/// Total rounded length of the first `k` segments of a polyline.
pub open spec fn prefix_len(ps: Seq<Point>, k: int) -> int
    decreases k,
{
    if k <= 0 {
        0
    } else {
        prefix_len(ps, k - 1) + seg_len(ps, k - 1)
    }
}

/// Planar length of a whole polyline: the sum of its segment lengths.
pub open spec fn polyline_len(ps: Seq<Point>) -> int {
    prefix_len(ps, ps.len() - 1)
}

/// Prefix lengths grow with the number of segments taken.
pub proof fn lemma_prefix_len_monotone(ps: Seq<Point>, k: int, m: int)
    requires
        0 <= k <= m,
    ensures
        prefix_len(ps, k) <= prefix_len(ps, m),
        prefix_len(ps, k) >= 0,
    decreases m,
{
    if k < m {
        lemma_prefix_len_monotone(ps, k, m - 1);
        lemma_dist2_nonneg(ps[m - 1], ps[m]);
        lemma_sqrt_floor_props(dist2(ps[m - 1], ps[m]));
    } else if k > 0 {
        lemma_prefix_len_monotone(ps, k - 1, k - 1);
        lemma_dist2_nonneg(ps[k - 1], ps[k]);
        lemma_sqrt_floor_props(dist2(ps[k - 1], ps[k]));
    }
}

/// Perpendicular distance from `q` to the `k`-th segment of `ps`.
pub open spec fn seg_dist(q: Point, ps: Seq<Point>, k: int) -> int {
    sqrt_floor(dist2(q, seg_closest(q, ps[k], ps[k + 1])))
}

/// Along-segment distance from the `k`-th vertex to the projection of `q`.
pub open spec fn seg_off(q: Point, ps: Seq<Point>, k: int) -> int {
    sqrt_floor(dist2(ps[k], seg_closest(q, ps[k], ps[k + 1])))
}

/// The floor square root is monotone.
pub proof fn lemma_sqrt_floor_monotone(m: int, n: int)
    requires
        0 <= m <= n,
    ensures
        sqrt_floor(m) <= sqrt_floor(n),
{
    lemma_sqrt_floor_props(m);
    lemma_sqrt_floor_props(n);
    let a = sqrt_floor(m);
    let b = sqrt_floor(n);
    assert(a <= b) by (nonlinear_arith)
        requires
            0 <= a,
            0 <= b,
            sq(a) <= m < sq(a + 1),
            sq(b) <= n < sq(b + 1),
            m <= n,
    ;
}

/// The projection of `q` onto the segment stays inside the segment's
/// bounding box, so it is no farther from the segment start than the
/// segment end is.
pub proof fn lemma_seg_closest_in_box(q: Point, a: Point, b: Point)
    requires
        wf_point(q),
        wf_point(a),
        wf_point(b),
    ensures
        dist2(a, seg_closest(q, a, b)) <= dist2(a, b),
{
    if dist2(a, b) == 0 {
        assert(sq(a.x - a.x) == 0 && sq(a.y - a.y) == 0) by (nonlinear_arith);
        lemma_dist2_nonneg(a, b);
    } else {
        let t = clamped_dot(q, a, b);
        let l2 = dist2(a, b);
        let dx = b.x - a.x;
        let dy = b.y - a.y;
        lemma_dist2_nonneg(a, b);
        assert(sq(dx) >= 0 && sq(dy) >= 0) by (nonlinear_arith);
        let ex = proj_delta(t, dx, l2);
        let ey = proj_delta(t, dy, l2);
        if dx >= 0 {
            lemma_proj_step_bounds(t, dx, l2);
        } else {
            lemma_proj_step_bounds(t, -dx, l2);
        }
        if dy >= 0 {
            lemma_proj_step_bounds(t, dy, l2);
        } else {
            lemma_proj_step_bounds(t, -dy, l2);
        }
        assert(sq(ex) <= sq(dx) && sq(ey) <= sq(dy)) by (nonlinear_arith)
            requires
                (0 <= ex <= dx) || (dx <= ex <= 0),
                (0 <= ey <= dy) || (dy <= ey <= 0),
        ;
        let cp = seg_closest(q, a, b);
        assert(cp.x == a.x + ex && cp.y == a.y + ey);
        assert(dist2(a, cp) == sq(ex) + sq(ey));
    }
}

/// The running offset of a projection on segment `k` does not pass the
/// end of that segment.
pub proof fn lemma_off_within(q: Point, ps: Seq<Point>, k: int)
    requires
        wf_point(q),
        wf_polyline(ps),
        0 <= k < ps.len() - 1,
    ensures
        prefix_len(ps, k) + seg_off(q, ps, k) <= prefix_len(ps, k + 1),
{
    lemma_seg_closest_in_box(q, ps[k], ps[k + 1]);
    lemma_dist2_nonneg(ps[k], seg_closest(q, ps[k], ps[k + 1]));
    lemma_sqrt_floor_monotone(
        dist2(ps[k], seg_closest(q, ps[k], ps[k + 1])),
        dist2(ps[k], ps[k + 1]),
    );
    assert(prefix_len(ps, k + 1) == prefix_len(ps, k) + seg_len(ps, k));
}

/// What `linear_reference_distance` returns: the result belongs to the
/// first segment `k` whose perpendicular distance is minimal; the offset
/// is the polyline length before `k` plus the along-segment distance.
pub open spec fn lr_matches(q: Point, ps: Seq<Point>, k: int, d: int, off: int, cp: Point) -> bool {
    &&& 0 <= k < ps.len() - 1
    &&& d == seg_dist(q, ps, k)
    &&& off == prefix_len(ps, k) + seg_off(q, ps, k)
    &&& cp == seg_closest(q, ps[k], ps[k + 1])
    &&& forall|j: int| 0 <= j < ps.len() - 1 ==> #[trigger] seg_dist(q, ps, j) >= d
    &&& forall|j: int| 0 <= j < k ==> #[trigger] seg_dist(q, ps, j) > d
}

/// The linear-reference result of a query point on a polyline is
/// unique: any two tuples satisfying `lr_matches` agree.
pub proof fn lemma_lr_unique(
    q: Point,
    ps: Seq<Point>,
    k1: int,
    d1: int,
    o1: int,
    c1: Point,
    k2: int,
    d2: int,
    o2: int,
    c2: Point,
)
    requires
        lr_matches(q, ps, k1, d1, o1, c1),
        lr_matches(q, ps, k2, d2, o2, c2),
    ensures
        k1 == k2,
        d1 == d2,
        o1 == o2,
        c1 == c2,
{
    assert(seg_dist(q, ps, k1) >= d2);
    assert(seg_dist(q, ps, k2) >= d1);
    if k1 < k2 {
        assert(seg_dist(q, ps, k1) > d2);
    }
    if k2 < k1 {
        assert(seg_dist(q, ps, k2) > d1);
    }
}

/// Projects `q` onto a polyline: the minimal perpendicular distance over
/// all segments (ties broken towards the earliest segment), the offset of
/// that projection along the polyline, and the projected point.
pub fn linear_reference_distance(q: &Point, line: &Vec<Point>) -> (r: (u64, u64, Point))
    requires
        wf_point(*q),
        wf_polyline(line@),
        line.len() >= 2,
        polyline_len(line@) <= crate::MAX_EDGE_LENGTH as int,
    ensures
        exists|k: int| lr_matches(*q, line@, k, r.0 as int, r.1 as int, r.2),
        wf_point(r.2),
        r.1 as int <= polyline_len(line@),
{
    let ghost ps = line@;
    let n: usize = line.len();
    let first = point_to_line_distance(q, &line[0], &line[1]);
    let mut min_d: u64 = first.0;
    let mut off: u64 = first.1;
    let mut cp: Point = first.2;
    let ghost mut bk: int = 0;
    let mut length_parsed: u64 = 0;
    let mut k: usize = 1;
    proof {
        lemma_prefix_len_monotone(ps, 0, ps.len() - 1);
        lemma_off_within(*q, ps, 0);
        lemma_prefix_len_monotone(ps, 1, ps.len() - 1);
    }
    while k < n - 1
        invariant
            2 <= n == ps.len(),
            ps == line@,
            1 <= k <= n - 1,
            wf_point(*q),
            wf_polyline(ps),
            polyline_len(ps) <= crate::MAX_EDGE_LENGTH as int,
            0 <= bk < k,
            min_d as int == seg_dist(*q, ps, bk),
            off as int == prefix_len(ps, bk) + seg_off(*q, ps, bk),
            off as int <= prefix_len(ps, bk + 1),
            off as int <= polyline_len(ps),
            cp == seg_closest(*q, ps[bk], ps[bk + 1]),
            wf_point(cp),
            forall|j: int| 0 <= j < k ==> #[trigger] seg_dist(*q, ps, j) >= min_d as int,
            forall|j: int| 0 <= j < bk ==> #[trigger] seg_dist(*q, ps, j) > min_d as int,
            length_parsed as int == prefix_len(ps, k as int - 1),
        decreases n - k,
    {
        let sl = eu_distance(&line[k - 1], &line[k]);
        proof {
            lemma_sqrt_floor_unique(dist2(ps[k - 1], ps[k as int]), sl as int);
            assert(prefix_len(ps, k as int) == prefix_len(ps, k as int - 1) + seg_len(
                ps,
                k as int - 1,
            ));
            lemma_prefix_len_monotone(ps, k as int, ps.len() - 1);
            lemma_prefix_len_monotone(ps, 0, k as int - 1);
        }
        let new_parsed: u64 = length_parsed + sl;
        let step = point_to_line_distance(q, &line[k], &line[k + 1]);
        if step.0 < min_d {
            min_d = step.0;
            off = new_parsed + step.1;
            cp = step.2;
            proof {
                bk = k as int;
                lemma_off_within(*q, ps, k as int);
                lemma_prefix_len_monotone(ps, k as int + 1, ps.len() - 1);
            }
        }
        length_parsed = new_parsed;
        k = k + 1;
    }
    let res: (u64, u64, Point) = (min_d, off, cp);
    proof {
        lemma_prefix_len_monotone(ps, bk, ps.len() - 1);
        lemma_dist2_nonneg(ps[bk], seg_closest(*q, ps[bk], ps[bk + 1]));
        lemma_sqrt_floor_props(dist2(ps[bk], seg_closest(*q, ps[bk], ps[bk + 1])));
        assert(lr_matches(*q, line@, bk, res.0 as int, res.1 as int, res.2));
        assert(exists|j: int| lr_matches(*q, line@, j, res.0 as int, res.1 as int, res.2));
    }
    res
}

/// Planar length of a linestring: the sum of the rounded Euclidean
/// lengths of its segments.  Fails on degenerate geometry (< 2 vertices)
/// and on polylines too long to serve as routing weights.
pub fn linestring_distance(line: &Line) -> (r: Result<u64, MMError>)
    requires
        wf_polyline(line.0@),
    ensures
        line.0@.len() < 2 ==> r == Err::<u64, MMError>(MMError::InvalidGeometry),
        line.0@.len() >= 2 && polyline_len(line.0@) <= crate::MAX_EDGE_LENGTH as int ==> r
            == Ok::<u64, MMError>(polyline_len(line.0@) as u64),
        line.0@.len() >= 2 && polyline_len(line.0@) > crate::MAX_EDGE_LENGTH as int ==> r
            == Err::<u64, MMError>(MMError::InvalidGeometry),
        r matches Ok(l) ==> l <= crate::MAX_EDGE_LENGTH && l as int == polyline_len(line.0@),
{
    let ghost ps = line.0@;
    let n: usize = line.0.len();
    if n < 2 {
        return Err(MMError::InvalidGeometry);
    }
    let mut total: u64 = 0;
    let mut k: usize = 0;
    while k < n - 1
        invariant
            2 <= n == ps.len(),
            ps == line.0@,
            0 <= k <= n - 1,
            wf_polyline(ps),
            total as int == prefix_len(ps, k as int),
            total <= crate::MAX_EDGE_LENGTH,
        decreases n - k,
    {
        let sl = eu_distance(&line.0[k], &line.0[k + 1]);
        proof {
            lemma_sqrt_floor_unique(dist2(ps[k as int], ps[k as int + 1]), sl as int);
        }
        let new_total: u64 = total + sl;
        if new_total > crate::MAX_EDGE_LENGTH {
            proof {
                lemma_prefix_len_monotone(ps, k as int + 1, ps.len() - 1);
            }
            return Err(MMError::InvalidGeometry);
        }
        total = new_total;
        k = k + 1;
    }
    Ok(total)
}

} // verus!
