//! Lattice points and the radius-based coverage geometry.
//!
//! All distance reasoning is done on squared Euclidean distances over the
//! integers, so there is no rounding anywhere in the coverage relation.

use vstd::prelude::*;

verus! {

/// A lattice point on the grid, with integer x-y coordinates.
#[derive(Copy, Clone, PartialEq, Eq, Structural, Debug)]
pub struct Point {
    pub x: i32,
    pub y: i32,
}

/// The square of an integer.
pub open spec fn sq(v: int) -> int {
    v * v
}

/// Squared Euclidean distance between two points.
pub open spec fn dist_sq(p: Point, q: Point) -> int {
    sq(p.x - q.x) + sq(p.y - q.y)
}

/// Whether `p` lies on a grid of side length `dim` (both axes in `[0, dim)`).
pub open spec fn on_grid(p: Point, dim: u8) -> bool {
    0 <= p.x < dim as int && 0 <= p.y < dim as int
}

/// The set of lattice points on the grid within radius `r` of `c`.
/// This is the mathematical meaning of every coverage query: it always
/// contains `c` itself whenever `c` is on the grid, since `dist_sq(c, c) == 0`.
pub open spec fn points_in_range(c: Point, r: u8, dim: u8) -> Set<Point> {
    Set::new(|q: Point| on_grid(q, dim) && dist_sq(c, q) <= sq(r as int))
}

/// Squares are non-negative.
pub proof fn lemma_sq_nonneg(a: int)
    by (nonlinear_arith)
    ensures
        sq(a) >= 0,
{
}

/// The square of a small integer is small.
pub proof fn lemma_sq_small(a: int)
    by (nonlinear_arith)
    requires
        -256 <= a <= 256,
    ensures
        0 <= sq(a) <= 65536,
{
}

/// Squaring ignores sign.
pub proof fn lemma_sq_neg(a: int)
    by (nonlinear_arith)
    ensures
        sq(-a) == sq(a),
{
}

/// If `a*a <= r*r` for non-negative `r`, then `a` lies in `[-r, r]`.
pub proof fn lemma_sq_bound(a: int, r: int)
    by (nonlinear_arith)
    requires
        r >= 0,
        sq(a) <= sq(r),
    ensures
        -r <= a <= r,
{
}

/// A point within radius `r` of `c` differs from `c` by at most `r` on each axis.
pub proof fn lemma_range_offsets(c: Point, q: Point, r: u8)
    requires
        dist_sq(c, q) <= sq(r as int),
    ensures
        -(r as int) <= q.x - c.x <= r as int,
        -(r as int) <= q.y - c.y <= r as int,
{
    lemma_sq_nonneg(c.x - q.x);
    lemma_sq_nonneg(c.y - q.y);
    lemma_sq_neg(c.x - q.x);
    lemma_sq_neg(c.y - q.y);
    lemma_sq_bound(q.x - c.x, r as int);
    lemma_sq_bound(q.y - c.y, r as int);
}

/// For every valid centre, the coverage query contains the centre itself,
/// contains no point off the grid, and every returned point lies within the
/// radius in squared Euclidean distance.
pub proof fn lemma_points_in_range_basics(c: Point, r: u8, dim: u8)
    requires
        on_grid(c, dim),
    ensures
        points_in_range(c, r, dim).contains(c),
        forall|q: Point|
            points_in_range(c, r, dim).contains(q) ==> on_grid(q, dim) && dist_sq(c, q) <= sq(
                r as int,
            ),
{
    assert(dist_sq(c, c) == 0) by {
        assert(sq(0) == 0);
    }
    lemma_sq_nonneg(r as int);
}

/// The coverage relation is symmetric in its two endpoints.
pub proof fn lemma_dist_symmetric(p: Point, q: Point)
    ensures
        dist_sq(p, q) == dist_sq(q, p),
{
    assert(sq(p.x - q.x) == sq(q.x - p.x)) by (nonlinear_arith);
    assert(sq(p.y - q.y) == sq(q.y - p.y)) by (nonlinear_arith);
}

impl Point {
    /// Creates and returns a new Point with the given x and y coordinates.
    pub fn new(x: i32, y: i32) -> (r: Point)
        ensures
            r == (Point { x, y }),
    {
        Point { x, y }
    }

    pub fn get_x(&self) -> (r: i32)
        ensures
            r == self.x,
    {
        self.x
    }

    pub fn get_y(&self) -> (r: i32)
        ensures
            r == self.y,
    {
        self.y
    }

    /// Returns whether (x2, y2) lies on a grid of side `d` and within `r`
    /// units of (x1, y1), measured in squared Euclidean distance.
    pub fn within(r: u8, x1: i32, y1: i32, x2: i32, y2: i32, d: u8) -> (b: bool)
        ensures
            b == (on_grid(Point { x: x2, y: y2 }, d) && dist_sq(
                Point { x: x1, y: y1 },
                Point { x: x2, y: y2 },
            ) <= sq(r as int)),
    {
        if x2 < 0 || y2 < 0 || x2 >= d as i32 || y2 >= d as i32 {
            return false;
        }
        let dx = x1 as i128 - x2 as i128;
        let dy = y1 as i128 - y2 as i128;
        proof {
            assert(dx * dx == sq(x1 - x2) && dx * dx < 0x10000000000000000) by (nonlinear_arith)
                requires
                    dx == x1 - x2,
                    -0x100000000 < dx < 0x100000000,
            ;
            assert(dy * dy == sq(y1 - y2) && dy * dy < 0x10000000000000000) by (nonlinear_arith)
                requires
                    dy == y1 - y2,
                    -0x100000000 < dy < 0x100000000,
            ;
            lemma_sq_small(r as int);
            lemma_sq_nonneg(x1 - x2);
            lemma_sq_nonneg(y1 - y2);
        }
        dx * dx + dy * dy <= (r as i128) * (r as i128)
    }

    /// Computes the set of grid points within radius `r` of `p` directly
    /// from the definition, as a duplicate-free vector.
    pub fn points_within_naive(p: Point, r: u8, dim: u8) -> (res: Vec<Point>)
        ensures
            res@.no_duplicates(),
            forall|q: Point| res@.contains(q) <==> points_in_range(p, r, dim).contains(q),
    {
        let mut res: Vec<Point> = Vec::new();
        let ri = r as i64;
        let mut dx: i64 = -ri;
        proof {
            assert forall|q: Point| points_in_range(p, r, dim).contains(q) implies !(q.x - p.x
                < -(ri as int)) by {
                lemma_range_offsets(p, q, r);
            }
        }
        while dx <= ri
            invariant
                -(ri + 1) <= dx <= ri + 1,
                ri == r as int,
                res@.no_duplicates(),
                forall|q: Point|
                    res@.contains(q) <==> (points_in_range(p, r, dim).contains(q) && q.x - p.x
                        < dx),
            decreases ri + 1 - dx,
        {
            let mut dy: i64 = -ri;
            proof {
                assert forall|q: Point| points_in_range(p, r, dim).contains(q) implies !(q.y - p.y
                    < -(ri as int)) by {
                    lemma_range_offsets(p, q, r);
                }
            }
            while dy <= ri
                invariant
                    -(ri + 1) <= dx <= ri,
                    -(ri + 1) <= dy <= ri + 1,
                    ri == r as int,
                    res@.no_duplicates(),
                    forall|q: Point|
                        res@.contains(q) <==> (points_in_range(p, r, dim).contains(q) && (q.x - p.x
                            < dx || (q.x - p.x == dx && q.y - p.y < dy))),
                decreases ri + 1 - dy,
            {
                let qx = p.x as i64 + dx;
                let qy = p.y as i64 + dy;
                proof {
                    lemma_sq_small(dx as int);
                    lemma_sq_small(dy as int);
                    lemma_sq_small(ri as int);
                }
                if 0 <= qx && qx < dim as i64 && 0 <= qy && qy < dim as i64 {
                    if dx * dx + dy * dy <= ri * ri {
                        let q = Point { x: qx as i32, y: qy as i32 };
                        proof {
                            assert(q.x == p.x + dx && q.y == p.y + dy);
                            lemma_sq_neg(p.x - q.x);
                            lemma_sq_neg(p.y - q.y);
                            assert(dist_sq(p, q) == sq(dx as int) + sq(dy as int));
                            assert(points_in_range(p, r, dim).contains(q));
                            assert(!res@.contains(q));
                        }
                        let ghost old_seq = res@;
                        res.push(q);
                        proof {
                            assert forall|t: Point| res@.contains(t) implies (points_in_range(
                                p,
                                r,
                                dim,
                            ).contains(t) && (t.x - p.x < dx || (t.x - p.x == dx && t.y - p.y < dy
                                + 1))) by {
                                let k = choose|k: int| 0 <= k < res@.len() && res@[k] == t;
                                if k < old_seq.len() {
                                    assert(old_seq[k] == t);
                                    assert(old_seq.contains(t));
                                } else {
                                    assert(t == q);
                                }
                            }
                            assert forall|t: Point|
                                (points_in_range(p, r, dim).contains(t) && (t.x - p.x < dx || (t.x
                                    - p.x == dx && t.y - p.y < dy + 1))) implies res@.contains(
                                t,
                            ) by {
                                if t.x - p.x < dx || (t.x - p.x == dx && t.y - p.y < dy) {
                                    assert(old_seq.contains(t));
                                    let k = choose|k: int|
                                        0 <= k < old_seq.len() && old_seq[k] == t;
                                    assert(res@[k] == t);
                                    assert(res@.contains(t));
                                } else {
                                    assert(t.x == p.x + dx && t.y == p.y + dy);
                                    assert(on_grid(t, dim) && on_grid(q, dim));
                                    assert(t == q);
                                    assert(res@[res@.len() - 1] == q);
                                }
                            }
                            assert forall|a: int, b: int|
                                0 <= a < res@.len() && 0 <= b < res@.len() && a
                                    != b implies res@[a] != res@[b] by {
                                if a < old_seq.len() && b < old_seq.len() {
                                    assert(old_seq[a] != old_seq[b]);
                                } else if b == old_seq.len() {
                                    assert(old_seq.contains(old_seq[a]));
                                } else {
                                    assert(old_seq.contains(old_seq[b]));
                                }
                            }
                            assert(res@.no_duplicates());
                        }
                    } else {
                        proof {
                            assert forall|t: Point|
                                points_in_range(p, r, dim).contains(t) && t.x - p.x == dx && t.y
                                    - p.y == dy implies false by {
                                lemma_sq_neg(p.x - t.x);
                                lemma_sq_neg(p.y - t.y);
                                assert(dist_sq(p, t) == sq(dx as int) + sq(dy as int));
                            }
                        }
                    }
                } else {
                    proof {
                        assert forall|t: Point|
                            points_in_range(p, r, dim).contains(t) && t.x - p.x == dx && t.y - p.y
                                == dy implies false by {
                            assert(t.x == p.x + dx && t.y == p.y + dy);
                        }
                    }
                }
                dy += 1;
            }
            proof {
                assert forall|q: Point|
                    points_in_range(p, r, dim).contains(q) && q.x - p.x == dx implies q.y - p.y < dy by {
                    lemma_range_offsets(p, q, r);
                }
            }
            dx += 1;
        }
        proof {
            assert forall|q: Point| points_in_range(p, r, dim).contains(q) implies q.x - p.x < dx by {
                lemma_range_offsets(p, q, r);
            }
        }
        res
    }
}

} // verus!
