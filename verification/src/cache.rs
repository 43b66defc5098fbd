//! The precomputed coverage index: for a fixed `(radius, dimension)` pair, a
//! table holding, for every lattice point, the set of grid points within the
//! radius of it. The same pairs recur across a whole optimization run, so the
//! tables are built once and passed explicitly to whoever needs them.

use vstd::prelude::*;

use crate::point::{on_grid, points_in_range, Point};

verus! {

/// The table entry for cell `(x, y)` holds exactly the grid points within
/// radius `r` of that cell.
pub open spec fn table_entry_ok(t: Seq<Vec<Point>>, dim: u8, r: u8, x: int, y: int) -> bool {
    let s = t[x * (dim as int) + y]@;
    &&& s.no_duplicates()
    &&& forall|q: Point|
        s.contains(q) <==> points_in_range(Point { x: x as i32, y: y as i32 }, r, dim).contains(q)
}

/// A fully precomputed coverage table for one `(radius, dimension)` pair,
/// indexed by `x * dimension + y`.
pub struct CoverageCache {
    pub dimension: u8,
    pub radius: u8,
    pub table: Vec<Vec<Point>>,
}

impl CoverageCache {
    pub open spec fn wf(&self) -> bool {
        &&& self.table@.len() == (self.dimension as int) * (self.dimension as int)
        &&& forall|x: int, y: int|
            0 <= x < self.dimension as int && 0 <= y < self.dimension as int ==> #[trigger] table_entry_ok(
                self.table@,
                self.dimension,
                self.radius,
                x,
                y,
            )
    }

    /// Builds the complete table for the given dimension and radius by direct
    /// computation on every cell.
    pub fn new(dimension: u8, radius: u8) -> (c: CoverageCache)
        ensures
            c.wf(),
            c.dimension == dimension,
            c.radius == radius,
    {
        let dim = dimension as usize;
        let mut table: Vec<Vec<Point>> = Vec::new();
        let mut cx: usize = 0;
        while cx < dim
            invariant
                cx <= dim,
                dim == dimension as int,
                table@.len() == cx * dim,
                forall|x: int, y: int|
                    0 <= x < cx && 0 <= y < dim ==> #[trigger] table_entry_ok(
                        table@,
                        dimension,
                        radius,
                        x,
                        y,
                    ),
            decreases dim - cx,
        {
            let mut cy: usize = 0;
            while cy < dim
                invariant
                    cx < dim,
                    cy <= dim,
                    dim == dimension as int,
                    table@.len() == cx * dim + cy,
                    forall|x: int, y: int|
                        0 <= x < cx && 0 <= y < dim ==> #[trigger] table_entry_ok(
                            table@,
                            dimension,
                            radius,
                            x,
                            y,
                        ),
                    forall|y: int|
                        0 <= y < cy ==> #[trigger] table_entry_ok(
                            table@,
                            dimension,
                            radius,
                            cx as int,
                            y,
                        ),
                decreases dim - cy,
            {
                proof {
                    assert(cx * dim + cy < dim * dim && cx * dim + dim <= dim * dim)
                        by (nonlinear_arith)
                        requires
                            0 <= cx < dim,
                            0 <= cy < dim,
                    ;
                }
                let ghost old_table = table@;
                let entry = Point::points_within_naive(
                    Point { x: cx as i32, y: cy as i32 },
                    radius,
                    dimension,
                );
                table.push(entry);
                proof {
                    assert(table_entry_ok(table@, dimension, radius, cx as int, cy as int));
                    assert forall|x: int, y: int|
                        0 <= x < cx && 0 <= y < dim implies #[trigger] table_entry_ok(
                        table@,
                        dimension,
                        radius,
                        x,
                        y,
                    ) by {
                        assert(x * (dimension as int) + y < cx * dim) by (nonlinear_arith)
                            requires
                                0 <= x < cx,
                                0 <= y < dim,
                                dim == dimension as int,
                        ;
                        assert(table@[x * (dimension as int) + y] == old_table[x
                            * (dimension as int) + y]);
                        assert(table_entry_ok(old_table, dimension, radius, x, y));
                    }
                    assert forall|y: int| 0 <= y < cy + 1 implies #[trigger] table_entry_ok(
                        table@,
                        dimension,
                        radius,
                        cx as int,
                        y,
                    ) by {
                        assert((cx as int) * (dimension as int) + y <= cx * dim + cy);
                        if y < cy {
                            assert(table@[(cx as int) * (dimension as int) + y] == old_table[(
                            cx as int) * (dimension as int) + y]);
                            assert(table_entry_ok(old_table, dimension, radius, cx as int, y));
                        }
                    }
                }
                cy += 1;
            }
            proof {
                assert(cx * dim + dim == (cx + 1) * dim) by (nonlinear_arith);
            }
            cx += 1;
        }
        let c = CoverageCache { dimension, radius, table };
        proof {
            assert forall|x: int, y: int|
                0 <= x < c.dimension as int && 0 <= y
                    < c.dimension as int implies #[trigger] table_entry_ok(
                c.table@,
                c.dimension,
                c.radius,
                x,
                y,
            ) by {
                assert(table_entry_ok(table@, dimension, radius, x, y));
            }
        }
        c
    }

    /// Returns the cached set of grid points within this cache's radius of `p`.
    pub fn points_within(&self, p: Point) -> (r: &Vec<Point>)
        requires
            self.wf(),
            on_grid(p, self.dimension),
        ensures
            r@.no_duplicates(),
            forall|q: Point|
                r@.contains(q) <==> points_in_range(p, self.radius, self.dimension).contains(q),
    {
        proof {
            assert(0 <= (p.x as int) * (self.dimension as int) + (p.y as int) < (
            self.dimension as int) * (self.dimension as int) <= 65025) by (nonlinear_arith)
                requires
                    0 <= p.x < self.dimension as int,
                    0 <= p.y < self.dimension as int,
                    self.dimension as int <= 255,
            ;
            assert(table_entry_ok(self.table@, self.dimension, self.radius, p.x as int, p.y as int));
        }
        let idx = p.x as usize * self.dimension as usize + p.y as usize;
        &self.table[idx]
    }
}

/// A family of coverage tables, one per `(dimension, radius)` pair in use.
pub struct CoverageCaches {
    pub caches: Vec<CoverageCache>,
}

impl CoverageCaches {
    pub open spec fn wf(&self) -> bool {
        forall|i: int| 0 <= i < self.caches@.len() ==> (#[trigger] self.caches@[i]).wf()
    }

    /// Whether a table for the given pair is present.
    pub open spec fn spec_has(&self, dim: u8, r: u8) -> bool {
        exists|i: int|
            0 <= i < self.caches@.len() && (#[trigger] self.caches@[i]).dimension == dim
                && self.caches@[i].radius == r
    }
}

/// Builds the coverage tables for the standard size classes: the penalty
/// radii 8, 10 and 14 and the shared service radius 3, over the grid
/// dimensions 30, 50 and 100.
pub fn setup_persistence() -> (c: CoverageCaches)
    ensures
        c.wf(),
        c.spec_has(30, 8),
        c.spec_has(50, 10),
        c.spec_has(100, 14),
        c.spec_has(30, 3),
        c.spec_has(50, 3),
        c.spec_has(100, 3),
{
    let mut caches: Vec<CoverageCache> = Vec::new();
    caches.push(CoverageCache::new(30, 8));
    caches.push(CoverageCache::new(50, 10));
    caches.push(CoverageCache::new(100, 14));
    caches.push(CoverageCache::new(30, 3));
    caches.push(CoverageCache::new(50, 3));
    caches.push(CoverageCache::new(100, 3));
    let c = CoverageCaches { caches };
    proof {
        assert(c.caches@[0].dimension == 30 && c.caches@[0].radius == 8);
        assert(c.caches@[1].dimension == 50 && c.caches@[1].radius == 10);
        assert(c.caches@[2].dimension == 100 && c.caches@[2].radius == 14);
        assert(c.caches@[3].dimension == 30 && c.caches@[3].radius == 3);
        assert(c.caches@[4].dimension == 50 && c.caches@[4].radius == 3);
        assert(c.caches@[5].dimension == 100 && c.caches@[5].radius == 3);
    }
    c
}

impl Point {
    /// Returns the cached set of all the grid points within the given radius
    /// of the given point, if a table for `(dim, r)` was built.
    pub fn points_within_radius<'a>(
        p: Point,
        r: u8,
        dim: u8,
        caches: &'a CoverageCaches,
    ) -> (res: Option<&'a Vec<Point>>)
        requires
            caches.wf(),
            on_grid(p, dim),
        ensures
            match res {
                Some(v) => {
                    &&& caches.spec_has(dim, r)
                    &&& v@.no_duplicates()
                    &&& forall|q: Point|
                        v@.contains(q) <==> points_in_range(p, r, dim).contains(q)
                },
                None => !caches.spec_has(dim, r),
            },
    {
        let mut i: usize = 0;
        while i < caches.caches.len()
            invariant
                i <= caches.caches@.len(),
                caches.wf(),
                on_grid(p, dim),
                forall|k: int|
                    0 <= k < i ==> !((#[trigger] caches.caches@[k]).dimension == dim
                        && caches.caches@[k].radius == r),
            decreases caches.caches@.len() - i,
        {
            let c = &caches.caches[i];
            if c.dimension == dim && c.radius == r {
                return Some(c.points_within(p));
            }
            i += 1;
        }
        proof {
            if caches.spec_has(dim, r) {
                let k = choose|k: int|
                    0 <= k < caches.caches@.len() && (#[trigger] caches.caches@[k]).dimension == dim
                        && caches.caches@[k].radius == r;
                assert(false);
            }
        }
        None
    }
}

} // verus!
