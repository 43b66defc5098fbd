//! Binary integer program encoding of the covering problem.
//!
//! One binary decision variable stands for "a tower is present" at each
//! lattice cell. For every city, the variables of the cells within the
//! service radius of it must sum to at least one. In exact mode, one
//! auxiliary binary variable per ordered pair of cells within the penalty
//! radius of each other models the logical AND of the two endpoint variables,
//! and the objective minimizes the sum of these auxiliaries — a linear
//! stand-in for the exponential penalty. The randomized variant omits the
//! pair terms and minimizes the plain sum of tower variables under a solver
//! seed, to produce diverse feasible coverings quickly.
//!
//! The model is plain data: an external solver is a black box that receives
//! it and hands back the chosen cells.

use vstd::prelude::*;

use crate::grid::Grid;
use crate::point::{dist_sq, on_grid, points_in_range, sq, Point};

verus! {

/// An ordered pair of distinct grid cells within the penalty radius of each
/// other: the endpoints of one auxiliary AND variable.
pub open spec fn valid_penalty_pair(a: Point, b: Point, dim: u8, r_p: u8) -> bool {
    &&& on_grid(a, dim)
    &&& on_grid(b, dim)
    &&& a != b
    &&& dist_sq(a, b) <= sq(r_p as int)
}

/// The binary integer program for one grid instance, as plain data.
pub struct GridProblem {
    /// Lattice side length; one binary variable per cell.
    pub dim: u8,
    pub r_s: u8,
    pub r_p: u8,
    /// Solver time budget in seconds.
    pub max_time: u32,
    /// Seed handed to the external solver in randomized mode.
    pub seed: u32,
    /// Whether the pairwise penalty terms are part of the objective.
    pub exact: bool,
    /// One coverage constraint per city: the cells whose variables must sum
    /// to at least 1.
    pub coverage: Vec<Vec<Point>>,
    /// The endpoint cells of the auxiliary AND variables; empty in
    /// randomized mode.
    pub penalty_pairs: Vec<(Point, Point)>,
}

impl GridProblem {
    /// The constraints encode exactly the given instance.
    pub open spec fn encodes(&self, cities: Seq<Point>) -> bool {
        &&& self.coverage@.len() == cities.len()
        &&& forall|i: int|
            0 <= i < cities.len() ==> (#[trigger] self.coverage@[i])@.no_duplicates()
        &&& forall|i: int, q: Point|
            #![trigger self.coverage@[i]@.contains(q)]
            0 <= i < cities.len() ==> (self.coverage@[i]@.contains(q) <==> points_in_range(
                cities[i],
                self.r_s,
                self.dim,
            ).contains(q))
        &&& self.penalty_pairs@.no_duplicates()
        &&& self.exact ==> forall|a: Point, b: Point|
            #![trigger self.penalty_pairs@.contains((a, b))]
            self.penalty_pairs@.contains((a, b)) <==> valid_penalty_pair(a, b, self.dim, self.r_p)
        &&& !self.exact ==> self.penalty_pairs@.len() == 0
    }

    /// Creates the randomized relaxation for the given instance: coverage
    /// constraints only, with a seed for the external solver's perturbation.
    pub fn new_randomized(
        dim: u8,
        r_s: u8,
        r_p: u8,
        cities: &Vec<Point>,
        max_time: u32,
        seed: u32,
    ) -> (m: GridProblem)
        ensures
            m.dim == dim && m.r_s == r_s && m.r_p == r_p,
            m.max_time == max_time && m.seed == seed,
            !m.exact,
            m.encodes(cities@),
    {
        let mut coverage: Vec<Vec<Point>> = Vec::new();
        let mut i: usize = 0;
        while i < cities.len()
            invariant
                i <= cities@.len(),
                coverage@.len() == i,
                forall|k: int| 0 <= k < i ==> (#[trigger] coverage@[k])@.no_duplicates(),
                forall|k: int, q: Point|
                    #![trigger coverage@[k]@.contains(q)]
                    0 <= k < i ==> (coverage@[k]@.contains(q) <==> points_in_range(
                        cities@[k],
                        r_s,
                        dim,
                    ).contains(q)),
            decreases cities@.len() - i,
        {
            coverage.push(Point::points_within_naive(cities[i], r_s, dim));
            i += 1;
        }
        GridProblem {
            dim,
            r_s,
            r_p,
            max_time,
            seed,
            exact: false,
            coverage,
            penalty_pairs: Vec::new(),
        }
    }

    /// Creates the exact model for the given instance: coverage constraints
    /// plus one auxiliary AND variable per ordered pair of cells within the
    /// penalty radius.
    pub fn new(dim: u8, r_s: u8, r_p: u8, cities: &Vec<Point>, max_time: u32) -> (m: GridProblem)
        ensures
            m.dim == dim && m.r_s == r_s && m.r_p == r_p,
            m.max_time == max_time,
            m.exact,
            m.encodes(cities@),
    {
        let mut m = GridProblem::new_randomized(dim, r_s, r_p, cities, max_time, 0);
        let mut pairs: Vec<(Point, Point)> = Vec::new();
        let dimu = dim as usize;
        let mut px: usize = 0;
        while px < dimu
            invariant
                px <= dimu,
                dimu == dim as int,
                pairs@.no_duplicates(),
                forall|a: Point, b: Point|
                    #![trigger pairs@.contains((a, b))]
                    pairs@.contains((a, b)) <==> (valid_penalty_pair(a, b, dim, r_p) && a.x < px),
            decreases dimu - px,
        {
            let mut py: usize = 0;
            while py < dimu
                invariant
                    px < dimu,
                    py <= dimu,
                    dimu == dim as int,
                    pairs@.no_duplicates(),
                    forall|a: Point, b: Point|
                        #![trigger pairs@.contains((a, b))]
                        pairs@.contains((a, b)) <==> (valid_penalty_pair(a, b, dim, r_p) && (a.x
                            < px || (a.x == px && a.y < py))),
                decreases dimu - py,
            {
                let cell = Point { x: px as i32, y: py as i32 };
                let cands = Point::points_within_naive(cell, r_p, dim);
                let mut pi: usize = 0;
                while pi < cands.len()
                    invariant
                        px < dimu,
                        py < dimu,
                        pi <= cands@.len(),
                        dimu == dim as int,
                        cell == (Point { x: px as i32, y: py as i32 }),
                        on_grid(cell, dim),
                        cands@.no_duplicates(),
                        forall|q: Point|
                            cands@.contains(q) <==> points_in_range(cell, r_p, dim).contains(q),
                        pairs@.no_duplicates(),
                        forall|a: Point, b: Point|
                            #![trigger pairs@.contains((a, b))]
                            pairs@.contains((a, b)) <==> (valid_penalty_pair(a, b, dim, r_p) && (a.x
                                < px || (a.x == px && a.y < py) || (a == cell && exists|k: int|
                                0 <= k < pi && cands@[k] == b))),
                    decreases cands@.len() - pi,
                {
                    let q = cands[pi];
                    let ghost old_pairs = pairs@;
                    if !(q.x == cell.x && q.y == cell.y) {
                        proof {
                            assert(cands@.contains(q));
                            if old_pairs.contains((cell, q)) {
                                let k = choose|k: int| 0 <= k < pi && cands@[k] == q;
                                assert(false);
                            }
                        }
                        pairs.push((cell, q));
                        proof {
                            crate::grid::lemma_pair_push_no_dup(old_pairs, (cell, q));
                            assert forall|a: Point, b: Point|
                                #![trigger pairs@.contains((a, b))]
                                pairs@.contains((a, b)) == (valid_penalty_pair(a, b, dim, r_p) && (
                                a.x < px || (a.x == px && a.y < py) || (a == cell && exists|k: int|
                                    0 <= k < pi + 1 && cands@[k] == b))) by {
                                if pairs@.contains((a, b)) {
                                    let m0 = choose|m0: int|
                                        0 <= m0 < pairs@.len() && pairs@[m0] == (a, b);
                                    if m0 < old_pairs.len() {
                                        assert(old_pairs[m0] == (a, b));
                                        assert(old_pairs.contains((a, b)));
                                    } else {
                                        assert(a == cell && b == q);
                                        assert(cands@[pi as int] == b);
                                    }
                                }
                                if valid_penalty_pair(a, b, dim, r_p) && (a.x < px || (a.x == px
                                    && a.y < py) || (a == cell && exists|k: int|
                                    0 <= k < pi + 1 && cands@[k] == b)) {
                                    if a == cell && (exists|k: int| 0 <= k < pi + 1 && cands@[k] == b)
                                        && !(a.x < px || (a.x == px && a.y < py)) {
                                        let k = choose|k: int| 0 <= k < pi + 1 && cands@[k] == b;
                                        if k == pi {
                                            assert(pairs@[pairs@.len() - 1] == (a, b));
                                        } else {
                                            assert(old_pairs.contains((a, b)));
                                            let m0 = choose|m0: int|
                                                0 <= m0 < old_pairs.len() && old_pairs[m0] == (a, b);
                                            assert(pairs@[m0] == (a, b));
                                        }
                                    } else {
                                        assert(old_pairs.contains((a, b)));
                                        let m0 = choose|m0: int|
                                            0 <= m0 < old_pairs.len() && old_pairs[m0] == (a, b);
                                        assert(pairs@[m0] == (a, b));
                                    }
                                }
                            }
                        }
                    } else {
                        proof {
                            assert forall|a: Point, b: Point|
                                #![trigger pairs@.contains((a, b))]
                                pairs@.contains((a, b)) == (valid_penalty_pair(a, b, dim, r_p) && (
                                a.x < px || (a.x == px && a.y < py) || (a == cell && exists|k: int|
                                    0 <= k < pi + 1 && cands@[k] == b))) by {
                                if valid_penalty_pair(a, b, dim, r_p) && a == cell && (exists|
                                    k: int|
                                    0 <= k < pi + 1 && cands@[k] == b) && !(a.x < px || (a.x == px
                                    && a.y < py)) {
                                    let k = choose|k: int| 0 <= k < pi + 1 && cands@[k] == b;
                                    if k == pi {
                                        assert(b == q && q == cell);
                                        assert(false);
                                    }
                                }
                            }
                        }
                    }
                    pi += 1;
                }
                proof {
                    assert forall|a: Point, b: Point|
                        #![trigger pairs@.contains((a, b))]
                        pairs@.contains((a, b)) == (valid_penalty_pair(a, b, dim, r_p) && (a.x < px
                            || (a.x == px && a.y < py + 1))) by {
                        if valid_penalty_pair(a, b, dim, r_p) && a == cell {
                            assert(points_in_range(cell, r_p, dim).contains(b));
                            assert(cands@.contains(b));
                            let k = choose|k: int| 0 <= k < cands@.len() && cands@[k] == b;
                        }
                    }
                }
                py += 1;
            }
            px += 1;
        }
        proof {
            assert forall|a: Point, b: Point|
                #![trigger pairs@.contains((a, b))]
                pairs@.contains((a, b)) == valid_penalty_pair(a, b, dim, r_p) by {
                if valid_penalty_pair(a, b, dim, r_p) {
                    assert(a.x < dim as int);
                }
            }
        }
        m.exact = true;
        m.penalty_pairs = pairs;
        m
    }
}

impl Grid {
    /// Builds the binary integer program for this grid's instance: the exact
    /// model when `exact` is set, the randomized relaxation otherwise.
    pub fn ilp_model(&self, exact: bool, max_time: u32, seed: u32) -> (m: GridProblem)
        ensures
            m.dim == self.dimension && m.r_s == self.service_radius && m.r_p
                == self.penalty_radius,
            m.max_time == max_time,
            m.exact == exact,
            m.encodes(self.cities@.map_values(|e: crate::grid::Entry| e.pos)),
    {
        let mut cities: Vec<Point> = Vec::new();
        let mut i: usize = 0;
        let n = self.get_cities_ref().len();
        while i < n
            invariant
                i <= n,
                n == self.cities@.len(),
                cities@.len() == i,
                forall|k: int| 0 <= k < i ==> cities@[k] == (#[trigger] self.cities@[k]).pos,
            decreases n - i,
        {
            cities.push(self.get_cities_ref()[i].pos);
            i += 1;
        }
        proof {
            assert(cities@ =~= self.cities@.map_values(|e: crate::grid::Entry| e.pos));
        }
        if exact {
            GridProblem::new(
                self.dimension,
                self.service_radius,
                self.penalty_radius,
                &cities,
                max_time,
            )
        } else {
            GridProblem::new_randomized(
                self.dimension,
                self.service_radius,
                self.penalty_radius,
                &cities,
                max_time,
                seed,
            )
        }
    }
}

} // verus!
