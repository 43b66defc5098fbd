//! The mutable spatial model: a city set, a tower set, and the bipartite
//! coverage relations between them, kept incrementally consistent on every
//! tower addition and removal.
//!
//! The well-formedness predicate [`Grid::wf`] pins the stored relations to
//! their geometric meaning: a tower's stored links are exactly the other
//! towers within the penalty radius, and a city's stored links are exactly
//! the towers within the service radius. Every operation preserves it, so
//! the incrementally maintained state always equals what a recomputation
//! from scratch would produce.

use vstd::prelude::*;

use crate::point::{dist_sq, lemma_dist_symmetric, on_grid, sq, Point};

verus! {

/// Why a grid operation was rejected.
#[derive(Copy, Clone, PartialEq, Eq, Structural, Debug)]
pub enum GridError {
    /// A coordinate lies outside `[0, dimension)`.
    OutOfBounds,
    /// A tower or city is already present at the point.
    DuplicateEntity,
    /// No tower is present at the point.
    NotFound,
    /// The operation is not allowed in the grid's current state.
    InvalidState,
}

/// One key of a coverage relation together with the points related to it:
/// for a tower, the other towers within the penalty radius (its penalized
/// peers); for a city, the towers currently covering it.
pub struct Entry {
    pub pos: Point,
    pub links: Vec<Point>,
}

/// The other towers within radius `r_p` of `p` (the penalized peers of a
/// tower at `p`), given the set of all tower positions.
pub open spec fn peer_set(towers: Set<Point>, p: Point, r_p: u8) -> Set<Point> {
    Set::new(|q: Point| towers.contains(q) && q != p && dist_sq(p, q) <= sq(r_p as int))
}

/// The towers within radius `r_s` of the city at `c` (the towers covering
/// it), given the set of all tower positions. A tower placed exactly on the
/// city always covers it, since the distance is then zero.
pub open spec fn cover_set(towers: Set<Point>, c: Point, r_s: u8) -> Set<Point> {
    Set::new(|q: Point| towers.contains(q) && dist_sq(c, q) <= sq(r_s as int))
}

/// Whether some entry of `s` has key position `p`.
pub open spec fn has_key(s: Seq<Entry>, p: Point) -> bool {
    exists|i: int| 0 <= i < s.len() && s[i].pos == p
}

/// The set of key positions of `s`.
pub open spec fn key_set(s: Seq<Entry>) -> Set<Point> {
    Set::new(|p: Point| has_key(s, p))
}

/// All entries of `s` have distinct key positions.
pub open spec fn keys_distinct(s: Seq<Entry>) -> bool {
    forall|i: int, j: int|
        0 <= i < s.len() && 0 <= j < s.len() && i != j ==> (#[trigger] s[i]).pos != (
        #[trigger] s[j]).pos
}

/// Two entry sequences hold exactly the same data.
pub open spec fn entries_equal(a: Seq<Entry>, b: Seq<Entry>) -> bool {
    &&& a.len() == b.len()
    &&& forall|i: int|
        0 <= i < a.len() ==> (#[trigger] a[i]).pos == b[i].pos && a[i].links@ == b[i].links@
}

/// Pushing an entry adds exactly its key to the key set.
pub proof fn lemma_key_set_push(s: Seq<Entry>, e: Entry)
    ensures
        key_set(s.push(e)) == key_set(s).insert(e.pos),
{
    assert forall|q: Point| key_set(s.push(e)).contains(q) == key_set(s).insert(e.pos).contains(
        q,
    ) by {
        if has_key(s.push(e), q) {
            let i = choose|i: int| 0 <= i < s.push(e).len() && s.push(e)[i].pos == q;
            if i < s.len() {
                assert(s[i].pos == q);
            }
        }
        if has_key(s, q) {
            let i = choose|i: int| 0 <= i < s.len() && s[i].pos == q;
            assert(s.push(e)[i].pos == q);
        }
        if q == e.pos {
            assert(s.push(e)[s.len() as int].pos == q);
        }
    }
    assert(key_set(s.push(e)) =~= key_set(s).insert(e.pos));
}

/// Removing the entry at index `i` removes exactly its key from the key set,
/// provided keys are distinct; distinctness is preserved.
pub proof fn lemma_key_set_remove(s: Seq<Entry>, i: int)
    requires
        0 <= i < s.len(),
        keys_distinct(s),
    ensures
        key_set(s.remove(i)) == key_set(s).remove(s[i].pos),
        keys_distinct(s.remove(i)),
{
    let t = s.remove(i);
    assert forall|q: Point| has_key(t, q) == (has_key(s, q) && q != s[i].pos) by {
        if has_key(t, q) {
            let k = choose|k: int| 0 <= k < t.len() && t[k].pos == q;
            if k < i {
                assert(s[k].pos == q);
            } else {
                assert(s[k + 1].pos == q);
            }
        }
        if has_key(s, q) && q != s[i].pos {
            let k = choose|k: int| 0 <= k < s.len() && s[k].pos == q;
            if k < i {
                assert(t[k].pos == q);
            } else {
                assert(k > i);
                assert(t[k - 1].pos == q);
            }
        }
    }
    assert(key_set(t) =~= key_set(s).remove(s[i].pos));
}

/// Pushing an entry with a fresh key keeps the keys distinct.
pub proof fn lemma_keys_distinct_push(s: Seq<Entry>, e: Entry)
    requires
        keys_distinct(s),
        !has_key(s, e.pos),
    ensures
        keys_distinct(s.push(e)),
{
    let t = s.push(e);
    assert forall|i: int, j: int|
        0 <= i < t.len() && 0 <= j < t.len() && i != j implies (#[trigger] t[i]).pos != (
    #[trigger] t[j]).pos by {
        if i < s.len() && j < s.len() {
            assert(s[i].pos != s[j].pos);
        } else if j == s.len() {
            if s[i].pos == e.pos {
                assert(has_key(s, e.pos));
            }
        } else {
            if s[j].pos == e.pos {
                assert(has_key(s, e.pos));
            }
        }
    }
}

/// The key set and key distinctness depend only on the key positions.
pub proof fn lemma_key_set_same_positions(a: Seq<Entry>, b: Seq<Entry>)
    requires
        a.len() == b.len(),
        forall|i: int| 0 <= i < a.len() ==> (#[trigger] a[i]).pos == b[i].pos,
    ensures
        key_set(a) == key_set(b),
        keys_distinct(a) == keys_distinct(b),
{
    assert forall|q: Point| has_key(a, q) == has_key(b, q) by {
        if has_key(a, q) {
            let i = choose|i: int| 0 <= i < a.len() && a[i].pos == q;
            assert(b[i].pos == q);
        }
        if has_key(b, q) {
            let i = choose|i: int| 0 <= i < b.len() && b[i].pos == q;
            assert(a[i].pos == q);
        }
    }
    assert(key_set(a) =~= key_set(b));
    if keys_distinct(a) {
        assert forall|i: int, j: int|
            0 <= i < b.len() && 0 <= j < b.len() && i != j implies (#[trigger] b[i]).pos != (
        #[trigger] b[j]).pos by {
            assert(a[i].pos != a[j].pos);
        }
    }
    if keys_distinct(b) {
        assert forall|i: int, j: int|
            0 <= i < a.len() && 0 <= j < a.len() && i != j implies (#[trigger] a[i]).pos != (
        #[trigger] a[j]).pos by {
            assert(b[i].pos != b[j].pos);
        }
    }
}

/// Removing the element at index `i` of a duplicate-free point sequence
/// removes exactly that point from its set.
pub proof fn lemma_remove_point_seq(s: Seq<Point>, i: int)
    requires
        s.no_duplicates(),
        0 <= i < s.len(),
    ensures
        s.remove(i).no_duplicates(),
        s.remove(i).to_set() == s.to_set().remove(s[i]),
        !s.remove(i).contains(s[i]),
{
    let t = s.remove(i);
    assert forall|a: int, b: int| 0 <= a < t.len() && 0 <= b < t.len() && a != b implies t[a]
        != t[b] by {
        let a0: int = if a < i {
            a
        } else {
            a + 1
        };
        let b0: int = if b < i {
            b
        } else {
            b + 1
        };
        assert(s[a0] != s[b0]);
    }
    assert forall|q: Point| t.to_set().contains(q) == s.to_set().remove(s[i]).contains(q) by {
        if t.contains(q) {
            let k = choose|k: int| 0 <= k < t.len() && t[k] == q;
            if k < i {
                assert(s[k] == q);
            } else {
                assert(s[k + 1] == q);
            }
        }
        if s.contains(q) && q != s[i] {
            let k = choose|k: int| 0 <= k < s.len() && s[k] == q;
            if k < i {
                assert(t[k] == q);
            } else {
                assert(k != i);
                assert(t[k - 1] == q);
            }
        }
    }
    assert(t.to_set() =~= s.to_set().remove(s[i]));
    if t.contains(s[i]) {
        assert(t.to_set().contains(s[i]));
        assert(false);
    }
}

/// Pushing a fresh pair keeps a pair sequence duplicate-free.
pub proof fn lemma_pair_push_no_dup(s: Seq<(Point, Point)>, x: (Point, Point))
    requires
        s.no_duplicates(),
        !s.contains(x),
    ensures
        s.push(x).no_duplicates(),
{
    let t = s.push(x);
    assert forall|i: int, j: int|
        0 <= i < t.len() && 0 <= j < t.len() && i != j implies t[i] != t[j] by {
        if i < s.len() && j < s.len() {
            assert(s[i] != s[j]);
        } else if j == s.len() {
            assert(s.contains(s[i]));
        } else {
            assert(s.contains(s[j]));
        }
    }
}

/// Pushing a fresh point keeps a point sequence duplicate-free.
pub proof fn lemma_push_no_dup(s: Seq<Point>, x: Point)
    requires
        s.no_duplicates(),
        !s.contains(x),
    ensures
        s.push(x).no_duplicates(),
        s.push(x).to_set() == s.to_set().insert(x),
{
    let t = s.push(x);
    assert forall|i: int, j: int|
        0 <= i < t.len() && 0 <= j < t.len() && i != j implies t[i] != t[j] by {
        if i < s.len() && j < s.len() {
            assert(s[i] != s[j]);
        } else if j == s.len() {
            assert(s.contains(s[i]));
        } else {
            assert(s.contains(s[j]));
        }
    }
    assert forall|q: Point| t.to_set().contains(q) == s.to_set().insert(x).contains(q) by {
        if t.contains(q) {
            let k = choose|k: int| 0 <= k < t.len() && t[k] == q;
            if k < s.len() {
                assert(s.contains(q));
            }
        }
        if s.contains(q) {
            let k = choose|k: int| 0 <= k < s.len() && s[k] == q;
            assert(t[k] == q);
        }
        if q == x {
            assert(t[s.len() as int] == q);
        }
    }
    assert(t.to_set() =~= s.to_set().insert(x));
}

/// A Grid which we place towers and cities on.
pub struct Grid {
    /// Side length of the square lattice; coordinates run over `[0, dimension)`.
    pub dimension: u8,
    /// Maximum distance at which a tower covers a city.
    pub service_radius: u8,
    /// Maximum distance at which two towers penalize each other.
    pub penalty_radius: u8,
    /// Mapping from tower position to the other towers within the penalty
    /// radius of it, i.e. < (2, 3), {(5, 6), (7, 8)} >.
    pub towers: Vec<Entry>,
    /// Mapping from city position to the towers that cover it,
    /// i.e. < (4, 4), {(1, 2), (3, 4)} >.
    pub cities: Vec<Entry>,
}

impl Grid {
    /// Whether a tower is stored at `p`.
    pub open spec fn spec_has_tower(&self, p: Point) -> bool {
        has_key(self.towers@, p)
    }

    /// Whether a city is stored at `p`.
    pub open spec fn spec_has_city(&self, p: Point) -> bool {
        has_key(self.cities@, p)
    }

    /// The set of tower positions.
    pub open spec fn towers_set(&self) -> Set<Point> {
        key_set(self.towers@)
    }

    /// The set of city positions.
    pub open spec fn city_set(&self) -> Set<Point> {
        key_set(self.cities@)
    }

    /// The three scalar parameters of two grids agree.
    pub open spec fn same_params(&self, other: &Grid) -> bool {
        &&& self.dimension == other.dimension
        &&& self.service_radius == other.service_radius
        &&& self.penalty_radius == other.penalty_radius
    }

    /// Structural well-formedness of the tower relation: distinct in-bounds
    /// keys, and every entry's links are exactly its penalized peers.
    pub open spec fn wf_towers(&self) -> bool {
        &&& keys_distinct(self.towers@)
        &&& forall|i: int|
            0 <= i < self.towers@.len() ==> {
                let e = #[trigger] self.towers@[i];
                &&& on_grid(e.pos, self.dimension)
                &&& e.links@.no_duplicates()
                &&& e.links@.to_set() == peer_set(self.towers_set(), e.pos, self.penalty_radius)
            }
    }

    /// Structural well-formedness of the city relation: distinct in-bounds
    /// keys, and every entry's links are exactly the towers covering it.
    pub open spec fn wf_cities(&self) -> bool {
        &&& keys_distinct(self.cities@)
        &&& forall|i: int|
            0 <= i < self.cities@.len() ==> {
                let e = #[trigger] self.cities@[i];
                &&& on_grid(e.pos, self.dimension)
                &&& e.links@.no_duplicates()
                &&& e.links@.to_set() == cover_set(self.towers_set(), e.pos, self.service_radius)
            }
    }

    /// The grid invariant: both stored relations match their geometric
    /// definition. Every public operation requires and preserves this.
    pub open spec fn wf(&self) -> bool {
        self.wf_towers() && self.wf_cities()
    }

    /// Whether every stored city has a non-empty covering set.
    pub open spec fn spec_is_valid(&self) -> bool {
        forall|i: int|
            0 <= i < self.cities@.len() ==> (#[trigger] self.cities@[i]).links@.len() > 0
    }

    /// Whether some placed tower lies within the service radius of `c`.
    pub open spec fn spec_covered(&self, c: Point) -> bool {
        exists|t: Point| self.towers_set().contains(t) && dist_sq(c, t) <= sq(self.service_radius as int)
    }

    /// Creates and returns a new Grid of the given dimension, service_radius,
    /// and penalty radius, with no cities and no towers.
    pub fn new(dimension: u8, service_radius: u8, penalty_radius: u8) -> (g: Grid)
        ensures
            g.wf(),
            g.dimension == dimension,
            g.service_radius == service_radius,
            g.penalty_radius == penalty_radius,
            g.towers@.len() == 0,
            g.cities@.len() == 0,
    {
        Grid {
            dimension,
            service_radius,
            penalty_radius,
            towers: Vec::new(),
            cities: Vec::new(),
        }
    }

    /// A zero-sized placeholder grid.
    pub fn new_dummy_grid() -> (g: Grid)
        ensures
            g.wf(),
            g.dimension == 0 && g.service_radius == 0 && g.penalty_radius == 0,
            g.towers@.len() == 0 && g.cities@.len() == 0,
    {
        Grid::new(0, 0, 0)
    }

    /// Returns whether (x, y) is within the grid.
    pub fn is_on_grid(&self, x: i32, y: i32) -> (b: bool)
        ensures
            b == on_grid(Point { x, y }, self.dimension),
    {
        x >= 0 && y >= 0 && x < self.dimension as i32 && y < self.dimension as i32
    }

    pub fn service_radius(&self) -> (r: u8)
        ensures
            r == self.service_radius,
    {
        self.service_radius
    }

    pub fn penalty_radius(&self) -> (r: u8)
        ensures
            r == self.penalty_radius,
    {
        self.penalty_radius
    }

    pub fn dimension(&self) -> (r: u8)
        ensures
            r == self.dimension,
    {
        self.dimension
    }

    pub fn get_towers_ref(&self) -> (r: &Vec<Entry>)
        ensures
            r == &self.towers,
    {
        &self.towers
    }

    pub fn get_cities_ref(&self) -> (r: &Vec<Entry>)
        ensures
            r == &self.cities,
    {
        &self.cities
    }

    /// Sets the service radius. Only allowed before any tower is placed,
    /// since the stored covering sets depend on it.
    pub fn set_service_radius(&mut self, serv_radius: u8)
        requires
            old(self).wf(),
            old(self).towers@.len() == 0,
        ensures
            final(self).wf(),
            final(self).service_radius == serv_radius,
            final(self).dimension == old(self).dimension,
            final(self).penalty_radius == old(self).penalty_radius,
            final(self).towers == old(self).towers,
            final(self).cities == old(self).cities,
    {
        self.service_radius = serv_radius;
        proof {
            lemma_wf_after_radius_change(*old(self), *self);
        }
    }

    /// Sets the penalty radius. Only allowed before any tower is placed,
    /// since the stored peer sets depend on it.
    pub fn set_penalty_radius(&mut self, pen_radius: u8)
        requires
            old(self).wf(),
            old(self).towers@.len() == 0,
        ensures
            final(self).wf(),
            final(self).penalty_radius == pen_radius,
            final(self).dimension == old(self).dimension,
            final(self).service_radius == old(self).service_radius,
            final(self).towers == old(self).towers,
            final(self).cities == old(self).cities,
    {
        self.penalty_radius = pen_radius;
        proof {
            lemma_wf_after_radius_change(*old(self), *self);
        }
    }

    /// Sets the dimension. Only allowed while the grid is empty, since every
    /// stored key must lie within the grid.
    pub fn set_dimension(&mut self, dim: u8)
        requires
            old(self).wf(),
            old(self).towers@.len() == 0,
            old(self).cities@.len() == 0,
        ensures
            final(self).wf(),
            final(self).dimension == dim,
            final(self).service_radius == old(self).service_radius,
            final(self).penalty_radius == old(self).penalty_radius,
            final(self).towers == old(self).towers,
            final(self).cities == old(self).cities,
    {
        self.dimension = dim;
    }

    /// Returns whether the towers in this Grid cover all cities.
    /// A grid with zero cities is always valid.
    pub fn is_valid(&self) -> (b: bool)
        ensures
            b == self.spec_is_valid(),
    {
        let mut i: usize = 0;
        while i < self.cities.len()
            invariant
                i <= self.cities@.len(),
                forall|k: int| 0 <= k < i ==> (#[trigger] self.cities@[k]).links@.len() > 0,
            decreases self.cities@.len() - i,
        {
            if self.cities[i].links.len() == 0 {
                return false;
            }
            i += 1;
        }
        true
    }

    /// Returns if a tower is present on the given point.
    pub fn is_tower_present(&self, p: Point) -> (b: bool)
        ensures
            b == self.spec_has_tower(p),
    {
        find_entry(&self.towers, p).is_some()
    }

    /// Adds a city at (x, y) to this Grid with an empty covering set.
    /// Fails if any tower has already been placed, if the coordinates are
    /// off-grid, or if the city already exists.
    pub fn add_city(&mut self, x: i32, y: i32) -> (r: Result<(), GridError>)
        requires
            old(self).wf(),
        ensures
            final(self).wf(),
            final(self).same_params(old(self)),
            match r {
                Ok(()) => {
                    &&& old(self).towers@.len() == 0
                    &&& on_grid(Point { x, y }, old(self).dimension)
                    &&& !old(self).spec_has_city(Point { x, y })
                    &&& final(self).towers == old(self).towers
                    &&& final(self).cities@.len() == old(self).cities@.len() + 1
                    &&& forall|i: int|
                        0 <= i < old(self).cities@.len() ==> final(self).cities@[i] == old(
                            self,
                        ).cities@[i]
                    &&& final(self).cities@.last().pos == (Point { x, y })
                    &&& final(self).cities@.last().links@.len() == 0
                    &&& final(self).city_set() == old(self).city_set().insert(Point { x, y })
                },
                Err(GridError::InvalidState) => old(self).towers@.len() != 0 && *final(self)
                    == *old(self),
                Err(GridError::OutOfBounds) => {
                    &&& old(self).towers@.len() == 0
                    &&& !on_grid(Point { x, y }, old(self).dimension)
                    &&& *final(self) == *old(self)
                },
                Err(GridError::DuplicateEntity) => {
                    &&& old(self).towers@.len() == 0
                    &&& on_grid(Point { x, y }, old(self).dimension)
                    &&& old(self).spec_has_city(Point { x, y })
                    &&& *final(self) == *old(self)
                },
                Err(_) => false,
            },
    {
        if self.towers.len() != 0 {
            return Err(GridError::InvalidState);
        }
        if !self.is_on_grid(x, y) {
            return Err(GridError::OutOfBounds);
        }
        let c = Point { x, y };
        if find_entry(&self.cities, c).is_some() {
            return Err(GridError::DuplicateEntity);
        }
        let ghost old_cities = self.cities@;
        self.cities.push(Entry { pos: c, links: Vec::new() });
        proof {
            assert forall|i: int| 0 <= i < self.cities@.len() implies {
                let e = #[trigger] self.cities@[i];
                &&& on_grid(e.pos, self.dimension)
                &&& e.links@.no_duplicates()
                &&& e.links@.to_set() == cover_set(self.towers_set(), e.pos, self.service_radius)
            } by {
                if i < old_cities.len() {
                    assert(self.cities@[i] == old_cities[i]);
                } else {
                    assert(self.cities@[i].links@.to_set() =~= cover_set(
                        self.towers_set(),
                        c,
                        self.service_radius,
                    ));
                }
            }
            assert(self.cities@ == old_cities.push(self.cities@.last()));
            lemma_key_set_push(old_cities, self.cities@.last());
            lemma_keys_distinct_push(old_cities, self.cities@.last());
        }
        Ok(())
    }

    /// Adds a tower at (x, y) to this Grid. Fails if the coordinates are
    /// off-grid or if the tower already exists. On success every existing
    /// tower within the penalty radius gains a symmetric peer link to the
    /// new tower, and the new tower is added to the covering set of every
    /// city within the service radius of it.
    pub fn add_tower(&mut self, x: i32, y: i32) -> (r: Result<(), GridError>)
        requires
            old(self).wf(),
        ensures
            final(self).wf(),
            final(self).same_params(old(self)),
            final(self).cities@.len() == old(self).cities@.len(),
            forall|i: int|
                0 <= i < old(self).cities@.len() ==> (#[trigger] final(self).cities@[i]).pos == old(
                    self,
                ).cities@[i].pos,
            final(self).city_set() == old(self).city_set(),
            match r {
                Ok(()) => {
                    &&& on_grid(Point { x, y }, old(self).dimension)
                    &&& !old(self).spec_has_tower(Point { x, y })
                    &&& final(self).towers_set() == old(self).towers_set().insert(Point { x, y })
                    &&& final(self).towers@.len() == old(self).towers@.len() + 1
                    &&& forall|i: int|
                        0 <= i < old(self).towers@.len() ==> (#[trigger] final(self).towers@[i]).pos == old(self).towers@[i].pos
                    &&& final(self).towers@.last().pos == (Point { x, y })
                },
                Err(GridError::OutOfBounds) => !on_grid(Point { x, y }, old(self).dimension)
                    && *final(self) == *old(self),
                Err(GridError::DuplicateEntity) => {
                    &&& on_grid(Point { x, y }, old(self).dimension)
                    &&& old(self).spec_has_tower(Point { x, y })
                    &&& *final(self) == *old(self)
                },
                Err(_) => false,
            },
    {
        if !self.is_on_grid(x, y) {
            return Err(GridError::OutOfBounds);
        }
        let t = Point { x, y };
        if find_entry(&self.towers, t).is_some() {
            return Err(GridError::DuplicateEntity);
        }
        self.update_towers_add(t);
        proof {
            assert(self.towers_set().remove(t) =~= old(self).towers_set());
        }
        self.update_cities_add(t);
        proof {
            lemma_key_set_same_positions(self.cities@, old(self).cities@);
        }
        Ok(())
    }

    /// Used upon adding a tower at `p`: adds `p` to the peer links of every
    /// existing tower within the penalty radius, then stores the new tower's
    /// entry, whose links are exactly those towers. The stored city relation
    /// is left untouched, so it still reflects the tower set without `p`.
    fn update_towers_add(&mut self, p: Point)
        requires
            old(self).wf(),
            on_grid(p, old(self).dimension),
            !old(self).spec_has_tower(p),
        ensures
            final(self).same_params(old(self)),
            final(self).cities == old(self).cities,
            final(self).towers_set() == old(self).towers_set().insert(p),
            final(self).wf_towers(),
            final(self).towers@.len() == old(self).towers@.len() + 1,
            forall|i: int|
                0 <= i < old(self).towers@.len() ==> (#[trigger] final(self).towers@[i]).pos == old(
                    self,
                ).towers@[i].pos,
            final(self).towers@.last().pos == p,
    {
        let ghost pre = *self;
        let mut new_links: Vec<Point> = Vec::new();
        let n = self.towers.len();
        let mut i: usize = 0;
        while i < n
            invariant
                i <= n,
                n == self.towers@.len(),
                n == pre.towers@.len(),
                self.same_params(&pre),
                self.cities == pre.cities,
                pre.wf(),
                on_grid(p, pre.dimension),
                !pre.spec_has_tower(p),
                forall|k: int| i <= k < n ==> #[trigger] self.towers@[k] == pre.towers@[k],
                forall|k: int|
                    0 <= k < n ==> (#[trigger] self.towers@[k]).pos == pre.towers@[k].pos,
                forall|k: int|
                    0 <= k < i ==> (#[trigger] self.towers@[k]).links@ == (if dist_sq(
                        pre.towers@[k].pos,
                        p,
                    ) <= sq(pre.penalty_radius as int) {
                        pre.towers@[k].links@.push(p)
                    } else {
                        pre.towers@[k].links@
                    }),
                new_links@.no_duplicates(),
                forall|q: Point|
                    new_links@.contains(q) <==> exists|k: int|
                        0 <= k < i && (#[trigger] pre.towers@[k]).pos == q && dist_sq(p, q) <= sq(
                            pre.penalty_radius as int,
                        ),
            decreases n - i,
        {
            let e_pos = self.towers[i].pos;
            let ghost mid = self.towers@;
            let ghost old_links = new_links@;
            if Point::within(self.penalty_radius, p.x, p.y, e_pos.x, e_pos.y, self.dimension) {
                proof {
                    lemma_dist_symmetric(p, e_pos);
                    // `p` is not yet linked anywhere: it is not a stored tower.
                    if pre.towers@[i as int].links@.contains(p) {
                        assert(pre.towers@[i as int].links@.to_set().contains(p));
                        assert(peer_set(pre.towers_set(), e_pos, pre.penalty_radius).contains(p));
                        assert(false);
                    }
                    lemma_push_no_dup(pre.towers@[i as int].links@, p);
                    // `e_pos` cannot already be in `new_links`: keys are distinct.
                    if new_links@.contains(e_pos) {
                        let k = choose|k: int|
                            0 <= k < i && pre.towers@[k].pos == e_pos && dist_sq(p, e_pos) <= sq(
                                pre.penalty_radius as int,
                            );
                        assert(false);
                    }
                    lemma_push_no_dup(new_links@, e_pos);
                }
                self.towers[i].links.push(p);
                new_links.push(e_pos);
                proof {
                    assert forall|q: Point| new_links@.contains(q) implies exists|k: int|
                        0 <= k <= i && (#[trigger] pre.towers@[k]).pos == q && dist_sq(p, q) <= sq(
                            pre.penalty_radius as int,
                        ) by {
                        if q == e_pos {
                            assert(pre.towers@[i as int].pos == q);
                        } else {
                            assert(old_links.contains(q));
                        }
                    }
                    assert forall|k: int|
                        0 <= k <= i && dist_sq(p, (#[trigger] pre.towers@[k]).pos) <= sq(
                            pre.penalty_radius as int,
                        ) implies new_links@.contains(pre.towers@[k].pos) by {
                        let q = pre.towers@[k].pos;
                        if k < i {
                            assert(old_links.contains(q));
                            assert(new_links@ == old_links.push(e_pos));
                            let m = choose|m: int| 0 <= m < old_links.len() && old_links[m] == q;
                            assert(new_links@[m] == q);
                        } else {
                            assert(new_links@.last() == q);
                        }
                    }
                }
            } else {
                proof {
                    assert(pre.towers@[i as int].pos == e_pos);
                    assert(on_grid(e_pos, pre.dimension));
                    lemma_dist_symmetric(p, e_pos);
                    assert forall|k: int|
                        0 <= k <= i && dist_sq(p, (#[trigger] pre.towers@[k]).pos) <= sq(
                            pre.penalty_radius as int,
                        ) implies new_links@.contains(pre.towers@[k].pos) by {
                        if k == i {
                            lemma_dist_symmetric(p, e_pos);
                            assert(false);
                        }
                    }
                }
            }
            i += 1;
        }
        let ghost mid = self.towers@;
        self.towers.push(Entry { pos: p, links: new_links });
        proof {
            let post = *self;
            let e_new = post.towers@.last();
            assert(post.towers@ == mid.push(e_new));
            lemma_key_set_same_positions(mid, pre.towers@);
            lemma_key_set_push(mid, e_new);
            lemma_keys_distinct_push(mid, e_new);
            assert(post.towers_set() == pre.towers_set().insert(p));
            let new_set = post.towers_set();
            // Each previously stored tower's links are exactly its peers in
            // the enlarged tower set.
            assert forall|k: int| 0 <= k < post.towers@.len() implies {
                let e = #[trigger] post.towers@[k];
                &&& on_grid(e.pos, post.dimension)
                &&& e.links@.no_duplicates()
                &&& e.links@.to_set() == peer_set(new_set, e.pos, post.penalty_radius)
            } by {
                if k < n {
                    let e = post.towers@[k];
                    let e0 = pre.towers@[k];
                    assert(e.pos == e0.pos);
                    assert(e0.links@.to_set() == peer_set(
                        pre.towers_set(),
                        e0.pos,
                        pre.penalty_radius,
                    ));
                    if pre.towers_set().contains(p) {
                        assert(false);
                    }
                    if e0.links@.contains(p) {
                        assert(e0.links@.to_set().contains(p));
                        assert(false);
                    }
                    if dist_sq(e0.pos, p) <= sq(pre.penalty_radius as int) {
                        lemma_push_no_dup(e0.links@, p);
                        assert(e.links@ == e0.links@.push(p));
                        assert(e.links@.to_set() =~= peer_set(new_set, e.pos, post.penalty_radius));
                    } else {
                        assert(e.links@ == e0.links@);
                        assert forall|q: Point|
                            e.links@.to_set().contains(q) == peer_set(
                                new_set,
                                e.pos,
                                post.penalty_radius,
                            ).contains(q) by {
                            if q == p {
                                assert(!e0.links@.to_set().contains(p));
                                assert(!peer_set(new_set, e.pos, post.penalty_radius).contains(p));
                            }
                        }
                        assert(e.links@.to_set() =~= peer_set(new_set, e.pos, post.penalty_radius));
                    }
                } else {
                    // The freshly stored entry: its links were collected in
                    // the loop and are exactly the old towers within range.
                    let e = post.towers@[k];
                    assert(e == e_new);
                    assert forall|q: Point|
                        e.links@.to_set().contains(q) == peer_set(
                            new_set,
                            p,
                            post.penalty_radius,
                        ).contains(q) by {
                        if e.links@.contains(q) {
                            let m = choose|m: int|
                                0 <= m < n && (#[trigger] pre.towers@[m]).pos == q && dist_sq(p, q)
                                    <= sq(pre.penalty_radius as int);
                            assert(pre.towers_set().contains(q));
                            assert(q != p);
                        }
                        if peer_set(new_set, p, post.penalty_radius).contains(q) {
                            assert(new_set.contains(q) && q != p);
                            assert(pre.towers_set().contains(q));
                            let m = choose|m: int|
                                0 <= m < pre.towers@.len() && pre.towers@[m].pos == q;
                            lemma_dist_symmetric(q, p);
                            assert(e.links@.contains(q));
                        }
                    }
                    assert(e.links@.to_set() =~= peer_set(new_set, p, post.penalty_radius));
                }
            }
        }
    }

    /// Used upon adding a tower at `p`: adds `p` to the covering set of every
    /// city within the service radius of it. On entry the stored city
    /// relation must reflect the tower set without `p`.
    fn update_cities_add(&mut self, p: Point)
        requires
            old(self).spec_has_tower(p),
            old(self).wf_towers(),
            keys_distinct(old(self).cities@),
            forall|i: int|
                0 <= i < old(self).cities@.len() ==> {
                    let e = #[trigger] old(self).cities@[i];
                    &&& on_grid(e.pos, old(self).dimension)
                    &&& e.links@.no_duplicates()
                    &&& e.links@.to_set() == cover_set(
                        old(self).towers_set().remove(p),
                        e.pos,
                        old(self).service_radius,
                    )
                },
        ensures
            final(self).same_params(old(self)),
            final(self).towers == old(self).towers,
            final(self).wf(),
            final(self).cities@.len() == old(self).cities@.len(),
            forall|i: int|
                0 <= i < old(self).cities@.len() ==> (#[trigger] final(self).cities@[i]).pos == old(
                    self,
                ).cities@[i].pos,
    {
        let ghost pre = *self;
        proof {
            let m = choose|m: int| 0 <= m < pre.towers@.len() && pre.towers@[m].pos == p;
            assert(on_grid(p, pre.dimension));
        }
        let n = self.cities.len();
        let mut i: usize = 0;
        while i < n
            invariant
                i <= n,
                n == self.cities@.len(),
                n == pre.cities@.len(),
                self.same_params(&pre),
                self.towers == pre.towers,
                on_grid(p, pre.dimension),
                pre.spec_has_tower(p),
                pre.wf_towers(),
                keys_distinct(pre.cities@),
                forall|k: int|
                    0 <= k < n ==> {
                        let e = #[trigger] pre.cities@[k];
                        &&& on_grid(e.pos, pre.dimension)
                        &&& e.links@.no_duplicates()
                        &&& e.links@.to_set() == cover_set(
                            pre.towers_set().remove(p),
                            e.pos,
                            pre.service_radius,
                        )
                    },
                forall|k: int| i <= k < n ==> #[trigger] self.cities@[k] == pre.cities@[k],
                forall|k: int|
                    0 <= k < n ==> (#[trigger] self.cities@[k]).pos == pre.cities@[k].pos,
                forall|k: int|
                    0 <= k < i ==> (#[trigger] self.cities@[k]).links@ == (if dist_sq(
                        pre.cities@[k].pos,
                        p,
                    ) <= sq(pre.service_radius as int) {
                        pre.cities@[k].links@.push(p)
                    } else {
                        pre.cities@[k].links@
                    }),
            decreases n - i,
        {
            let c_pos = self.cities[i].pos;
            if Point::within(self.service_radius, c_pos.x, c_pos.y, p.x, p.y, self.dimension) {
                proof {
                    if pre.cities@[i as int].links@.contains(p) {
                        assert(pre.cities@[i as int].links@.to_set().contains(p));
                        assert(pre.towers_set().remove(p).contains(p));
                        assert(false);
                    }
                    lemma_push_no_dup(pre.cities@[i as int].links@, p);
                }
                self.cities[i].links.push(p);
            }
            i += 1;
        }
        proof {
            assert forall|k: int| 0 <= k < self.cities@.len() implies {
                let e = #[trigger] self.cities@[k];
                &&& on_grid(e.pos, self.dimension)
                &&& e.links@.no_duplicates()
                &&& e.links@.to_set() == cover_set(self.towers_set(), e.pos, self.service_radius)
            } by {
                let e = self.cities@[k];
                let e0 = pre.cities@[k];
                assert(e.pos == e0.pos);
                let target = cover_set(self.towers_set(), e.pos, self.service_radius);
                assert(pre.towers_set() == self.towers_set());
                if e0.links@.contains(p) {
                    assert(e0.links@.to_set().contains(p));
                    assert(cover_set(pre.towers_set().remove(p), e0.pos, pre.service_radius).contains(p));
                    assert(false);
                }
                if dist_sq(e0.pos, p) <= sq(pre.service_radius as int) {
                    lemma_push_no_dup(e0.links@, p);
                    assert(e.links@ == e0.links@.push(p));
                    assert forall|q: Point| e.links@.to_set().contains(q) == target.contains(
                        q,
                    ) by {
                        if q == p {
                            assert(self.towers_set().contains(p));
                            assert(target.contains(p));
                        }
                    }
                    assert(e.links@.to_set() =~= target);
                } else {
                    assert(e.links@ == e0.links@);
                    assert forall|q: Point| e.links@.to_set().contains(q) == target.contains(
                        q,
                    ) by {
                        if q == p {
                            assert(!cover_set(
                                pre.towers_set().remove(p),
                                e0.pos,
                                pre.service_radius,
                            ).contains(p));
                            assert(!target.contains(p));
                        }
                    }
                    assert(e.links@.to_set() =~= target);
                }
            }
            assert(keys_distinct(self.cities@)) by {
                lemma_key_set_same_positions(self.cities@, pre.cities@);
            }
        }
    }

    /// Removes the tower at (x, y) from this Grid, if it exists. The tower is
    /// removed from every peer's peer set and from every city's covering set,
    /// then its own entry is deleted.
    pub fn remove_tower(&mut self, x: i32, y: i32) -> (r: Result<(), GridError>)
        requires
            old(self).wf(),
        ensures
            final(self).wf(),
            final(self).same_params(old(self)),
            final(self).cities@.len() == old(self).cities@.len(),
            forall|i: int|
                0 <= i < old(self).cities@.len() ==> (#[trigger] final(self).cities@[i]).pos == old(
                    self,
                ).cities@[i].pos,
            final(self).city_set() == old(self).city_set(),
            match r {
                Ok(()) => {
                    &&& old(self).spec_has_tower(Point { x, y })
                    &&& final(self).towers_set() == old(self).towers_set().remove(Point { x, y })
                    &&& final(self).towers@.len() == old(self).towers@.len() - 1
                },
                Err(GridError::OutOfBounds) => !on_grid(Point { x, y }, old(self).dimension)
                    && *final(self) == *old(self),
                Err(GridError::NotFound) => {
                    &&& on_grid(Point { x, y }, old(self).dimension)
                    &&& !old(self).spec_has_tower(Point { x, y })
                    &&& *final(self) == *old(self)
                },
                Err(_) => false,
            },
    {
        if !self.is_on_grid(x, y) {
            return Err(GridError::OutOfBounds);
        }
        let t = Point { x, y };
        if find_entry(&self.towers, t).is_none() {
            return Err(GridError::NotFound);
        }
        self.update_towers_remove(t);
        proof {
            assert(self.towers_set().insert(t) =~= old(self).towers_set());
            if self.spec_has_tower(t) {
                assert(self.towers_set().contains(t));
                assert(old(self).towers_set().remove(t).contains(t));
                assert(false);
            }
        }
        self.update_cities_remove(t);
        proof {
            lemma_key_set_same_positions(self.cities@, old(self).cities@);
        }
        Ok(())
    }

    /// Used upon removing the tower at `p`: removes `p` from every other
    /// tower's peer links and deletes its own entry. The stored city relation
    /// is left untouched, so it still reflects the tower set with `p`.
    fn update_towers_remove(&mut self, p: Point)
        requires
            old(self).wf_towers(),
            old(self).spec_has_tower(p),
        ensures
            final(self).same_params(old(self)),
            final(self).cities == old(self).cities,
            final(self).towers_set() == old(self).towers_set().remove(p),
            final(self).wf_towers(),
            final(self).towers@.len() == old(self).towers@.len() - 1,
    {
        let ghost pre = *self;
        let n = self.towers.len();
        let mut i: usize = 0;
        while i < n
            invariant
                i <= n,
                n == self.towers@.len(),
                n == pre.towers@.len(),
                self.same_params(&pre),
                self.cities == pre.cities,
                pre.wf_towers(),
                pre.spec_has_tower(p),
                forall|k: int| i <= k < n ==> #[trigger] self.towers@[k] == pre.towers@[k],
                forall|k: int|
                    0 <= k < n ==> (#[trigger] self.towers@[k]).pos == pre.towers@[k].pos,
                forall|k: int|
                    0 <= k < i ==> (#[trigger] self.towers@[k]).links@.no_duplicates() && self.towers@[k].links@.to_set()
                        == pre.towers@[k].links@.to_set().remove(p) && !self.towers@[k].links@.contains(p),
            decreases n - i,
        {
            proof {
                assert(pre.towers@[i as int].links@.no_duplicates());
            }
            vec_remove_point(&mut self.towers[i].links, p);
            i += 1;
        }
        let idx_opt = find_entry(&self.towers, p);
        proof {
            if idx_opt.is_none() {
                let m = choose|m: int| 0 <= m < pre.towers@.len() && pre.towers@[m].pos == p;
                assert(self.towers@[m].pos == p);
                assert(false);
            }
        }
        let idx = idx_opt.unwrap();
        let ghost mid = self.towers@;
        self.towers.remove(idx);
        proof {
            lemma_key_set_same_positions(mid, pre.towers@);
            lemma_key_set_remove(mid, idx as int);
            assert(self.towers_set() == pre.towers_set().remove(p));
            let new_set = self.towers_set();
            assert forall|k: int| 0 <= k < self.towers@.len() implies {
                let e = #[trigger] self.towers@[k];
                &&& on_grid(e.pos, self.dimension)
                &&& e.links@.no_duplicates()
                &&& e.links@.to_set() == peer_set(new_set, e.pos, self.penalty_radius)
            } by {
                let k0: int = if k < idx {
                    k
                } else {
                    k + 1
                };
                let e = self.towers@[k];
                assert(e == mid[k0]);
                assert(e.pos == pre.towers@[k0].pos);
                assert(e.links@.to_set() == pre.towers@[k0].links@.to_set().remove(p));
                assert(pre.towers@[k0].links@.to_set() == peer_set(
                    pre.towers_set(),
                    e.pos,
                    pre.penalty_radius,
                ));
                assert(e.links@.to_set() =~= peer_set(new_set, e.pos, self.penalty_radius));
            }
        }
    }

    /// Used upon removing the tower at `p`: removes `p` from every city's
    /// covering set. On entry the stored city relation must reflect the tower
    /// set with `p` still present.
    fn update_cities_remove(&mut self, p: Point)
        requires
            !old(self).spec_has_tower(p),
            old(self).wf_towers(),
            keys_distinct(old(self).cities@),
            forall|i: int|
                0 <= i < old(self).cities@.len() ==> {
                    let e = #[trigger] old(self).cities@[i];
                    &&& on_grid(e.pos, old(self).dimension)
                    &&& e.links@.no_duplicates()
                    &&& e.links@.to_set() == cover_set(
                        old(self).towers_set().insert(p),
                        e.pos,
                        old(self).service_radius,
                    )
                },
        ensures
            final(self).same_params(old(self)),
            final(self).towers == old(self).towers,
            final(self).wf(),
            final(self).cities@.len() == old(self).cities@.len(),
            forall|i: int|
                0 <= i < old(self).cities@.len() ==> (#[trigger] final(self).cities@[i]).pos == old(
                    self,
                ).cities@[i].pos,
    {
        let ghost pre = *self;
        let n = self.cities.len();
        let mut i: usize = 0;
        while i < n
            invariant
                i <= n,
                n == self.cities@.len(),
                n == pre.cities@.len(),
                self.same_params(&pre),
                self.towers == pre.towers,
                !pre.spec_has_tower(p),
                pre.wf_towers(),
                keys_distinct(pre.cities@),
                forall|k: int|
                    0 <= k < n ==> {
                        let e = #[trigger] pre.cities@[k];
                        &&& on_grid(e.pos, pre.dimension)
                        &&& e.links@.no_duplicates()
                        &&& e.links@.to_set() == cover_set(
                            pre.towers_set().insert(p),
                            e.pos,
                            pre.service_radius,
                        )
                    },
                forall|k: int| i <= k < n ==> #[trigger] self.cities@[k] == pre.cities@[k],
                forall|k: int|
                    0 <= k < n ==> (#[trigger] self.cities@[k]).pos == pre.cities@[k].pos,
                forall|k: int|
                    0 <= k < i ==> (#[trigger] self.cities@[k]).links@.no_duplicates()
                        && self.cities@[k].links@.to_set() == pre.cities@[k].links@.to_set().remove(
                        p,
                    ),
            decreases n - i,
        {
            proof {
                assert(pre.cities@[i as int].links@.no_duplicates());
            }
            vec_remove_point(&mut self.cities[i].links, p);
            i += 1;
        }
        proof {
            assert forall|k: int| 0 <= k < self.cities@.len() implies {
                let e = #[trigger] self.cities@[k];
                &&& on_grid(e.pos, self.dimension)
                &&& e.links@.no_duplicates()
                &&& e.links@.to_set() == cover_set(self.towers_set(), e.pos, self.service_radius)
            } by {
                let e = self.cities@[k];
                let e0 = pre.cities@[k];
                assert(e.pos == e0.pos);
                assert(e.links@.to_set() == e0.links@.to_set().remove(p));
                assert(pre.towers_set() == self.towers_set());
                assert(e.links@.to_set() =~= cover_set(
                    self.towers_set(),
                    e.pos,
                    self.service_radius,
                ));
            }
            assert(keys_distinct(self.cities@)) by {
                lemma_key_set_same_positions(self.cities@, pre.cities@);
            }
        }
    }

    /// Moves a tower from `p` to `q`, implemented as remove-then-add. Fails
    /// without changing anything if `q` is off-grid, if no tower stands at
    /// `p`, or if a tower already stands at `q`.
    pub fn move_tower(&mut self, p: Point, q: Point) -> (r: Result<(), GridError>)
        requires
            old(self).wf(),
        ensures
            final(self).wf(),
            final(self).same_params(old(self)),
            final(self).cities@.len() == old(self).cities@.len(),
            forall|i: int|
                0 <= i < old(self).cities@.len() ==> (#[trigger] final(self).cities@[i]).pos == old(
                    self,
                ).cities@[i].pos,
            final(self).city_set() == old(self).city_set(),
            match r {
                Ok(()) => {
                    &&& old(self).spec_has_tower(p)
                    &&& !old(self).spec_has_tower(q)
                    &&& on_grid(q, old(self).dimension)
                    &&& final(self).towers_set() == old(self).towers_set().remove(p).insert(q)
                    &&& final(self).towers@.len() == old(self).towers@.len()
                },
                Err(GridError::OutOfBounds) => !on_grid(q, old(self).dimension) && *final(self)
                    == *old(self),
                Err(GridError::NotFound) => {
                    &&& on_grid(q, old(self).dimension)
                    &&& !old(self).spec_has_tower(p)
                    &&& *final(self) == *old(self)
                },
                Err(GridError::DuplicateEntity) => {
                    &&& on_grid(q, old(self).dimension)
                    &&& old(self).spec_has_tower(p)
                    &&& old(self).spec_has_tower(q)
                    &&& *final(self) == *old(self)
                },
                Err(_) => false,
            },
    {
        if !self.is_on_grid(q.x, q.y) {
            return Err(GridError::OutOfBounds);
        }
        if !self.is_tower_present(p) {
            return Err(GridError::NotFound);
        }
        if self.is_tower_present(q) {
            return Err(GridError::DuplicateEntity);
        }
        let r1 = self.remove_tower(p.x, p.y);
        proof {
            assert(r1 is Ok);
            assert(!self.spec_has_tower(q)) by {
                if self.towers_set().contains(q) {
                    assert(old(self).towers_set().remove(p).contains(q));
                }
            }
        }
        let r2 = self.add_tower(q.x, q.y);
        proof {
            assert(r2 is Ok);
        }
        Ok(())
    }

    /// Clears all towers and empties every city's covering set, without
    /// touching the city set itself.
    pub fn remove_all_towers(&mut self)
        requires
            old(self).wf(),
        ensures
            final(self).wf(),
            final(self).same_params(old(self)),
            final(self).towers@.len() == 0,
            final(self).cities@.len() == old(self).cities@.len(),
            forall|i: int|
                0 <= i < old(self).cities@.len() ==> (#[trigger] final(self).cities@[i]).pos == old(
                    self,
                ).cities@[i].pos && final(self).cities@[i].links@.len() == 0,
            final(self).city_set() == old(self).city_set(),
    {
        let ghost pre = *self;
        self.towers.clear();
        let n = self.cities.len();
        let mut i: usize = 0;
        while i < n
            invariant
                i <= n,
                n == self.cities@.len(),
                n == pre.cities@.len(),
                self.same_params(&pre),
                self.towers@.len() == 0,
                keys_distinct(pre.cities@),
                forall|k: int|
                    0 <= k < n ==> on_grid((#[trigger] pre.cities@[k]).pos, pre.dimension),
                forall|k: int| i <= k < n ==> #[trigger] self.cities@[k] == pre.cities@[k],
                forall|k: int|
                    0 <= k < n ==> (#[trigger] self.cities@[k]).pos == pre.cities@[k].pos,
                forall|k: int| 0 <= k < i ==> (#[trigger] self.cities@[k]).links@.len() == 0,
            decreases n - i,
        {
            self.cities[i].links.clear();
            i += 1;
        }
        proof {
            assert forall|q: Point| !self.towers_set().contains(q) by {
                if has_key(self.towers@, q) {
                    let m = choose|m: int| 0 <= m < self.towers@.len() && self.towers@[m].pos == q;
                }
            }
            assert forall|k: int| 0 <= k < self.cities@.len() implies {
                let e = #[trigger] self.cities@[k];
                &&& on_grid(e.pos, self.dimension)
                &&& e.links@.no_duplicates()
                &&& e.links@.to_set() == cover_set(self.towers_set(), e.pos, self.service_radius)
            } by {
                let e = self.cities@[k];
                assert(e.links@.to_set() =~= cover_set(
                    self.towers_set(),
                    e.pos,
                    self.service_radius,
                ));
            }
            lemma_key_set_same_positions(self.cities@, pre.cities@);
        }
    }

    /// Replaces the whole tower configuration by the given one. Fails without
    /// changing anything if a given point is off-grid or appears twice.
    pub fn replace_all_towers(&mut self, towers: &Vec<Point>) -> (r: Result<(), GridError>)
        requires
            old(self).wf(),
        ensures
            final(self).wf(),
            final(self).same_params(old(self)),
            final(self).city_set() == old(self).city_set(),
            final(self).cities@.len() == old(self).cities@.len(),
            match r {
                Ok(()) => {
                    &&& (forall|i: int|
                        0 <= i < towers@.len() ==> on_grid(#[trigger] towers@[i], old(
                            self,
                        ).dimension))
                    &&& towers@.no_duplicates()
                    &&& final(self).towers_set() == towers@.to_set()
                },
                Err(GridError::OutOfBounds) => !(forall|i: int|
                    0 <= i < towers@.len() ==> on_grid(#[trigger] towers@[i], old(self).dimension))
                    && *final(self) == *old(self),
                Err(GridError::DuplicateEntity) => !towers@.no_duplicates() && *final(self) == *old(
                    self,
                ),
                Err(_) => false,
            },
    {
        // Validate before mutating, so failure leaves the grid untouched.
        let n = towers.len();
        let mut i: usize = 0;
        while i < n
            invariant
                i <= n,
                n == towers@.len(),
                old(self).wf(),
                forall|k: int| 0 <= k < i ==> on_grid(#[trigger] towers@[k], self.dimension),
                *self == *old(self),
            decreases n - i,
        {
            if !self.is_on_grid(towers[i].x, towers[i].y) {
                return Err(GridError::OutOfBounds);
            }
            i += 1;
        }
        let mut i: usize = 0;
        while i < n
            invariant
                i <= n,
                n == towers@.len(),
                old(self).wf(),
                forall|k: int, l: int| 0 <= k < i && k < l < n ==> #[trigger] towers@[k] != (
                #[trigger] towers@[l]),
                *self == *old(self),
            decreases n - i,
        {
            let mut j: usize = i + 1;
            while j < n
                invariant
                    i < j <= n,
                    n == towers@.len(),
                    old(self).wf(),
                    forall|l: int| i < l < j ==> towers@[i as int] != #[trigger] towers@[l],
                    *self == *old(self),
                decreases n - j,
            {
                if towers[i].x == towers[j].x && towers[i].y == towers[j].y {
                    proof {
                        assert(towers@[i as int] == towers@[j as int]);
                        assert(!towers@.no_duplicates());
                    }
                    return Err(GridError::DuplicateEntity);
                }
                j += 1;
            }
            i += 1;
        }
        proof {
            assert(towers@.no_duplicates()) by {
                assert forall|k: int, l: int|
                    0 <= k < towers@.len() && 0 <= l < towers@.len() && k != l implies towers@[k]
                    != towers@[l] by {
                    if k < l {
                        assert(towers@[k] != towers@[l]);
                    } else {
                        assert(towers@[l] != towers@[k]);
                    }
                }
            }
        }
        self.remove_all_towers();
        let mut i: usize = 0;
        while i < n
            invariant
                i <= n,
                n == towers@.len(),
                towers@.no_duplicates(),
                forall|k: int| 0 <= k < n ==> on_grid(#[trigger] towers@[k], self.dimension),
                self.wf(),
                self.same_params(old(self)),
                self.city_set() == old(self).city_set(),
                self.cities@.len() == old(self).cities@.len(),
                self.towers_set() == towers@.subrange(0, i as int).to_set(),
            decreases n - i,
        {
            let t = towers[i];
            proof {
                if self.spec_has_tower(t) {
                    assert(towers@.subrange(0, i as int).to_set().contains(t));
                    let m = choose|m: int|
                        0 <= m < i && towers@.subrange(0, i as int)[m] == t;
                    assert(towers@[m] == t);
                    assert(false);
                }
            }
            let res = self.add_tower(t.x, t.y);
            proof {
                assert(res is Ok);
                assert(towers@.subrange(0, i + 1 as int) =~= towers@.subrange(
                    0,
                    i as int,
                ).push(t));
                if towers@.subrange(0, i as int).contains(t) {
                    let m = choose|m: int|
                        0 <= m < i && towers@.subrange(0, i as int)[m] == t;
                    assert(towers@[m] == t && towers@[i as int] == t);
                    assert(false);
                }
                lemma_push_no_dup(towers@.subrange(0, i as int), t);
            }
            i += 1;
        }
        proof {
            assert(towers@.subrange(0, n as int) == towers@);
        }
        Ok(())
    }

    /// Deeply clones the grid.
    pub fn clone(&self) -> (g: Grid)
        ensures
            g.same_params(self),
            entries_equal(g.towers@, self.towers@),
            entries_equal(g.cities@, self.cities@),
            g.towers_set() == self.towers_set(),
            g.city_set() == self.city_set(),
            self.wf() ==> g.wf(),
            g.spec_is_valid() == self.spec_is_valid(),
    {
        let g = Grid {
            dimension: self.dimension,
            service_radius: self.service_radius,
            penalty_radius: self.penalty_radius,
            towers: clone_entries(&self.towers),
            cities: clone_entries(&self.cities),
        };
        proof {
            lemma_key_set_same_positions(g.towers@, self.towers@);
            lemma_key_set_same_positions(g.cities@, self.cities@);
            if self.wf() {
                assert forall|i: int| 0 <= i < g.towers@.len() implies {
                    let e = #[trigger] g.towers@[i];
                    &&& on_grid(e.pos, g.dimension)
                    &&& e.links@.no_duplicates()
                    &&& e.links@.to_set() == peer_set(g.towers_set(), e.pos, g.penalty_radius)
                } by {
                    assert(g.towers@[i].pos == self.towers@[i].pos && g.towers@[i].links@
                        == self.towers@[i].links@);
                }
                assert forall|i: int| 0 <= i < g.cities@.len() implies {
                    let e = #[trigger] g.cities@[i];
                    &&& on_grid(e.pos, g.dimension)
                    &&& e.links@.no_duplicates()
                    &&& e.links@.to_set() == cover_set(g.towers_set(), e.pos, g.service_radius)
                } by {
                    assert(g.cities@[i].pos == self.cities@[i].pos && g.cities@[i].links@
                        == self.cities@[i].links@);
                }
            }
            if self.spec_is_valid() {
                assert forall|i: int|
                    0 <= i < g.cities@.len() implies (#[trigger] g.cities@[i]).links@.len()
                    > 0 by {
                    assert(self.cities@[i].links@.len() > 0);
                    assert(g.cities@[i].links@ == self.cities@[i].links@);
                }
            }
            if g.spec_is_valid() {
                assert forall|i: int|
                    0 <= i < self.cities@.len() implies (#[trigger] self.cities@[i]).links@.len()
                    > 0 by {
                    assert(g.cities@[i].links@.len() > 0);
                    assert(g.cities@[i].links@ == self.cities@[i].links@);
                }
            }
        }
        g
    }

    /// The number of penalized peers of each tower, in storage order. The
    /// penalty of the grid is a monotone function of these counts alone:
    /// each tower contributes according to its own count.
    pub fn peer_counts(&self) -> (r: Vec<usize>)
        ensures
            r@.len() == self.towers@.len(),
            forall|i: int|
                0 <= i < r@.len() ==> r@[i] == (#[trigger] self.towers@[i]).links@.len(),
    {
        let mut r: Vec<usize> = Vec::new();
        let mut i: usize = 0;
        while i < self.towers.len()
            invariant
                i <= self.towers@.len(),
                r@.len() == i,
                forall|k: int|
                    0 <= k < i ==> r@[k] == (#[trigger] self.towers@[k]).links@.len(),
            decreases self.towers@.len() - i,
        {
            r.push(self.towers[i].links.len());
            i += 1;
        }
        r
    }
}

/// Clones a vector of points element by element.
pub fn clone_points(v: &Vec<Point>) -> (r: Vec<Point>)
    ensures
        r@ == v@,
{
    let mut r: Vec<Point> = Vec::new();
    let mut i: usize = 0;
    while i < v.len()
        invariant
            i <= v@.len(),
            r@ == v@.subrange(0, i as int),
        decreases v@.len() - i,
    {
        r.push(v[i]);
        proof {
            assert(r@ =~= v@.subrange(0, i + 1));
        }
        i += 1;
    }
    proof {
        assert(r@ =~= v@);
    }
    r
}

/// Clones an entry sequence element by element.
pub fn clone_entries(v: &Vec<Entry>) -> (r: Vec<Entry>)
    ensures
        entries_equal(r@, v@),
{
    let mut r: Vec<Entry> = Vec::new();
    let mut i: usize = 0;
    while i < v.len()
        invariant
            i <= v@.len(),
            r@.len() == i,
            forall|k: int|
                0 <= k < i ==> (#[trigger] r@[k]).pos == v@[k].pos && r@[k].links@ == v@[k].links@,
        decreases v@.len() - i,
    {
        let links = clone_points(&v[i].links);
        r.push(Entry { pos: v[i].pos, links });
        i += 1;
    }
    r
}

/// With no towers stored, every covering set is empty, so the city relation
/// stays well-formed under any change of the radii.
proof fn lemma_wf_after_radius_change(pre: Grid, post: Grid)
    requires
        pre.wf(),
        pre.towers@.len() == 0,
        post.towers@ == pre.towers@,
        post.cities@ == pre.cities@,
        post.dimension == pre.dimension,
    ensures
        post.wf(),
{
    assert forall|i: int| 0 <= i < post.cities@.len() implies {
        let e = #[trigger] post.cities@[i];
        &&& on_grid(e.pos, post.dimension)
        &&& e.links@.no_duplicates()
        &&& e.links@.to_set() == cover_set(post.towers_set(), e.pos, post.service_radius)
    } by {
        let e = post.cities@[i];
        assert(pre.cities@[i] == e);
        assert(e.links@.to_set() == cover_set(pre.towers_set(), e.pos, pre.service_radius));
        assert forall|q: Point|
            !e.links@.to_set().contains(q) && !cover_set(
                post.towers_set(),
                e.pos,
                post.service_radius,
            ).contains(q) by {
            if pre.towers_set().contains(q) {
                let k = choose|k: int| 0 <= k < pre.towers@.len() && pre.towers@[k].pos == q;
                assert(false);
            }
        }
        assert(e.links@.to_set() =~= cover_set(post.towers_set(), e.pos, post.service_radius));
    }
}

/// Peer links are symmetric: the tower at index `j` is a stored peer of the
/// tower at index `i` exactly when the tower at index `i` is a stored peer of
/// the tower at index `j`. This holds after every operation, since each
/// operation preserves `wf`.
pub proof fn lemma_peer_symmetry(g: Grid, i: int, j: int)
    requires
        g.wf(),
        0 <= i < g.towers@.len(),
        0 <= j < g.towers@.len(),
    ensures
        g.towers@[i].links@.contains(g.towers@[j].pos) <==> g.towers@[j].links@.contains(
            g.towers@[i].pos,
        ),
{
    let p = g.towers@[i].pos;
    let q = g.towers@[j].pos;
    lemma_dist_symmetric(p, q);
    assert(g.towers_set().contains(p));
    assert(g.towers_set().contains(q));
    assert(g.towers@[i].links@.contains(q) == g.towers@[i].links@.to_set().contains(q));
    assert(g.towers@[j].links@.contains(p) == g.towers@[j].links@.to_set().contains(p));
}

/// The incrementally maintained state equals a recomputation from scratch:
/// every stored peer set is exactly the set of other towers within the
/// penalty radius, and its stored size (which alone determines the tower's
/// penalty contribution) equals the size of that recomputed set.
pub proof fn lemma_incremental_matches_recomputation(g: Grid, i: int)
    requires
        g.wf(),
        0 <= i < g.towers@.len(),
    ensures
        g.towers@[i].links@.to_set() == peer_set(
            g.towers_set(),
            g.towers@[i].pos,
            g.penalty_radius,
        ),
        g.towers@[i].links@.len() == peer_set(
            g.towers_set(),
            g.towers@[i].pos,
            g.penalty_radius,
        ).len(),
{
    g.towers@[i].links@.unique_seq_to_set();
}

/// Round-trip idempotence: adding a tower at `p` and then removing it
/// restores the grid to a state with identical tower and city mappings. The
/// tower and city relations of a well-formed grid are determined by its key
/// sets and parameters, and the key sets are restored by the pair of
/// operations.
pub proof fn lemma_add_remove_round_trip(g0: Grid, g1: Grid, g2: Grid, p: Point)
    requires
        g0.wf(),
        g2.wf(),
        g1.same_params(&g0),
        g2.same_params(&g1),
        !g0.spec_has_tower(p),
        g1.towers_set() == g0.towers_set().insert(p),
        g2.towers_set() == g1.towers_set().remove(p),
        g2.cities@.len() == g0.cities@.len(),
        forall|i: int|
            0 <= i < g0.cities@.len() ==> (#[trigger] g2.cities@[i]).pos == g0.cities@[i].pos,
    ensures
        g2.towers_set() == g0.towers_set(),
        forall|i: int|
            0 <= i < g0.cities@.len() ==> (#[trigger] g2.cities@[i]).links@.to_set()
                == g0.cities@[i].links@.to_set(),
        forall|i: int, j: int|
            0 <= i < g0.towers@.len() && 0 <= j < g2.towers@.len() && (#[trigger] g0.towers@[i]).pos
                == (#[trigger] g2.towers@[j]).pos ==> g0.towers@[i].links@.to_set()
                == g2.towers@[j].links@.to_set(),
{
    assert(g2.towers_set() =~= g0.towers_set());
    assert forall|i: int|
        0 <= i < g0.cities@.len() implies (#[trigger] g2.cities@[i]).links@.to_set()
        == g0.cities@[i].links@.to_set() by {
        assert(g0.cities@[i].links@.to_set() == cover_set(
            g0.towers_set(),
            g0.cities@[i].pos,
            g0.service_radius,
        ));
        assert(g2.cities@[i].links@.to_set() == cover_set(
            g2.towers_set(),
            g2.cities@[i].pos,
            g2.service_radius,
        ));
    }
    assert forall|i: int, j: int|
        0 <= i < g0.towers@.len() && 0 <= j < g2.towers@.len() && (#[trigger] g0.towers@[i]).pos
            == (#[trigger] g2.towers@[j]).pos implies g0.towers@[i].links@.to_set()
        == g2.towers@[j].links@.to_set() by {
        assert(g0.towers@[i].links@.to_set() == peer_set(
            g0.towers_set(),
            g0.towers@[i].pos,
            g0.penalty_radius,
        ));
        assert(g2.towers@[j].links@.to_set() == peer_set(
            g2.towers_set(),
            g2.towers@[j].pos,
            g2.penalty_radius,
        ));
    }
}

/// Validity means geometric coverage: every city has a non-empty covering
/// set exactly when every city has some placed tower within the service
/// radius. A grid with zero cities is always valid.
/// Validity is a function of the tower set: two well-formed grids over the
/// same cities, service radius and tower set are both valid or both invalid.
pub proof fn lemma_validity_determined(a: Grid, b: Grid)
    requires
        a.wf(),
        b.wf(),
        b.service_radius == a.service_radius,
        b.cities@.len() == a.cities@.len(),
        forall|i: int| 0 <= i < a.cities@.len() ==> (#[trigger] b.cities@[i]).pos == a.cities@[i].pos,
        b.towers_set() == a.towers_set(),
    ensures
        b.spec_is_valid() == a.spec_is_valid(),
{
    assert forall|i: int|
        0 <= i < a.cities@.len() implies ((#[trigger] a.cities@[i]).links@.len() > 0) == (
    b.cities@[i].links@.len() > 0) by {
        let la = a.cities@[i].links@;
        let lb = b.cities@[i].links@;
        assert(la.to_set() == cover_set(a.towers_set(), a.cities@[i].pos, a.service_radius));
        assert(lb.to_set() == cover_set(b.towers_set(), b.cities@[i].pos, b.service_radius));
        if la.len() > 0 {
            assert(la.to_set().contains(la[0]));
            assert(lb.to_set().contains(la[0]));
            assert(lb.contains(la[0]));
        }
        if lb.len() > 0 {
            assert(lb.to_set().contains(lb[0]));
            assert(la.to_set().contains(lb[0]));
            assert(la.contains(lb[0]));
        }
    }
    if a.spec_is_valid() {
        assert forall|i: int|
            0 <= i < b.cities@.len() implies (#[trigger] b.cities@[i]).links@.len() > 0 by {
            assert(a.cities@[i].links@.len() > 0);
        }
    }
    if b.spec_is_valid() {
        assert forall|i: int|
            0 <= i < a.cities@.len() implies (#[trigger] a.cities@[i]).links@.len() > 0 by {
            assert(b.cities@[i].links@.len() > 0);
        }
    }
}

pub proof fn lemma_valid_iff_covered(g: Grid)
    requires
        g.wf(),
    ensures
        g.spec_is_valid() <==> (forall|i: int|
            0 <= i < g.cities@.len() ==> g.spec_covered((#[trigger] g.cities@[i]).pos)),
        g.cities@.len() == 0 ==> g.spec_is_valid(),
{
    if g.spec_is_valid() {
        assert forall|i: int| 0 <= i < g.cities@.len() implies g.spec_covered(
            (#[trigger] g.cities@[i]).pos,
        ) by {
            let e = g.cities@[i];
            assert(e.links@.len() > 0);
            let t = e.links@[0];
            assert(e.links@.contains(t));
            assert(e.links@.to_set().contains(t));
            assert(cover_set(g.towers_set(), e.pos, g.service_radius).contains(t));
        }
    }
    if forall|i: int| 0 <= i < g.cities@.len() ==> g.spec_covered((#[trigger] g.cities@[i]).pos) {
        assert forall|i: int|
            0 <= i < g.cities@.len() implies (#[trigger] g.cities@[i]).links@.len() > 0 by {
            let e = g.cities@[i];
            assert(g.spec_covered(e.pos));
            let t = choose|t: Point|
                g.towers_set().contains(t) && dist_sq(e.pos, t) <= sq(g.service_radius as int);
            assert(cover_set(g.towers_set(), e.pos, g.service_radius).contains(t));
            assert(e.links@.to_set().contains(t));
            assert(e.links@.contains(t));
            if e.links@.len() == 0 {
                assert(false);
            }
        }
    }
}

/// Finds the entry of `s` whose key is `p`, if any.
pub fn find_entry(s: &Vec<Entry>, p: Point) -> (r: Option<usize>)
    ensures
        match r {
            Some(i) => i < s@.len() && s@[i as int].pos == p,
            None => !has_key(s@, p),
        },
{
    let mut i: usize = 0;
    while i < s.len()
        invariant
            i <= s@.len(),
            forall|k: int| 0 <= k < i ==> (#[trigger] s@[k]).pos != p,
        decreases s@.len() - i,
    {
        if s[i].pos.x == p.x && s[i].pos.y == p.y {
            return Some(i);
        }
        i += 1;
    }
    None
}

/// Removes the point `p` from the duplicate-free vector `v`, if present.
pub fn vec_remove_point(v: &mut Vec<Point>, p: Point)
    requires
        old(v)@.no_duplicates(),
    ensures
        final(v)@.no_duplicates(),
        final(v)@.to_set() == old(v)@.to_set().remove(p),
        !final(v)@.contains(p),
{
    let mut i: usize = 0;
    let n = v.len();
    while i < n
        invariant
            i <= n,
            n == v@.len(),
            v@.no_duplicates(),
            v == old(v),
            forall|k: int| 0 <= k < i ==> v@[k] != p,
        decreases n - i,
    {
        if v[i].x == p.x && v[i].y == p.y {
            proof {
                lemma_remove_point_seq(v@, i as int);
            }
            v.remove(i);
            return ;
        }
        i += 1;
    }
    proof {
        if v@.contains(p) {
            let k = choose|k: int| 0 <= k < v@.len() && v@[k] == p;
            assert(false);
        }
        assert(v@.to_set() =~= v@.to_set().remove(p));
    }
}


} // verus!
