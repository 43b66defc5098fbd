//! The solver family: greedy construction, redundancy elimination, and the
//! randomized neighbor moves used by local search and annealing. Every solver
//! mutates the grid only through its verified operations, so the coverage
//! relations stay consistent throughout.

use vstd::prelude::*;

use crate::cache::CoverageCache;
use crate::grid::{cover_set, has_key, lemma_validity_determined, Entry, Grid};
use crate::point::{dist_sq, on_grid, points_in_range, sq, Point};
use crate::rng::rand_index;

verus! {

/// The number of cities whose covering set is empty.
pub open spec fn count_uncovered(s: Seq<Entry>) -> nat
    decreases s.len(),
{
    if s.len() == 0 {
        0
    } else {
        count_uncovered(s.drop_last()) + (if s.last().links@.len() == 0 {
            1nat
        } else {
            0nat
        })
    }
}

/// If every city uncovered in `b` is also uncovered in `a`, then `b` has at
/// most as many uncovered cities as `a`.
pub proof fn lemma_count_uncovered_le(a: Seq<Entry>, b: Seq<Entry>)
    requires
        a.len() == b.len(),
        forall|i: int|
            0 <= i < b.len() && (#[trigger] b[i]).links@.len() == 0 ==> (#[trigger] a[i]).links@.len() == 0,
    ensures
        count_uncovered(b) <= count_uncovered(a),
    decreases a.len(),
{
    if a.len() > 0 {
        assert forall|i: int|
            0 <= i < b.drop_last().len() && (#[trigger] b.drop_last()[i]).links@.len()
                == 0 implies (#[trigger] a.drop_last()[i]).links@.len() == 0 by {
            assert(b[i].links@.len() == 0);
            assert(a[i].links@.len() == 0);
        }
        lemma_count_uncovered_le(a.drop_last(), b.drop_last());
        assert(a.last() == a[a.len() - 1] && b.last() == b[b.len() - 1]);
    }
}

/// If additionally some city uncovered in `a` is covered in `b`, the count
/// strictly decreases.
pub proof fn lemma_count_uncovered_decrease(a: Seq<Entry>, b: Seq<Entry>, w: int)
    requires
        a.len() == b.len(),
        0 <= w < a.len(),
        a[w].links@.len() == 0,
        b[w].links@.len() > 0,
        forall|i: int|
            0 <= i < b.len() && (#[trigger] b[i]).links@.len() == 0 ==> (#[trigger] a[i]).links@.len() == 0,
    ensures
        count_uncovered(b) < count_uncovered(a),
    decreases a.len(),
{
    assert forall|i: int|
        0 <= i < b.drop_last().len() && (#[trigger] b.drop_last()[i]).links@.len() == 0 implies (
    #[trigger] a.drop_last()[i]).links@.len() == 0 by {
        assert(b[i].links@.len() == 0);
        assert(a[i].links@.len() == 0);
    }
    assert(a.last() == a[a.len() - 1] && b.last() == b[b.len() - 1]);
    if w == a.len() - 1 {
        lemma_count_uncovered_le(a.drop_last(), b.drop_last());
    } else {
        lemma_count_uncovered_decrease(a.drop_last(), b.drop_last(), w);
    }
}

/// Placing more towers never uncovers a city: a city with a non-empty
/// covering set keeps one when the tower set only grows.
pub proof fn lemma_coverage_monotone(pre: Grid, post: Grid)
    requires
        pre.wf(),
        post.wf(),
        post.service_radius == pre.service_radius,
        post.cities@.len() == pre.cities@.len(),
        forall|i: int|
            0 <= i < pre.cities@.len() ==> (#[trigger] post.cities@[i]).pos == pre.cities@[i].pos,
        pre.towers_set().subset_of(post.towers_set()),
    ensures
        forall|i: int|
            0 <= i < pre.cities@.len() && (#[trigger] pre.cities@[i]).links@.len() > 0 ==> (
            #[trigger] post.cities@[i]).links@.len() > 0,
{
    assert forall|i: int|
        0 <= i < pre.cities@.len() && (#[trigger] pre.cities@[i]).links@.len() > 0 implies (
    #[trigger] post.cities@[i]).links@.len() > 0 by {
        let e = pre.cities@[i];
        let t = e.links@[0];
        assert(e.links@.contains(t));
        assert(e.links@.to_set().contains(t));
        assert(cover_set(pre.towers_set(), e.pos, pre.service_radius).contains(t));
        assert(cover_set(post.towers_set(), post.cities@[i].pos, post.service_radius).contains(t));
        assert(post.cities@[i].links@.to_set().contains(t));
        assert(post.cities@[i].links@.contains(t));
        if post.cities@[i].links@.len() == 0 {
            assert(false);
        }
    }
}

/// Removing towers only shrinks peer sets: each remaining tower has at most
/// the penalized peers it had before, so each tower's penalty contribution
/// (a monotone function of its peer count) never increases when towers are
/// only removed.
pub proof fn lemma_peer_sets_shrink(small: Set<Point>, large: Set<Point>, p: Point, r_p: u8)
    requires
        small.subset_of(large),
    ensures
        crate::grid::peer_set(small, p, r_p).subset_of(crate::grid::peer_set(large, p, r_p)),
{
    assert forall|q: Point| crate::grid::peer_set(small, p, r_p).contains(q) implies crate::grid::peer_set(
        large,
        p,
        r_p,
    ).contains(q) by {
        assert(small.contains(q));
    }
}

/// A pass that only removes towers never increases any tower's peer count:
/// each tower still standing has at most the penalized peers it had before.
/// Since every tower's penalty contribution is a monotone function of its
/// peer count alone, such a pass never increases the total penalty.
pub proof fn lemma_removal_never_raises_peer_counts(pre: Grid, post: Grid, i: int, j: int)
    requires
        pre.wf(),
        post.wf(),
        post.penalty_radius == pre.penalty_radius,
        post.towers_set().subset_of(pre.towers_set()),
        0 <= i < pre.towers@.len(),
        0 <= j < post.towers@.len(),
        pre.towers@[i].pos == post.towers@[j].pos,
    ensures
        post.towers@[j].links@.len() <= pre.towers@[i].links@.len(),
{
    let p = pre.towers@[i].pos;
    let small = post.towers@[j].links@;
    let large = pre.towers@[i].links@;
    lemma_peer_sets_shrink(post.towers_set(), pre.towers_set(), p, pre.penalty_radius);
    assert(small.to_set().subset_of(large.to_set()));
    vstd::seq_lib::seq_to_set_is_finite(large);
    vstd::set_lib::lemma_len_subset(small.to_set(), large.to_set());
    small.unique_seq_to_set();
    large.unique_seq_to_set();
}

/// A tower at `p` is essential: some city is covered by `p` alone, so
/// removing the tower would make the grid invalid.
pub open spec fn spec_essential(g: Grid, p: Point) -> bool {
    exists|i: int|
        0 <= i < g.cities@.len() && (#[trigger] g.cities@[i]).links@.to_set() == Set::empty().insert(
            p,
        )
}

/// Removing one tower removes exactly that tower from every city's covering
/// set.
pub proof fn lemma_cover_removal(pre: Grid, post: Grid, p: Point)
    requires
        pre.wf(),
        post.wf(),
        post.service_radius == pre.service_radius,
        post.cities@.len() == pre.cities@.len(),
        forall|i: int|
            0 <= i < pre.cities@.len() ==> (#[trigger] post.cities@[i]).pos == pre.cities@[i].pos,
        post.towers_set() == pre.towers_set().remove(p),
    ensures
        forall|i: int|
            0 <= i < pre.cities@.len() ==> (#[trigger] post.cities@[i]).links@.to_set()
                == pre.cities@[i].links@.to_set().remove(p),
{
    assert forall|i: int|
        0 <= i < pre.cities@.len() implies (#[trigger] post.cities@[i]).links@.to_set()
        == pre.cities@[i].links@.to_set().remove(p) by {
        assert(pre.cities@[i].links@.to_set() == cover_set(
            pre.towers_set(),
            pre.cities@[i].pos,
            pre.service_radius,
        ));
        assert(post.cities@[i].links@.to_set() == cover_set(
            post.towers_set(),
            post.cities@[i].pos,
            post.service_radius,
        ));
        assert(post.cities@[i].links@.to_set() =~= pre.cities@[i].links@.to_set().remove(p));
    }
}

/// The positions of all stored towers, in storage order.
pub fn tower_positions(grid: &Grid) -> (r: Vec<Point>)
    ensures
        r@.len() == grid.towers@.len(),
        forall|i: int| 0 <= i < r@.len() ==> r@[i] == (#[trigger] grid.towers@[i]).pos,
{
    let towers = grid.get_towers_ref();
    let mut r: Vec<Point> = Vec::new();
    let mut i: usize = 0;
    while i < towers.len()
        invariant
            i <= towers@.len(),
            towers@ == grid.towers@,
            r@.len() == i,
            forall|k: int| 0 <= k < i ==> r@[k] == (#[trigger] grid.towers@[k]).pos,
        decreases towers@.len() - i,
    {
        r.push(towers[i].pos);
        i += 1;
    }
    r
}

/// Removes the tower at `p` if the grid stays valid without it; otherwise
/// puts it back, leaving the grid exactly as it was at the level of the
/// coverage relations. Returns whether the tower was removed.
pub fn remove_if_redundant(grid: &mut Grid, p: Point) -> (removed: bool)
    requires
        old(grid).wf(),
    ensures
        final(grid).wf(),
        final(grid).same_params(old(grid)),
        final(grid).cities@.len() == old(grid).cities@.len(),
        forall|i: int|
            0 <= i < old(grid).cities@.len() ==> (#[trigger] final(grid).cities@[i]).pos == old(
                grid,
            ).cities@[i].pos,
        final(grid).city_set() == old(grid).city_set(),
        !old(grid).spec_has_tower(p) ==> !removed && *final(grid) == *old(grid),
        removed ==> {
            &&& old(grid).spec_has_tower(p)
            &&& final(grid).towers_set() == old(grid).towers_set().remove(p)
            &&& final(grid).spec_is_valid()
            &&& forall|i: int|
                0 <= i < old(grid).cities@.len() ==> (#[trigger] final(grid).cities@[i]).links@.to_set() == old(grid).cities@[i].links@.to_set().remove(p)
        },
        !removed && old(grid).spec_has_tower(p) ==> {
            &&& final(grid).towers_set() == old(grid).towers_set()
            &&& forall|i: int|
                0 <= i < old(grid).cities@.len() ==> (#[trigger] final(grid).cities@[i]).links@.to_set() == old(grid).cities@[i].links@.to_set()
            &&& final(grid).spec_is_valid() == old(grid).spec_is_valid()
            &&& (old(grid).spec_is_valid() ==> spec_essential(*final(grid), p))
        },
{
    let r = grid.remove_tower(p.x, p.y);
    if r.is_err() {
        proof {
            if old(grid).spec_has_tower(p) {
                let m = choose|m: int|
                    0 <= m < old(grid).towers@.len() && old(grid).towers@[m].pos == p;
                assert(on_grid(p, old(grid).dimension));
                assert(false);
            }
        }
        return false;
    }
    let ghost mid = *grid;
    if grid.is_valid() {
        proof {
            lemma_cover_removal(*old(grid), *grid, p);
        }
        return true;
    }
    proof {
        if grid.spec_has_tower(p) {
            assert(old(grid).towers_set().remove(p).contains(p));
            assert(false);
        }
    }
    let r2 = grid.add_tower(p.x, p.y);
    proof {
        assert(r2 is Ok) by {
            let m = choose|m: int|
                0 <= m < old(grid).towers@.len() && old(grid).towers@[m].pos == p;
            assert(on_grid(p, old(grid).dimension));
        }
        assert(grid.towers_set() =~= old(grid).towers_set());
        lemma_cover_removal(*old(grid), mid, p);
        // Covering sets are a function of the tower set, so they are restored.
        assert forall|i: int|
            0 <= i < old(grid).cities@.len() implies (#[trigger] grid.cities@[i]).links@.to_set()
            == old(grid).cities@[i].links@.to_set() by {
            assert(old(grid).cities@[i].links@.to_set() == cover_set(
                old(grid).towers_set(),
                old(grid).cities@[i].pos,
                old(grid).service_radius,
            ));
            assert(grid.cities@[i].links@.to_set() == cover_set(
                grid.towers_set(),
                grid.cities@[i].pos,
                grid.service_radius,
            ));
        }
        // Validity is restored with the covering sets.
        assert forall|i: int|
            0 <= i < grid.cities@.len() implies ((#[trigger] grid.cities@[i]).links@.len() > 0)
            == (old(grid).cities@[i].links@.len() > 0) by {
            let a = grid.cities@[i].links@;
            let b = old(grid).cities@[i].links@;
            if a.len() > 0 {
                assert(a.to_set().contains(a[0]));
                assert(b.to_set().contains(a[0]));
                assert(b.contains(a[0]));
            }
            if b.len() > 0 {
                assert(b.to_set().contains(b[0]));
                assert(a.to_set().contains(b[0]));
                assert(a.contains(b[0]));
            }
        }
        if grid.spec_is_valid() {
            assert forall|i: int|
                0 <= i < old(grid).cities@.len() implies (#[trigger] old(
                grid,
            ).cities@[i]).links@.len() > 0 by {
                assert(grid.cities@[i].links@.len() > 0);
            }
        }
        // The tower is essential: while it was out, some city lost its whole
        // covering set, so that covering set was exactly { p }.
        if old(grid).spec_is_valid() {
            assert(!mid.spec_is_valid());
            let w = choose|w: int|
                0 <= w < mid.cities@.len() && !((#[trigger] mid.cities@[w]).links@.len() > 0);
            let b = old(grid).cities@[w].links@;
            assert(b.len() > 0);
            assert(mid.cities@[w].links@.to_set() == b.to_set().remove(p));
            assert forall|q: Point| b.to_set().contains(q) implies q == p by {
                if q != p {
                    assert(b.to_set().remove(p).contains(q));
                    assert(mid.cities@[w].links@.contains(q));
                }
            }
            assert(b.to_set().contains(b[0]));
            assert(b[0] == p);
            assert(b.to_set() =~= Set::empty().insert(p));
            assert(grid.cities@[w].links@.to_set() == Set::empty().insert(p));
            assert(spec_essential(*grid, p));
        }
    }
    false
}

/// Removes every redundant tower: after the pass, the grid is still valid
/// (when it was valid to begin with) and every remaining tower is the sole
/// cover of some city, so no further removal can preserve validity. This is
/// the post-processing guarantee of the annealing solver and the removal
/// phase of the hill-climb.
pub fn remove_redundant_towers(grid: &mut Grid)
    requires
        old(grid).wf(),
    ensures
        final(grid).wf(),
        final(grid).same_params(old(grid)),
        final(grid).cities@.len() == old(grid).cities@.len(),
        forall|i: int|
            0 <= i < old(grid).cities@.len() ==> (#[trigger] final(grid).cities@[i]).pos == old(
                grid,
            ).cities@[i].pos,
        final(grid).city_set() == old(grid).city_set(),
        final(grid).towers_set().subset_of(old(grid).towers_set()),
        old(grid).spec_is_valid() ==> final(grid).spec_is_valid(),
        old(grid).spec_is_valid() ==> forall|p: Point|
            final(grid).towers_set().contains(p) ==> spec_essential(*final(grid), p),
{
    let ghost pre = *grid;
    let tkeys = tower_positions(grid);
    let n = tkeys.len();
    let mut k: usize = 0;
    while k < n
        invariant
            k <= n,
            n == tkeys@.len(),
            grid.wf(),
            grid.same_params(&pre),
            grid.cities@.len() == pre.cities@.len(),
            forall|i: int|
                0 <= i < pre.cities@.len() ==> (#[trigger] grid.cities@[i]).pos
                    == pre.cities@[i].pos,
            grid.city_set() == pre.city_set(),
            grid.towers_set().subset_of(pre.towers_set()),
            pre.spec_is_valid() ==> grid.spec_is_valid(),
            pre.spec_is_valid() ==> forall|j: int|
                0 <= j < k && grid.towers_set().contains(#[trigger] tkeys@[j]) ==> spec_essential(
                    *grid,
                    tkeys@[j],
                ),
        decreases n - k,
    {
        let ghost before = *grid;
        let u = tkeys[k];
        let removed = remove_if_redundant(grid, u);
        proof {
            if pre.spec_is_valid() {
                assert forall|j: int|
                    0 <= j < k + 1 && grid.towers_set().contains(
                        #[trigger] tkeys@[j],
                    ) implies spec_essential(*grid, tkeys@[j]) by {
                    let q = tkeys@[j];
                    if j < k {
                        if before.spec_has_tower(u) {
                            if removed {
                                // q survived, so q != u; its sole-cover city
                                // keeps exactly { q } after u leaves.
                                assert(grid.towers_set().contains(q) && !grid.towers_set().contains(
                                    u,
                                ));
                                assert(before.towers_set().contains(q));
                                assert(spec_essential(before, q));
                                let i0 = choose|i0: int|
                                    0 <= i0 < before.cities@.len() && (
                                    #[trigger] before.cities@[i0]).links@.to_set()
                                        == Set::empty().insert(q);
                                assert(grid.cities@[i0].links@.to_set()
                                    == before.cities@[i0].links@.to_set().remove(u));
                                assert(grid.cities@[i0].links@.to_set() =~= Set::empty().insert(q));
                            } else {
                                assert(grid.towers_set() == before.towers_set());
                                assert(spec_essential(before, q));
                                let i0 = choose|i0: int|
                                    0 <= i0 < before.cities@.len() && (
                                    #[trigger] before.cities@[i0]).links@.to_set()
                                        == Set::empty().insert(q);
                                assert(grid.cities@[i0].links@.to_set()
                                    == before.cities@[i0].links@.to_set());
                            }
                        } else {
                            assert(*grid == before);
                        }
                    } else {
                        // j == k: either u was removed (then the guard fails)
                        // or it was restored and shown essential.
                        assert(q == u);
                        if grid.towers_set().contains(u) {
                            if before.spec_has_tower(u) {
                                assert(!removed) by {
                                    if removed {
                                        assert(!grid.towers_set().contains(u));
                                    }
                                }
                                assert(spec_essential(*grid, u));
                            } else {
                                assert(before.towers_set().contains(u));
                                assert(false);
                            }
                        }
                    }
                }
            }
        }
        k += 1;
    }
    proof {
        if pre.spec_is_valid() {
            assert forall|p: Point| grid.towers_set().contains(p) implies spec_essential(
                *grid,
                p,
            ) by {
                assert(pre.towers_set().contains(p));
                let m = choose|m: int| 0 <= m < pre.towers@.len() && pre.towers@[m].pos == p;
                assert(tkeys@[m] == p);
            }
        }
    }
}

/// Collects the positions of exactly the cities whose covering set is
/// empty, in storage order and without repetition.
pub fn collect_uncovered(grid: &Grid) -> (r: Vec<Point>)
    requires
        grid.wf(),
    ensures
        (r@.len() == 0) == grid.spec_is_valid(),
        r@.no_duplicates(),
        forall|k: int|
            #![trigger r@[k]]
            0 <= k < r@.len() ==> exists|i: int|
                0 <= i < grid.cities@.len() && (#[trigger] grid.cities@[i]).pos == r@[k]
                    && grid.cities@[i].links@.len() == 0,
        forall|i: int|
            0 <= i < grid.cities@.len() && (#[trigger] grid.cities@[i]).links@.len() == 0
                ==> r@.contains(grid.cities@[i].pos),
{
    let mut r: Vec<Point> = Vec::new();
    let mut i: usize = 0;
    let n = grid.get_cities_ref().len();
    while i < n
        invariant
            i <= n,
            n == grid.cities@.len(),
            grid.wf(),
            (r@.len() == 0) == (forall|k: int|
                0 <= k < i ==> (#[trigger] grid.cities@[k]).links@.len() > 0),
            r@.no_duplicates(),
            forall|k: int|
                #![trigger r@[k]]
                0 <= k < r@.len() ==> exists|i0: int|
                    0 <= i0 < i && (#[trigger] grid.cities@[i0]).pos == r@[k]
                        && grid.cities@[i0].links@.len() == 0,
            forall|i0: int|
                0 <= i0 < i && (#[trigger] grid.cities@[i0]).links@.len() == 0 ==> r@.contains(
                    grid.cities@[i0].pos,
                ),
        decreases n - i,
    {
        if grid.get_cities_ref()[i].links.len() == 0 {
            let c = grid.get_cities_ref()[i].pos;
            proof {
                // The position was not collected before: city keys are
                // distinct, and only uncovered city positions are collected.
                if r@.contains(c) {
                    let k = choose|k: int| 0 <= k < r@.len() && r@[k] == c;
                    let i0 = choose|i0: int|
                        0 <= i0 < i && (#[trigger] grid.cities@[i0]).pos == r@[k as int]
                            && grid.cities@[i0].links@.len() == 0;
                    assert(false);
                }
                crate::grid::lemma_push_no_dup(r@, c);
            }
            let ghost old_r = r@;
            r.push(c);
            proof {
                assert(grid.cities@[i as int].pos == r@[r@.len() - 1]
                    && grid.cities@[i as int].links@.len() == 0);
                assert forall|i0: int|
                    0 <= i0 < i + 1 && (#[trigger] grid.cities@[i0]).links@.len()
                        == 0 implies r@.contains(grid.cities@[i0].pos) by {
                    if i0 < i {
                        assert(old_r.contains(grid.cities@[i0].pos));
                        let k = choose|k: int|
                            0 <= k < old_r.len() && old_r[k] == grid.cities@[i0].pos;
                        assert(r@[k] == grid.cities@[i0].pos);
                    } else {
                        assert(r@[r@.len() - 1] == grid.cities@[i0].pos);
                    }
                }
            }
        }
        i += 1;
    }
    r
}

/// The number of still-uncovered cities that a tower at `q` would cover.
pub open spec fn count_newly_covered(s: Seq<Entry>, q: Point, r_s: u8) -> nat
    decreases s.len(),
{
    if s.len() == 0 {
        0
    } else {
        count_newly_covered(s.drop_last(), q, r_s) + (if s.last().links@.len() == 0 && dist_sq(
            s.last().pos,
            q,
        ) <= sq(r_s as int) {
            1nat
        } else {
            0nat
        })
    }
}

/// The number of stored towers on the grid within radius `r_p` of `q`: the
/// penalized peers a tower placed at `q` would gain.
pub open spec fn count_towers_in_range(s: Seq<Entry>, q: Point, r_p: u8, dim: u8) -> nat
    decreases s.len(),
{
    if s.len() == 0 {
        0
    } else {
        count_towers_in_range(s.drop_last(), q, r_p, dim) + (if on_grid(s.last().pos, dim)
            && dist_sq(q, s.last().pos) <= sq(r_p as int) {
            1nat
        } else {
            0nat
        })
    }
}

/// The newly-covered count is positive exactly when some uncovered city lies
/// within the service radius.
pub proof fn lemma_count_newly_witness(s: Seq<Entry>, q: Point, r_s: u8)
    ensures
        (count_newly_covered(s, q, r_s) >= 1) <==> (exists|i: int|
            0 <= i < s.len() && (#[trigger] s[i]).links@.len() == 0 && dist_sq(s[i].pos, q) <= sq(
                r_s as int,
            )),
    decreases s.len(),
{
    if s.len() > 0 {
        lemma_count_newly_witness(s.drop_last(), q, r_s);
        let last = s[s.len() - 1];
        assert(s.last() == last);
        if count_newly_covered(s, q, r_s) >= 1 {
            if !(last.links@.len() == 0 && dist_sq(last.pos, q) <= sq(r_s as int)) {
                let i = choose|i: int|
                    0 <= i < s.drop_last().len() && (#[trigger] s.drop_last()[i]).links@.len() == 0
                        && dist_sq(s.drop_last()[i].pos, q) <= sq(r_s as int);
                assert(s[i] == s.drop_last()[i]);
            }
        }
        if exists|i: int|
            0 <= i < s.len() && (#[trigger] s[i]).links@.len() == 0 && dist_sq(s[i].pos, q) <= sq(
                r_s as int,
            ) {
            let i = choose|i: int|
                0 <= i < s.len() && (#[trigger] s[i]).links@.len() == 0 && dist_sq(s[i].pos, q)
                    <= sq(r_s as int);
            if i < s.len() - 1 {
                assert(s.drop_last()[i] == s[i]);
                assert(count_newly_covered(s.drop_last(), q, r_s) >= 1);
            }
        }
    }
}

/// Counts the still-uncovered cities that a tower at `q` would cover.
fn count_covered(grid: &Grid, q: Point) -> (r: usize)
    requires
        on_grid(q, grid.dimension),
    ensures
        r == count_newly_covered(grid.cities@, q, grid.service_radius),
{
    let cities = grid.get_cities_ref();
    let mut count: usize = 0;
    let mut i: usize = 0;
    while i < cities.len()
        invariant
            i <= cities@.len(),
            cities@ == grid.cities@,
            on_grid(q, grid.dimension),
            count <= i,
            count == count_newly_covered(
                grid.cities@.subrange(0, i as int),
                q,
                grid.service_radius,
            ),
        decreases cities@.len() - i,
    {
        let e_pos = cities[i].pos;
        let uncovered = cities[i].links.len() == 0;
        proof {
            let sub = grid.cities@.subrange(0, i + 1);
            assert(sub.drop_last() =~= grid.cities@.subrange(0, i as int));
            assert(sub.last() == grid.cities@[i as int]);
        }
        if uncovered && Point::within(
            grid.service_radius(),
            e_pos.x,
            e_pos.y,
            q.x,
            q.y,
            grid.dimension(),
        ) {
            count += 1;
        }
        i += 1;
    }
    proof {
        assert(grid.cities@.subrange(0, cities@.len() as int) =~= grid.cities@);
    }
    count
}

/// Counts the towers currently within the penalty radius of `q`: the number
/// of penalized peers a tower placed at `q` would have.
fn count_towers_within(grid: &Grid, q: Point) -> (r: usize)
    ensures
        r == count_towers_in_range(grid.towers@, q, grid.penalty_radius, grid.dimension),
{
    let towers = grid.get_towers_ref();
    let mut count: usize = 0;
    let mut i: usize = 0;
    while i < towers.len()
        invariant
            i <= towers@.len(),
            towers@ == grid.towers@,
            count <= i,
            count == count_towers_in_range(
                grid.towers@.subrange(0, i as int),
                q,
                grid.penalty_radius,
                grid.dimension,
            ),
        decreases towers@.len() - i,
    {
        let pos = towers[i].pos;
        proof {
            let sub = grid.towers@.subrange(0, i + 1);
            assert(sub.drop_last() =~= grid.towers@.subrange(0, i as int));
            assert(sub.last() == grid.towers@[i as int]);
        }
        if Point::within(grid.penalty_radius(), q.x, q.y, pos.x, pos.y, grid.dimension()) {
            count += 1;
        }
        i += 1;
    }
    proof {
        assert(grid.towers@.subrange(0, towers@.len() as int) =~= grid.towers@);
    }
    count
}

/// Greedy algorithm for benchmarking: places a tower at every city location
/// that is not yet covered. The result always covers all cities, since a
/// tower placed on a city covers it, and every tower the pass adds stands at
/// a stored city position.
pub fn benchmark_greedy(grid: &mut Grid)
    requires
        old(grid).wf(),
    ensures
        final(grid).wf(),
        final(grid).same_params(old(grid)),
        final(grid).cities@.len() == old(grid).cities@.len(),
        forall|i: int|
            0 <= i < old(grid).cities@.len() ==> (#[trigger] final(grid).cities@[i]).pos == old(
                grid,
            ).cities@[i].pos,
        final(grid).city_set() == old(grid).city_set(),
        final(grid).spec_is_valid(),
        old(grid).towers_set().subset_of(final(grid).towers_set()),
        forall|p: Point|
            final(grid).towers_set().contains(p) ==> old(grid).towers_set().contains(p) || old(
                grid,
            ).city_set().contains(p),
{
    let ghost pre = *grid;
    let n = grid.get_cities_ref().len();
    let mut i: usize = 0;
    while i < n
        invariant
            i <= n,
            n == grid.cities@.len(),
            grid.wf(),
            grid.same_params(&pre),
            grid.cities@.len() == pre.cities@.len(),
            forall|k: int|
                0 <= k < pre.cities@.len() ==> (#[trigger] grid.cities@[k]).pos
                    == pre.cities@[k].pos,
            grid.city_set() == pre.city_set(),
            pre.towers_set().subset_of(grid.towers_set()),
            forall|p: Point|
                grid.towers_set().contains(p) ==> pre.towers_set().contains(p)
                    || pre.city_set().contains(p),
            forall|k: int| 0 <= k < i ==> (#[trigger] grid.cities@[k]).links@.len() > 0,
        decreases n - i,
    {
        let ghost mid = *grid;
        if grid.get_cities_ref()[i].links.len() == 0 {
            let c = grid.get_cities_ref()[i].pos;
            proof {
                assert(on_grid(c, grid.dimension));
                if grid.spec_has_tower(c) {
                    assert(grid.towers_set().contains(c));
                    assert(dist_sq(c, c) == 0) by {
                        assert(sq(0) == 0);
                    }
                    crate::point::lemma_sq_nonneg(grid.service_radius as int);
                    assert(cover_set(grid.towers_set(), c, grid.service_radius).contains(c));
                    assert(grid.cities@[i as int].links@.to_set().contains(c));
                    assert(grid.cities@[i as int].links@.contains(c));
                    assert(false);
                }
            }
            let res = grid.add_tower(c.x, c.y);
            proof {
                assert(res is Ok);
                lemma_coverage_monotone(mid, *grid);
                // The city at index i is now covered by the tower at its own
                // position.
                assert(dist_sq(grid.cities@[i as int].pos, c) == 0) by {
                    assert(sq(0) == 0);
                }
                crate::point::lemma_sq_nonneg(grid.service_radius as int);
                assert(grid.towers_set().contains(c));
                assert(cover_set(
                    grid.towers_set(),
                    grid.cities@[i as int].pos,
                    grid.service_radius,
                ).contains(c));
                assert(grid.cities@[i as int].links@.to_set().contains(c));
                assert(grid.cities@[i as int].links@.contains(c));
                if grid.cities@[i as int].links@.len() == 0 {
                    assert(false);
                }
                assert(mid.towers_set().insert(c).subset_of(grid.towers_set()));
                // The added tower stands at a stored city position.
                assert(pre.city_set().contains(c)) by {
                    assert(pre.cities@[i as int].pos == c);
                    assert(has_key(pre.cities@, c));
                }
            }
        }
        i += 1;
    }
}

/// One greedy round. When some city is still uncovered, commits, among all
/// grid points, one that covers a maximal number of still-uncovered cities,
/// breaking ties by the fewest towers within the penalty radius (the first
/// such candidate found wins), and returns the committed point. Returns
/// `None` without changing anything when every city is covered.
pub fn greedy_step(grid: &mut Grid, cache: &CoverageCache) -> (r: Option<Point>)
    requires
        old(grid).wf(),
        cache.wf(),
        cache.dimension == old(grid).dimension,
        cache.radius == old(grid).service_radius,
    ensures
        final(grid).wf(),
        final(grid).same_params(old(grid)),
        final(grid).cities@.len() == old(grid).cities@.len(),
        forall|i: int|
            0 <= i < old(grid).cities@.len() ==> (#[trigger] final(grid).cities@[i]).pos == old(
                grid,
            ).cities@[i].pos,
        final(grid).city_set() == old(grid).city_set(),
        match r {
            None => *final(grid) == *old(grid) && old(grid).spec_is_valid(),
            Some(q) => {
                &&& on_grid(q, old(grid).dimension)
                &&& !old(grid).spec_has_tower(q)
                &&& final(grid).towers_set() == old(grid).towers_set().insert(q)
                &&& count_newly_covered(old(grid).cities@, q, old(grid).service_radius) >= 1
                &&& forall|p: Point|
                    on_grid(p, old(grid).dimension) ==> count_newly_covered(
                        old(grid).cities@,
                        p,
                        old(grid).service_radius,
                    ) <= count_newly_covered(old(grid).cities@, q, old(grid).service_radius)
                &&& forall|p: Point|
                    on_grid(p, old(grid).dimension) && count_newly_covered(
                        old(grid).cities@,
                        p,
                        old(grid).service_radius,
                    ) == count_newly_covered(old(grid).cities@, q, old(grid).service_radius)
                        ==> count_towers_in_range(
                        old(grid).towers@,
                        q,
                        old(grid).penalty_radius,
                        old(grid).dimension,
                    ) <= count_towers_in_range(
                        old(grid).towers@,
                        p,
                        old(grid).penalty_radius,
                        old(grid).dimension,
                    )
                &&& count_uncovered(final(grid).cities@) < count_uncovered(old(grid).cities@)
            },
        },
{
    let ghost pre = *grid;
    let uncovered = collect_uncovered(grid);
    if uncovered.len() == 0 {
        return None;
    }
    // Start from the first uncovered city's own position, which covers it.
    let c0 = uncovered[0];
    proof {
        let i0 = choose|i0: int|
            0 <= i0 < grid.cities@.len() && (#[trigger] grid.cities@[i0]).pos == c0
                && grid.cities@[i0].links@.len() == 0;
        assert(on_grid(c0, grid.dimension));
        assert(dist_sq(grid.cities@[i0].pos, c0) == 0) by {
            assert(sq(0) == 0);
        }
        crate::point::lemma_sq_nonneg(grid.service_radius as int);
        lemma_count_newly_witness(grid.cities@, c0, grid.service_radius);
    }
    let mut best = c0;
    let mut best_count = count_covered(grid, c0);
    let mut best_peers = count_towers_within(grid, c0);
    // Scan every point within the service radius of any uncovered city:
    // those are all the points whose newly-covered count is positive.
    let mut ci: usize = 0;
    while ci < uncovered.len()
        invariant
            ci <= uncovered@.len(),
            *grid == pre,
            grid.wf(),
            cache.wf(),
            cache.dimension == grid.dimension,
            cache.radius == grid.service_radius,
            forall|k: int|
                #![trigger uncovered@[k]]
                0 <= k < uncovered@.len() ==> exists|i0: int|
                    0 <= i0 < grid.cities@.len() && (#[trigger] grid.cities@[i0]).pos
                        == uncovered@[k] && grid.cities@[i0].links@.len() == 0,
            on_grid(best, grid.dimension),
            exists|i0: int|
                0 <= i0 < grid.cities@.len() && (#[trigger] grid.cities@[i0]).links@.len() == 0
                    && dist_sq(grid.cities@[i0].pos, best) <= sq(grid.service_radius as int),
            best_count == count_newly_covered(grid.cities@, best, grid.service_radius),
            best_count >= 1,
            best_peers == count_towers_in_range(
                grid.towers@,
                best,
                grid.penalty_radius,
                grid.dimension,
            ),
            forall|k: int, x: Point|
                #![trigger points_in_range(uncovered@[k], grid.service_radius, grid.dimension).contains(x)]
                0 <= k < ci && points_in_range(
                    uncovered@[k],
                    grid.service_radius,
                    grid.dimension,
                ).contains(x) ==> count_newly_covered(grid.cities@, x, grid.service_radius)
                    < best_count || (count_newly_covered(grid.cities@, x, grid.service_radius)
                    == best_count && best_peers <= count_towers_in_range(
                    grid.towers@,
                    x,
                    grid.penalty_radius,
                    grid.dimension,
                )),
        decreases uncovered@.len() - ci,
    {
        let c = uncovered[ci];
        proof {
            let i0 = choose|i0: int|
                0 <= i0 < grid.cities@.len() && (#[trigger] grid.cities@[i0]).pos == c
                    && grid.cities@[i0].links@.len() == 0;
            assert(on_grid(c, grid.dimension));
        }
        let pts = cache.points_within(c);
        let mut pi: usize = 0;
        while pi < pts.len()
            invariant
                pi <= pts@.len(),
                ci < uncovered@.len(),
                *grid == pre,
                grid.wf(),
                forall|x: Point|
                    pts@.contains(x) <==> points_in_range(
                        uncovered@[ci as int],
                        grid.service_radius,
                        grid.dimension,
                    ).contains(x),
                on_grid(best, grid.dimension),
                exists|i0: int|
                    0 <= i0 < grid.cities@.len() && (#[trigger] grid.cities@[i0]).links@.len() == 0
                        && dist_sq(grid.cities@[i0].pos, best) <= sq(grid.service_radius as int),
                best_count == count_newly_covered(grid.cities@, best, grid.service_radius),
                best_count >= 1,
                best_peers == count_towers_in_range(
                    grid.towers@,
                    best,
                    grid.penalty_radius,
                    grid.dimension,
                ),
                forall|k: int, x: Point|
                    #![trigger points_in_range(uncovered@[k], grid.service_radius, grid.dimension).contains(x)]
                    0 <= k < ci && points_in_range(
                        uncovered@[k],
                        grid.service_radius,
                        grid.dimension,
                    ).contains(x) ==> count_newly_covered(grid.cities@, x, grid.service_radius)
                        < best_count || (count_newly_covered(grid.cities@, x, grid.service_radius)
                        == best_count && best_peers <= count_towers_in_range(
                        grid.towers@,
                        x,
                        grid.penalty_radius,
                        grid.dimension,
                    )),
                forall|m: int|
                    0 <= m < pi ==> count_newly_covered(
                        grid.cities@,
                        #[trigger] pts@[m],
                        grid.service_radius,
                    ) < best_count || (count_newly_covered(
                        grid.cities@,
                        pts@[m],
                        grid.service_radius,
                    ) == best_count && best_peers <= count_towers_in_range(
                        grid.towers@,
                        pts@[m],
                        grid.penalty_radius,
                        grid.dimension,
                    )),
            decreases pts@.len() - pi,
        {
            let x = pts[pi];
            proof {
                assert(pts@.contains(x));
                assert(on_grid(x, grid.dimension));
            }
            let cnt = count_covered(grid, x);
            if cnt > best_count {
                let peers = count_towers_within(grid, x);
                proof {
                    // x covers some uncovered city, so it can stand for best.
                    lemma_count_newly_witness(grid.cities@, x, grid.service_radius);
                }
                best = x;
                best_count = cnt;
                best_peers = peers;
            } else if cnt == best_count {
                let peers = count_towers_within(grid, x);
                if peers < best_peers {
                    proof {
                        lemma_count_newly_witness(grid.cities@, x, grid.service_radius);
                    }
                    best = x;
                    best_peers = peers;
                }
            }
            pi += 1;
        }
        proof {
            assert forall|x: Point|
                points_in_range(
                    uncovered@[ci as int],
                    grid.service_radius,
                    grid.dimension,
                ).contains(x) implies count_newly_covered(grid.cities@, x, grid.service_radius)
                < best_count || (count_newly_covered(grid.cities@, x, grid.service_radius)
                == best_count && best_peers <= count_towers_in_range(
                grid.towers@,
                x,
                grid.penalty_radius,
                grid.dimension,
            )) by {
                assert(pts@.contains(x));
                let m = choose|m: int| 0 <= m < pts@.len() && pts@[m] == x;
            }
        }
        ci += 1;
    }
    let q = best;
    proof {
        // q is maximal over all grid points: any point with a positive count
        // covers some uncovered city, whose position was scanned.
        assert forall|p: Point| on_grid(p, pre.dimension) implies count_newly_covered(
            pre.cities@,
            p,
            pre.service_radius,
        ) <= best_count by {
            lemma_count_newly_witness(pre.cities@, p, pre.service_radius);
            if count_newly_covered(pre.cities@, p, pre.service_radius) >= 1 {
                let i = choose|i: int|
                    0 <= i < pre.cities@.len() && (#[trigger] pre.cities@[i]).links@.len() == 0
                        && dist_sq(pre.cities@[i].pos, p) <= sq(pre.service_radius as int);
                assert(uncovered@.contains(pre.cities@[i].pos));
                let k = choose|k: int|
                    0 <= k < uncovered@.len() && uncovered@[k] == pre.cities@[i].pos;
                assert(points_in_range(uncovered@[k], pre.service_radius, pre.dimension).contains(
                    p,
                ));
            }
        }
        assert forall|p: Point|
            on_grid(p, pre.dimension) && count_newly_covered(pre.cities@, p, pre.service_radius)
                == best_count implies count_towers_in_range(
            pre.towers@,
            q,
            pre.penalty_radius,
            pre.dimension,
        ) <= count_towers_in_range(pre.towers@, p, pre.penalty_radius, pre.dimension) by {
            lemma_count_newly_witness(pre.cities@, p, pre.service_radius);
            let i = choose|i: int|
                0 <= i < pre.cities@.len() && (#[trigger] pre.cities@[i]).links@.len() == 0
                    && dist_sq(pre.cities@[i].pos, p) <= sq(pre.service_radius as int);
            assert(uncovered@.contains(pre.cities@[i].pos));
            let k = choose|k: int|
                0 <= k < uncovered@.len() && uncovered@[k] == pre.cities@[i].pos;
            assert(points_in_range(uncovered@[k], pre.service_radius, pre.dimension).contains(p));
        }
        // No tower stands at q, since q covers a still-uncovered city.
        let wi = choose|i0: int|
            0 <= i0 < grid.cities@.len() && (#[trigger] grid.cities@[i0]).links@.len() == 0
                && dist_sq(grid.cities@[i0].pos, q) <= sq(grid.service_radius as int);
        if grid.spec_has_tower(q) {
            assert(cover_set(grid.towers_set(), grid.cities@[wi].pos, grid.service_radius).contains(
                q,
            ));
            assert(grid.cities@[wi].links@.to_set().contains(q));
            assert(grid.cities@[wi].links@.contains(q));
            assert(false);
        }
    }
    let ghost wi = choose|i0: int|
        0 <= i0 < grid.cities@.len() && (#[trigger] grid.cities@[i0]).links@.len() == 0
            && dist_sq(grid.cities@[i0].pos, q) <= sq(grid.service_radius as int);
    let res = grid.add_tower(q.x, q.y);
    proof {
        assert(res is Ok);
        lemma_coverage_monotone(pre, *grid);
        // The witness city is now covered.
        assert(grid.towers_set().contains(q));
        assert(cover_set(grid.towers_set(), grid.cities@[wi].pos, grid.service_radius).contains(q));
        assert(grid.cities@[wi].links@.to_set().contains(q));
        assert(grid.cities@[wi].links@.contains(q));
        if grid.cities@[wi].links@.len() == 0 {
            assert(false);
        }
        assert forall|i: int|
            0 <= i < grid.cities@.len() && (#[trigger] grid.cities@[i]).links@.len()
                == 0 implies (#[trigger] pre.cities@[i]).links@.len() == 0 by {
            if pre.cities@[i].links@.len() > 0 {
                assert(grid.cities@[i].links@.len() > 0);
            }
        }
        lemma_count_uncovered_decrease(pre.cities@, grid.cities@, wi);
    }
    Some(q)
}

/// Greedy constructor: repeatedly commits, among the points that cover the
/// most still-uncovered cities, one with the fewest towers within the
/// penalty radius (see [`greedy_step`] for the per-round contract), until
/// every city is covered. Terminates because every committed point covers at
/// least one previously uncovered city.
pub fn greedy(grid: &mut Grid, cache: &CoverageCache)
    requires
        old(grid).wf(),
        cache.wf(),
        cache.dimension == old(grid).dimension,
        cache.radius == old(grid).service_radius,
    ensures
        final(grid).wf(),
        final(grid).same_params(old(grid)),
        final(grid).cities@.len() == old(grid).cities@.len(),
        forall|i: int|
            0 <= i < old(grid).cities@.len() ==> (#[trigger] final(grid).cities@[i]).pos == old(
                grid,
            ).cities@[i].pos,
        final(grid).city_set() == old(grid).city_set(),
        final(grid).spec_is_valid(),
        old(grid).towers_set().subset_of(final(grid).towers_set()),
{
    let ghost pre = *grid;
    let mut done = false;
    while !done
        invariant
            grid.wf(),
            grid.same_params(&pre),
            cache.wf(),
            cache.dimension == pre.dimension,
            cache.radius == pre.service_radius,
            grid.cities@.len() == pre.cities@.len(),
            forall|k: int|
                0 <= k < pre.cities@.len() ==> (#[trigger] grid.cities@[k]).pos
                    == pre.cities@[k].pos,
            grid.city_set() == pre.city_set(),
            pre.towers_set().subset_of(grid.towers_set()),
            done ==> grid.spec_is_valid(),
        decreases count_uncovered(grid.cities@), (if done {
            0int
        } else {
            1int
        }),
    {
        let ghost mid = *grid;
        match greedy_step(grid, cache) {
            None => {
                done = true;
            },
            Some(q) => {
                proof {
                    assert(mid.towers_set().insert(q).subset_of(grid.towers_set()));
                }
            },
        }
    }
}

/// Whether `post` is the tower set `pre` with exactly one tower relocated by
/// at most `move_radius`, to a free in-bounds cell.
pub open spec fn one_relocation(
    pre: Set<Point>,
    post: Set<Point>,
    move_radius: u8,
    dim: u8,
) -> bool {
    exists|t: Point, u: Point|
        pre.contains(t) && !pre.contains(u) && on_grid(u, dim) && dist_sq(t, u) <= sq(
            move_radius as int,
        ) && post == pre.remove(t).insert(u)
}

/// Tries to relocate one randomly chosen tower to a random free location
/// within `move_radius` of it; a relocation that breaks validity is undone
/// and retried from the unchanged state, until the grid is valid or the try
/// budget is spent. On success the tower set is the old one, or the old one
/// with exactly one tower relocated; on failure it is restored.
pub fn neighbor_one_tower(grid: &mut Grid, move_radius: u8, max_tries: usize) -> (ok: bool)
    requires
        old(grid).wf(),
    ensures
        final(grid).wf(),
        final(grid).same_params(old(grid)),
        final(grid).cities@.len() == old(grid).cities@.len(),
        forall|i: int|
            0 <= i < old(grid).cities@.len() ==> (#[trigger] final(grid).cities@[i]).pos == old(
                grid,
            ).cities@[i].pos,
        final(grid).city_set() == old(grid).city_set(),
        final(grid).towers@.len() == old(grid).towers@.len(),
        old(grid).towers@.len() == 0 ==> *final(grid) == *old(grid) && ok == old(
            grid,
        ).spec_is_valid(),
        max_tries == 0 && old(grid).towers@.len() > 0 ==> !ok && *final(grid) == *old(grid),
        !ok ==> final(grid).towers_set() == old(grid).towers_set() && final(grid).spec_is_valid()
            == old(grid).spec_is_valid(),
        ok ==> final(grid).spec_is_valid(),
        ok ==> final(grid).towers_set() == old(grid).towers_set() || one_relocation(
            old(grid).towers_set(),
            final(grid).towers_set(),
            move_radius,
            old(grid).dimension,
        ),
{
    let ghost pre = *grid;
    if grid.get_towers_ref().len() == 0 {
        return grid.is_valid();
    }
    if max_tries == 0 {
        return false;
    }
    let mut tries: usize = 0;
    while tries < max_tries
        invariant
            tries <= max_tries,
            pre == *old(grid),
            pre.wf(),
            grid.wf(),
            grid.same_params(&pre),
            grid.cities@.len() == pre.cities@.len(),
            forall|i: int|
                0 <= i < pre.cities@.len() ==> (#[trigger] grid.cities@[i]).pos
                    == pre.cities@[i].pos,
            grid.city_set() == pre.city_set(),
            grid.towers@.len() == pre.towers@.len(),
            grid.towers@.len() > 0,
            grid.towers_set() == pre.towers_set(),
            grid.spec_is_valid() == pre.spec_is_valid(),
        decreases max_tries - tries,
    {
        let ti = rand_index(grid.get_towers_ref().len());
        let t = grid.get_towers_ref()[ti].pos;
        proof {
            assert(grid.spec_has_tower(t));
            assert(on_grid(t, grid.dimension));
        }
        let cands = Point::points_within_naive(t, move_radius, grid.dimension());
        proof {
            assert(dist_sq(t, t) == 0) by {
                assert(sq(0) == 0);
            }
            crate::point::lemma_sq_nonneg(move_radius as int);
            assert(points_in_range(t, move_radius, grid.dimension).contains(t));
            assert(cands@.contains(t));
            if cands@.len() == 0 {
                assert(false);
            }
        }
        let u = cands[rand_index(cands.len())];
        proof {
            assert(cands@.contains(u));
            assert(on_grid(u, grid.dimension));
        }
        if !grid.is_tower_present(u) {
            let ghost before = *grid;
            let mr = grid.move_tower(t, u);
            proof {
                assert(mr is Ok);
            }
            if grid.is_valid() {
                proof {
                    assert(grid.towers_set() == pre.towers_set().remove(t).insert(u));
                    assert(one_relocation(
                        pre.towers_set(),
                        grid.towers_set(),
                        move_radius,
                        pre.dimension,
                    ));
                }
                return true;
            }
            // The relocation broke validity: undo it and retry from the
            // unchanged state.
            proof {
                assert(grid.spec_has_tower(u)) by {
                    assert(grid.towers_set().contains(u));
                }
                if grid.spec_has_tower(t) {
                    assert(before.towers_set().remove(t).insert(u).contains(t));
                    assert(false);
                }
            }
            let back = grid.move_tower(u, t);
            proof {
                assert(back is Ok);
                assert(grid.towers_set() =~= pre.towers_set());
                lemma_validity_determined(pre, *grid);
            }
        } else {
            if grid.is_valid() {
                return true;
            }
        }
        tries += 1;
    }
    false
}

/// Removes up to `remove_count` randomly chosen towers, then walks the cities
/// once and covers every city left uncovered by placing a tower at a random
/// grid point within the service radius of it. The result is always valid.
pub fn perturb_and_recover(grid: &mut Grid, remove_count: usize)
    requires
        old(grid).wf(),
    ensures
        final(grid).wf(),
        final(grid).same_params(old(grid)),
        final(grid).cities@.len() == old(grid).cities@.len(),
        forall|i: int|
            0 <= i < old(grid).cities@.len() ==> (#[trigger] final(grid).cities@[i]).pos == old(
                grid,
            ).cities@[i].pos,
        final(grid).city_set() == old(grid).city_set(),
        final(grid).spec_is_valid(),
{
    let ghost pre = *grid;
    let mut r: usize = 0;
    while r < remove_count
        invariant
            r <= remove_count,
            grid.wf(),
            grid.same_params(&pre),
            grid.cities@.len() == pre.cities@.len(),
            forall|i: int|
                0 <= i < pre.cities@.len() ==> (#[trigger] grid.cities@[i]).pos
                    == pre.cities@[i].pos,
            grid.city_set() == pre.city_set(),
        decreases remove_count - r,
    {
        if grid.get_towers_ref().len() == 0 {
            break ;
        }
        let ti = rand_index(grid.get_towers_ref().len());
        let t = grid.get_towers_ref()[ti].pos;
        proof {
            assert(grid.spec_has_tower(t));
            assert(on_grid(t, grid.dimension));
        }
        let rr = grid.remove_tower(t.x, t.y);
        proof {
            assert(rr is Ok);
        }
        r += 1;
    }
    let ghost mid = *grid;
    let n = grid.get_cities_ref().len();
    let mut i: usize = 0;
    while i < n
        invariant
            i <= n,
            n == grid.cities@.len(),
            grid.wf(),
            grid.same_params(&pre),
            grid.cities@.len() == pre.cities@.len(),
            forall|k: int|
                0 <= k < pre.cities@.len() ==> (#[trigger] grid.cities@[k]).pos
                    == pre.cities@[k].pos,
            grid.city_set() == pre.city_set(),
            forall|k: int| 0 <= k < i ==> (#[trigger] grid.cities@[k]).links@.len() > 0,
        decreases n - i,
    {
        let ghost step = *grid;
        if grid.get_cities_ref()[i].links.len() == 0 {
            let c = grid.get_cities_ref()[i].pos;
            proof {
                assert(on_grid(c, grid.dimension));
                assert(dist_sq(c, c) == 0) by {
                    assert(sq(0) == 0);
                }
                crate::point::lemma_sq_nonneg(grid.service_radius as int);
                assert(points_in_range(c, grid.service_radius, grid.dimension).contains(c));
            }
            let cands = Point::points_within_naive(c, grid.service_radius(), grid.dimension());
            proof {
                assert(cands@.contains(c));
                if cands@.len() == 0 {
                    assert(false);
                }
            }
            let q = cands[rand_index(cands.len())];
            proof {
                assert(cands@.contains(q));
                assert(on_grid(q, grid.dimension));
                // q lies within the service radius of the uncovered city, so
                // no tower stands there yet.
                crate::point::lemma_dist_symmetric(c, q);
                if grid.spec_has_tower(q) {
                    assert(cover_set(grid.towers_set(), c, grid.service_radius).contains(q));
                    assert(grid.cities@[i as int].links@.to_set().contains(q));
                    assert(grid.cities@[i as int].links@.contains(q));
                    assert(false);
                }
            }
            let res = grid.add_tower(q.x, q.y);
            proof {
                assert(res is Ok);
                lemma_coverage_monotone(step, *grid);
                assert(grid.towers_set().contains(q));
                assert(cover_set(grid.towers_set(), grid.cities@[i as int].pos, grid.service_radius).contains(q));
                assert(grid.cities@[i as int].links@.to_set().contains(q));
                assert(grid.cities@[i as int].links@.contains(q));
                if grid.cities@[i as int].links@.len() == 0 {
                    assert(false);
                }
                assert(step.towers_set().insert(q).subset_of(grid.towers_set()));
            }
        }
        i += 1;
    }
}

/// One annealing neighbor with the redundancy pass applied: relocates a
/// random tower until the grid is valid again, then removes every redundant
/// tower. On success the result is valid and has no redundant towers.
pub fn neighbor_remove_towers(grid: &mut Grid, move_radius: u8, max_tries: usize) -> (ok: bool)
    requires
        old(grid).wf(),
    ensures
        final(grid).wf(),
        final(grid).same_params(old(grid)),
        final(grid).cities@.len() == old(grid).cities@.len(),
        forall|i: int|
            0 <= i < old(grid).cities@.len() ==> (#[trigger] final(grid).cities@[i]).pos == old(
                grid,
            ).cities@[i].pos,
        final(grid).city_set() == old(grid).city_set(),
        old(grid).towers@.len() == 0 ==> final(grid).towers_set() == old(grid).towers_set() && ok
            == old(grid).spec_is_valid(),
        max_tries == 0 && old(grid).towers@.len() > 0 ==> !ok && *final(grid) == *old(grid),
        !ok ==> final(grid).towers_set() == old(grid).towers_set() && final(grid).spec_is_valid()
            == old(grid).spec_is_valid(),
        ok ==> final(grid).spec_is_valid(),
        ok ==> forall|p: Point|
            final(grid).towers_set().contains(p) ==> spec_essential(*final(grid), p),
        // The result is a pruned single-relocation neighbor: its towers are a
        // subset of the old tower set, or of the old set with exactly one
        // tower relocated.
        ok ==> final(grid).towers_set().subset_of(old(grid).towers_set()) || exists|s: Set<Point>|
            #[trigger] one_relocation(old(grid).towers_set(), s, move_radius, old(grid).dimension)
                && final(grid).towers_set().subset_of(s),
{
    let ok = neighbor_one_tower(grid, move_radius, max_tries);
    if !ok {
        return false;
    }
    let ghost mid = *grid;
    remove_redundant_towers(grid);
    proof {
        if mid.towers_set() != old(grid).towers_set() {
            assert(one_relocation(
                old(grid).towers_set(),
                mid.towers_set(),
                move_radius,
                old(grid).dimension,
            ));
            assert(grid.towers_set().subset_of(mid.towers_set()));
        }
        if old(grid).towers@.len() == 0 {
            assert forall|p: Point| !old(grid).towers_set().contains(p) by {
                if has_key(old(grid).towers@, p) {
                    let m = choose|m: int|
                        0 <= m < old(grid).towers@.len() && old(grid).towers@[m].pos == p;
                    assert(false);
                }
            }
            assert(mid.towers_set() == old(grid).towers_set());
            assert(grid.towers_set().subset_of(mid.towers_set()));
            assert(grid.towers_set() =~= old(grid).towers_set());
        }
    }
    true
}

} // verus!
