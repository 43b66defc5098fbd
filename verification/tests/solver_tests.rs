use tower_grid::cache::{setup_persistence, CoverageCache, CoverageCaches};
use tower_grid::grid::Grid;
use tower_grid::ilp::GridProblem;
use tower_grid::point::Point;
use tower_grid::solvers::{
    benchmark_greedy, greedy, greedy_step, neighbor_one_tower, neighbor_remove_towers,
    perturb_and_recover, remove_if_redundant, remove_redundant_towers,
};

fn grid_penalty(g: &Grid) -> f64 {
    g.peer_counts().iter().map(|&c| 170.0 * (0.17 * c as f64).exp()).sum()
}

#[test]
fn points_within_naive_basics() {
    // Radius 1 around the centre of a 3x3 grid: the centre and its four
    // axis neighbours.
    let pts = Point::points_within_naive(Point { x: 1, y: 1 }, 1, 3);
    assert_eq!(pts.len(), 5);
    assert!(pts.contains(&Point { x: 1, y: 1 }));
    assert!(pts.contains(&Point { x: 0, y: 1 }));
    assert!(pts.contains(&Point { x: 2, y: 1 }));
    assert!(pts.contains(&Point { x: 1, y: 0 }));
    assert!(pts.contains(&Point { x: 1, y: 2 }));
    for p in pts.iter() {
        assert!(0 <= p.x && p.x < 3 && 0 <= p.y && p.y < 3);
        let dx = (p.x - 1) as i64;
        let dy = (p.y - 1) as i64;
        assert!(dx * dx + dy * dy <= 1);
    }
    // A corner point keeps only the in-bounds part of the disk.
    let corner = Point::points_within_naive(Point { x: 0, y: 0 }, 1, 3);
    assert_eq!(corner.len(), 3);
    // An off-grid centre is itself excluded.
    let off = Point::points_within_naive(Point { x: -2, y: -2 }, 1, 3);
    assert!(off.is_empty());
}

#[test]
fn coverage_cache_matches_naive() {
    let cache = CoverageCache::new(9, 3);
    for x in 0..9 {
        for y in 0..9 {
            let p = Point { x, y };
            let cached = cache.points_within(p);
            let naive = Point::points_within_naive(p, 3, 9);
            assert_eq!(cached.len(), naive.len());
            for q in naive.iter() {
                assert!(cached.contains(q));
            }
        }
    }
}

#[test]
fn cache_lookup_by_pair() {
    let caches = CoverageCaches { caches: vec![CoverageCache::new(7, 2)] };
    let hit = Point::points_within_radius(Point { x: 3, y: 3 }, 2, 7, &caches);
    assert!(hit.is_some());
    assert!(hit.unwrap().contains(&Point { x: 3, y: 3 }));
    let miss = Point::points_within_radius(Point { x: 3, y: 3 }, 5, 7, &caches);
    assert!(miss.is_none());
}

#[test]
fn standard_caches_cover_the_size_classes() {
    let caches = setup_persistence();
    for (dim, r) in [(30u8, 8u8), (50, 10), (100, 14), (30, 3), (50, 3), (100, 3)] {
        let hit = Point::points_within_radius(Point { x: 1, y: 1 }, r, dim, &caches);
        assert!(hit.is_some());
        assert!(hit.unwrap().contains(&Point { x: 1, y: 1 }));
    }
}

#[test]
fn greedy_always_returns_valid_grid() {
    let mut g = Grid::new(12, 3, 4);
    let cities = [(0, 0), (11, 11), (5, 6), (6, 5), (3, 9), (9, 3), (1, 7)];
    for &(x, y) in cities.iter() {
        g.add_city(x, y).unwrap();
    }
    let cache = CoverageCache::new(12, 3);
    greedy(&mut g, &cache);
    assert!(g.is_valid());
    assert!(g.get_towers_ref().len() >= 1);
    assert!(g.get_towers_ref().len() <= cities.len());
}

#[test]
fn greedy_single_city() {
    let mut g = Grid::new(30, 3, 8);
    g.add_city(15, 15).unwrap();
    let cache = CoverageCache::new(30, 3);
    greedy(&mut g, &cache);
    assert!(g.is_valid());
    assert_eq!(g.get_towers_ref().len(), 1);
}

#[test]
fn greedy_step_commits_a_maximal_cover() {
    // Three uncovered cities in a column; only (1,2) covers all three.
    let mut g = Grid::new(9, 1, 3);
    g.add_city(1, 1).unwrap();
    g.add_city(1, 2).unwrap();
    g.add_city(1, 3).unwrap();
    let cache = CoverageCache::new(9, 1);
    let committed = greedy_step(&mut g, &cache);
    assert_eq!(committed, Some(Point { x: 1, y: 2 }));
    assert!(g.is_valid());
    // With every city covered, the next round commits nothing.
    assert_eq!(greedy_step(&mut g, &cache), None);
}

#[test]
fn neighbor_one_tower_relocates_at_most_one() {
    let mut g = Grid::new(8, 2, 3);
    g.add_city(2, 2).unwrap();
    g.add_city(6, 6).unwrap();
    g.add_tower(2, 2).unwrap();
    g.add_tower(6, 6).unwrap();
    let before: Vec<Point> = g.get_towers_ref().iter().map(|e| e.pos).collect();
    let ok = neighbor_one_tower(&mut g, 2, 30);
    let after: Vec<Point> = g.get_towers_ref().iter().map(|e| e.pos).collect();
    assert_eq!(after.len(), before.len());
    let moved = after.iter().filter(|p| !before.contains(p)).count();
    if ok {
        assert!(g.is_valid());
        assert!(moved <= 1);
    } else {
        // On failure the tower set is restored.
        assert_eq!(moved, 0);
    }
}

#[test]
fn benchmark_greedy_covers_all_cities() {
    let mut g = Grid::new(10, 2, 3);
    for &(x, y) in [(0, 0), (9, 9), (4, 4), (5, 4)].iter() {
        g.add_city(x, y).unwrap();
    }
    benchmark_greedy(&mut g);
    assert!(g.is_valid());
    // Every tower the pass placed stands at a city position.
    for e in g.get_towers_ref() {
        assert!(g.get_cities_ref().iter().any(|c| c.pos == e.pos));
    }
}

#[test]
fn redundancy_pass_never_raises_penalty() {
    // A valid grid with an obviously redundant tower.
    let mut g = Grid::new(10, 2, 4);
    g.add_city(2, 2).unwrap();
    g.add_city(7, 7).unwrap();
    g.add_tower(2, 2).unwrap();
    g.add_tower(2, 3).unwrap();
    g.add_tower(7, 7).unwrap();
    assert!(g.is_valid());
    let before = grid_penalty(&g);
    remove_redundant_towers(&mut g);
    let after = grid_penalty(&g);
    assert!(g.is_valid());
    assert!(after <= before);
    assert_eq!(g.get_towers_ref().len(), 2);
    // Every remaining tower is now essential: removing any of them breaks
    // validity.
    let towers: Vec<Point> = g.get_towers_ref().iter().map(|e| e.pos).collect();
    for t in towers {
        g.remove_tower(t.x, t.y).unwrap();
        assert!(!g.is_valid());
        g.add_tower(t.x, t.y).unwrap();
    }
}

#[test]
fn remove_if_redundant_restores_needed_tower() {
    let mut g = Grid::new(6, 1, 2);
    g.add_city(3, 3).unwrap();
    g.add_tower(3, 3).unwrap();
    // The only cover must not be removed.
    assert!(!remove_if_redundant(&mut g, Point { x: 3, y: 3 }));
    assert!(g.is_valid());
    assert!(g.is_tower_present(Point { x: 3, y: 3 }));
    // An absent tower changes nothing.
    assert!(!remove_if_redundant(&mut g, Point { x: 0, y: 0 }));
    // A redundant tower is taken out.
    g.add_tower(3, 4).unwrap();
    assert!(remove_if_redundant(&mut g, Point { x: 3, y: 4 }));
    assert!(g.is_valid());
}

#[test]
fn random_neighbors_keep_the_grid_usable() {
    let mut g = Grid::new(8, 2, 3);
    g.add_city(2, 2).unwrap();
    g.add_city(6, 6).unwrap();
    g.add_tower(2, 2).unwrap();
    g.add_tower(6, 6).unwrap();
    let ok = neighbor_one_tower(&mut g, 2, 50);
    if ok {
        assert!(g.is_valid());
    }
    perturb_and_recover(&mut g, 2);
    assert!(g.is_valid());
    let ok2 = neighbor_remove_towers(&mut g, 2, 50);
    if ok2 {
        assert!(g.is_valid());
    }
}

#[test]
fn ilp_models_encode_the_instance() {
    let mut g = Grid::new(3, 1, 1);
    g.add_city(1, 1).unwrap();
    let m = g.ilp_model(false, 60, 7);
    assert!(!m.exact);
    assert_eq!(m.seed, 7);
    assert_eq!(m.max_time, 60);
    assert_eq!(m.coverage.len(), 1);
    assert_eq!(m.coverage[0].len(), 5);
    assert!(m.coverage[0].contains(&Point { x: 1, y: 1 }));
    assert!(m.penalty_pairs.is_empty());

    let exact = GridProblem::new(2, 1, 1, &vec![Point { x: 0, y: 0 }], 60);
    assert!(exact.exact);
    // Every ordered pair of cells at distance 1 on the 2x2 grid.
    assert_eq!(exact.penalty_pairs.len(), 8);
    for (a, b) in exact.penalty_pairs.iter() {
        assert!(a != b);
        let dx = (a.x - b.x) as i64;
        let dy = (a.y - b.y) as i64;
        assert!(dx * dx + dy * dy <= 1);
        assert!(exact.penalty_pairs.contains(&(*b, *a)));
    }

    let relaxed = GridProblem::new_randomized(4, 1, 2, &vec![Point { x: 3, y: 3 }], 10, 99);
    assert_eq!(relaxed.seed, 99);
    assert_eq!(relaxed.coverage.len(), 1);
    assert!(relaxed.penalty_pairs.is_empty());
}
