use tower_grid::grid::{Grid, GridError};
use tower_grid::point::Point;

fn penalty(g: &Grid) -> f64 {
    g.peer_counts().iter().map(|&c| 170.0 * (0.17 * c as f64).exp()).sum()
}

fn tower_points(g: &Grid) -> Vec<Point> {
    g.get_towers_ref().iter().map(|e| e.pos).collect()
}

#[test]
fn scenario_single_tower_penalty() {
    // dimension=3, service_radius=3, penalty_radius=3, one city at (1,1).
    let mut g = Grid::new(3, 3, 3);
    g.add_city(1, 1).unwrap();
    g.add_tower(1, 1).unwrap();
    assert!(g.is_valid());
    assert_eq!(g.peer_counts(), vec![0]);
    assert_eq!(penalty(&g), 170.0 * (0.0f64).exp());
    assert_eq!(penalty(&g), 170.0);

    // A second tower within the penalty radius raises each peer count to 1.
    g.add_tower(1, 2).unwrap();
    assert_eq!(g.peer_counts(), vec![1, 1]);
    let expected = 2.0 * 170.0 * (0.17f64).exp();
    assert_eq!(penalty(&g), expected);
    assert!((penalty(&g) - 403.0).abs() < 0.01);
}

#[test]
fn scenario_remove_only_cover() {
    // Removing the only tower covering a sole city makes the grid invalid;
    // re-adding it restores validity.
    let mut g = Grid::new(5, 2, 2);
    g.add_city(2, 2).unwrap();
    g.add_tower(3, 2).unwrap();
    assert!(g.is_valid());
    g.remove_tower(3, 2).unwrap();
    assert!(!g.is_valid());
    g.add_tower(3, 2).unwrap();
    assert!(g.is_valid());
}

#[test]
fn add_remove_round_trip_restores_state() {
    let mut g = Grid::new(10, 3, 4);
    g.add_city(1, 1).unwrap();
    g.add_city(5, 5).unwrap();
    g.add_tower(1, 2).unwrap();
    g.add_tower(4, 5).unwrap();
    let towers_before: Vec<(Point, Vec<Point>)> =
        g.get_towers_ref().iter().map(|e| (e.pos, e.links.clone())).collect();
    let cities_before: Vec<(Point, Vec<Point>)> =
        g.get_cities_ref().iter().map(|e| (e.pos, e.links.clone())).collect();

    g.add_tower(2, 2).unwrap();
    g.remove_tower(2, 2).unwrap();

    let towers_after: Vec<(Point, Vec<Point>)> =
        g.get_towers_ref().iter().map(|e| (e.pos, e.links.clone())).collect();
    let cities_after: Vec<(Point, Vec<Point>)> =
        g.get_cities_ref().iter().map(|e| (e.pos, e.links.clone())).collect();
    assert_eq!(towers_before, towers_after);
    assert_eq!(cities_before, cities_after);
}

#[test]
fn peer_sets_stay_symmetric_and_match_recomputation() {
    let mut g = Grid::new(12, 3, 4);
    g.add_city(0, 0).unwrap();
    let spots = [(0, 0), (2, 3), (3, 1), (6, 2), (7, 7), (4, 4)];
    for &(x, y) in spots.iter() {
        g.add_tower(x, y).unwrap();
        // Symmetry after every operation.
        for e in g.get_towers_ref() {
            for q in e.links.iter() {
                let peer = g
                    .get_towers_ref()
                    .iter()
                    .find(|f| f.pos == *q)
                    .expect("peer link points at a stored tower");
                assert!(peer.links.contains(&e.pos));
            }
        }
        // The incremental peer sets equal a recomputation from scratch.
        for e in g.get_towers_ref() {
            let mut recomputed: Vec<Point> = Vec::new();
            for f in g.get_towers_ref() {
                if f.pos != e.pos {
                    let dx = (e.pos.x - f.pos.x) as i64;
                    let dy = (e.pos.y - f.pos.y) as i64;
                    if dx * dx + dy * dy <= 16 {
                        recomputed.push(f.pos);
                    }
                }
            }
            assert_eq!(e.links.len(), recomputed.len());
            for q in recomputed {
                assert!(e.links.contains(&q));
            }
        }
    }
    g.remove_tower(3, 1).unwrap();
    for e in g.get_towers_ref() {
        assert!(!e.links.contains(&Point { x: 3, y: 1 }));
    }
}

#[test]
fn empty_city_set_is_valid() {
    let g = Grid::new(4, 1, 1);
    assert!(g.is_valid());
    let mut g2 = Grid::new(4, 1, 1);
    g2.add_city(0, 0).unwrap();
    assert!(!g2.is_valid());
}

#[test]
fn add_city_errors() {
    let mut g = Grid::new(4, 1, 1);
    assert_eq!(g.add_city(5, 0), Err(GridError::OutOfBounds));
    assert_eq!(g.add_city(0, -1), Err(GridError::OutOfBounds));
    g.add_city(1, 1).unwrap();
    assert_eq!(g.add_city(1, 1), Err(GridError::DuplicateEntity));
    g.add_tower(0, 0).unwrap();
    assert_eq!(g.add_city(2, 2), Err(GridError::InvalidState));
}

#[test]
fn add_tower_errors() {
    let mut g = Grid::new(4, 1, 1);
    assert_eq!(g.add_tower(4, 0), Err(GridError::OutOfBounds));
    g.add_tower(1, 1).unwrap();
    assert_eq!(g.add_tower(1, 1), Err(GridError::DuplicateEntity));
}

#[test]
fn remove_tower_errors() {
    let mut g = Grid::new(4, 1, 1);
    assert_eq!(g.remove_tower(9, 9), Err(GridError::OutOfBounds));
    assert_eq!(g.remove_tower(2, 2), Err(GridError::NotFound));
}

#[test]
fn move_tower_behaviour() {
    let mut g = Grid::new(6, 2, 2);
    g.add_city(1, 1).unwrap();
    g.add_tower(1, 1).unwrap();
    g.add_tower(4, 4).unwrap();
    assert_eq!(
        g.move_tower(Point { x: 1, y: 1 }, Point { x: 9, y: 9 }),
        Err(GridError::OutOfBounds)
    );
    assert_eq!(
        g.move_tower(Point { x: 0, y: 0 }, Point { x: 2, y: 2 }),
        Err(GridError::NotFound)
    );
    assert_eq!(
        g.move_tower(Point { x: 1, y: 1 }, Point { x: 4, y: 4 }),
        Err(GridError::DuplicateEntity)
    );
    g.move_tower(Point { x: 1, y: 1 }, Point { x: 2, y: 1 }).unwrap();
    assert!(g.is_tower_present(Point { x: 2, y: 1 }));
    assert!(!g.is_tower_present(Point { x: 1, y: 1 }));
    assert!(g.is_valid());
}

#[test]
fn remove_all_and_replace_all() {
    let mut g = Grid::new(8, 2, 3);
    g.add_city(3, 3).unwrap();
    g.add_tower(3, 4).unwrap();
    g.add_tower(5, 5).unwrap();
    g.remove_all_towers();
    assert_eq!(g.get_towers_ref().len(), 0);
    assert!(!g.is_valid());
    assert_eq!(g.get_cities_ref()[0].links.len(), 0);

    let towers = vec![Point { x: 2, y: 3 }, Point { x: 7, y: 0 }];
    g.replace_all_towers(&towers).unwrap();
    let mut placed = tower_points(&g);
    placed.sort_by_key(|p| (p.x, p.y));
    assert_eq!(placed, vec![Point { x: 2, y: 3 }, Point { x: 7, y: 0 }]);
    assert!(g.is_valid());

    let dup = vec![Point { x: 1, y: 1 }, Point { x: 1, y: 1 }];
    assert_eq!(g.replace_all_towers(&dup), Err(GridError::DuplicateEntity));
    let oob = vec![Point { x: 8, y: 0 }];
    assert_eq!(g.replace_all_towers(&oob), Err(GridError::OutOfBounds));
    // A failed replacement leaves the previous configuration in place.
    let mut placed = tower_points(&g);
    placed.sort_by_key(|p| (p.x, p.y));
    assert_eq!(placed, vec![Point { x: 2, y: 3 }, Point { x: 7, y: 0 }]);
}

#[test]
fn clone_and_getters() {
    let mut g = Grid::new(9, 2, 3);
    g.set_dimension(10);
    g.set_service_radius(3);
    g.set_penalty_radius(4);
    assert_eq!(g.dimension(), 10);
    assert_eq!(g.service_radius(), 3);
    assert_eq!(g.penalty_radius(), 4);
    g.add_city(1, 1).unwrap();
    g.add_tower(2, 2).unwrap();
    let c = g.clone();
    assert_eq!(c.dimension(), 10);
    assert_eq!(c.is_valid(), g.is_valid());
    assert_eq!(c.peer_counts(), g.peer_counts());
    assert_eq!(tower_points(&c), tower_points(&g));
    assert!(g.is_on_grid(9, 9));
    assert!(!g.is_on_grid(10, 0));
    let d = Grid::new_dummy_grid();
    assert_eq!(d.dimension(), 0);
    assert!(d.is_valid());
}

#[test]
fn boundary_coordinates_on_largest_grid() {
    let mut g = Grid::new(255, 3, 3);
    g.add_city(254, 254).unwrap();
    g.add_city(0, 0).unwrap();
    g.add_tower(254, 252).unwrap();
    g.add_tower(0, 1).unwrap();
    assert!(g.is_valid());
    assert_eq!(g.add_tower(255, 0), Err(GridError::OutOfBounds));
    let corner = Point::points_within_naive(Point { x: 254, y: 254 }, 3, 255);
    assert!(corner.contains(&Point { x: 254, y: 254 }));
    for p in corner.iter() {
        assert!(p.x < 255 && p.y < 255);
    }
}

#[test]
fn tower_at_city_covers_it() {
    // A tower placed exactly on a city covers it, whatever the radius.
    let mut g = Grid::new(3, 0, 0);
    g.add_city(2, 2).unwrap();
    g.add_tower(2, 2).unwrap();
    assert!(g.is_valid());
}
