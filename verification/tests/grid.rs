use boids::fixed::{clamp_i, div_trunc, floor_div_scale, isqrt};
use boids::grid::SpatialGrid;
use boids::vec2::Vec2F;

#[test]
fn keys_follow_floor_and_clamp() {
    let g = SpatialGrid::new(10);
    assert_eq!(g.get_key(&Vec2F::new(0, 0)), (10, 10));
    assert_eq!(g.get_key(&Vec2F::new(999, -1)), (10, 9));
    assert_eq!(g.get_key(&Vec2F::new(-10_500, 9_999)), (0, 19));
    // coordinates outside the domain clamp onto the boundary cells
    assert_eq!(g.get_key(&Vec2F::new(2_000_000, -2_000_000)), (20, 0));
}

#[test]
fn query_returns_inserted_neighbors() {
    let mut g = SpatialGrid::new(10);
    g.insert(&Vec2F::new(500, 500), 7);
    g.insert(&Vec2F::new(-9_500, 500), 8);
    let v = g.get(&Vec2F::new(0, 0), 1000);
    assert!(v.contains(&7));
    assert!(!v.contains(&8));
}

#[test]
fn query_is_a_superset_of_the_disk() {
    // a handle exactly at distance r from the center is never missed
    let mut g = SpatialGrid::new(10);
    g.insert(&Vec2F::new(1000, 0), 3);
    let v = g.get(&Vec2F::new(0, 0), 1000);
    assert!(v.contains(&3));
}

#[test]
fn update_moves_between_cells() {
    let mut g = SpatialGrid::new(10);
    g.insert(&Vec2F::new(0, 0), 1);
    g.update(&Vec2F::new(0, 0), &Vec2F::new(5_500, 5_500), 1);
    let near_old = g.get(&Vec2F::new(0, 0), 1000);
    assert!(!near_old.contains(&1));
    let near_new = g.get(&Vec2F::new(5_500, 5_500), 1000);
    assert_eq!(near_new, vec![1]);
}

#[test]
fn update_to_same_position_is_a_no_op() {
    let mut g = SpatialGrid::new(10);
    g.insert(&Vec2F::new(250, 250), 4);
    g.insert(&Vec2F::new(750, 750), 5);
    let before = g.get(&Vec2F::new(500, 500), 1000);
    g.update(&Vec2F::new(250, 250), &Vec2F::new(250, 250), 4);
    let after = g.get(&Vec2F::new(500, 500), 1000);
    assert_eq!(before, after);
}

#[test]
fn update_within_one_cell_keeps_contents() {
    let mut g = SpatialGrid::new(10);
    g.insert(&Vec2F::new(100, 100), 9);
    g.update(&Vec2F::new(100, 100), &Vec2F::new(900, 900), 9);
    let v = g.get(&Vec2F::new(500, 500), 1000);
    assert_eq!(v, vec![9]);
}

#[test]
fn truncating_division_rounds_toward_zero() {
    assert_eq!(div_trunc(7, 2), 3);
    assert_eq!(div_trunc(-7, 2), -3);
    assert_eq!(div_trunc(0, 5), 0);
    assert_eq!(div_trunc(-1, 1_000_000), 0);
}

#[test]
fn floor_division_rounds_down() {
    assert_eq!(floor_div_scale(1500), 1);
    assert_eq!(floor_div_scale(-1500), -2);
    assert_eq!(floor_div_scale(-1000), -1);
    assert_eq!(floor_div_scale(-1), -1);
    assert_eq!(floor_div_scale(999), 0);
}

#[test]
fn clamping_saturates() {
    assert_eq!(clamp_i(5, -10, 10), 5);
    assert_eq!(clamp_i(-11, -10, 10), -10);
    assert_eq!(clamp_i(11, -10, 10), 10);
}

#[test]
fn integer_square_root_is_the_floor() {
    assert_eq!(isqrt(0), 0);
    assert_eq!(isqrt(1), 1);
    assert_eq!(isqrt(2), 1);
    assert_eq!(isqrt(3), 1);
    assert_eq!(isqrt(4), 2);
    assert_eq!(isqrt(250_000), 500);
    assert_eq!(isqrt(40_900), 202);
    assert_eq!(isqrt(u128::MAX), u64::MAX);
}
