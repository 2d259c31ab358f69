use boids::flock::{Flock, Params};
use boids::vec2::Vec2F;

fn small_flock() -> Flock {
    // domain [-10, 10]^2, view radius 1.0, border margin 1.0
    Flock::new(10, 1000, 1000, Params::default())
}

#[test]
fn default_params_match_reference_tuning() {
    let p = Params::default();
    assert_eq!(p.sep, 20);
    assert_eq!(p.ali, 200);
    assert_eq!(p.coh, 20);
    assert_eq!(p.speed, 1000);
}

#[test]
fn two_close_agents_cache_each_other() {
    // agents at (0, 0) and (0.5, 0): each caches exactly the other,
    // with offset -/+0.5 on the x axis and squared distance 0.25
    let mut f = small_flock();
    let a = f.spawn(Vec2F::new(0, 0), Vec2F::new(1000, 0));
    let b = f.spawn(Vec2F::new(500, 0), Vec2F::new(1000, 0));
    f.boids_proxcache();
    assert_eq!(f.cache_len(a), 1);
    let ea = f.cache_entry(a, 0);
    assert_eq!(ea.nb, b);
    assert_eq!(ea.diff, Vec2F::new(-500, 0));
    assert_eq!(ea.d, 250_000);
    assert_eq!(f.cache_len(b), 1);
    let eb = f.cache_entry(b, 0);
    assert_eq!(eb.nb, a);
    assert_eq!(eb.diff, Vec2F::new(500, 0));
    assert_eq!(eb.d, 250_000);
}

#[test]
fn agents_out_of_view_are_not_cached() {
    let mut f = small_flock();
    let a = f.spawn(Vec2F::new(0, 0), Vec2F::new(1000, 0));
    let _b = f.spawn(Vec2F::new(2500, 0), Vec2F::new(1000, 0));
    f.boids_proxcache();
    assert_eq!(f.cache_len(a), 0);
}

#[test]
fn neighbor_at_exactly_view_distance_is_cached() {
    // squared distance equal to the squared view radius is inclusive
    let mut f = small_flock();
    let a = f.spawn(Vec2F::new(0, 0), Vec2F::new(1000, 0));
    let b = f.spawn(Vec2F::new(1000, 0), Vec2F::new(1000, 0));
    f.boids_proxcache();
    assert_eq!(f.cache_len(a), 1);
    let e = f.cache_entry(a, 0);
    assert_eq!(e.nb, b);
    assert_eq!(e.d, 1_000_000);
}

#[test]
fn coincident_agents_are_not_cached() {
    // squared distance zero is discarded: no divide-by-zero entry
    let mut f = small_flock();
    let a = f.spawn(Vec2F::new(300, 400), Vec2F::new(1000, 0));
    let b = f.spawn(Vec2F::new(300, 400), Vec2F::new(0, 1000));
    f.boids_proxcache();
    assert_eq!(f.cache_len(a), 0);
    assert_eq!(f.cache_len(b), 0);
}

#[test]
fn separation_weights_inverse_distance() {
    // offset (-0.5, 0), d 0.25: term -0.5/0.25 = -2.0, times 0.02 = -0.04
    let mut f = small_flock();
    let a = f.spawn(Vec2F::new(0, 0), Vec2F::new(1000, 0));
    let _b = f.spawn(Vec2F::new(500, 0), Vec2F::new(1000, 0));
    f.boids_proxcache();
    f.boids_sep();
    assert_eq!(f.dir_len(a), 2);
    assert_eq!(f.dir_entry(a, 0), Vec2F::new(-40, 0));
    assert_eq!(f.dir_entry(a, 1), Vec2F::new(0, 0));
}

#[test]
fn cohesion_pulls_toward_neighbor() {
    // -sum(diff) = (0.5, 0), times 0.02 = (0.01, 0)
    let mut f = small_flock();
    let a = f.spawn(Vec2F::new(0, 0), Vec2F::new(1000, 0));
    let _b = f.spawn(Vec2F::new(500, 0), Vec2F::new(1000, 0));
    f.boids_proxcache();
    f.boids_coh();
    assert_eq!(f.dir_len(a), 1);
    assert_eq!(f.dir_entry(a, 0), Vec2F::new(10, 0));
}

#[test]
fn alignment_sums_neighbor_velocities() {
    // neighbor heading (0, 1.0), times 0.2 = (0, 0.2)
    let mut f = small_flock();
    let a = f.spawn(Vec2F::new(0, 0), Vec2F::new(1000, 0));
    let _b = f.spawn(Vec2F::new(500, 0), Vec2F::new(0, 1000));
    f.boids_proxcache();
    f.boids_ali();
    assert_eq!(f.dir_len(a), 1);
    assert_eq!(f.dir_entry(a, 0), Vec2F::new(0, 200));
}

#[test]
fn border_repulsion_near_positive_edge() {
    // agent at (9.5, 0) with SIZE 10, BORDER 1: separation appends the
    // border contribution (-1, 0) * 0.2 regardless of neighbors
    let mut f = small_flock();
    let a = f.spawn(Vec2F::new(9500, 0), Vec2F::new(0, 1000));
    f.boids_proxcache();
    f.boids_sep();
    assert_eq!(f.dir_len(a), 2);
    assert_eq!(f.dir_entry(a, 0), Vec2F::new(0, 0));
    assert_eq!(f.dir_entry(a, 1), Vec2F::new(-200, 0));
}

#[test]
fn border_repulsion_near_negative_edge() {
    let mut f = small_flock();
    let a = f.spawn(Vec2F::new(-9200, -9800), Vec2F::new(0, 1000));
    f.boids_proxcache();
    f.boids_sep();
    assert_eq!(f.dir_entry(a, 1), Vec2F::new(200, 200));
}

#[test]
fn isolated_agent_keeps_heading() {
    // no neighbors and away from the border: the direction sum is the
    // zero vector, and the previous heading survives integration
    let mut f = small_flock();
    let a = f.spawn(Vec2F::new(0, 0), Vec2F::new(600, 800));
    f.step(16);
    assert_eq!(f.velocity(a), Vec2F::new(600, 800));
    // position advanced by heading * speed * dt: 0.6*1.0*0.016 = 0.0096
    assert_eq!(f.position(a), Vec2F::new(9, 12));
}

#[test]
fn step_normalizes_heading_from_all_rules() {
    // agent at origin with one neighbor at (0.5, 0): the direction sum
    // is separation (-0.04, 0) + border (0, 0) + cohesion (0.01, 0) +
    // alignment (0, 0.2) = (-0.03, 0.2); normalized to a unit heading
    let mut f = small_flock();
    let a = f.spawn(Vec2F::new(0, 0), Vec2F::new(1000, 0));
    let b = f.spawn(Vec2F::new(500, 0), Vec2F::new(0, 1000));
    f.step(0);
    // |(-30, 200)| = isqrt(40900) = 202
    assert_eq!(f.velocity(a), Vec2F::new(-148, 990));
    // the other agent read this frame's pre-step velocity (1.0, 0):
    // sum (0.04, 0) + (0, 0) + (-0.01, 0) + (0.2, 0) = (0.23, 0)
    assert_eq!(f.velocity(b), Vec2F::new(1000, 0));
    // dt 0: nobody moves, accumulators are cleared
    assert_eq!(f.position(a), Vec2F::new(0, 0));
    assert_eq!(f.position(b), Vec2F::new(500, 0));
    assert_eq!(f.dir_len(a), 0);
    assert_eq!(f.dir_len(b), 0);
}

#[test]
fn alignment_reads_previous_frame_headings() {
    // two steps: in the second frame, alignment must read the headings
    // left by the first integration, not the in-progress updates
    let mut f = small_flock();
    let a = f.spawn(Vec2F::new(0, 0), Vec2F::new(1000, 0));
    let b = f.spawn(Vec2F::new(500, 0), Vec2F::new(0, 1000));
    f.step(0);
    let va = f.velocity(a);
    let vb = f.velocity(b);
    assert_eq!(va, Vec2F::new(-148, 990));
    assert_eq!(vb, Vec2F::new(1000, 0));
    f.step(0);
    // agent b's alignment term is va * 0.2 = (-29.6, 198); its own sum:
    // sep (0.04, 0) + coh (-0.01, 0) + ali (-0.0296, 0.198)
    // = (30 + 0 - 10 - 29, 198) in raw thousandths
    let sum_bx: i64 = 40 - 10 - 29;
    let sum_by: i64 = 198;
    let mag = ((sum_bx * sum_bx + sum_by * sum_by) as f64).sqrt() as i64;
    assert_eq!(f.velocity(b), Vec2F::new(sum_bx * 1000 / mag, sum_by * 1000 / mag));
}

#[test]
fn movement_is_clamped_to_the_domain() {
    let mut f = small_flock();
    let a = f.spawn(Vec2F::new(9900, 0), Vec2F::new(1000, 0));
    // heading full speed toward the edge for 1000 seconds
    f.boids_move(1_000_000);
    assert_eq!(f.position(a), Vec2F::new(10_000, 0));
    let p = f.position(a);
    assert!(p.x.abs() <= 10_000 && p.y.abs() <= 10_000);
}

#[test]
fn population_grows_one_handle_at_a_time() {
    let mut f = small_flock();
    assert_eq!(f.len(), 0);
    let a = f.spawn(Vec2F::new(0, 0), Vec2F::new(1000, 0));
    let b = f.spawn(Vec2F::new(1000, 1000), Vec2F::new(0, 1000));
    assert_eq!(a, 0);
    assert_eq!(b, 1);
    assert_eq!(f.len(), 2);
    assert_eq!(f.domain_half(), 10);
    assert_eq!(f.view_dist_of(), 1000);
    assert_eq!(f.border_of(), 1000);
}
