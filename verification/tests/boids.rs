//! Behavioural tests for the boids core: grid placement, force formulas,
//! boundary turning, speed clamping, the stationary nudge and determinism.

use boids::boids::{populate_grid, update_boids, update_boids_parallel, Boid, Colour, Vec2};
use boids::{Parameters, SCALE};

/// The default tuning used by the scenarios: factors 0.10 / 0.05 / 0.0005,
/// turn 0.2, speeds 0.5..3.0, ranges 20 and 2, cell 22, all in fixed-point.
fn base_params() -> Parameters {
    Parameters {
        max_speed: 30_000,
        min_speed: 5_000,
        margin: 10,
        visible_range: 200_000,
        protected_range: 20_000,
        avoid_factor: 1_000,
        matching_factor: 500,
        centering_factor: 5,
        turn_factor: 2_000,
        cell_size: 220_000,
        draw_radius: 2,
    }
}

fn grey() -> Colour {
    Colour { r: 128, g: 128, b: 128 }
}

fn boid_at(id: usize, x: i64, y: i64, vx: i64, vy: i64) -> Boid {
    Boid::new(id, Vec2::new(x, y), Vec2::new(vx, vy), 0, grey())
}

fn cell_key(cx: u128, cy: u128) -> u128 {
    cx * 0x1_0000_0000_0000_0000 + cy
}

#[test]
fn validate_accepts_the_base_configuration() {
    let p = base_params();
    assert!(p.validate(1920, 1080));
}

#[test]
fn validate_rejects_degenerate_configurations() {
    let mut p = base_params();
    p.cell_size = 0;
    assert!(!p.validate(1920, 1080));

    let mut p = base_params();
    p.min_speed = p.max_speed + 1;
    assert!(!p.validate(1920, 1080));

    let p = base_params();
    assert!(!p.validate(0, 1080));
    assert!(!p.validate(1920, 5)); // margin 10 wider than the area
}

#[test]
fn boid_new_keeps_its_parts() {
    let b = boid_at(7, 10_000, 20_000, 30, -40);
    assert_eq!(b.id, 7);
    assert_eq!(b.pos, Vec2::new(10_000, 20_000));
    assert_eq!(b.vel, Vec2::new(30, -40));
    assert_eq!(b.current_speed, 0);
    assert_eq!(b.colour, grey());
}

#[test]
fn vec2_constructors() {
    let v = Vec2::new(3, -4);
    assert_eq!(v.x, 3);
    assert_eq!(v.y, -4);
    let z = Vec2::zeros();
    assert_eq!((z.x, z.y), (0, 0));
}

#[test]
fn populate_grid_groups_by_cell_in_slot_order() {
    // Two boids share cell (4, 4); a third sits in cell (0, 0).
    let boids = vec![
        boid_at(0, 100 * SCALE, 100 * SCALE, 0, 0),
        boid_at(1, 101 * SCALE, 100 * SCALE, 0, 0),
        boid_at(2, 5 * SCALE, 5 * SCALE, 0, 0),
    ];
    let grid = populate_grid(&boids, 220_000);
    assert_eq!(grid.get(&cell_key(4, 4)), Some(&vec![0usize, 1usize]));
    assert_eq!(grid.get(&cell_key(0, 0)), Some(&vec![2usize]));
    assert_eq!(grid.get(&cell_key(1, 1)), None);
    assert_eq!(grid.len(), 2);
}

#[test]
fn populate_grid_cell_boundaries() {
    // A position exactly at a cell edge belongs to the higher cell.
    let boids = vec![
        boid_at(0, 220_000, 0, 0, 0),
        boid_at(1, 219_999, 0, 0, 0),
    ];
    let grid = populate_grid(&boids, 220_000);
    assert_eq!(grid.get(&cell_key(1, 0)), Some(&vec![0usize]));
    assert_eq!(grid.get(&cell_key(0, 0)), Some(&vec![1usize]));
}

#[test]
fn isolated_boid_in_band_keeps_its_velocity() {
    // One boid far from every edge, speed 0.5 exactly in the band: the frame
    // must leave the velocity untouched and move the boid by it.
    let mut p = base_params();
    p.margin = 0;
    let mut boids = vec![boid_at(0, 100 * SCALE, 100 * SCALE, 3_000, 4_000)];
    update_boids(&mut boids, 200, 200, p);
    assert_eq!(boids[0].vel, Vec2::new(3_000, 4_000));
    assert_eq!(boids[0].current_speed, 5_000);
    assert_eq!(boids[0].pos, Vec2::new(100 * SCALE + 3_000, 100 * SCALE + 4_000));
}

#[test]
fn two_protected_boids_move_apart_at_floor_speed() {
    // Two stationary boids one unit apart, inside the protected range:
    // separation pushes them apart along x, and the clamp raises each
    // emitted speed exactly to the floor speed.
    let p = base_params();
    let mut boids = vec![
        boid_at(0, 100 * SCALE, 100 * SCALE, 0, 0),
        boid_at(1, 101 * SCALE, 100 * SCALE, 0, 0),
    ];
    update_boids(&mut boids, 1080, 1920, p);
    // Boid 0: separation (-10_000, 0) * 0.10 = (-1_000, 0); speed 0.1 is
    // below the 0.5 floor, so the velocity rescales to (-5_000, 0).
    assert_eq!(boids[0].vel, Vec2::new(-5_000, 0));
    assert_eq!(boids[1].vel, Vec2::new(5_000, 0));
    assert_eq!(boids[0].current_speed, 5_000);
    assert_eq!(boids[1].current_speed, 5_000);
    assert_eq!(boids[0].pos, Vec2::new(100 * SCALE - 5_000, 100 * SCALE));
    assert_eq!(boids[1].pos, Vec2::new(101 * SCALE + 5_000, 100 * SCALE));
    assert!(boids[0].pos.x < 100 * SCALE && boids[1].pos.x > 101 * SCALE);
}

#[test]
fn corner_boid_is_nudged_inward_on_both_axes() {
    // A stationary boid at (5, 5) with margin 10 sits inside both the left
    // and the top margin: it gains +turn_factor on each axis.
    let mut p = base_params();
    p.min_speed = 0;
    let mut boids = vec![boid_at(0, 5 * SCALE, 5 * SCALE, 0, 0)];
    update_boids(&mut boids, 200, 200, p);
    assert_eq!(boids[0].vel, Vec2::new(2_000, 2_000));
    assert!(boids[0].vel.x > 0 && boids[0].vel.y > 0);
    // |(0.2, 0.2)| = 0.2828..., in fixed point the floor of sqrt(8e6).
    assert_eq!(boids[0].current_speed, 2_828);
    assert_eq!(boids[0].pos, Vec2::new(5 * SCALE + 2_000, 5 * SCALE + 2_000));
}

#[test]
fn stationary_boid_gets_a_random_floor_speed_nudge() {
    let mut p = base_params();
    p.margin = 0;
    let mut boids = vec![boid_at(0, 100 * SCALE, 100 * SCALE, 0, 0)];
    update_boids(&mut boids, 200, 200, p);
    let v = boids[0].vel;
    assert!(-5_000 <= v.x && v.x < 5_000, "nudge x out of range: {}", v.x);
    assert!(-5_000 <= v.y && v.y < 5_000, "nudge y out of range: {}", v.y);
    assert_eq!(boids[0].current_speed, 5_000);
    assert_eq!(boids[0].pos, Vec2::new(100 * SCALE + v.x, 100 * SCALE + v.y));
}

#[test]
fn stationary_boid_with_zero_floor_stays_put() {
    let mut p = base_params();
    p.margin = 0;
    p.min_speed = 0;
    let mut boids = vec![boid_at(0, 100 * SCALE, 100 * SCALE, 0, 0)];
    update_boids(&mut boids, 200, 200, p);
    assert_eq!(boids[0].vel, Vec2::new(0, 0));
    assert_eq!(boids[0].current_speed, 0);
    assert_eq!(boids[0].pos, Vec2::new(100 * SCALE, 100 * SCALE));
}

#[test]
fn slow_boid_is_rescaled_up_to_the_floor() {
    let mut p = base_params();
    p.margin = 0;
    let mut boids = vec![boid_at(0, 100 * SCALE, 100 * SCALE, 1, 0)];
    update_boids(&mut boids, 200, 200, p);
    assert_eq!(boids[0].vel, Vec2::new(5_000, 0));
    assert_eq!(boids[0].current_speed, 5_000);
}

#[test]
fn fast_boid_is_rescaled_down_to_the_ceiling() {
    let mut p = base_params();
    p.margin = 0;
    let mut boids = vec![boid_at(0, 100 * SCALE, 100 * SCALE, 40_000, 0)];
    update_boids(&mut boids, 200, 200, p);
    assert_eq!(boids[0].vel, Vec2::new(30_000, 0));
    assert_eq!(boids[0].current_speed, 30_000);
}

#[test]
fn position_clamps_to_the_last_pixel() {
    // A boid about to cross the right edge lands on column width - 1.
    let mut p = base_params();
    p.margin = 0;
    p.min_speed = 0;
    let mut boids = vec![boid_at(0, 199 * SCALE + 9_000, 100 * SCALE, 30_000, 0)];
    update_boids(&mut boids, 200, 200, p);
    assert_eq!(boids[0].pos.x, 199 * SCALE);
    assert_eq!(boids[0].pos.y, 100 * SCALE);
}

#[test]
fn visible_neighbours_drive_cohesion_and_alignment_exactly() {
    // Two boids ten units apart: inside the visible range, outside the
    // protected range. Checked against the closed-form force sums.
    let mut p = base_params();
    p.margin = 0;
    p.min_speed = 0;
    let mut boids = vec![
        boid_at(0, 100 * SCALE, 100 * SCALE, 1_000, 0),
        boid_at(1, 110 * SCALE, 100 * SCALE, 3_000, 0),
    ];
    update_boids(&mut boids, 400, 400, p);
    // Boid 0: cohesion (1_100_000 - 1_000_000) * 0.0005 = 50,
    // alignment (3_000 - 1_000) * 0.05 = 100, so velocity 1_000 + 150.
    assert_eq!(boids[0].vel, Vec2::new(1_150, 0));
    assert_eq!(boids[0].current_speed, 1_150);
    // Boid 1: cohesion -50, alignment -100.
    assert_eq!(boids[1].vel, Vec2::new(2_850, 0));
    assert_eq!(boids[1].pos, Vec2::new(110 * SCALE + 2_850, 100 * SCALE));
}

#[test]
fn boids_at_exactly_the_visible_range_are_ignored() {
    // The box pre-filter is strict: an offset of exactly the visible range
    // contributes nothing.
    let mut p = base_params();
    p.margin = 0;
    let mut boids = vec![
        boid_at(0, 100 * SCALE, 100 * SCALE, 3_000, 4_000),
        boid_at(1, 120 * SCALE, 100 * SCALE, -3_000, -4_000),
    ];
    update_boids(&mut boids, 400, 400, p);
    assert_eq!(boids[0].vel, Vec2::new(3_000, 4_000));
    assert_eq!(boids[1].vel, Vec2::new(-3_000, -4_000));
}

#[test]
fn update_preserves_identity_colour_and_count() {
    let p = base_params();
    let red = Colour { r: 250, g: 10, b: 20 };
    let mut boids = vec![
        Boid::new(11, Vec2::new(30 * SCALE, 40 * SCALE), Vec2::new(7_000, 0), 0, red),
        boid_at(22, 200 * SCALE, 300 * SCALE, 0, 6_000),
    ];
    update_boids(&mut boids, 1080, 1920, p);
    assert_eq!(boids.len(), 2);
    assert_eq!(boids[0].id, 11);
    assert_eq!(boids[0].colour, red);
    assert_eq!(boids[1].id, 22);
    assert_eq!(boids[1].colour, grey());
}

#[test]
fn sequential_updates_are_deterministic() {
    // No boid is stationary, so no randomness is drawn: two runs from the
    // same snapshot agree exactly, over several frames.
    let p = base_params();
    let start: Vec<Boid> = (0..40)
        .map(|k| {
            let k64 = k as i64;
            boid_at(
                k,
                (50 + 3 * k64) * SCALE,
                (60 + 2 * k64) * SCALE,
                6_000 + 100 * k64,
                -6_000 + 75 * k64,
            )
        })
        .collect();
    let mut run1 = start.clone();
    let mut run2 = start.clone();
    for _ in 0..5 {
        update_boids(&mut run1, 1080, 1920, p);
        update_boids(&mut run2, 1080, 1920, p);
    }
    assert_eq!(run1, run2);
}

#[test]
fn parallel_update_matches_the_sequential_one() {
    // With integer sums the result is independent of scheduling, so the
    // parallel pass must reproduce the sequential pass exactly (no boid is
    // stationary, so no randomness is drawn).
    let p = base_params();
    let start: Vec<Boid> = (0..60)
        .map(|k| {
            let k64 = k as i64;
            boid_at(
                k,
                (40 + 5 * k64) * SCALE,
                (900 - 2 * k64) * SCALE,
                5_500 + 90 * k64,
                7_000 - 120 * k64,
            )
        })
        .collect();
    let mut seq = start.clone();
    let mut par = start.clone();
    update_boids(&mut seq, 1080, 1920, p);
    update_boids_parallel(&mut par, 1080, 1920, p);
    assert_eq!(seq, par);
}

#[test]
fn all_positions_stay_inside_the_area() {
    // Boids hurled at the edges stay on pixels 0..=dim-1 after each frame.
    let mut p = base_params();
    p.min_speed = 0;
    let mut boids = vec![
        boid_at(0, 0, 0, -30_000, -30_000),
        boid_at(1, 199 * SCALE, 199 * SCALE, 30_000, 30_000),
        boid_at(2, 100 * SCALE, 1_000, 0, -25_000),
    ];
    for _ in 0..4 {
        update_boids(&mut boids, 200, 200, p);
        for b in &boids {
            assert!(0 <= b.pos.x && b.pos.x < 200 * SCALE);
            assert!(0 <= b.pos.y && b.pos.y < 200 * SCALE);
            assert!(b.pos.x / SCALE <= 199 && b.pos.y / SCALE <= 199);
        }
    }
}

#[test]
fn speed_floor_holds_after_every_frame() {
    let p = base_params();
    let mut boids = vec![
        boid_at(0, 100 * SCALE, 100 * SCALE, 0, 0),
        boid_at(1, 101 * SCALE, 100 * SCALE, 40_000, 0),
        boid_at(2, 500 * SCALE, 500 * SCALE, 1, 1),
    ];
    for _ in 0..3 {
        update_boids(&mut boids, 1080, 1920, p);
        for b in &boids {
            assert!(5_000 <= b.current_speed && b.current_speed <= 30_000);
        }
    }
}

#[test]
fn empty_flock_is_a_no_op() {
    let p = base_params();
    let mut boids: Vec<Boid> = Vec::new();
    update_boids(&mut boids, 1080, 1920, p);
    assert!(boids.is_empty());
    let grid = populate_grid(&boids, p.cell_size);
    assert_eq!(grid.len(), 0);
}
