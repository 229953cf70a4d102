use ivan_game::geometry::Vec2;
use ivan_game::verlet::{circle_circle_collision, Solver, VerletObject, UNITS_PER_PIXEL, WORLD_LIMIT};

const PX: i64 = UNITS_PER_PIXEL;

fn at(x: i64, y: i64) -> VerletObject {
    VerletObject::new(Vec2::new(x, y))
}

fn dist_px(a: Vec2, b: Vec2) -> f64 {
    let dx = (a.x - b.x) as f64;
    let dy = (a.y - b.y) as f64;
    (dx * dx + dy * dy).sqrt() / PX as f64
}

fn norm_sq(a: Vec2) -> i128 {
    a.x as i128 * a.x as i128 + a.y as i128 * a.y as i128
}

#[test]
fn body_at_rest_stays_put() {
    let mut b = at(123 * PX, -45 * PX);
    let start = b;
    for _ in 0..1000 {
        b.update_position(16_667);
    }
    assert_eq!(b, start);
}

#[test]
fn step_moves_by_velocity_and_drift() {
    let mut b = VerletObject {
        position_current: Vec2::new(100, 50),
        position_old: Vec2::new(90, 60),
        acceleration: Vec2::new(1_000_000, -2_000_000),
    };
    // 1e6 units/s^2 over 1000 us: 1e6 * 1e6 / 1e12 = 1 unit.
    b.update_position(1000);
    assert_eq!(b.position_old, Vec2::new(100, 50));
    assert_eq!(b.position_current, Vec2::new(111, 38));
    assert_eq!(b.acceleration, Vec2::new(0, 0));
}

#[test]
fn drift_rounds_toward_zero() {
    let mut b = at(0, 0);
    b.accelerate(Vec2::new(1_500_000, -1_500_000));
    b.update_position(1000);
    assert_eq!(b.position_current, Vec2::new(1, -1));
}

#[test]
fn accelerate_accumulates_and_saturates() {
    let mut b = at(0, 0);
    b.accelerate(Vec2::new(3, -4));
    b.accelerate(Vec2::new(10, 10));
    assert_eq!(b.acceleration, Vec2::new(13, 6));
    b.accelerate(Vec2::new(i64::MAX, i64::MIN));
    assert_eq!(b.acceleration, Vec2::new(1 << 40, -(1 << 40)));
}

#[test]
fn positions_saturate_at_the_world_edge() {
    let mut b = VerletObject {
        position_current: Vec2::new(WORLD_LIMIT, 0),
        position_old: Vec2::new(WORLD_LIMIT - 1000, 0),
        acceleration: Vec2::new(0, 0),
    };
    b.update_position(1000);
    assert_eq!(b.position_current, Vec2::new(WORLD_LIMIT, 0));
}

#[test]
fn constant_acceleration_matches_closed_form() {
    let g = -1000 * PX;
    let dt: u32 = 2083;
    let n: i64 = 480;
    let mut b = at(0, 0);
    for _ in 0..n {
        b.accelerate(Vec2::new(0, g));
        b.update_position(dt);
    }
    // Discrete form: drift * n * (n + 1) / 2, drift = trunc(g * dt^2 / 1e12).
    let drift = (g as i128 * dt as i128 * dt as i128 / 1_000_000_000_000) as i64;
    assert_eq!(drift, -4338);
    assert_eq!(b.position_current, Vec2::new(0, drift * n * (n + 1) / 2));
    // Close to g * t^2 / 2.
    let t = n as f64 * dt as f64 / 1e6;
    let exact = 0.5 * g as f64 * t * t;
    let got = b.position_current.y as f64;
    assert!(((got - exact) / exact).abs() < 0.01, "{} vs {}", got, exact);
}

#[test]
fn container_clamps_onto_the_inner_circle() {
    let mut s = Solver::new();
    s.add_object(at(500 * PX, 500 * PX));
    s.add_object(at(-400 * PX, 0));
    s.add_object(at(100 * PX, 100 * PX));
    s.apply_constraint();
    let bodies = s.objects();
    let limit = 335 * PX;
    for b in bodies.iter().take(2) {
        let d = dist_px(b.position_current, Vec2::new(0, 0));
        assert!((d - 335.0).abs() < 1e-5, "distance {}", d);
        assert!(norm_sq(b.position_current) <= limit as i128 * limit as i128);
    }
    assert_eq!(bodies[1].position_current, Vec2::new(-335 * PX, 0));
    assert_eq!(bodies[2].position_current, Vec2::new(100 * PX, 100 * PX));
    let diag = bodies[0].position_current;
    assert_eq!(diag.x, diag.y);
}

#[test]
fn overlapping_pair_splits_the_overlap_evenly() {
    let mut s = Solver::new();
    let a = at(0, 0);
    let b = at(10 * PX, 0);
    s.add_object(a);
    s.add_object(b);
    s.solve_collisions();
    let r = s.objects();
    let da = (r[0].position_current.x - a.position_current.x, r[0].position_current.y - a.position_current.y);
    let db = (r[1].position_current.x - b.position_current.x, r[1].position_current.y - b.position_current.y);
    assert_eq!(da, (-db.0, -db.1));
    assert_eq!(da, (-10 * PX, 0));
    let d = dist_px(r[0].position_current, r[1].position_current);
    assert!(d >= 30.0 - 1e-6, "distance {}", d);
}

#[test]
fn diagonal_pair_separates_to_contact_distance() {
    let mut s = Solver::new();
    let a = at(3 * PX, 4 * PX);
    let b = at(-6 * PX, -8 * PX);
    s.add_object(a);
    s.add_object(b);
    s.solve_collisions();
    let r = s.objects();
    let d = dist_px(r[0].position_current, r[1].position_current);
    assert!((d - 30.0).abs() < 1e-5, "distance {}", d);
    let sum_x = (r[0].position_current.x - a.position_current.x) + (r[1].position_current.x - b.position_current.x);
    let sum_y = (r[0].position_current.y - a.position_current.y) + (r[1].position_current.y - b.position_current.y);
    assert_eq!((sum_x, sum_y), (0, 0));
}

#[test]
fn coincident_pair_is_pushed_apart_along_x() {
    let mut s = Solver::new();
    s.add_object(at(5 * PX, 5 * PX));
    s.add_object(at(5 * PX, 5 * PX));
    s.solve_collisions();
    let r = s.objects();
    assert_eq!(r[0].position_current, Vec2::new(20 * PX, 5 * PX));
    assert_eq!(r[1].position_current, Vec2::new(-10 * PX, 5 * PX));
}

#[test]
fn distant_pair_is_untouched() {
    let mut s = Solver::new();
    s.add_object(at(0, 0));
    s.add_object(at(30 * PX, 0));
    s.solve_collisions();
    let r = s.objects();
    assert_eq!(r[0].position_current, Vec2::new(0, 0));
    assert_eq!(r[1].position_current, Vec2::new(30 * PX, 0));
}

#[test]
fn gravity_pulls_every_body() {
    let mut s = Solver::new();
    s.add_object(at(0, 0));
    s.add_object(at(100 * PX, 0));
    s.apply_gravity();
    for b in s.objects().iter() {
        assert_eq!(b.acceleration, Vec2::new(0, -1000 * PX));
    }
    s.update_positions(1000);
    assert_eq!(s.objects()[0].position_current, Vec2::new(0, -1000));
    assert_eq!(s.objects()[1].position_current, Vec2::new(100 * PX, -1000));
}

#[test]
fn update_separates_and_contains_three_bodies() {
    let mut s = Solver::new();
    s.add_object(at(0, 0));
    s.add_object(at(10 * PX, 0));
    s.add_object(at(500 * PX, 500 * PX));
    s.update(16_667);
    let r = s.objects();
    let d01 = dist_px(r[0].position_current, r[1].position_current);
    assert!(d01 >= 30.0 - 1e-3, "first pair at {}", d01);
    // The last integration follows the last clamp, so the body may have
    // drifted a little along the circle since.
    let d2 = dist_px(r[2].position_current, Vec2::new(0, 0));
    assert!(d2 <= 335.0 + 1e-2, "third body at {}", d2);
}

#[test]
fn update_of_an_empty_solver_does_nothing() {
    let mut s = Solver::new();
    s.update(16_667);
    assert!(s.objects().is_empty());
}

#[test]
fn single_body_falls_under_default_gravity() {
    let mut s = Solver::new();
    s.add_object(at(0, 0));
    s.update(16_000);
    // Eight substeps of 2000 us; drift per substep is -4000 units.
    let y = s.objects()[0].position_current.y;
    assert_eq!(y, -4000 * 8 * 9 / 2);
}

#[test]
fn configured_solver_uses_its_settings() {
    let mut s = Solver::with_config(Vec2::new(0, 0), 100, 10, 1);
    s.add_object(at(200, 0));
    s.update(1000);
    // Clamped to 90 with the old position still at 200: the implied velocity
    // of -110 carries the body on to -20.
    assert_eq!(s.objects()[0].position_current, Vec2::new(-20, 0));
    assert_eq!(s.objects()[0].position_old, Vec2::new(90, 0));
}

#[test]
fn circles_overlap_only_when_strictly_nearer_than_the_radii() {
    assert!(circle_circle_collision(Vec2::new(0, 0), 15, Vec2::new(29, 0), 15));
    assert!(!circle_circle_collision(Vec2::new(0, 0), 15, Vec2::new(30, 0), 15));
    assert!(!circle_circle_collision(Vec2::new(0, 0), 15, Vec2::new(18, 24), 15));
    assert!(circle_circle_collision(Vec2::new(0, 0), 15, Vec2::new(18, 23), 15));
    assert!(circle_circle_collision(Vec2::new(5, 5), 1, Vec2::new(5, 5), 0));
}
