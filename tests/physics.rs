use ballsim::ball::{Ball, DEFAULT_RADIUS, MAX_SPEED};
use ballsim::geometry::Circle;
use ballsim::math::find_roots;
use ballsim::plane::Plane;
use ballsim::vector_math::{dot_product, length_squared, rotate, Vec2};
use ballsim::world::{Rect, StepError, World, INITIAL_SPEED_CAP, MAX_STEP};

const R: i64 = DEFAULT_RADIUS;

fn ball(x: i64, y: i64, vx: i64, vy: i64, radius: i64, mass: i64) -> Ball {
    let mut b = Ball::default();
    b.set_position(x, y);
    b.velocity = Vec2::new(vx, vy);
    b.circle.radius = radius;
    b.set_mass(mass);
    b
}

fn square_arena(side: i64) -> Rect {
    Rect { left: 0, top: 0, width: side, height: side }
}

#[test]
fn roots_of_factored_quadratic() {
    assert_eq!(find_roots(1, -5, 6), Some((2, 3)));
    assert_eq!(find_roots(-1, 5, -6), Some((2, 3)));
}

#[test]
fn roots_rounded_outwards() {
    // 2t² − 3t + 1 has roots 1/2 and 1.
    assert_eq!(find_roots(2, -3, 1), Some((0, 1)));
    // t² − 2 has roots ±1.414…
    assert_eq!(find_roots(1, 0, -2), Some((-2, 2)));
    // a double root
    assert_eq!(find_roots(1, -6, 9), Some((3, 3)));
}

#[test]
fn no_real_roots() {
    assert_eq!(find_roots(1, 0, 1), None);
    assert_eq!(find_roots(3, 1, 5), None);
}

#[test]
fn vector_products() {
    assert_eq!(length_squared(&Vec2::new(3, -4)), 25);
    assert_eq!(dot_product(&Vec2::new(2, 3), &Vec2::new(-4, 5)), 7);
}

#[test]
fn rotation_round_trip() {
    let v = Vec2::new(3, 4);
    let d = Vec2::new(1, 2);
    let (x, y) = rotate(&v, &d);
    assert_eq!((x, y), (-5, 10));
    let turned = Vec2::new(x as i64, y as i64);
    let back = rotate(&turned, &Vec2::new(1, -2));
    // |d|² = 5
    assert_eq!(back, (15, 20));
    // a quarter turn and back with a unit direction gives the vector itself
    let q = rotate(&v, &Vec2::new(0, 1));
    assert_eq!(q, (-4, 3));
    let q_back = rotate(&Vec2::new(q.0 as i64, q.1 as i64), &Vec2::new(0, -1));
    assert_eq!(q_back, (3, 4));
}

#[test]
fn circles_intersect_only_when_overlapping() {
    let a = Circle { position: Vec2::new(0, 0), radius: 5 };
    let touching = Circle { position: Vec2::new(10, 0), radius: 5 };
    let overlapping = Circle { position: Vec2::new(9, 0), radius: 5 };
    assert!(!a.intersect(&touching));
    assert!(a.intersect(&overlapping));
}

#[test]
fn time_of_impact_head_on() {
    let a = ball(0, 0, 10, 0, 50, 1);
    let b = ball(1000, 0, -10, 0, 50, 1);
    // gap of 900 closes at 20 a tick: contact at 45
    assert_eq!(Ball::collision_time(&a, &b, false), Some(45));
    // both contacts lie ahead, none behind
    assert_eq!(Ball::collision_time(&a, &b, true), None);
    // moving apart: they last touched 45 ticks ago
    let c = ball(0, 0, -10, 0, 50, 1);
    let d = ball(1000, 0, 10, 0, 50, 1);
    assert_eq!(Ball::collision_time(&c, &d, true), Some(-45));
}

#[test]
fn time_of_impact_rounds_down() {
    let a = ball(0, 0, 7, 0, 50, 1);
    let b = ball(1000, 0, 0, 0, 50, 1);
    // contact at 900 / 7 = 128.57…
    let t = Ball::collision_time(&a, &b, false).unwrap();
    assert_eq!(t, 128);
    let mut a2 = a;
    a2.displace(&Vec2::new(7 * t as i64, 0));
    assert!(!a2.circle.intersect(&b.circle));
    a2.displace(&Vec2::new(7, 0));
    assert!(a2.circle.intersect(&b.circle));
}

#[test]
fn no_impact_when_moving_apart_or_missing() {
    let a = ball(0, 0, -10, 0, 50, 1);
    let b = ball(1000, 0, 10, 0, 50, 1);
    assert_eq!(Ball::collision_time(&a, &b, false), None);
    let c = ball(0, 0, 10, 0, 50, 1);
    let d = ball(1000, 500, 10, 0, 50, 1);
    assert_eq!(Ball::collision_time(&c, &d, false), None);
}

#[test]
fn touching_bodies_have_zero_time_of_impact() {
    let a = ball(0, 0, 10, 0, 50, 1);
    let b = ball(100, 0, 0, 0, 50, 1);
    assert_eq!(Ball::collision_time(&a, &b, false), Some(0));
    let c = ball(0, 0, -10, 0, 50, 1);
    assert_eq!(Ball::collision_time(&c, &b, false), Some(0));
}

#[test]
fn touching_a_wall_has_zero_time_of_contact() {
    let wall = Plane { position: Vec2::new(0, 0), normal: Vec2::new(1, 0) };
    let b = ball(50, 0, -5, 0, 50, 1);
    assert_eq!(b.plane_collision_time(&wall, false), Some(0));
    assert_eq!(b.plane_collision_time(&wall, true), Some(0));
    let leaving = ball(50, 0, 5, 0, 50, 1);
    assert_eq!(leaving.plane_collision_time(&wall, false), Some(0));
    assert_eq!(leaving.plane_collision_time(&wall, true), Some(0));
}

#[test]
fn wall_time_of_contact() {
    let wall = Plane { position: Vec2::new(1000, 0), normal: Vec2::new(-1, 0) };
    let b = ball(0, 0, 100, 0, 50, 1);
    // the near edge covers 950 at 100 a tick
    assert_eq!(b.plane_collision_time(&wall, false), Some(9));
    assert_eq!(b.plane_collision_time(&wall, true), None);
    let away = ball(0, 0, -100, 0, 50, 1);
    assert_eq!(away.plane_collision_time(&wall, false), None);
    assert_eq!(away.plane_collision_time(&wall, true), Some(-9));
    let parallel = ball(0, 0, 0, 100, 50, 1);
    assert_eq!(parallel.plane_collision_time(&wall, false), None);
}

#[test]
fn equal_masses_head_on_exchange_velocities() {
    let a = ball(0, 0, 300, 0, 50, 1);
    let b = ball(100, 0, -300, 0, 50, 1);
    let (va, vb) = Ball::resolve_collision(&a, &b);
    assert_eq!(va, Vec2::new(-300, 0));
    assert_eq!(vb, Vec2::new(300, 0));
}

#[test]
fn oblique_collision_keeps_perpendicular_components() {
    let a = ball(0, 0, 40, 25, 50, 1);
    let b = ball(100, 0, 0, -7, 50, 1);
    let (va, vb) = Ball::resolve_collision(&a, &b);
    assert_eq!(va, Vec2::new(0, 25));
    assert_eq!(vb, Vec2::new(40, -7));
}

#[test]
fn momentum_is_kept_within_rounding() {
    let a = ball(0, 0, 1234, -567, 50, 3);
    let b = ball(60, 80, -890, 321, 50, 7);
    let (va, vb) = Ball::resolve_collision(&a, &b);
    let before = (3 * 1234 + 7 * -890, 3 * -567 + 7 * 321);
    let after = (3 * va.x + 7 * vb.x, 3 * va.y + 7 * vb.y);
    assert!((after.0 - before.0).abs() < 10);
    assert!((after.1 - before.1).abs() < 10);
    assert_ne!(va, a.velocity);
}

#[test]
fn energy_is_not_gained() {
    let a = ball(0, 0, 1234, -567, 50, 3);
    let b = ball(60, 80, -890, 321, 50, 7);
    let (va, vb) = Ball::resolve_collision(&a, &b);
    let e = |m: i64, v: Vec2| m as i128 * (v.x as i128 * v.x as i128 + v.y as i128 * v.y as i128);
    let before = e(3, a.velocity) + e(7, b.velocity);
    let after = e(3, va) + e(7, vb);
    assert!(after <= before);
    assert!(after * 100 >= before * 99);
}

#[test]
fn wall_reflection_keeps_speed() {
    let wall = Plane { position: Vec2::new(0, 500), normal: Vec2::new(0, -1) };
    let mut b = ball(0, 0, 37, 91, 50, 1);
    b.resolve_plane_collision(&wall);
    assert_eq!(b.velocity, Vec2::new(37, -91));
    assert_eq!(length_squared(&b.velocity), 37 * 37 + 91 * 91);
}

#[test]
fn head_on_bodies_exchange_velocities_in_a_world() {
    // two bodies on a row, a 2000-unit gap between them
    let side = 6 * R + 2 * (2 * R + 2000);
    let world = World::with_velocities(
        square_arena(side),
        &vec![Vec2::new(100, 0), Vec2::new(-100, 0)],
    );
    let mut world = world.unwrap();
    let before: Vec<Ball> = world.get_balls().clone();
    assert_eq!(before[1].circle.position.x - before[0].circle.position.x, 2 * R + 2000);
    // contact after 10 ticks
    assert_eq!(world.update(10), Ok(()));
    let after = world.get_balls();
    assert_eq!(after[0].velocity, Vec2::new(-100, 0));
    assert_eq!(after[1].velocity, Vec2::new(100, 0));
}

#[test]
fn body_bounces_off_a_vertical_wall() {
    let side = 8 * R;
    let mut world = World::with_velocities(square_arena(side), &vec![Vec2::new(100, 0)]).unwrap();
    let start = world.get_balls()[0];
    assert_eq!(start.circle.position, Vec2::new(3 * R, 3 * R));
    // the near edge meets the right wall, normal (−1, 0), after 4R / 100 ticks
    let contact = 4 * R / 100;
    assert_eq!(world.update(2 * contact), Ok(()));
    let b = world.get_balls()[0];
    assert_eq!(b.velocity, Vec2::new(-100, 0));
    assert_eq!(b.circle.position, Vec2::new(3 * R, 3 * R));
}

#[test]
fn free_body_translates() {
    let side = 8 * R;
    let mut world = World::with_velocities(square_arena(side), &vec![Vec2::new(10, 10)]).unwrap();
    assert_eq!(world.update(1000), Ok(()));
    let b = world.get_balls()[0];
    assert_eq!(b.velocity, Vec2::new(10, 10));
    assert_eq!(b.circle.position, Vec2::new(3 * R + 10_000, 3 * R + 10_000));
}

#[test]
fn free_body_runs_backwards() {
    let side = 8 * R;
    let mut world = World::with_velocities(square_arena(side), &vec![Vec2::new(10, 10)]).unwrap();
    assert_eq!(world.update(-1000), Ok(()));
    let b = world.get_balls()[0];
    assert_eq!(b.velocity, Vec2::new(10, 10));
    assert_eq!(b.circle.position, Vec2::new(3 * R - 10_000, 3 * R - 10_000));
}

#[test]
fn zero_step_changes_nothing() {
    let mut world = World::new(Rect { left: 10 * R, top: 150 * R, width: 800 * R / 16, height: 800 * R / 16 }, 20).unwrap();
    let before: Vec<Ball> = world.get_balls().clone();
    assert_eq!(world.update(0), Ok(()));
    let after = world.get_balls();
    for (x, y) in before.iter().zip(after.iter()) {
        assert_eq!(x.circle, y.circle);
        assert_eq!(x.velocity, y.velocity);
        assert_eq!(x.get_mass(), y.get_mass());
    }
}

#[test]
fn simultaneous_collisions_use_velocities_before_either() {
    // a 3×3 grid: the middle row is left, centre, right
    let gap = 3000;
    let side = 6 * R + 3 * (2 * R + gap);
    let mut velocities = vec![Vec2::zero(); 9];
    velocities[3] = Vec2::new(100, 0);
    velocities[5] = Vec2::new(-100, 0);
    let mut world = World::with_velocities(square_arena(side), &velocities).unwrap();
    let before: Vec<Ball> = world.get_balls().clone();
    assert_eq!(world.update(30), Ok(()));
    let after = world.get_balls();
    // each pair resolved from the centre's velocity before either collision
    let mut left = before[3];
    let mut centre = before[4];
    let mut right = before[5];
    left.displace(&Vec2::new(3000, 0));
    right.displace(&Vec2::new(-3000, 0));
    let (c1, l1) = Ball::resolve_collision(&centre, &left);
    let (c2, r2) = Ball::resolve_collision(&centre, &right);
    centre.velocity = Vec2::new(c1.x + c2.x - centre.velocity.x, c1.y + c2.y - centre.velocity.y);
    assert_eq!(after[3].velocity, l1);
    assert_eq!(after[5].velocity, r2);
    assert_eq!(after[4].velocity, centre.velocity);
    assert_eq!(after[3].velocity, Vec2::new(0, 0));
    assert_eq!(after[4].velocity, Vec2::new(0, 0));
    assert_eq!(after[5].velocity, Vec2::new(0, 0));
}

#[test]
fn touching_bodies_do_not_stall_update() {
    // two bodies exactly touching, the left one pushing the right one
    let side = 6 * R + 2 * (2 * R);
    let mut world =
        World::with_velocities(square_arena(side), &vec![Vec2::new(100, 0), Vec2::zero()]).unwrap();
    let before: Vec<Ball> = world.get_balls().clone();
    assert_eq!(Ball::collision_time(&before[0], &before[1], false), Some(0));
    assert_eq!(world.update(10), Ok(()));
    let after = world.get_balls();
    assert_eq!(after[0].velocity, Vec2::new(0, 0));
    assert_eq!(after[1].velocity, Vec2::new(100, 0));
    assert_eq!(after[1].circle.position.x, before[1].circle.position.x + 1000);
}

#[test]
fn acceleration_applies_once_per_step() {
    let side = 8 * R;
    let mut world = World::with_velocities(square_arena(side), &vec![Vec2::zero()]).unwrap();
    world.set_acceleration(Vec2::new(0, 5000));
    assert_eq!(world.update(1000), Ok(()));
    let b = world.get_balls()[0];
    // 5000 a second over a thousandth of a second
    assert_eq!(b.velocity, Vec2::new(0, 5));
    assert_eq!(b.circle.position, Vec2::new(3 * R, 3 * R + 5000));
}

#[test]
fn speed_limit_error() {
    let side = 8 * R;
    let mut world = World::with_velocities(square_arena(side), &vec![Vec2::zero()]).unwrap();
    world.set_acceleration(Vec2::new(MAX_SPEED, 0));
    assert_eq!(world.update(2_000_000), Err(StepError::SpeedLimit));
    assert_eq!(world.get_balls()[0].velocity, Vec2::zero());
}

#[test]
fn sub_step_cap_error() {
    let side = 8 * R;
    let mut world = World::with_velocities(square_arena(side), &vec![Vec2::new(MAX_SPEED, 0)]).unwrap();
    assert_eq!(world.update(MAX_STEP), Err(StepError::TooManySubSteps));
    let b = world.get_balls()[0];
    assert!(b.circle.position.x >= R && b.circle.position.x <= side - R);
}

#[test]
fn layout_rejections() {
    assert!(World::with_velocities(square_arena(7 * R), &vec![Vec2::zero()]).is_none());
    assert!(World::with_velocities(square_arena(8 * R), &vec![Vec2::new(MAX_SPEED + 1, 0)]).is_none());
    assert!(World::with_velocities(Rect { left: 0, top: 0, width: 0, height: 8 * R }, &vec![]).is_none());
    assert!(World::new(square_arena(8 * R), 2).is_none());
}

#[test]
fn new_world_lays_out_a_grid() {
    let arena = Rect { left: 10 * R / 16, top: 150 * R / 16, width: 800 * R / 16, height: 800 * R / 16 };
    let world = World::new(arena, 120).unwrap();
    let balls = world.get_balls();
    assert_eq!(balls.len(), 120);
    // 11 columns, spaced (width − 6R) / 11
    let spacing = (arena.width - 6 * R) / 11;
    assert_eq!(balls[0].circle.position, Vec2::new(arena.left + 3 * R, arena.top + 3 * R));
    assert_eq!(balls[12].circle.position, Vec2::new(arena.left + 3 * R + spacing, arena.top + 3 * R + spacing));
    for b in balls {
        let v = b.velocity;
        assert!((v.x as i128).pow(2) + (v.y as i128).pow(2) <= (INITIAL_SPEED_CAP as i128).pow(2));
        assert_eq!(b.circle.radius, R);
    }
    let rect = world.bounding_rect();
    assert_eq!(rect, arena);
}

#[test]
fn walls_of_a_rectangle() {
    let planes = World::rect_to_planes(&Rect { left: 10, top: 20, width: 300, height: 400 });
    assert_eq!(planes[0], Plane { position: Vec2::new(10, 0), normal: Vec2::new(1, 0) });
    assert_eq!(planes[1], Plane { position: Vec2::new(310, 0), normal: Vec2::new(-1, 0) });
    assert_eq!(planes[2], Plane { position: Vec2::new(0, 20), normal: Vec2::new(0, 1) });
    assert_eq!(planes[3], Plane { position: Vec2::new(0, 420), normal: Vec2::new(0, -1) });
}
