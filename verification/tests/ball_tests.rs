use particle_grid::ball::Ball;
use particle_grid::grid::Grid;
use particle_grid::vector::{isqrt_u64, Vector};

#[test]
fn mass_is_radius_squared() {
    let b = Ball::new(5, 5, Vector::new(0, 0), 3, 1);
    assert_eq!(b.get_mass(), 9);
    assert_eq!(b.get_radius(), 3);
    assert_eq!(b.get_id(), 1);
}

#[test]
fn move_ball_integrates_exactly() {
    let mut b = Ball::new(100, 200, Vector::new(7, -3), 2, 0);
    b.move_ball(10, 1200, 600);
    assert_eq!(b.get_x(), 170);
    assert_eq!(b.get_y(), 170);
    assert_eq!(b.get_velocity(), Vector::new(7, -3));
}

#[test]
fn move_ball_with_zero_dt_leaves_position() {
    let mut b = Ball::new(100, 200, Vector::new(7, -3), 2, 0);
    b.move_ball(0, 1200, 600);
    assert_eq!(b.get_x(), 100);
    assert_eq!(b.get_y(), 200);
    assert_eq!(b.get_velocity(), Vector::new(7, -3));
}

#[test]
fn move_ball_reflects_at_left_wall() {
    // crossing below `radius` clamps there and turns the velocity inward
    let mut b = Ball::new(5, 300, Vector::new(-10, 0), 2, 0);
    b.move_ball(1, 1200, 600);
    assert_eq!(b.get_x(), 2);
    assert_eq!(b.get_velocity(), Vector::new(10, 0));
}

#[test]
fn move_ball_reflects_at_far_wall() {
    let mut b = Ball::new(1195, 300, Vector::new(10, 0), 2, 0);
    b.move_ball(1, 1200, 600);
    assert_eq!(b.get_x(), 1198);
    assert_eq!(b.get_velocity(), Vector::new(-10, 0));
}

#[test]
fn move_ball_reflects_on_both_axes() {
    let mut b = Ball::new(1, 599, Vector::new(-5, 5), 1, 0);
    b.move_ball(1, 1200, 600);
    assert_eq!(b.get_x(), 1);
    assert_eq!(b.get_y(), 599);
    assert_eq!(b.get_velocity(), Vector::new(5, -5));
}

#[test]
fn move_damped_scales_reflected_velocity() {
    // a wall impact with damping 1/2 halves the reflected speed
    let mut b = Ball::new(5, 300, Vector::new(-10, 0), 2, 0);
    b.move_damped(1, 1200, 600, 1, 2);
    assert_eq!(b.get_x(), 2);
    assert_eq!(b.get_velocity(), Vector::new(5, 0));
    // no impact leaves the velocity alone
    let mut c = Ball::new(100, 300, Vector::new(-10, 3), 2, 0);
    c.move_damped(1, 1200, 600, 1, 2);
    assert_eq!(c.get_x(), 90);
    assert_eq!(c.get_velocity(), Vector::new(-10, 3));
}

#[test]
fn collide_head_on_equal_masses_exchanges_velocities() {
    // Collision conservation: total momentum m1*v1 + m2*v2 is the same
    // before and after; with equal masses the velocities swap exactly.
    let b1 = Ball::new(0, 0, Vector::new(4, 0), 10, 1);
    let mut b2 = Ball::new(16, 0, Vector::new(-4, 0), 10, 2);
    let m1 = b1.get_mass();
    let m2 = b2.get_mass();
    let before = m1 * 4 + m2 * (-4);
    let (n1, n2) = b1.collide(&mut b2);
    assert_eq!(n1.get_velocity(), Vector::new(-4, 0));
    assert_eq!(n2.get_velocity(), Vector::new(4, 0));
    let after = m1 * n1.get_velocity().x + m2 * n2.get_velocity().x;
    assert_eq!(before, after);
    assert_eq!(before, 0);
}

#[test]
fn collide_separates_overlapping_balls() {
    // radius sum 20, distance 16: overlap 4 split by equal mass shares
    let b1 = Ball::new(0, 0, Vector::new(4, 0), 10, 1);
    let mut b2 = Ball::new(16, 0, Vector::new(-4, 0), 10, 2);
    let (n1, n2) = b1.collide(&mut b2);
    assert_eq!(n1.get_x(), -2);
    assert_eq!(n2.get_x(), 18);
    assert_eq!(n1.get_y(), 0);
    assert_eq!(n2.get_y(), 0);
}

#[test]
fn collide_at_zero_distance_is_a_no_op() {
    // Degenerate collision safety: coincident centers have no contact
    // normal, so both balls come back unchanged.
    let b1 = Ball::new(50, 50, Vector::new(3, -2), 5, 1);
    let mut b2 = Ball::new(50, 50, Vector::new(-1, 7), 5, 2);
    let (n1, n2) = b1.collide(&mut b2);
    assert_eq!(n1.get_velocity(), Vector::new(3, -2));
    assert_eq!(n2.get_velocity(), Vector::new(-1, 7));
    assert_eq!(n1.get_x(), 50);
    assert_eq!(n2.get_x(), 50);
}

#[test]
fn collide_out_of_range_is_a_no_op() {
    let b1 = Ball::new(0, 0, Vector::new(4, 0), 5, 1);
    let mut b2 = Ball::new(100, 0, Vector::new(-4, 0), 5, 2);
    let (n1, n2) = b1.collide(&mut b2);
    assert_eq!(n1.get_velocity(), Vector::new(4, 0));
    assert_eq!(n2.get_velocity(), Vector::new(-4, 0));
}

#[test]
fn collide_touching_exchanges_without_separation() {
    // distance exactly the radius sum: impulse applies, no overlap shift
    let b1 = Ball::new(0, 0, Vector::new(4, 0), 10, 1);
    let mut b2 = Ball::new(20, 0, Vector::new(-4, 0), 10, 2);
    let (n1, n2) = b1.collide(&mut b2);
    assert_eq!(n1.get_x(), 0);
    assert_eq!(n2.get_x(), 20);
    assert_eq!(n1.get_velocity(), Vector::new(-4, 0));
    assert_eq!(n2.get_velocity(), Vector::new(4, 0));
}

#[test]
fn ball_cell_lookup_matches_grid() {
    let g = Grid::new(1200, 600, 80, 40);
    let b = Ball::new(30, 30, Vector::new(0, 0), 1, 0);
    assert_eq!(b.get_cell(&g), (2, 2));
    assert_eq!(b.get_cell_id(&g), 162);
}

#[test]
fn vector_arithmetic_is_exact() {
    let a = Vector::new(3, 4);
    let b = Vector::new(-1, 2);
    assert_eq!(a.add(&b), Vector::new(2, 6));
    assert_eq!(a.subtract(&b), Vector::new(4, 2));
    assert_eq!(a.multiply(3), Vector::new(9, 12));
    assert_eq!(a.dot_product(&b), 5);
    assert_eq!(a.cross_product(&b), 10);
    assert_eq!(a.get_magnitude(), 5);
}

#[test]
fn vector_divide_truncates_toward_zero() {
    let a = Vector::new(-7, 7);
    assert_eq!(a.divide(2), Vector::new(-3, 3));
    assert_eq!(a.divide(-2), Vector::new(3, -3));
}

#[test]
fn integer_square_root_brackets() {
    assert_eq!(isqrt_u64(0), 0);
    assert_eq!(isqrt_u64(1), 1);
    assert_eq!(isqrt_u64(255), 15);
    assert_eq!(isqrt_u64(256), 16);
    assert_eq!(isqrt_u64(u64::MAX), 0xFFFF_FFFF);
}
