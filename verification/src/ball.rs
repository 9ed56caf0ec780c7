//! A moving, colliding entity: position, velocity, radius, derived mass and
//! a stable identity.
//!
//! Positions, velocities and radii are integers in the same fixed sub-pixel
//! unit as the grid, so integration, boundary reflection and collision
//! resolution have exact contracts. The mass is the squared radius; the
//! uniform area factor of a disc cancels out of every mass ratio the
//! collision formulas use, so it is not carried.

use vstd::prelude::*;
use crate::grid::Grid;
use crate::vector::{abs_int, div_trunc, isqrt_u64, sqrt_floor, Vector};
use vstd::arithmetic::div_mod::{lemma_div_is_ordered, lemma_div_multiples_vanish};
use vstd::arithmetic::mul::lemma_mul_is_commutative;

verus! {

/// Largest radius an entity may have.
pub const MAX_RADIUS: i64 = 0x10_0000;

/// Largest speed (per axis) at which a collision may be resolved.
pub const MAX_VEL: i64 = 0x100_0000;

/// Largest speed (per axis) a well-formed entity may reach; one collision
/// resolution starting below `MAX_VEL` stays far below this.
pub const VEL_BOUND: i64 = 0x4000_0000;

/// Largest extent of the simulation area on either axis.
pub const AREA_BOUND: i64 = 0x1_0000_0000;

/// Largest coordinate (per axis) at which a collision may be resolved.
pub const COLLIDE_POS_BOUND: i64 = 0x1_1000_0000;

/// Largest coordinate a well-formed entity may reach.
pub const MAX_COORD: i64 = 0x2_0000_0000;

/// One axis of an integration step: the position advances by
/// `velocity * dt`; if it then lies before `r` the entity is clamped to `r`
/// and the velocity is turned inward (made positive); if it lies beyond
/// `bound - r` it is clamped there and the velocity is turned inward (made
/// negative). Returns the new `(position, velocity)` for the axis.
pub open spec fn reflect_axis(p: int, v: int, dt: int, r: int, bound: int) -> (int, int) {
    let moved = p + v * dt;
    if moved < r {
        (r, abs_int(v))
    } else if moved > bound - r {
        (bound - r, -abs_int(v))
    } else {
        (moved, v)
    }
}

/// One axis of a damped integration step: as `reflect_axis`, except that
/// a reflected velocity is scaled by `num / den` (truncating), so that
/// repeated wall impacts dissipate energy.
pub open spec fn reflect_axis_damped(
    p: int,
    v: int,
    dt: int,
    r: int,
    bound: int,
    num: int,
    den: int,
) -> (int, int) {
    let moved = p + v * dt;
    if moved < r {
        (r, abs_int(v) * num / den)
    } else if moved > bound - r {
        (bound - r, -(abs_int(v) * num / den))
    } else {
        (moved, v)
    }
}

/// The velocity change of a collision along one axis: the exact elastic
/// impulse `2 * m_other / m_total * dot / d2 * dc`, evaluated as two
/// divisions truncating toward zero. `dot` is the dot product of the
/// relative velocity with the center difference, `d2` the squared center
/// distance, and `dc` the center difference along this axis.
pub open spec fn collide_delta(m_other: int, m_total: int, dot: int, dc: int, d2: int) -> int {
    div_trunc(div_trunc(2 * m_other * dot, m_total) * dc, d2)
}

/// The position correction of an overlapping collision along one axis:
/// `overlap * dc / dist * m_other / m_total` evaluated as one truncating
/// division, moving the entity along the contact normal in proportion to
/// the other entity's share of the total mass.
pub open spec fn separation_shift(
    overlap: int,
    dc: int,
    m_other: int,
    dist: int,
    m_total: int,
) -> int {
    div_trunc(overlap * dc * m_other, dist * m_total)
}

/// A ball: a disc of radius `radius` at `(x, y)`, moving at `velocity`,
/// with mass `radius * radius` and a stable id.
#[derive(Clone, Copy, PartialEq, Eq, Structural, Debug)]
pub struct Ball {
    pub x: i64,
    pub y: i64,
    pub velocity: Vector,
    pub radius: i64,
    pub mass: i64,
    pub id: i32,
}

impl Ball {
    /// Well-formedness: the mass is the squared radius, and every field is
    /// far from the machine limits.
    pub open spec fn wf(self) -> bool {
        &&& 0 <= self.radius <= MAX_RADIUS
        &&& self.mass == self.radius * self.radius
        &&& -MAX_COORD <= self.x <= MAX_COORD
        &&& -MAX_COORD <= self.y <= MAX_COORD
        &&& -VEL_BOUND <= self.velocity.x <= VEL_BOUND
        &&& -VEL_BOUND <= self.velocity.y <= VEL_BOUND
    }

    /// Whether the entity is in the state in which a collision may be
    /// resolved: position within the area (plus a drift margin) and speed
    /// within `MAX_VEL`.
    pub open spec fn collidable(self) -> bool {
        &&& self.wf()
        &&& -COLLIDE_POS_BOUND <= self.x <= COLLIDE_POS_BOUND
        &&& -COLLIDE_POS_BOUND <= self.y <= COLLIDE_POS_BOUND
        &&& -MAX_VEL <= self.velocity.x <= MAX_VEL
        &&& -MAX_VEL <= self.velocity.y <= MAX_VEL
    }

    pub fn new(x: i64, y: i64, velocity: Vector, radius: i64, id: i32) -> (b: Ball)
        requires
            0 <= radius <= MAX_RADIUS,
            -MAX_COORD <= x <= MAX_COORD,
            -MAX_COORD <= y <= MAX_COORD,
            -VEL_BOUND <= velocity.x <= VEL_BOUND,
            -VEL_BOUND <= velocity.y <= VEL_BOUND,
        ensures
            b.wf(),
            b.x == x && b.y == y && b.velocity == velocity && b.radius == radius && b.id == id,
            b.mass == radius * radius,
    {
        proof {
            assert(radius * radius <= MAX_RADIUS * MAX_RADIUS) by (nonlinear_arith)
                requires
                    0 <= radius <= MAX_RADIUS,
            ;
        }
        Ball { x, y, velocity, radius, mass: radius * radius, id }
    }

    /// One integration step with boundary reflection, on the area
    /// `[0, width] x [0, height]`: the position advances by
    /// `velocity * dt`; a coordinate crossing `[radius, bound - radius]` is
    /// clamped to the boundary and the velocity component on that axis is
    /// turned inward.
    pub fn move_ball(&mut self, dt: i64, width: u64, height: u64)
        requires
            old(self).wf(),
            0 <= dt <= 0x100,
            0 < width <= AREA_BOUND,
            0 < height <= AREA_BOUND,
        ensures
            final(self).wf(),
            (final(self).x as int, final(self).velocity.x as int) == reflect_axis(
                old(self).x as int,
                old(self).velocity.x as int,
                dt as int,
                old(self).radius as int,
                width as int,
            ),
            (final(self).y as int, final(self).velocity.y as int) == reflect_axis(
                old(self).y as int,
                old(self).velocity.y as int,
                dt as int,
                old(self).radius as int,
                height as int,
            ),
            final(self).radius == old(self).radius,
            final(self).mass == old(self).mass,
            final(self).id == old(self).id,
            -MAX_RADIUS <= final(self).x <= AREA_BOUND,
            -MAX_RADIUS <= final(self).y <= AREA_BOUND,
    {
        proof {
            let vx = self.velocity.x as int;
            let vy = self.velocity.y as int;
            assert(abs_int(vx * dt as int) <= 0x4000_0000 * 0x100 && abs_int(vy * dt as int)
                <= 0x4000_0000 * 0x100) by (nonlinear_arith)
                requires
                    -0x4000_0000 <= vx <= 0x4000_0000,
                    -0x4000_0000 <= vy <= 0x4000_0000,
                    0 <= dt <= 0x100,
            ;
        }
        self.x = self.x + self.velocity.x * dt;
        self.y = self.y + self.velocity.y * dt;

        if self.x < self.radius {
            self.x = self.radius;
            self.velocity.x = abs_i64(self.velocity.x);
        } else if self.x > width as i64 - self.radius {
            self.x = width as i64 - self.radius;
            self.velocity.x = -abs_i64(self.velocity.x);
        }
        if self.y < self.radius {
            self.y = self.radius;
            self.velocity.y = abs_i64(self.velocity.y);
        } else if self.y > height as i64 - self.radius {
            self.y = height as i64 - self.radius;
            self.velocity.y = -abs_i64(self.velocity.y);
        }
    }

    /// One integration step with damped boundary reflection: as
    /// `move_ball`, except that a velocity component turned inward by a
    /// wall is also scaled by `damp_num / damp_den` (at most one), so
    /// repeated impacts dissipate energy.
    pub fn move_damped(&mut self, dt: i64, width: u64, height: u64, damp_num: i64, damp_den: i64)
        requires
            old(self).wf(),
            0 <= dt <= 0x100,
            0 < width <= AREA_BOUND,
            0 < height <= AREA_BOUND,
            0 <= damp_num <= damp_den,
            1 <= damp_den <= 0x100,
        ensures
            final(self).wf(),
            (final(self).x as int, final(self).velocity.x as int) == reflect_axis_damped(
                old(self).x as int,
                old(self).velocity.x as int,
                dt as int,
                old(self).radius as int,
                width as int,
                damp_num as int,
                damp_den as int,
            ),
            (final(self).y as int, final(self).velocity.y as int) == reflect_axis_damped(
                old(self).y as int,
                old(self).velocity.y as int,
                dt as int,
                old(self).radius as int,
                height as int,
                damp_num as int,
                damp_den as int,
            ),
            final(self).radius == old(self).radius,
            final(self).mass == old(self).mass,
            final(self).id == old(self).id,
            -MAX_RADIUS <= final(self).x <= AREA_BOUND,
            -MAX_RADIUS <= final(self).y <= AREA_BOUND,
    {
        proof {
            let vx = self.velocity.x as int;
            let vy = self.velocity.y as int;
            assert(abs_int(vx * dt as int) <= 0x4000_0000 * 0x100 && abs_int(vy * dt as int)
                <= 0x4000_0000 * 0x100) by (nonlinear_arith)
                requires
                    -0x4000_0000 <= vx <= 0x4000_0000,
                    -0x4000_0000 <= vy <= 0x4000_0000,
                    0 <= dt <= 0x100,
            ;
        }
        self.x = self.x + self.velocity.x * dt;
        self.y = self.y + self.velocity.y * dt;

        if self.x < self.radius {
            self.x = self.radius;
            self.velocity.x = damp_magnitude(self.velocity.x, damp_num, damp_den);
        } else if self.x > width as i64 - self.radius {
            self.x = width as i64 - self.radius;
            self.velocity.x = -damp_magnitude(self.velocity.x, damp_num, damp_den);
        }
        if self.y < self.radius {
            self.y = self.radius;
            self.velocity.y = damp_magnitude(self.velocity.y, damp_num, damp_den);
        } else if self.y > height as i64 - self.radius {
            self.y = height as i64 - self.radius;
            self.velocity.y = -damp_magnitude(self.velocity.y, damp_num, damp_den);
        }
    }

    /// The grid coordinates of the cell containing this ball's center.
    pub fn get_cell(&self, grid: &Grid) -> (c: (u64, u64))
        requires
            grid.wf(),
        ensures
            c.0 == crate::grid::cell_coord(self.x as int, grid.width as int, grid.cells_x as int),
            c.1 == crate::grid::cell_coord(self.y as int, grid.height as int, grid.cells_y as int),
            c.0 < grid.cells_x,
            c.1 < grid.cells_y,
    {
        grid.pos_to_grid(self.x, self.y)
    }

    /// The cell id of the cell containing this ball's center, always within
    /// `[0, grid.num_cells())`.
    pub fn get_cell_id(&self, grid: &Grid) -> (id: u64)
        requires
            grid.wf(),
        ensures
            id == grid.spec_cell_id_of(self.x as int, self.y as int),
            id < grid.num_cells(),
    {
        grid.pos_to_grid_index(self.x, self.y)
    }

    pub fn get_id(&self) -> (id: i32)
        ensures
            id == self.id,
    {
        self.id
    }

    pub fn get_x(&self) -> (x: i64)
        ensures
            x == self.x,
    {
        self.x
    }

    pub fn get_y(&self) -> (y: i64)
        ensures
            y == self.y,
    {
        self.y
    }

    pub fn get_radius(&self) -> (r: i64)
        ensures
            r == self.radius,
    {
        self.radius
    }

    pub fn get_mass(&self) -> (m: i64)
        ensures
            m == self.mass,
    {
        self.mass
    }

    pub fn get_velocity(&self) -> (v: Vector)
        ensures
            v == self.velocity,
    {
        self.velocity.clone()
    }

    pub fn set_x(&mut self, x: i64)
        ensures
            *final(self) == (Ball { x, ..*old(self) }),
    {
        self.x = x;
    }

    pub fn set_y(&mut self, y: i64)
        ensures
            *final(self) == (Ball { y, ..*old(self) }),
    {
        self.y = y;
    }

    pub fn set_velocity(&mut self, velocity: Vector)
        ensures
            *final(self) == (Ball { velocity, ..*old(self) }),
    {
        self.velocity = velocity;
    }

    /// Resolves a collision between this ball and `other`, returning the
    /// updated pair and leaving the second in `other`.
    ///
    /// Balls whose centers are at distance at most the radius sum exchange
    /// an elastic impulse along the contact normal, weighted by mass;
    /// strictly overlapping balls are additionally separated along the
    /// normal in proportion to the other ball's mass share. Coincident
    /// centers (squared distance zero) have no contact normal and are a
    /// defined no-op, as are separated balls.
    #[verifier::rlimit(80)]
    pub fn collide(self, other: &mut Ball) -> (r: (Ball, Ball))
        requires
            self.collidable(),
            old(other).collidable(),
        ensures
            *final(other) == r.1,
            collide_post(self, *old(other), r.0, r.1),
            self.x == old(other).x && self.y == old(other).y ==> r.0 == self && r.1 == *old(
                other,
            ),
            r.0.wf(),
            r.1.wf(),
    {
        proof {
            let mb = MAX_RADIUS as int * MAX_RADIUS as int;
            let sm = self.mass as int;
            let sr = self.radius as int;
            let om = other.mass as int;
            let orad = other.radius as int;
            assert(0 <= sm <= mb && 0 <= om <= mb && mb == 0x100_0000_0000) by (nonlinear_arith)
                requires
                    sm == sr * sr,
                    om == orad * orad,
                    0 <= sr <= 0x10_0000,
                    0 <= orad <= 0x10_0000,
                    mb == 0x10_0000 * 0x10_0000,
            ;
        }
        let dx: i64 = self.x - other.x;
        let dy: i64 = self.y - other.y;
        proof {
            let b = 2 * COLLIDE_POS_BOUND as int;
            assert(dx as int * dx as int + dy as int * dy as int <= 2 * (b * b)
                && dx as int * dx as int >= 0 && dy as int * dy as int >= 0) by (nonlinear_arith)
                requires
                    -b <= dx as int <= b,
                    -b <= dy as int <= b,
                    b == 2 * COLLIDE_POS_BOUND as int,
            ;
        }
        let d2: i128 = (dx as i128) * (dx as i128) + (dy as i128) * (dy as i128);
        proof {
            assert(dx as int == 0 && dy as int == 0 ==> dx as int * dx as int + dy as int
                * dy as int == 0) by (nonlinear_arith);
        }
        let rsum: i64 = self.radius + other.radius;
        if d2 == 0 {
            return (self, other.clone());
        }
        proof {
            assert(rsum as int * rsum as int <= 0x400_0000_0000 && rsum as int * rsum as int >= 0)
                by (nonlinear_arith)
                requires
                    0 <= rsum as int <= 0x20_0000,
            ;
        }
        if d2 > (rsum as i128) * (rsum as i128) {
            return (self, other.clone());
        }
        // Touching or overlapping, at a positive distance: the radius sum
        // is at least one, so at least one radius, hence one mass, is
        // positive.
        let mt: i64 = self.mass + other.mass;
        proof {
            let sm = self.mass as int;
            let sr = self.radius as int;
            let om = other.mass as int;
            let orad = other.radius as int;
            assert(rsum as int >= 1) by (nonlinear_arith)
                requires
                    rsum as int * rsum as int >= 1,
                    rsum as int >= 0,
            ;
            assert(sm >= 1 || om >= 1) by (nonlinear_arith)
                requires
                    sm == sr * sr,
                    om == orad * orad,
                    sr >= 1 || orad >= 1,
            ;
        }
        let dvx: i64 = self.velocity.x - other.velocity.x;
        let dvy: i64 = self.velocity.y - other.velocity.y;
        proof {
            let vb = 2 * MAX_VEL as int;
            let pb = 2 * COLLIDE_POS_BOUND as int;
            assert(-(vb * pb) <= dvx as int * dx as int <= vb * pb && -(vb * pb) <= dvy as int
                * dy as int <= vb * pb) by (nonlinear_arith)
                requires
                    -vb <= dvx as int <= vb,
                    -vb <= dvy as int <= vb,
                    -pb <= dx as int <= pb,
                    -pb <= dy as int <= pb,
                    0 <= vb,
                    0 <= pb,
            ;
        }
        let dot: i128 = (dvx as i128) * (dx as i128) + (dvy as i128) * (dy as i128);
        let ghost doti = dot as int;
        let ghost d2i = d2 as int;
        let ghost mti = mt as int;
        proof {
            let mb = MAX_RADIUS as int * MAX_RADIUS as int;
            let sm = self.mass as int;
            let om = other.mass as int;
            let adot = abs_int(doti);
            assert(-(4 * mb * adot) <= 2 * om * doti <= 4 * mb * adot && -(4 * mb * adot) <= 2 * sm
                * doti <= 4 * mb * adot) by (nonlinear_arith)
                requires
                    0 <= om <= 2 * mb,
                    0 <= sm <= 2 * mb,
                    -adot <= doti <= adot,
                    0 <= adot,
                    0 <= mb,
            ;
        }
        let a1: i128 = div_i128_trunc(2 * (other.mass as i128) * dot, mt as i128);
        let a2: i128 = div_i128_trunc(2 * (self.mass as i128) * dot, mt as i128);
        proof {
            lemma_scaled_dot_bound(other.mass as int, mti, doti);
            lemma_scaled_dot_bound(self.mass as int, mti, doti);
            let ab = 2 * abs_int(doti);
            let pb = 2 * COLLIDE_POS_BOUND as int;
            assert(-(ab * pb) <= a1 as int * dx as int <= ab * pb && -(ab * pb) <= a1 as int
                * dy as int <= ab * pb && -(ab * pb) <= a2 as int * dx as int <= ab * pb && -(ab
                * pb) <= a2 as int * dy as int <= ab * pb) by (nonlinear_arith)
                requires
                    -ab <= a1 as int <= ab,
                    -ab <= a2 as int <= ab,
                    -pb <= dx as int <= pb,
                    -pb <= dy as int <= pb,
                    0 <= ab,
                    0 <= pb,
            ;
        }
        let q1x: i128 = div_i128_trunc(a1 * (dx as i128), d2);
        let q1y: i128 = div_i128_trunc(a1 * (dy as i128), d2);
        let q2x: i128 = div_i128_trunc(a2 * (dx as i128), d2);
        let q2y: i128 = div_i128_trunc(a2 * (dy as i128), d2);
        proof {
            lemma_collide_delta_bound(
                dvx as int,
                dvy as int,
                dx as int,
                dy as int,
                other.mass as int,
                mti,
            );
            lemma_collide_delta_bound(
                dvy as int,
                dvx as int,
                dy as int,
                dx as int,
                other.mass as int,
                mti,
            );
            lemma_collide_delta_bound(
                dvx as int,
                dvy as int,
                dx as int,
                dy as int,
                self.mass as int,
                mti,
            );
            lemma_collide_delta_bound(
                dvy as int,
                dvx as int,
                dy as int,
                dx as int,
                self.mass as int,
                mti,
            );
        }
        let mut c1 = self;
        let mut c2 = other.clone();
        c1.velocity.x = c1.velocity.x - (q1x as i64);
        c1.velocity.y = c1.velocity.y - (q1y as i64);
        c2.velocity.x = c2.velocity.x + (q2x as i64);
        c2.velocity.y = c2.velocity.y + (q2y as i64);

        if d2 < (rsum as i128) * (rsum as i128) {
            let dist_u: u64 = isqrt_u64(d2 as u64);
            proof {
                assert(dist_u <= 0x20_0000) by (nonlinear_arith)
                    requires
                        dist_u as int * dist_u as int <= d2i,
                        d2i <= 0x400_0000_0000,
                ;
            }
            let dist: i64 = dist_u as i64;
            proof {
                assert(dist as int * dist as int <= d2i && d2i < (dist as int + 1) * (dist as int
                    + 1));
                assert(dist < rsum) by (nonlinear_arith)
                    requires
                        dist as int * dist as int <= d2i,
                        d2i < rsum as int * rsum as int,
                        0 <= dist,
                        0 <= rsum,
                ;
                assert(-(dist as int) <= dx as int <= dist as int && -(dist as int) <= dy as int
                    <= dist as int) by (nonlinear_arith)
                    requires
                        d2i == dx as int * dx as int + dy as int * dy as int,
                        d2i < (dist as int + 1) * (dist as int + 1),
                        0 <= dist,
                ;
            }
            let overlap: i64 = rsum - dist;
            proof {
                lemma_separation_fits(
                    overlap as int,
                    dx as int,
                    dy as int,
                    other.mass as int,
                    self.mass as int,
                    dist as int,
                    mti,
                );
            }
            let dist_mt: i128 = (dist as i128) * (mt as i128);
            let s1x: i128 = div_i128_trunc(
                (overlap as i128) * (dx as i128) * (other.mass as i128),
                dist_mt,
            );
            let s1y: i128 = div_i128_trunc(
                (overlap as i128) * (dy as i128) * (other.mass as i128),
                dist_mt,
            );
            let s2x: i128 = div_i128_trunc(
                (overlap as i128) * (dx as i128) * (self.mass as i128),
                dist_mt,
            );
            let s2y: i128 = div_i128_trunc(
                (overlap as i128) * (dy as i128) * (self.mass as i128),
                dist_mt,
            );
            c1.x = c1.x + (s1x as i64);
            c1.y = c1.y + (s1y as i64);
            c2.x = c2.x - (s2x as i64);
            c2.y = c2.y - (s2y as i64);
        }
        *other = c2;
        (c1, c2)
    }

    pub fn clone(&self) -> (b: Ball)
        ensures
            b == *self,
    {
        Ball {
            x: self.x,
            y: self.y,
            velocity: self.velocity.clone(),
            radius: self.radius,
            mass: self.mass,
            id: self.id,
        }
    }
}

/// What `collide` computes, as a relation between the two balls before the
/// call and the two returned afterwards. With `dx, dy` the center
/// difference, `d2` its squared length, `rsum` the radius sum, `mt` the
/// total mass and `dot` the dot product of the relative velocity with the
/// center difference:
///
/// - coincident centers (`d2 == 0`) are a defined no-op: there is no
///   contact normal, and both balls come back unchanged;
/// - separated balls (`d2 > rsum * rsum`) come back unchanged;
/// - touching or overlapping balls exchange the elastic impulse
///   `collide_delta` along the contact normal, weighted by the other
///   ball's mass share; overlapping balls (`d2 < rsum * rsum`) are
///   additionally pushed apart by `separation_shift` along the normal,
///   each by the other's share of the total mass.
pub open spec fn collide_post(b1: Ball, b2: Ball, c1: Ball, c2: Ball) -> bool {
    let dx = b1.x - b2.x;
    let dy = b1.y - b2.y;
    let d2 = dx * dx + dy * dy;
    let rsum = b1.radius + b2.radius;
    if d2 == 0 || d2 > rsum * rsum {
        c1 == b1 && c2 == b2
    } else {
        let mt = b1.mass + b2.mass;
        let dvx = b1.velocity.x - b2.velocity.x;
        let dvy = b1.velocity.y - b2.velocity.y;
        let dot = dvx * dx + dvy * dy;
        &&& c1.radius == b1.radius && c1.mass == b1.mass && c1.id == b1.id
        &&& c2.radius == b2.radius && c2.mass == b2.mass && c2.id == b2.id
        &&& c1.velocity.x == b1.velocity.x - collide_delta(b2.mass as int, mt, dot, dx, d2)
        &&& c1.velocity.y == b1.velocity.y - collide_delta(b2.mass as int, mt, dot, dy, d2)
        &&& c2.velocity.x == b2.velocity.x + collide_delta(b1.mass as int, mt, dot, dx, d2)
        &&& c2.velocity.y == b2.velocity.y + collide_delta(b1.mass as int, mt, dot, dy, d2)
        &&& if d2 < rsum * rsum {
            let dist = sqrt_floor(d2 as nat) as int;
            let overlap = rsum - dist;
            &&& c1.x == b1.x + separation_shift(overlap, dx, b2.mass as int, dist, mt)
            &&& c1.y == b1.y + separation_shift(overlap, dy, b2.mass as int, dist, mt)
            &&& c2.x == b2.x - separation_shift(overlap, dx, b1.mass as int, dist, mt)
            &&& c2.y == b2.y - separation_shift(overlap, dy, b1.mass as int, dist, mt)
        } else {
            &&& c1.x == b1.x && c1.y == b1.y
            &&& c2.x == b2.x && c2.y == b2.y
        }
    }
}

/// The exact elastic impulse conserves momentum: over the common
/// denominator `(m1 + m2) * d2`, ball 1's momentum change
/// `m1 * (-(2 * m2 * dot * dc))` and ball 2's `m2 * (2 * m1 * dot * dc)`
/// cancel on each axis. The executable `collide` evaluates these impulses
/// with division truncating toward zero; that truncation, below one
/// velocity unit per division, is the only deviation from exact
/// conservation.
pub proof fn lemma_elastic_impulse_conserves_momentum(m1: int, m2: int, dot: int, dc: int)
    ensures
        m1 * (-(2 * m2 * dot * dc)) + m2 * (2 * m1 * dot * dc) == 0,
{
    assert(m1 * (-(2 * m2 * dot * dc)) + m2 * (2 * m1 * dot * dc) == 0) by (nonlinear_arith);
}

/// A truncating quotient leaves a remainder smaller in magnitude than the
/// divisor: `|p - div_trunc(p, q) * q| <= q - 1` for `q >= 1`.
proof fn lemma_div_trunc_rem(p: int, q: int)
    requires
        1 <= q,
    ensures
        -(q - 1) <= p - div_trunc(p, q) * q <= q - 1,
{
    vstd::arithmetic::div_mod::lemma_fundamental_div_mod(abs_int(p), q);
    vstd::arithmetic::div_mod::lemma_mod_division_less_than_divisor(abs_int(p), q);
    let a = abs_int(p) / q;
    assert(abs_int(p) == q * a + abs_int(p) % q);
    if p >= 0 {
        assert(div_trunc(p, q) == a);
        assert(a * q == q * a) by (nonlinear_arith);
    } else {
        assert(div_trunc(p, q) == -a);
        assert((-a) * q == -(q * a)) by (nonlinear_arith);
    }
}

/// Momentum conservation of the executable collision, up to truncation:
/// the two momentum changes `m1 * collide_delta(m2, ..)` and
/// `m2 * collide_delta(m1, ..)` differ by at most `2 * (m1 + m2)` on each
/// axis — at most two velocity units per ball, whatever the geometry.
/// (The exact impulses cancel; each of the two truncating divisions loses
/// less than one unit.)
#[verifier::rlimit(100)]
pub proof fn lemma_collide_momentum_error(m1: int, m2: int, dot: int, dc: int, d2: int)
    requires
        0 <= m1,
        0 <= m2,
        1 <= m1 + m2,
        1 <= d2,
        -d2 <= dc <= d2,
    ensures
        abs_int(
            m1 * collide_delta(m2, m1 + m2, dot, dc, d2) - m2 * collide_delta(
                m1,
                m1 + m2,
                dot,
                dc,
                d2,
            ),
        ) <= 2 * (m1 + m2),
{
    let mt = m1 + m2;
    let a1 = div_trunc(2 * m2 * dot, mt);
    let a2 = div_trunc(2 * m1 * dot, mt);
    let q1 = div_trunc(a1 * dc, d2);
    let q2 = div_trunc(a2 * dc, d2);
    lemma_div_trunc_rem(2 * m2 * dot, mt);
    lemma_div_trunc_rem(2 * m1 * dot, mt);
    lemma_div_trunc_rem(a1 * dc, d2);
    lemma_div_trunc_rem(a2 * dc, d2);
    let r1 = 2 * m2 * dot - a1 * mt;
    let r2 = 2 * m1 * dot - a2 * mt;
    let s1 = a1 * dc - q1 * d2;
    let s2 = a2 * dc - q2 * d2;
    // The scaled dot products agree exactly, so the first-stage results
    // differ only by the division remainders:
    // (m1 * a1 - m2 * a2) * mt == m2 * r2 - m1 * r1.
    assert(m1 * r1 == m1 * (2 * m2 * dot) - m1 * (a1 * mt)) by (nonlinear_arith)
        requires
            r1 == 2 * m2 * dot - a1 * mt,
    ;
    assert(m2 * r2 == m2 * (2 * m1 * dot) - m2 * (a2 * mt)) by (nonlinear_arith)
        requires
            r2 == 2 * m1 * dot - a2 * mt,
    ;
    assert(m1 * (2 * m2 * dot) == m2 * (2 * m1 * dot)) by (nonlinear_arith);
    assert((m1 * a1) * mt == m1 * (a1 * mt)) by (nonlinear_arith);
    assert((m2 * a2) * mt == m2 * (a2 * mt)) by (nonlinear_arith);
    assert((m1 * a1 - m2 * a2) * mt == (m1 * a1) * mt - (m2 * a2) * mt) by (nonlinear_arith);
    assert((m1 * a1 - m2 * a2) * mt == m2 * r2 - m1 * r1);
    assert(-(mt - 1) * (m1 + m2) <= m2 * r2 - m1 * r1 <= (mt - 1) * (m1 + m2))
        by (nonlinear_arith)
        requires
            -(mt - 1) <= r1 <= mt - 1,
            -(mt - 1) <= r2 <= mt - 1,
            0 <= m1,
            0 <= m2,
            mt == m1 + m2,
    ;
    assert(-(mt - 1) <= m1 * a1 - m2 * a2 <= mt - 1) by (nonlinear_arith)
        requires
            (m1 * a1 - m2 * a2) * mt == m2 * r2 - m1 * r1,
            -(mt - 1) * mt <= m2 * r2 - m1 * r1 <= (mt - 1) * mt,
            1 <= mt,
    ;
    // The second stage scales both by the same axis component and loses
    // at most one more unit each.
    assert(m1 * s1 == m1 * (a1 * dc) - m1 * (q1 * d2)) by (nonlinear_arith)
        requires
            s1 == a1 * dc - q1 * d2,
    ;
    assert(m2 * s2 == m2 * (a2 * dc) - m2 * (q2 * d2)) by (nonlinear_arith)
        requires
            s2 == a2 * dc - q2 * d2,
    ;
    assert((m1 * q1) * d2 == m1 * (q1 * d2)) by (nonlinear_arith);
    assert((m2 * q2) * d2 == m2 * (q2 * d2)) by (nonlinear_arith);
    assert((m1 * a1) * dc == m1 * (a1 * dc)) by (nonlinear_arith);
    assert((m2 * a2) * dc == m2 * (a2 * dc)) by (nonlinear_arith);
    assert((m1 * q1 - m2 * q2) * d2 == (m1 * q1) * d2 - (m2 * q2) * d2) by (nonlinear_arith);
    assert((m1 * a1 - m2 * a2) * dc == (m1 * a1) * dc - (m2 * a2) * dc) by (nonlinear_arith);
    assert((m1 * q1 - m2 * q2) * d2 == (m1 * a1 - m2 * a2) * dc - (m1 * s1 - m2 * s2));
    assert(-(2 * mt) * d2 <= (m1 * q1 - m2 * q2) * d2 <= (2 * mt) * d2) by (nonlinear_arith)
        requires
            (m1 * q1 - m2 * q2) * d2 == (m1 * a1 - m2 * a2) * dc - (m1 * s1 - m2 * s2),
            -(mt - 1) <= m1 * a1 - m2 * a2 <= mt - 1,
            -d2 <= dc <= d2,
            -(d2 - 1) <= s1 <= d2 - 1,
            -(d2 - 1) <= s2 <= d2 - 1,
            0 <= m1,
            0 <= m2,
            mt == m1 + m2,
            1 <= d2,
    ;
    assert(-(2 * mt) <= m1 * q1 - m2 * q2 <= 2 * mt) by (nonlinear_arith)
        requires
            -(2 * mt) * d2 <= (m1 * q1 - m2 * q2) * d2 <= (2 * mt) * d2,
            1 <= d2,
    ;
}

/// Division by a larger positive number keeps a quotient below the scaling
/// factor: `0 <= p <= c * q` with `q >= 1` gives `p / q <= c`.
proof fn lemma_div_le(p: int, c: int, q: int)
    requires
        1 <= q,
        0 <= p,
        0 <= c,
        p <= c * q,
    ensures
        p / q <= c,
{
    lemma_mul_is_commutative(c, q);
    lemma_div_is_ordered(p, q * c, q);
    lemma_div_multiples_vanish(c, q);
}

/// The magnitude of a truncating quotient with a positive divisor is the
/// magnitude of the dividend divided by the divisor.
proof fn lemma_div_trunc_abs(p: int, q: int)
    requires
        1 <= q,
    ensures
        abs_int(div_trunc(p, q)) == abs_int(p) / q,
        0 <= abs_int(p) / q,
{
    vstd::arithmetic::div_mod::lemma_div_pos_is_pos(abs_int(p), q);
}

/// The inner division of `collide_delta` keeps the scaled dot product
/// below twice its magnitude, because the mass ratio is at most one.
proof fn lemma_scaled_dot_bound(mo: int, mt: int, dot: int)
    requires
        0 <= mo <= mt,
        1 <= mt,
    ensures
        abs_int(div_trunc(2 * mo * dot, mt)) <= 2 * abs_int(dot),
{
    let adot = abs_int(dot);
    assert(-(2 * adot * mt) <= 2 * mo * dot <= 2 * adot * mt) by (nonlinear_arith)
        requires
            0 <= mo <= mt,
            -adot <= dot <= adot,
            0 <= adot,
    ;
    lemma_div_trunc_abs(2 * mo * dot, mt);
    lemma_div_le(abs_int(2 * mo * dot), 2 * adot, mt);
}

/// The full impulse along one axis is bounded by the relative velocity:
/// `|collide_delta| <= 2 |u| + |w|`, where `u` is the relative velocity
/// component on this axis and `w` the one on the other axis. The center
/// difference drops out entirely: `|dc * dc| <= d2` and
/// `2 |dc * do2| <= d2`.
proof fn lemma_collide_delta_bound(u: int, w: int, dc: int, do2: int, mo: int, mt: int)
    requires
        0 <= mo <= mt,
        1 <= mt,
        dc * dc + do2 * do2 >= 1,
    ensures
        abs_int(
            collide_delta(mo, mt, u * dc + w * do2, dc, dc * dc + do2 * do2),
        ) <= 2 * abs_int(u) + abs_int(w),
{
    let dot = u * dc + w * do2;
    let d2 = dc * dc + do2 * do2;
    let au = abs_int(u);
    let aw = abs_int(w);
    let adc = abs_int(dc);
    let ado = abs_int(do2);
    assert(-(au * adc + aw * ado) <= dot <= au * adc + aw * ado) by (nonlinear_arith)
        requires
            dot == u * dc + w * do2,
            -au <= u <= au,
            -aw <= w <= aw,
            -adc <= dc <= adc,
            -ado <= do2 <= ado,
            0 <= au && 0 <= aw && 0 <= adc && 0 <= ado,
    ;
    let adot = abs_int(dot);
    lemma_scaled_dot_bound(mo, mt, dot);
    let a = div_trunc(2 * mo * dot, mt);
    let aa = abs_int(a);
    assert(-(aa * adc) <= a * dc <= aa * adc) by (nonlinear_arith)
        requires
            -aa <= a <= aa,
            -adc <= dc <= adc,
            0 <= aa && 0 <= adc,
    ;
    assert(aa * adc <= (2 * au + aw) * d2) by (nonlinear_arith)
        requires
            aa <= 2 * adot,
            adot <= au * adc + aw * ado,
            d2 == dc * dc + do2 * do2,
            (adc == dc || adc == -dc),
            (ado == do2 || ado == -do2),
            0 <= au && 0 <= aw && 0 <= adc && 0 <= ado && 0 <= adot && 0 <= aa,
    ;
    lemma_div_trunc_abs(a * dc, d2);
    lemma_div_le(abs_int(a * dc), 2 * au + aw, d2);
}

/// Every separation shift is bounded by the overlap itself: the axis
/// component is at most the distance and the mass share at most one, so
/// the numerator is at most `overlap * (dist * mt)`. Also bounds the
/// intermediate products, so the shifts can be evaluated in fixed-width
/// arithmetic.
proof fn lemma_separation_fits(
    overlap: int,
    dx: int,
    dy: int,
    m2: int,
    m1: int,
    dist: int,
    mt: int,
)
    requires
        1 <= dist <= 0x20_0000,
        1 <= mt <= 0x200_0000_0000,
        0 <= overlap <= 0x20_0000,
        -dist <= dx <= dist,
        -dist <= dy <= dist,
        0 <= m1 <= mt,
        0 <= m2 <= mt,
    ensures
        1 <= dist * mt <= 0x4000_0000_0000_0000,
        0 <= overlap * dist <= 0x10_0000_0000_0000,
        -(overlap * dist) <= overlap * dx <= overlap * dist,
        -(overlap * dist) <= overlap * dy <= overlap * dist,
        -(overlap * (dist * mt)) <= (overlap * dx) * m2 <= overlap * (dist * mt),
        -(overlap * (dist * mt)) <= (overlap * dy) * m2 <= overlap * (dist * mt),
        -(overlap * (dist * mt)) <= (overlap * dx) * m1 <= overlap * (dist * mt),
        -(overlap * (dist * mt)) <= (overlap * dy) * m1 <= overlap * (dist * mt),
        overlap * (dist * mt) <= 0x80_0000_0000_0000_0000_0000,
        abs_int(div_trunc((overlap * dx) * m2, dist * mt)) <= overlap,
        abs_int(div_trunc((overlap * dy) * m2, dist * mt)) <= overlap,
        abs_int(div_trunc((overlap * dx) * m1, dist * mt)) <= overlap,
        abs_int(div_trunc((overlap * dy) * m1, dist * mt)) <= overlap,
{
    assert(1 <= dist * mt <= 0x4000_0000_0000_0000 && 0 <= overlap * dist <= 0x10_0000_0000_0000
        && -(overlap * dist) <= overlap * dx <= overlap
        * dist && -(overlap * dist) <= overlap * dy <= overlap * dist && -(overlap * (dist * mt))
        <= (overlap * dx) * m2 <= overlap * (dist * mt) && -(overlap * (dist * mt)) <= (overlap
        * dy) * m2 <= overlap * (dist * mt) && -(overlap * (dist * mt)) <= (overlap * dx) * m1
        <= overlap * (dist * mt) && -(overlap * (dist * mt)) <= (overlap * dy) * m1 <= overlap
        * (dist * mt) && overlap * (dist * mt) <= 0x80_0000_0000_0000_0000_0000)
        by (nonlinear_arith)
        requires
            1 <= dist <= 0x20_0000,
            1 <= mt <= 0x200_0000_0000,
            0 <= overlap <= 0x20_0000,
            -dist <= dx <= dist,
            -dist <= dy <= dist,
            0 <= m1 <= mt,
            0 <= m2 <= mt,
    ;
    lemma_div_trunc_abs((overlap * dx) * m2, dist * mt);
    lemma_div_trunc_abs((overlap * dy) * m2, dist * mt);
    lemma_div_trunc_abs((overlap * dx) * m1, dist * mt);
    lemma_div_trunc_abs((overlap * dy) * m1, dist * mt);
    lemma_div_le(abs_int((overlap * dx) * m2), overlap, dist * mt);
    lemma_div_le(abs_int((overlap * dy) * m2), overlap, dist * mt);
    lemma_div_le(abs_int((overlap * dx) * m1), overlap, dist * mt);
    lemma_div_le(abs_int((overlap * dy) * m1), overlap, dist * mt);
}

/// Truncating division of `i128` values.
fn div_i128_trunc(a: i128, b: i128) -> (q: i128)
    requires
        b != 0,
        a != i128::MIN,
        b != i128::MIN,
    ensures
        q == div_trunc(a as int, b as int),
{
    proof {
        crate::vector::lemma_div_trunc_bound(a as int, b as int);
    }
    let na: u128 = if a < 0 {
        (-a) as u128
    } else {
        a as u128
    };
    let nb: u128 = if b < 0 {
        (-b) as u128
    } else {
        b as u128
    };
    let nq: u128 = na / nb;
    if (a < 0) == (b < 0) {
        nq as i128
    } else {
        -(nq as i128)
    }
}

/// The damped magnitude of a velocity component:
/// `|v| * num / den`, never larger than `|v|`.
fn damp_magnitude(v: i64, num: i64, den: i64) -> (m: i64)
    requires
        -0x4000_0000 <= v <= 0x4000_0000,
        0 <= num <= den,
        1 <= den <= 0x100,
    ensures
        m == abs_int(v as int) * num / den as int,
        0 <= m <= abs_int(v as int),
{
    let av: u64 = abs_i64(v) as u64;
    proof {
        let avi = av as int;
        assert(0 <= avi * num as int <= avi * den as int && avi * den as int <= 0x4000_0000 * 0x100)
            by (nonlinear_arith)
            requires
                0 <= avi <= 0x4000_0000,
                0 <= num as int <= den as int,
                1 <= den as int <= 0x100,
        ;
        lemma_div_le(avi * num as int, avi, den as int);
        vstd::arithmetic::div_mod::lemma_div_pos_is_pos(avi * num as int, den as int);
    }
    ((av * (num as u64)) / (den as u64)) as i64
}

/// The absolute value of an `i64` that is not `i64::MIN`.
fn abs_i64(v: i64) -> (a: i64)
    requires
        v != i64::MIN,
    ensures
        a == abs_int(v as int),
{
    if v < 0 {
        -v
    } else {
        v
    }
}

} // verus!
