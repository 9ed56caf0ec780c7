//! One simulation step, wired together as a fixed pipeline: integrate
//! positions, recompute each entity's cell id, rebuild the buckets, then
//! resolve collisions between entities of neighboring cells. No state
//! survives a frame except the entity array itself; the bucket table and
//! lookup table are rebuilt from scratch every step.

use vstd::prelude::*;
use crate::ball::{Ball, reflect_axis, AREA_BOUND, COLLIDE_POS_BOUND, MAX_RADIUS, MAX_VEL};
use crate::bucket::{build_bucket_table, build_lookup, lookup_describes, range_describes};
use crate::grid::{cell_id_at, lemma_cell_id_in_range, Grid};
use crate::radix::{cell_key, keyed_prefix, radix_sort_by_cell};
use crate::sort::{insertion_sort_by_cell, lemma_permutation_members, CellEntity};

verus! {

/// The ids of a ball sequence, in order.
pub open spec fn ids_of(s: Seq<Ball>) -> Seq<i32> {
    s.map_values(|b: Ball| b.id)
}

/// The ids of a tagged-entity sequence, in order.
pub open spec fn cell_ids_of(s: Seq<CellEntity>) -> Seq<i32> {
    s.map_values(|e: CellEntity| e.ball.id)
}

/// Permuting the tagged entities permutes their ids.
proof fn lemma_cell_ids_permuted(s1: Seq<CellEntity>, s2: Seq<CellEntity>)
    requires
        s1.to_multiset() == s2.to_multiset(),
    ensures
        cell_ids_of(s1).to_multiset() == cell_ids_of(s2).to_multiset(),
    decreases s1.len(),
{
    broadcast use vstd::seq_lib::group_to_multiset_ensures;
    broadcast use vstd::multiset::group_multiset_axioms;

    if s1.len() == 0 {
        assert(s2.to_multiset().len() == 0);
        assert(cell_ids_of(s1) =~= cell_ids_of(s2));
    } else {
        let e = s1.last();
        let s1p = s1.drop_last();
        assert(s1 =~= s1p.push(e));
        assert(s1.to_multiset().count(e) > 0) by {
            assert(s1.contains(e));
        }
        assert(s2.contains(e));
        let j = choose|j: int| 0 <= j < s2.len() && s2[j] == e;
        let s2p = s2.remove(j);
        assert(s1p =~= s1.remove(s1.len() - 1));
        assert(s1p.to_multiset() == s1.to_multiset().remove(e));
        assert(s2p.to_multiset() == s2.to_multiset().remove(e));
        lemma_cell_ids_permuted(s1p, s2p);
        s2.remove_ensures(j);
        assert(cell_ids_of(s1) =~= cell_ids_of(s1p).push(e.ball.id));
        assert(cell_ids_of(s2p) =~= cell_ids_of(s2).remove(j));
        assert(cell_ids_of(s2)[j] == e.ball.id);
        assert(cell_ids_of(s2).remove(j).to_multiset() == cell_ids_of(s2).to_multiset().remove(
            cell_ids_of(s2)[j],
        ));
        assert(cell_ids_of(s2).to_multiset().count(e.ball.id) > 0) by {
            assert(cell_ids_of(s2).contains(e.ball.id));
        }
        assert(cell_ids_of(s1).to_multiset() == cell_ids_of(s1p).to_multiset().insert(e.ball.id));
        assert(cell_ids_of(s1).to_multiset() =~= cell_ids_of(s2).to_multiset());
    }
}

/// `pr` is the bucket-table range of some cell within `radius` cells of
/// `(cx, cy)` on the grid, boundary clipping included.
pub open spec fn is_neighbor_range(
    grid: Grid,
    table: Seq<(i64, i64)>,
    cx: int,
    cy: int,
    radius: int,
    pr: (i64, i64),
) -> bool {
    exists|nx: int, ny: int|
        grid.in_neighborhood(cx, cy, radius, nx, ny) && pr == table[#[trigger] cell_id_at(
            nx,
            ny,
            grid.cells_x as int,
        )]
}

/// The bucket ranges of the block of cells within `radius` cells of
/// `(cx, cy)`, clipped at the grid boundary: one `(start, end)` pair per
/// block cell, in the block's row-major order — element `k` is the bucket
/// table's entry for the block's `k`-th cell. Finite and restartable; the
/// table is not touched.
pub fn neighbors_of(
    grid: &Grid,
    table: &Vec<(i64, i64)>,
    cx: u64,
    cy: u64,
    radius: u64,
) -> (v: Vec<(i64, i64)>)
    requires
        grid.wf(),
        cx < grid.cells_x,
        cy < grid.cells_y,
        radius <= 0x8000,
        table@.len() == grid.num_cells(),
    ensures
        forall|k: int|
            0 <= k < v@.len() ==> is_neighbor_range(
                *grid,
                table@,
                cx as int,
                cy as int,
                radius as int,
                #[trigger] v@[k],
            ),
        forall|nx: u64, ny: u64|
            grid.in_neighborhood(cx as int, cy as int, radius as int, nx as int, ny as int)
                ==> v@.contains(
                table@[cell_id_at(nx as int, ny as int, grid.cells_x as int)],
            ),
        v@.len() == grid.block_width(cx as int, radius as int) * grid.block_height(
            cy as int,
            radius as int,
        ),
        forall|k: int|
            0 <= k < v@.len() ==> #[trigger] v@[k] == table@[cell_id_at(
                grid.block_cell(cx as int, cy as int, radius as int, k).0,
                grid.block_cell(cx as int, cy as int, radius as int, k).1,
                grid.cells_x as int,
            )],
{
    let block = grid.neighbor_cells(cx, cy, radius);
    let mut v: Vec<(i64, i64)> = Vec::new();
    let mut t: usize = 0;
    while t < block.len()
        invariant
            0 <= t <= block@.len(),
            v@.len() == t,
            grid.wf(),
            table@.len() == grid.num_cells(),
            forall|k: int|
                0 <= k < block@.len() ==> grid.in_neighborhood(
                    cx as int,
                    cy as int,
                    radius as int,
                    (#[trigger] block@[k]).0 as int,
                    block@[k].1 as int,
                ),
            block@.len() == grid.block_width(cx as int, radius as int) * grid.block_height(
                cy as int,
                radius as int,
            ),
            forall|k: int|
                0 <= k < block@.len() ==> ((#[trigger] block@[k]).0 as int, block@[k].1 as int)
                    == grid.block_cell(cx as int, cy as int, radius as int, k),
            forall|k: int|
                0 <= k < t ==> #[trigger] v@[k] == table@[cell_id_at(
                    block@[k].0 as int,
                    block@[k].1 as int,
                    grid.cells_x as int,
                )],
        decreases block@.len() - t,
    {
        let (nx, ny) = block[t];
        proof {
            lemma_cell_id_in_range(
                nx as int,
                ny as int,
                grid.cells_x as int,
                grid.cells_y as int,
            );
            assert(grid.cells_x * grid.cells_y <= 0x4000_0000) by (nonlinear_arith)
                requires
                    0 < grid.cells_x <= 0x8000,
                    0 < grid.cells_y <= 0x8000,
            ;
        }
        let id = (nx + ny * grid.cells_x) as usize;
        v.push(table[id]);
        t = t + 1;
    }
    proof {
        assert forall|k: int|
            0 <= k < v@.len() implies is_neighbor_range(
            *grid,
            table@,
            cx as int,
            cy as int,
            radius as int,
            #[trigger] v@[k],
        ) by {
            let nx = block@[k].0 as int;
            let ny = block@[k].1 as int;
            assert(grid.in_neighborhood(cx as int, cy as int, radius as int, nx, ny) && v@[k]
                == table@[cell_id_at(nx, ny, grid.cells_x as int)]);
        }
        assert forall|nx: u64, ny: u64|
            grid.in_neighborhood(
                cx as int,
                cy as int,
                radius as int,
                nx as int,
                ny as int,
            ) implies v@.contains(
            table@[cell_id_at(nx as int, ny as int, grid.cells_x as int)],
        ) by {
            assert(block@.contains((nx, ny)));
            let k = choose|k: int| 0 <= k < block@.len() && block@[k] == (nx, ny);
            assert(v@[k] == table@[cell_id_at(nx as int, ny as int, grid.cells_x as int)]);
        }
    }
    v
}

/// Whether a well-formed ball currently sits within the position and
/// speed limits under which a collision is resolved.
fn within_collision_limits(b: &Ball) -> (r: bool)
    requires
        b.wf(),
    ensures
        r == b.collidable(),
{
    -COLLIDE_POS_BOUND <= b.x && b.x <= COLLIDE_POS_BOUND && -COLLIDE_POS_BOUND <= b.y && b.y
        <= COLLIDE_POS_BOUND && -MAX_VEL <= b.velocity.x && b.velocity.x <= MAX_VEL && -MAX_VEL
        <= b.velocity.y && b.velocity.y <= MAX_VEL
}

/// Integrates every ball by one step: position advances by
/// `velocity * dt`, with boundary reflection on the grid's area. Exact,
/// per entity, with radius, mass and id untouched.
fn integrate(balls: &mut Vec<Ball>, dt: i64, grid: &Grid)
    requires
        grid.wf(),
        0 <= dt <= 0x100,
        forall|k: int| 0 <= k < old(balls)@.len() ==> (#[trigger] old(balls)@[k]).wf(),
    ensures
        final(balls)@.len() == old(balls)@.len(),
        forall|k: int|
            0 <= k < final(balls)@.len() ==> {
                let ob = old(balls)@[k];
                let nb = #[trigger] final(balls)@[k];
                &&& nb.wf()
                &&& (nb.x as int, nb.velocity.x as int) == reflect_axis(
                    ob.x as int,
                    ob.velocity.x as int,
                    dt as int,
                    ob.radius as int,
                    grid.width as int,
                )
                &&& (nb.y as int, nb.velocity.y as int) == reflect_axis(
                    ob.y as int,
                    ob.velocity.y as int,
                    dt as int,
                    ob.radius as int,
                    grid.height as int,
                )
                &&& nb.radius == ob.radius
                &&& nb.mass == ob.mass
                &&& nb.id == ob.id
                &&& -MAX_RADIUS <= nb.x <= AREA_BOUND
                &&& -MAX_RADIUS <= nb.y <= AREA_BOUND
            },
{
    let n = balls.len();
    let mut k: usize = 0;
    while k < n
        invariant
            0 <= k <= n,
            n == balls@.len() == old(balls)@.len(),
            grid.wf(),
            0 <= dt <= 0x100,
            forall|j: int| k <= j < n ==> #[trigger] balls@[j] == old(balls)@[j],
            forall|j: int| 0 <= j < old(balls)@.len() ==> (#[trigger] old(balls)@[j]).wf(),
            forall|j: int|
                0 <= j < k ==> {
                    let ob = old(balls)@[j];
                    let nb = #[trigger] balls@[j];
                    &&& nb.wf()
                    &&& (nb.x as int, nb.velocity.x as int) == reflect_axis(
                        ob.x as int,
                        ob.velocity.x as int,
                        dt as int,
                        ob.radius as int,
                        grid.width as int,
                    )
                    &&& (nb.y as int, nb.velocity.y as int) == reflect_axis(
                        ob.y as int,
                        ob.velocity.y as int,
                        dt as int,
                        ob.radius as int,
                        grid.height as int,
                    )
                    &&& nb.radius == ob.radius
                    &&& nb.mass == ob.mass
                    &&& nb.id == ob.id
                    &&& -MAX_RADIUS <= nb.x <= AREA_BOUND
                    &&& -MAX_RADIUS <= nb.y <= AREA_BOUND
                },
        decreases n - k,
    {
        let mut b = balls[k];
        b.move_ball(dt, grid.width, grid.height);
        balls[k] = b;
        k = k + 1;
    }
}

/// Tags every ball with the id of the grid cell containing its center.
fn tag_cells(balls: &Vec<Ball>, grid: &Grid) -> (cells: Vec<CellEntity>)
    requires
        grid.wf(),
    ensures
        cells@.len() == balls@.len(),
        forall|k: int|
            0 <= k < cells@.len() ==> {
                let ce = #[trigger] cells@[k];
                &&& ce.ball == balls@[k]
                &&& ce.cell == grid.spec_cell_id_of(balls@[k].x as int, balls@[k].y as int)
                &&& ce.cell < grid.num_cells()
            },
{
    let n = balls.len();
    let mut cells: Vec<CellEntity> = Vec::new();
    let mut k: usize = 0;
    while k < n
        invariant
            0 <= k <= n,
            n == balls@.len(),
            grid.wf(),
            cells@.len() == k,
            forall|j: int|
                0 <= j < k ==> {
                    let ce = #[trigger] cells@[j];
                    &&& ce.ball == balls@[j]
                    &&& ce.cell == grid.spec_cell_id_of(balls@[j].x as int, balls@[j].y as int)
                    &&& ce.cell < grid.num_cells()
                },
        decreases n - k,
    {
        let ball = balls[k];
        let cell = ball.get_cell_id(grid);
        cells.push(CellEntity { cell, ball });
        k = k + 1;
    }
    cells
}

/// Resolves pairwise collisions: every entity against the entities of its
/// own and its eight neighboring cells, through the bucket table. Each
/// unordered pair is resolved once, from the two balls' values at that
/// moment, so an impulse is never applied twice to one encounter; a ball
/// that has drifted beyond the collision limits is skipped for the frame
/// rather than resolved out of range. Radius, mass and id of every ball
/// are untouched.
/// One ball after one integration step with boundary reflection on the
/// grid's area: the specification-level mirror of `Ball::move_ball`.
pub open spec fn integrated_ball(b: Ball, dt: int, g: Grid) -> Ball {
    let rx = reflect_axis(b.x as int, b.velocity.x as int, dt, b.radius as int, g.width as int);
    let ry = reflect_axis(b.y as int, b.velocity.y as int, dt, b.radius as int, g.height as int);
    Ball {
        x: rx.0 as i64,
        y: ry.0 as i64,
        velocity: crate::vector::Vector { x: rx.1 as i64, y: ry.1 as i64 },
        radius: b.radius,
        mass: b.mass,
        id: b.id,
    }
}

/// The ball array after one integration step, entity by entity.
pub open spec fn integrated(s: Seq<Ball>, dt: int, g: Grid) -> Seq<Ball> {
    s.map_values(|b: Ball| integrated_ball(b, dt, g))
}

/// Every ball tagged with the id of the grid cell containing its center.
pub open spec fn tagged(s: Seq<Ball>, g: Grid) -> Seq<CellEntity> {
    s.map_values(
        |b: Ball| CellEntity { cell: g.spec_cell_id_of(b.x as int, b.y as int) as u64, ball: b },
    )
}

/// The frame's rebuilt entity array: the integrated balls, tagged with
/// their cell ids and stably regrouped in ascending cell order — the one
/// sequence both bucket builders produce.
pub open spec fn rebuilt(s: Seq<Ball>, dt: int, g: Grid) -> Seq<CellEntity> {
    keyed_prefix(tagged(integrated(s, dt, g), g), cell_key(), g.num_cells())
}

/// The balls of a tagged-entity sequence, in order.
pub open spec fn balls_of(s: Seq<CellEntity>) -> Seq<Ball> {
    s.map_values(|e: CellEntity| e.ball)
}

/// No two balls touch or overlap: every pair's squared center distance
/// exceeds the square of its radius sum.
pub open spec fn contact_free(s: Seq<Ball>) -> bool {
    forall|i: int, j: int|
        #![trigger s[i], s[j]]
        0 <= i < j < s.len() ==> {
            let dx = s[i].x - s[j].x;
            let dy = s[i].y - s[j].y;
            dx * dx + dy * dy > (s[i].radius + s[j].radius) * (s[i].radius + s[j].radius)
        }
}

/// What one frame observably does, beyond preserving well-formedness:
/// with `rb` the rebuilt entity array of the frame (integrated, tagged,
/// regrouped by cell),
/// - the published lookup table is the head-pointer table of `rb`;
/// - the entities come back in `rb`'s order, each keeping its identity,
///   radius and mass (only collisions may still change positions and
///   velocities);
/// - when no two rebuilt entities touch, there is nothing to resolve and
///   the entities are exactly the rebuilt balls.
pub open spec fn step_post(pre: Simulation, post: Simulation, dt: int) -> bool {
    let rb = rebuilt(pre.entities@, dt, pre.grid);
    &&& post.entities@.len() == rb.len()
    &&& forall|c: int|
        0 <= c < pre.grid.num_cells() ==> lookup_describes(rb, c, (#[trigger] post.lookup@[c]) as int)
    &&& forall|k: int|
        0 <= k < post.entities@.len() ==> {
            let e = #[trigger] post.entities@[k];
            &&& e.id == rb[k].ball.id
            &&& e.radius == rb[k].ball.radius
            &&& e.mass == rb[k].ball.mass
        }
    &&& (contact_free(balls_of(rb)) ==> post.entities@ == balls_of(rb))
}

/// A cell-sorted rearrangement that keeps every per-cell subsequence is
/// the keyed prefix — the one canonical regrouping. This is what lets a
/// step pin its rebuilt entity array exactly, whichever sorter built it.
proof fn lemma_rebuild_canonical(sorted: Seq<CellEntity>, pre: Seq<CellEntity>, nc: int)
    requires
        crate::sort::sorted_by_cell(sorted),
        forall|k: int| 0 <= k < sorted.len() ==> (#[trigger] sorted[k]).cell < nc,
        forall|k: int| 0 <= k < pre.len() ==> (#[trigger] pre[k]).cell < nc,
        forall|c: int|
            #[trigger] crate::sort::entities_in_cell(sorted, c) == crate::sort::entities_in_cell(
                pre,
                c,
            ),
    ensures
        sorted == keyed_prefix(pre, cell_key(), nc),
{
    let ck = cell_key();
    let kp = keyed_prefix(pre, ck, nc);
    crate::radix::lemma_keyed_prefix_key_sorted(pre, ck, nc);
    crate::radix::lemma_keyed_prefix_keys(pre, ck, nc);
    assert forall|k: int| #[trigger] crate::radix::keyed(sorted, ck, k) == crate::radix::keyed(
        kp,
        ck,
        k,
    ) by {
        crate::radix::lemma_cell_keyed_eq(sorted, k);
        crate::radix::lemma_cell_keyed_eq(pre, k);
        if 0 <= k < nc {
            assert forall|e: CellEntity| #[trigger] (ck)(e) == k implies (ck)(e) == k by {}
            crate::radix::lemma_keyed_prefix_finer(pre, ck, nc, ck, k, k);
        } else {
            assert(forall|i: int| 0 <= i < kp.len() ==> (ck)(#[trigger] kp[i]) != k);
            assert(forall|i: int| 0 <= i < pre.len() ==> (ck)(#[trigger] pre[i]) != k);
            crate::radix::lemma_keyed_none(kp, ck, k);
            crate::radix::lemma_keyed_none(pre, ck, k);
        }
    }
    assert(forall|p: int, q: int|
        0 <= p < q < sorted.len() ==> (ck)(#[trigger] sorted[p]) <= (ck)(#[trigger] sorted[q]));
    assert(forall|i: int| 0 <= i < sorted.len() ==> 0 <= (ck)(#[trigger] sorted[i]) < nc);
    crate::radix::lemma_stable_sorted_unique(sorted, kp, ck, nc);
}

fn resolve_collisions(
    balls: &mut Vec<Ball>,
    cells: &Vec<CellEntity>,
    table: &Vec<(i64, i64)>,
    grid: &Grid,
)
    requires
        grid.wf(),
        old(balls)@.len() == cells@.len(),
        cells@.len() < 0x1000_0000_0000_0000,
        forall|k: int| 0 <= k < old(balls)@.len() ==> (#[trigger] old(balls)@[k]).wf(),
        table@.len() == grid.num_cells(),
        forall|c: int|
            0 <= c < grid.num_cells() ==> range_describes(
                cells@,
                c,
                (#[trigger] table@[c]).0 as int,
                table@[c].1 as int,
            ),
        forall|k: int| 0 <= k < cells@.len() ==> (#[trigger] cells@[k]).cell < grid.num_cells(),
    ensures
        final(balls)@.len() == old(balls)@.len(),
        forall|k: int|
            0 <= k < final(balls)@.len() ==> {
                let nb = #[trigger] final(balls)@[k];
                &&& nb.wf()
                &&& nb.radius == old(balls)@[k].radius
                &&& nb.mass == old(balls)@[k].mass
                &&& nb.id == old(balls)@[k].id
            },
        contact_free(old(balls)@) ==> final(balls)@ == old(balls)@,
{
    let n = balls.len();
    let mut i: usize = 0;
    while i < n
        invariant
            0 <= i <= n,
            grid.wf(),
            n == balls@.len() == old(balls)@.len() == cells@.len() < 0x1000_0000_0000_0000,
            table@.len() == grid.num_cells(),
            forall|c: int|
                0 <= c < grid.num_cells() ==> range_describes(
                    cells@,
                    c,
                    (#[trigger] table@[c]).0 as int,
                    table@[c].1 as int,
                ),
            forall|k: int| 0 <= k < cells@.len() ==> (#[trigger] cells@[k]).cell < grid.num_cells(),
            forall|k: int|
                0 <= k < n ==> {
                    let nb = #[trigger] balls@[k];
                    &&& nb.wf()
                    &&& nb.radius == old(balls)@[k].radius
                    &&& nb.mass == old(balls)@[k].mass
                    &&& nb.id == old(balls)@[k].id
                },
            contact_free(old(balls)@) ==> balls@ == old(balls)@,
        decreases n - i,
    {
        let cell = cells[i].cell;
        let cx = cell % grid.cells_x;
        let cy = cell / grid.cells_x;
        proof {
            vstd::arithmetic::div_mod::lemma_mod_division_less_than_divisor(
                cell as int,
                grid.cells_x as int,
            );
            vstd::arithmetic::div_mod::lemma_multiply_divide_lt(
                cell as int,
                grid.cells_x as int,
                grid.cells_y as int,
            );
        }
        let block = grid.neighbor_cells(cx, cy, 1);
        let mut t: usize = 0;
        while t < block.len()
            invariant
                0 <= t <= block@.len(),
                0 <= i < n,
                grid.wf(),
                n == balls@.len() == old(balls)@.len() == cells@.len() < 0x1000_0000_0000_0000,
                table@.len() == grid.num_cells(),
                forall|k: int|
                    0 <= k < block@.len() ==> (#[trigger] block@[k]).0 < grid.cells_x
                        && block@[k].1 < grid.cells_y,
                forall|c: int|
                    0 <= c < grid.num_cells() ==> range_describes(
                        cells@,
                        c,
                        (#[trigger] table@[c]).0 as int,
                        table@[c].1 as int,
                    ),
                forall|k: int|
                    0 <= k < cells@.len() ==> (#[trigger] cells@[k]).cell < grid.num_cells(),
                forall|k: int|
                    0 <= k < n ==> {
                        let nb = #[trigger] balls@[k];
                        &&& nb.wf()
                        &&& nb.radius == old(balls)@[k].radius
                        &&& nb.mass == old(balls)@[k].mass
                        &&& nb.id == old(balls)@[k].id
                    },
                contact_free(old(balls)@) ==> balls@ == old(balls)@,
            decreases block@.len() - t,
        {
            let (nx, ny) = block[t];
            proof {
                lemma_cell_id_in_range(
                    nx as int,
                    ny as int,
                    grid.cells_x as int,
                    grid.cells_y as int,
                );
                assert(grid.cells_x * grid.cells_y <= 0x4000_0000) by (nonlinear_arith)
                    requires
                        0 < grid.cells_x <= 0x8000,
                        0 < grid.cells_y <= 0x8000,
                ;
            }
            let ncell = (nx + ny * grid.cells_x) as usize;
            let r = table[ncell];
            if r.0 >= 0 {
                proof {
                    assert(range_describes(cells@, ncell as int, r.0 as int, r.1 as int));
                }
                let mut j = r.0 as usize;
                let endj = r.1 as usize;
                while j <= endj
                    invariant
                        0 <= j <= endj + 1,
                        endj < n,
                        0 <= i < n,
                        n == balls@.len() == old(balls)@.len(),
                        forall|k: int|
                            0 <= k < n ==> {
                                let nb = #[trigger] balls@[k];
                                &&& nb.wf()
                                &&& nb.radius == old(balls)@[k].radius
                                &&& nb.mass == old(balls)@[k].mass
                                &&& nb.id == old(balls)@[k].id
                            },
                        contact_free(old(balls)@) ==> balls@ == old(balls)@,
                    decreases endj + 1 - j,
                {
                    if j > i {
                        let a = balls[i];
                        let mut b = balls[j];
                        if within_collision_limits(&a) && within_collision_limits(&b) {
                            let (na, nb2) = a.collide(&mut b);
                            proof {
                                if contact_free(old(balls)@) {
                                    // the pair is out of contact, so the
                                    // resolution is a no-op
                                    assert(old(balls)@[i as int] == a && old(balls)@[j as int]
                                        == b);
                                    assert(na == a && nb2 == b);
                                }
                            }
                            let ghost before_pair = balls@;
                            balls[i] = na;
                            balls[j] = nb2;
                            proof {
                                if contact_free(old(balls)@) {
                                    assert(balls@ =~= before_pair);
                                }
                            }
                        }
                    }
                    j = j + 1;
                }
            }
            t = t + 1;
        }
        i = i + 1;
    }
}

/// An evenly spaced lattice of motionless balls across the area
/// `[0, width] x [0, height]`: the ball of lattice position `(i, j)`
/// stands at the `(i + 1)`-th of `count_x + 1` equal horizontal divisions
/// and the `(j + 1)`-th of `count_y + 1` vertical ones, with zero
/// velocity, the given radius, and id `i * count_y + j`.
pub fn seed_grid(width: u64, height: u64, count_x: u32, count_y: u32, radius: i64) -> (balls: Vec<
    Ball,
>)
    requires
        0 < width <= AREA_BOUND,
        0 < height <= AREA_BOUND,
        0 < count_x <= 0x1000,
        0 < count_y <= 0x1000,
        0 <= radius <= MAX_RADIUS,
    ensures
        balls@.len() == count_x * count_y,
        forall|k: int|
            0 <= k < balls@.len() ==> {
                let b = #[trigger] balls@[k];
                &&& b.wf()
                &&& b.x == (width as int / (count_x as int + 1)) * (k / count_y as int + 1)
                &&& b.y == (height as int / (count_y as int + 1)) * (k % count_y as int + 1)
                &&& b.velocity == (crate::vector::Vector { x: 0, y: 0 })
                &&& b.radius == radius
                &&& b.id == k
            },
{
    let sx: u64 = width / (count_x as u64 + 1);
    let sy: u64 = height / (count_y as u64 + 1);
    proof {
        vstd::arithmetic::div_mod::lemma_fundamental_div_mod(width as int, count_x as int + 1);
        vstd::arithmetic::div_mod::lemma_fundamental_div_mod(height as int, count_y as int + 1);
        vstd::arithmetic::div_mod::lemma_mod_division_less_than_divisor(
            width as int,
            count_x as int + 1,
        );
        vstd::arithmetic::div_mod::lemma_mod_division_less_than_divisor(
            height as int,
            count_y as int + 1,
        );
        assert((count_x as int + 1) * sx as int <= width) by (nonlinear_arith)
            requires
                width as int == (count_x as int + 1) * sx as int + width as int % (count_x as int
                    + 1),
                width as int % (count_x as int + 1) >= 0,
        ;
        assert((count_y as int + 1) * sy as int <= height) by (nonlinear_arith)
            requires
                height as int == (count_y as int + 1) * sy as int + height as int % (
                count_y as int + 1),
                height as int % (count_y as int + 1) >= 0,
        ;
    }
    let mut balls: Vec<Ball> = Vec::new();
    let mut i: u32 = 0;
    while i < count_x
        invariant
            0 <= i <= count_x,
            0 < count_x <= 0x1000,
            0 < count_y <= 0x1000,
            0 < width <= AREA_BOUND,
            0 < height <= AREA_BOUND,
            0 <= radius <= MAX_RADIUS,
            sx == width as int / (count_x as int + 1),
            sy == height as int / (count_y as int + 1),
            (count_x as int + 1) * sx as int <= width,
            (count_y as int + 1) * sy as int <= height,
            balls@.len() == i * count_y,
            forall|k: int|
                0 <= k < balls@.len() ==> {
                    let b = #[trigger] balls@[k];
                    &&& b.wf()
                    &&& b.x == sx * (k / count_y as int + 1)
                    &&& b.y == sy * (k % count_y as int + 1)
                    &&& b.velocity == (crate::vector::Vector { x: 0, y: 0 })
                    &&& b.radius == radius
                    &&& b.id == k
                },
        decreases count_x - i,
    {
        let mut j: u32 = 0;
        proof {
            assert(i as int * count_y + count_y <= count_x as int * count_y) by (nonlinear_arith)
                requires
                    0 <= i < count_x,
                    0 < count_y,
            ;
            assert(count_x as int * count_y <= 0x100_0000) by (nonlinear_arith)
                requires
                    0 < count_x <= 0x1000,
                    0 < count_y <= 0x1000,
            ;
        }
        while j < count_y
            invariant
                0 <= j <= count_y,
                0 <= i < count_x,
                0 < count_x <= 0x1000,
                0 < count_y <= 0x1000,
                0 < width <= AREA_BOUND,
                0 < height <= AREA_BOUND,
                0 <= radius <= MAX_RADIUS,
                sx == width as int / (count_x as int + 1),
                sy == height as int / (count_y as int + 1),
                (count_x as int + 1) * sx as int <= width,
                (count_y as int + 1) * sy as int <= height,
                i as int * count_y + count_y <= count_x as int * count_y <= 0x100_0000,
                balls@.len() == i * count_y + j,
                forall|k: int|
                    0 <= k < balls@.len() ==> {
                        let b = #[trigger] balls@[k];
                        &&& b.wf()
                        &&& b.x == sx * (k / count_y as int + 1)
                        &&& b.y == sy * (k % count_y as int + 1)
                        &&& b.velocity == (crate::vector::Vector { x: 0, y: 0 })
                        &&& b.radius == radius
                        &&& b.id == k
                    },
            decreases count_y - j,
        {
            proof {
                // the new ball's coordinates stay inside the area
                assert(sx as int * (i as int + 1) <= (count_x as int + 1) * sx as int)
                    by (nonlinear_arith)
                    requires
                        0 <= i < count_x,
                        0 <= sx,
                ;
                assert(sy as int * (j as int + 1) <= (count_y as int + 1) * sy as int)
                    by (nonlinear_arith)
                    requires
                        0 <= j < count_y,
                        0 <= sy,
                ;
            }
            let x: i64 = (sx * (i as u64 + 1)) as i64;
            let y: i64 = (sy * (j as u64 + 1)) as i64;
            let id: i32 = (i * count_y + j) as i32;
            let b = Ball::new(x, y, crate::vector::Vector::new(0, 0), radius, id);
            balls.push(b);
            proof {
                let k0 = i as int * count_y + j;
                vstd::arithmetic::div_mod::lemma_fundamental_div_mod_converse(
                    k0,
                    count_y as int,
                    i as int,
                    j as int,
                );
                assert(balls@[k0].x == sx * (k0 / count_y as int + 1));
                assert(balls@[k0].y == sy * (k0 % count_y as int + 1));
            }
            j = j + 1;
        }
        proof {
            assert((i as int + 1) * count_y == i as int * count_y + count_y) by (nonlinear_arith);
        }
        i = i + 1;
    }
    balls
}

/// The simulation context: the grid, the entity array, and the last
/// frame's head-pointer lookup table. Constructed once and stepped; no
/// ambient globals.
pub struct Simulation {
    pub grid: Grid,
    pub entities: Vec<Ball>,
    pub lookup: Vec<i64>,
}

impl Simulation {
    /// Well-formedness: the grid is well-formed, every entity is, the
    /// entity count stays within the sort's reach, and the lookup table
    /// has one entry per cell.
    pub open spec fn wf(self) -> bool {
        &&& self.grid.wf()
        &&& self.entities@.len() <= 0x1000_0000
        &&& forall|k: int| 0 <= k < self.entities@.len() ==> (#[trigger] self.entities@[k]).wf()
        &&& self.lookup@.len() == self.grid.num_cells()
    }

    pub fn new(grid: Grid, entities: Vec<Ball>) -> (s: Simulation)
        requires
            grid.wf(),
            entities@.len() <= 0x1000_0000,
            forall|k: int| 0 <= k < entities@.len() ==> (#[trigger] entities@[k]).wf(),
        ensures
            s.wf(),
            s.grid == grid,
            s.entities == entities,
            forall|k: int| 0 <= k < s.lookup@.len() ==> #[trigger] s.lookup@[k] == -1,
    {
        let num_cells = grid.cell_count();
        let mut lookup: Vec<i64> = Vec::new();
        let mut k: usize = 0;
        while k < num_cells
            invariant
                lookup@.len() == k <= num_cells,
                forall|j: int| 0 <= j < k ==> #[trigger] lookup@[j] == -1,
            decreases num_cells - k,
        {
            lookup.push(-1);
            k = k + 1;
        }
        Simulation { grid, entities, lookup }
    }

    /// One frame: integrate, reindex, rebuild the buckets with the
    /// insertion sort, resolve neighbor collisions, and publish the new
    /// lookup table. The grid and the entity count never change, every
    /// entity stays well-formed and keeps its identity, and `step_post`
    /// pins the rebuilt order, the lookup table, and the contact-free
    /// outcome. A ball that has drifted beyond the collision limits
    /// skips its resolutions for the frame.
    pub fn step(&mut self, dt: i64)
        requires
            old(self).wf(),
            0 <= dt <= 0x100,
        ensures
            final(self).wf(),
            final(self).grid == old(self).grid,
            final(self).entities@.len() == old(self).entities@.len(),
            ids_of(final(self).entities@).to_multiset() == ids_of(old(self).entities@).to_multiset(),
            step_post(*old(self), *final(self), dt as int),
    {
        let grid = self.grid;
        integrate(&mut self.entities, dt, &grid);
        proof {
            assert(ids_of(self.entities@) =~= ids_of(old(self).entities@));
            assert(self.entities@ =~= integrated(old(self).entities@, dt as int, grid));
        }
        let ghost ids0 = ids_of(self.entities@);
        let mut cellsv = tag_cells(&self.entities, &grid);
        let ghost pre_sort = cellsv@;
        proof {
            assert(cell_ids_of(pre_sort) =~= ids0);
            assert(pre_sort =~= tagged(self.entities@, grid));
        }
        insertion_sort_by_cell(&mut cellsv);
        proof {
            lemma_cell_ids_permuted(cellsv@, pre_sort);
        }
        proof {
            lemma_permutation_members(cellsv@, pre_sort);
            assert forall|k: int| 0 <= k < cellsv@.len() implies (#[trigger] cellsv@[k]).cell
                < grid.num_cells() && cellsv@[k].ball.wf() by {
                let j = choose|j: int|
                    0 <= j < pre_sort.len() && pre_sort[j] == cellsv@[k];
                assert(pre_sort[j].cell < grid.num_cells());
            }
            lemma_rebuild_canonical(cellsv@, pre_sort, grid.num_cells());
            assert(cellsv@ == rebuilt(old(self).entities@, dt as int, grid));
        }
        let num_cells = grid.cell_count();
        let table = build_bucket_table(&cellsv, num_cells);
        let mut balls: Vec<Ball> = Vec::new();
        let mut k: usize = 0;
        let n = cellsv.len();
        while k < n
            invariant
                0 <= k <= n,
                n == cellsv@.len(),
                balls@.len() == k,
                forall|j: int| 0 <= j < k ==> #[trigger] balls@[j] == cellsv@[j].ball,
            decreases n - k,
        {
            balls.push(cellsv[k].ball);
            k = k + 1;
        }
        proof {
            assert(ids_of(balls@) =~= cell_ids_of(cellsv@));
            assert(balls@ =~= balls_of(cellsv@));
        }
        let ghost pre_resolve = balls@;
        resolve_collisions(&mut balls, &cellsv, &table, &grid);
        proof {
            assert(ids_of(balls@) =~= ids_of(pre_resolve));
        }
        let lookup = build_lookup(&cellsv, num_cells);
        self.entities = balls;
        self.lookup = lookup;
    }

    /// One frame with the radix-sort bucket rebuild instead of the
    /// insertion sort. When the grid has more cells than the digit
    /// passes cover, the step refuses to run (high cell ids would alias)
    /// and leaves the simulation unchanged, returning `false`.
    pub fn step_radix(&mut self, dt: i64) -> (ok: bool)
        requires
            old(self).wf(),
            0 <= dt <= 0x100,
        ensures
            ok == (old(self).grid.num_cells() <= crate::radix::MAX_SORT_CELLS),
            !ok ==> *final(self) == *old(self),
            final(self).wf(),
            final(self).grid == old(self).grid,
            final(self).entities@.len() == old(self).entities@.len(),
            ids_of(final(self).entities@).to_multiset() == ids_of(old(self).entities@).to_multiset(),
            ok ==> step_post(*old(self), *final(self), dt as int),
    {
        let num_cells = self.grid.cell_count();
        if num_cells > crate::radix::MAX_SORT_CELLS {
            return false;
        }
        let grid = self.grid;
        integrate(&mut self.entities, dt, &grid);
        proof {
            assert(ids_of(self.entities@) =~= ids_of(old(self).entities@));
            assert(self.entities@ =~= integrated(old(self).entities@, dt as int, grid));
        }
        let ghost ids0 = ids_of(self.entities@);
        let mut cellsv = tag_cells(&self.entities, &grid);
        let ghost pre_sort = cellsv@;
        proof {
            assert(cell_ids_of(pre_sort) =~= ids0);
            assert(pre_sort =~= tagged(self.entities@, grid));
        }
        let sorted_ok = radix_sort_by_cell(&mut cellsv, num_cells);
        proof {
            lemma_cell_ids_permuted(cellsv@, pre_sort);
        }
        proof {
            lemma_permutation_members(cellsv@, pre_sort);
            assert forall|k: int| 0 <= k < cellsv@.len() implies (#[trigger] cellsv@[k]).cell
                < grid.num_cells() && cellsv@[k].ball.wf() by {
                let j = choose|j: int|
                    0 <= j < pre_sort.len() && pre_sort[j] == cellsv@[k];
                assert(pre_sort[j].cell < grid.num_cells());
            }
            lemma_rebuild_canonical(cellsv@, pre_sort, grid.num_cells());
            assert(cellsv@ == rebuilt(old(self).entities@, dt as int, grid));
        }
        let table = build_bucket_table(&cellsv, num_cells);
        let mut balls: Vec<Ball> = Vec::new();
        let mut k: usize = 0;
        let n = cellsv.len();
        while k < n
            invariant
                0 <= k <= n,
                n == cellsv@.len(),
                balls@.len() == k,
                forall|j: int| 0 <= j < k ==> #[trigger] balls@[j] == cellsv@[j].ball,
            decreases n - k,
        {
            balls.push(cellsv[k].ball);
            k = k + 1;
        }
        proof {
            assert(ids_of(balls@) =~= cell_ids_of(cellsv@));
            assert(balls@ =~= balls_of(cellsv@));
        }
        let ghost pre_resolve = balls@;
        resolve_collisions(&mut balls, &cellsv, &table, &grid);
        proof {
            assert(ids_of(balls@) =~= ids_of(pre_resolve));
        }
        let lookup = build_lookup(&cellsv, num_cells);
        self.entities = balls;
        self.lookup = lookup;
        true
    }
}

} // verus!
