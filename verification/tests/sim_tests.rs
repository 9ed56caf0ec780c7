use particle_grid::ball::Ball;
use particle_grid::bucket::build_bucket_table;
use particle_grid::grid::Grid;
use particle_grid::sim::{neighbors_of, seed_grid, Simulation};
use particle_grid::sort::{insertion_sort_by_cell, CellEntity};
use particle_grid::vector::Vector;

fn seed_100() -> Vec<Ball> {
    // 100 entities spread uniformly across 1200 x 600, zero velocity
    let mut balls = Vec::new();
    let mut id = 0i32;
    for i in 0..10i64 {
        for j in 0..10i64 {
            let x = 60 + i * 120;
            let y = 30 + j * 60;
            balls.push(Ball::new(x, y, Vector::new(0, 0), 1, id));
            id += 1;
        }
    }
    balls
}

#[test]
fn end_to_end_static_step_keeps_positions_and_counts() {
    // 100 entities on a 1200x600 area with a 48x24 grid, zero velocity,
    // one step with dt = 0: positions unchanged, and the lookup table
    // reproduces the seeding's per-cell counts exactly.
    let grid = Grid::new(1200, 600, 48, 24);
    let seeds = seed_100();
    let mut expected_pos = std::collections::BTreeMap::new();
    let mut expected_counts = vec![0usize; 48 * 24];
    for b in &seeds {
        expected_pos.insert(b.get_id(), (b.get_x(), b.get_y()));
        expected_counts[b.get_cell_id(&grid) as usize] += 1;
    }
    let mut sim = Simulation::new(grid, seeds);
    sim.step(0);

    assert_eq!(sim.entities.len(), 100);
    for b in &sim.entities {
        let (x, y) = expected_pos[&b.get_id()];
        assert_eq!(b.get_x(), x);
        assert_eq!(b.get_y(), y);
        assert_eq!(b.get_velocity(), Vector::new(0, 0));
    }
    // per-cell counts through the published lookup table
    let cells: Vec<u64> = sim.entities.iter().map(|b| b.get_cell_id(&grid)).collect();
    for c in 0..48 * 24usize {
        let count = cells.iter().filter(|&&x| x == c as u64).count();
        let l = sim.lookup[c];
        if count == 0 {
            assert_eq!(l, -1);
        } else {
            assert!(l >= 0);
            let l = l as usize;
            assert_eq!(cells[l], c as u64);
            assert!(l == 0 || cells[l - 1] != c as u64);
            let mut run = 0usize;
            let mut k = l;
            while k < cells.len() && cells[k] == c as u64 {
                run += 1;
                k += 1;
            }
            assert_eq!(run, count, "cell {} count mismatch", c);
        }
        assert_eq!(count, expected_counts[c]);
    }
}

#[test]
fn step_keeps_ids_and_count() {
    let grid = Grid::new(1200, 600, 48, 24);
    let mut balls = seed_100();
    // give them motion
    for (k, b) in balls.iter_mut().enumerate() {
        let vx = (k as i64 % 7) - 3;
        let vy = (k as i64 % 5) - 2;
        b.set_velocity(Vector::new(vx, vy));
    }
    let mut sim = Simulation::new(grid, balls);
    for _ in 0..20 {
        sim.step(3);
    }
    assert_eq!(sim.entities.len(), 100);
    let mut ids: Vec<i32> = sim.entities.iter().map(|b| b.get_id()).collect();
    ids.sort();
    assert_eq!(ids, (0..100).collect::<Vec<i32>>());
    // positions stay within the area after reflection
    for b in &sim.entities {
        assert!(b.get_x() >= -0x10_0000 && b.get_x() <= 1200 + 0x10_0000);
        assert!(b.get_y() >= -0x10_0000 && b.get_y() <= 600 + 0x10_0000);
    }
}

#[test]
fn step_radix_matches_grid_limit() {
    let grid = Grid::new(1200, 600, 48, 24);
    let mut sim = Simulation::new(grid, seed_100());
    assert!(sim.step_radix(0));
    assert_eq!(sim.entities.len(), 100);

    // a grid with more cells than the digit passes cover is refused
    let big = Grid::new(0x1_0000_0000, 0x1_0000_0000, 400, 300);
    let mut sim2 = Simulation::new(big, seed_100());
    let before: Vec<(i32, i64, i64)> =
        sim2.entities.iter().map(|b| (b.get_id(), b.get_x(), b.get_y())).collect();
    assert!(!sim2.step_radix(1));
    let after: Vec<(i32, i64, i64)> =
        sim2.entities.iter().map(|b| (b.get_id(), b.get_x(), b.get_y())).collect();
    assert_eq!(before, after);
}

#[test]
fn colliding_pair_resolves_during_step() {
    // two overlapping balls in one cell exchange velocities head-on
    let grid = Grid::new(1200, 600, 48, 24);
    let b1 = Ball::new(100, 100, Vector::new(4, 0), 10, 1);
    let b2 = Ball::new(116, 100, Vector::new(-4, 0), 10, 2);
    let mut sim = Simulation::new(grid, vec![b1, b2]);
    sim.step(0);
    let mut vs: Vec<(i32, i64)> =
        sim.entities.iter().map(|b| (b.get_id(), b.get_velocity().x)).collect();
    vs.sort();
    // the pair is resolved exactly once: head-on equal masses swap
    assert_eq!(vs, vec![(1, -4), (2, 4)]);
}

#[test]
fn seed_grid_places_an_even_lattice() {
    let balls = seed_grid(1200, 600, 3, 2, 4);
    assert_eq!(balls.len(), 6);
    // horizontal spacing 1200/4 = 300, vertical 600/3 = 200
    let expect = vec![
        (0, 300, 200),
        (1, 300, 400),
        (2, 600, 200),
        (3, 600, 400),
        (4, 900, 200),
        (5, 900, 400),
    ];
    for (k, b) in balls.iter().enumerate() {
        let (id, x, y) = expect[k];
        assert_eq!(b.get_id(), id);
        assert_eq!(b.get_x(), x);
        assert_eq!(b.get_y(), y);
        assert_eq!(b.get_radius(), 4);
        assert_eq!(b.get_velocity(), Vector::new(0, 0));
    }
}

#[test]
fn neighbors_of_yields_bucket_ranges() {
    let grid = Grid::new(1200, 600, 48, 24);
    // three entities: two in cell (2,2), one in cell (3,2)
    let mk = |cell: u64, id: i32| CellEntity {
        cell,
        ball: Ball::new(0, 0, Vector::new(0, 0), 1, id),
    };
    let c22 = 2 + 2 * 48u64;
    let c32 = 3 + 2 * 48u64;
    let mut v = vec![mk(c32, 0), mk(c22, 1), mk(c22, 2)];
    insertion_sort_by_cell(&mut v);
    let table = build_bucket_table(&v, 48 * 24);
    let ranges = neighbors_of(&grid, &table, 2, 2, 1);
    assert_eq!(ranges.len(), 9);
    // the range of cell (2,2) covers its two entities, (3,2) one
    assert!(ranges.contains(&(0, 1)));
    assert!(ranges.contains(&(2, 2)));
    assert!(ranges.contains(&(-1, -1)));
}
