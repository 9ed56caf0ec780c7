use particle_grid::ball::Ball;
use particle_grid::radix::radix_sort_by_cell;
use particle_grid::sort::CellEntity;
use particle_grid::vector::Vector;

fn entity(cell: u64, id: i32) -> CellEntity {
    CellEntity { cell, ball: Ball::new(0, 0, Vector::new(0, 0), 1, id) }
}

fn cells_of(v: &Vec<CellEntity>) -> Vec<u64> {
    v.iter().map(|e| e.cell).collect()
}

fn ids_of(v: &Vec<CellEntity>) -> Vec<i32> {
    v.iter().map(|e| e.ball.get_id()).collect()
}

#[test]
fn radix_sorts_small_cells() {
    let mut v = vec![entity(3, 0), entity(1, 1), entity(4, 2), entity(1, 3), entity(2, 4)];
    let ok = radix_sort_by_cell(&mut v, 5);
    assert!(ok);
    assert_eq!(cells_of(&v), vec![1, 1, 2, 3, 4]);
}

#[test]
fn radix_sorts_multi_digit_cells() {
    // Keys that differ only in high digits force every digit pass to
    // carry its weight.
    let mut v = vec![
        entity(99_999, 0),
        entity(305, 1),
        entity(17, 2),
        entity(4213, 3),
        entity(0, 4),
        entity(317, 5),
        entity(4213, 6),
        entity(5, 7),
    ];
    let ok = radix_sort_by_cell(&mut v, 100_000);
    assert!(ok);
    assert_eq!(cells_of(&v), vec![0, 5, 17, 305, 317, 4213, 4213, 99_999]);
}

#[test]
fn radix_is_stable_within_equal_cells() {
    let mut v = vec![
        entity(7, 10),
        entity(2, 11),
        entity(7, 12),
        entity(2, 13),
        entity(7, 14),
    ];
    let ok = radix_sort_by_cell(&mut v, 10);
    assert!(ok);
    assert_eq!(cells_of(&v), vec![2, 2, 7, 7, 7]);
    // entities of one cell keep their input order
    assert_eq!(ids_of(&v), vec![11, 13, 10, 12, 14]);
}

#[test]
fn radix_on_sorted_input_is_identity() {
    // Idempotence under full digit coverage: sorting an already-sorted
    // array through all digit passes returns it unchanged.
    let mut v = vec![
        entity(0, 0),
        entity(19, 1),
        entity(21, 2),
        entity(21, 3),
        entity(300, 4),
        entity(99_999, 5),
    ];
    let before_cells = cells_of(&v);
    let before_ids = ids_of(&v);
    let ok = radix_sort_by_cell(&mut v, 100_000);
    assert!(ok);
    assert_eq!(cells_of(&v), before_cells);
    assert_eq!(ids_of(&v), before_ids);
}

#[test]
fn radix_refuses_cell_ids_beyond_digit_coverage() {
    // A grid with more cells than BASE^NUM_DIGITS would alias high cell
    // ids; the sort refuses it and leaves the array unchanged.
    let mut v = vec![entity(3, 0), entity(100_400, 1), entity(2, 2)];
    let ok = radix_sort_by_cell(&mut v, 100_401);
    assert!(!ok);
    assert_eq!(cells_of(&v), vec![3, 100_400, 2]);
    assert_eq!(ids_of(&v), vec![0, 1, 2]);
}

#[test]
fn radix_sorts_empty_and_singleton() {
    let mut v: Vec<CellEntity> = vec![];
    assert!(radix_sort_by_cell(&mut v, 100));
    assert_eq!(v.len(), 0);

    let mut w = vec![entity(42, 7)];
    assert!(radix_sort_by_cell(&mut w, 100));
    assert_eq!(cells_of(&w), vec![42]);
    assert_eq!(ids_of(&w), vec![7]);
}
