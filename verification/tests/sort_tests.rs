use particle_grid::ball::Ball;
use particle_grid::bucket::{build_bucket_table, build_lookup, find_cell_range, rebuild_by_cell};
use particle_grid::sort::{insertion_sort_by_cell, CellEntity};
use particle_grid::vector::Vector;

fn entity(cell: u64, id: i32) -> CellEntity {
    CellEntity { cell, ball: Ball::new(0, 0, Vector::new(0, 0), 1, id) }
}

fn cells_of(v: &Vec<CellEntity>) -> Vec<u64> {
    v.iter().map(|e| e.cell).collect()
}

fn ids_of(v: &Vec<CellEntity>) -> Vec<i32> {
    v.iter().map(|e| e.ball.get_id()).collect()
}

#[test]
fn insertion_sort_orders_by_cell() {
    // Sort correctness: cell ids [3,1,4,1,2] come out as [1,1,2,3,4].
    let mut v = vec![entity(3, 0), entity(1, 1), entity(4, 2), entity(1, 3), entity(2, 4)];
    insertion_sort_by_cell(&mut v);
    assert_eq!(cells_of(&v), vec![1, 1, 2, 3, 4]);
    // the same five entities, by id
    let mut ids = ids_of(&v);
    ids.sort();
    assert_eq!(ids, vec![0, 1, 2, 3, 4]);
}

#[test]
fn bucket_table_after_sorting() {
    // After rebuilding, cell 1's range covers exactly 2 entities.
    let mut v = vec![entity(3, 0), entity(1, 1), entity(4, 2), entity(1, 3), entity(2, 4)];
    insertion_sort_by_cell(&mut v);
    let table = build_bucket_table(&v, 5);
    assert_eq!(table.len(), 5);
    assert_eq!(table[0], (-1, -1));
    assert_eq!(table[1], (0, 1));
    assert_eq!(table[2], (2, 2));
    assert_eq!(table[3], (3, 3));
    assert_eq!(table[4], (4, 4));
    let (s, e) = table[1];
    assert_eq!(e - s + 1, 2);
}

#[test]
fn binary_search_boundaries_with_duplicates() {
    // Cell ids [0,0,2,2,2,5]: cell 2 spans [2,4]; absent cell 3 gives
    // the sentinel.
    let v = vec![entity(0, 0), entity(0, 1), entity(2, 2), entity(2, 3), entity(2, 4), entity(5, 5)];
    assert_eq!(find_cell_range(&v, 2, 0), (2, 4));
    assert_eq!(find_cell_range(&v, 3, 0), (-1, -1));
    assert_eq!(find_cell_range(&v, 0, 0), (0, 1));
    assert_eq!(find_cell_range(&v, 5, 0), (5, 5));
    assert_eq!(find_cell_range(&v, 4, 0), (-1, -1));
}

#[test]
fn binary_search_suffix_window() {
    let v = vec![entity(0, 0), entity(0, 1), entity(2, 2), entity(2, 3), entity(2, 4), entity(5, 5)];
    // searching only from index 2 on still finds cell 2's full range
    assert_eq!(find_cell_range(&v, 2, 2), (2, 4));
    assert_eq!(find_cell_range(&v, 5, 5), (5, 5));
}

#[test]
fn bucket_ranges_partition_all_entities() {
    // Bucket completeness: the union of all cells' ranges holds every
    // index exactly once.
    let mut v = vec![
        entity(7, 0),
        entity(0, 1),
        entity(3, 2),
        entity(7, 3),
        entity(3, 4),
        entity(3, 5),
        entity(1, 6),
    ];
    insertion_sort_by_cell(&mut v);
    let table = build_bucket_table(&v, 8);
    let mut covered = vec![0usize; v.len()];
    for c in 0..8 {
        let (s, e) = table[c];
        if s >= 0 {
            for k in s..=e {
                covered[k as usize] += 1;
            }
        }
    }
    assert_eq!(covered, vec![1, 1, 1, 1, 1, 1, 1]);
}

#[test]
fn rebuild_groups_by_cell_and_is_stable() {
    let v = vec![entity(3, 0), entity(1, 1), entity(4, 2), entity(1, 3), entity(2, 4)];
    let (grouped, lookup) = rebuild_by_cell(&v, 5);
    assert_eq!(cells_of(&grouped), vec![1, 1, 2, 3, 4]);
    // stable: the two cell-1 entities keep their input order
    assert_eq!(ids_of(&grouped), vec![1, 3, 4, 0, 2]);
    assert_eq!(lookup, vec![-1, 0, 2, 3, 4]);
}

#[test]
fn lookup_marks_first_entity_per_cell() {
    let mut v = vec![entity(2, 0), entity(0, 1), entity(2, 2), entity(0, 3)];
    insertion_sort_by_cell(&mut v);
    let lookup = build_lookup(&v, 4);
    assert_eq!(lookup, vec![0, -1, 2, -1]);
}

#[test]
fn empty_array_yields_empty_buckets() {
    let v: Vec<CellEntity> = vec![];
    let table = build_bucket_table(&v, 3);
    assert_eq!(table, vec![(-1, -1), (-1, -1), (-1, -1)]);
    let lookup = build_lookup(&v, 3);
    assert_eq!(lookup, vec![-1, -1, -1]);
}
