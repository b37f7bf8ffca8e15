use rust_physics_engine::spatial_hash::SpatialHash;

fn sorted(mut v: Vec<usize>) -> Vec<usize> {
    v.sort();
    v
}

#[test]
fn neighbors_cover_the_surrounding_block() {
    let mut grid: SpatialHash<2> = SpatialHash::new(22_000);
    grid.insert(&[5_000, 5_000], 0);
    grid.insert(&[30_000, 5_000], 1);
    grid.insert(&[-10_000, 40_000], 2);
    grid.insert(&[70_000, 5_000], 3);
    grid.insert(&[10_000, 10_000], 4);
    assert_eq!(sorted(grid.get_nearby_objects(&[5_000, 5_000], 0)), vec![1, 2, 4]);
    assert_eq!(sorted(grid.get_nearby_objects(&[50_000, 5_000], 9)), vec![1, 3]);
}

#[test]
fn neighbors_include_every_close_point() {
    let cell = 22_000;
    let points: Vec<[i64; 2]> = (0..40)
        .map(|k| [(k * 7_919 % 150_000) - 40_000, (k * 3_571 % 110_000) - 30_000])
        .collect();
    let mut grid: SpatialHash<2> = SpatialHash::new(cell);
    for (id, p) in points.iter().enumerate() {
        grid.insert(p, id);
    }
    for (q_id, q) in points.iter().enumerate() {
        let found = grid.get_nearby_objects(q, q_id);
        for (id, p) in points.iter().enumerate() {
            let dx = (p[0] - q[0]) as i128;
            let dy = (p[1] - q[1]) as i128;
            if id != q_id && dx * dx + dy * dy <= (cell as i128) * (cell as i128) {
                assert!(found.contains(&id));
            }
        }
        assert!(!found.contains(&q_id));
    }
}

#[test]
fn neighbors_in_three_dimensions() {
    let mut grid: SpatialHash<3> = SpatialHash::new(10);
    grid.insert(&[0, 0, 0], 0);
    grid.insert(&[9, 9, 9], 1);
    grid.insert(&[-1, -1, -1], 2);
    grid.insert(&[25, 0, 0], 3);
    grid.insert(&[0, 0, -11], 4);
    assert_eq!(sorted(grid.get_nearby_objects(&[0, 0, 0], 0)), vec![1, 2]);
    assert_eq!(sorted(grid.get_nearby_objects(&[15, 5, 5], 1)), vec![0, 3]);
}

#[test]
fn wider_range_reaches_further_cells() {
    let mut grid: SpatialHash<2> = SpatialHash::new(10);
    grid.insert(&[0, 0], 0);
    grid.insert(&[35, 0], 1);
    grid.insert(&[55, 0], 2);
    assert_eq!(sorted(grid.get_nearby_objects_in_range(&[0, 0], 10)), vec![0]);
    assert_eq!(sorted(grid.get_nearby_objects_in_range(&[0, 0], 21)), vec![0, 1]);
    assert_eq!(sorted(grid.get_nearby_objects_in_range(&[0, 0], 50)), vec![0, 1, 2]);
}

#[test]
fn cell_lookup_and_clear() {
    let mut grid: SpatialHash<2> = SpatialHash::new(10);
    grid.insert(&[3, 4], 7);
    grid.insert(&[9, 0], 8);
    grid.insert(&[-1, 4], 9);
    assert_eq!(sorted(grid.get_objects_in_cell(&[5, 5]).unwrap().clone()), vec![7, 8]);
    assert_eq!(grid.get_objects_in_cell(&[-5, 5]).unwrap().clone(), vec![9]);
    assert!(grid.get_objects_in_cell(&[15, 5]).is_none());
    grid.clear();
    assert!(grid.get_objects_in_cell(&[5, 5]).is_none());
    assert!(grid.get_nearby_objects(&[5, 5], 100).is_empty());
}

#[test]
fn cells_keep_insertion_order_and_multiplicity() {
    let mut grid: SpatialHash<2> = SpatialHash::new(10);
    grid.insert(&[1, 1], 3);
    grid.insert(&[2, 2], 1);
    grid.insert(&[3, 3], 2);
    grid.insert(&[4, 4], 1);
    assert_eq!(grid.get_objects_in_cell(&[0, 0]).unwrap().clone(), vec![3, 1, 2, 1]);
}

#[test]
fn distinct_ids_are_reported_once() {
    let mut grid: SpatialHash<3> = SpatialHash::new(10);
    for id in 0..27usize {
        let p = [(id % 3) as i64 * 10, ((id / 3) % 3) as i64 * 10, (id / 9) as i64 * 10];
        grid.insert(&p, id);
    }
    let found = grid.get_nearby_objects(&[10, 10, 10], 13);
    assert_eq!(sorted(found.clone()), (0..27).filter(|&k| k != 13).collect::<Vec<_>>());
    assert_eq!(found.len(), 26);
}
