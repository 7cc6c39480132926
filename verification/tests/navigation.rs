use sjovt::navigation::NavigationData;

fn heat(nav: &NavigationData, x: usize, y: usize) -> Option<u64> {
    nav.heatmap[x + y * nav.width]
}

#[test]
fn new_grid_is_zeroed() {
    let nav = NavigationData::new(4, 3);
    assert_eq!(nav.width, 4);
    assert_eq!(nav.height, 3);
    assert_eq!(nav.map, vec![0u32; 12]);
    assert_eq!(nav.heatmap, vec![Some(0u64); 12]);
    assert_eq!(nav.vectorfield, vec![(0i32, 0i32); 12]);
}

#[test]
fn new_empty_grid() {
    let nav = NavigationData::new(0, 5);
    assert!(nav.map.is_empty());
    assert!(nav.heatmap.is_empty());
}

#[test]
fn heatmap_zero_cost_is_grid_distance() {
    let mut nav = NavigationData::new(5, 4);
    nav.generate_heatmap(2, 1);
    for y in 0..4usize {
        for x in 0..5usize {
            let d = (x as i64 - 2).unsigned_abs() + (y as i64 - 1).unsigned_abs();
            assert_eq!(heat(&nav, x, y), Some(d));
        }
    }
}

#[test]
fn heatmap_uniform_cost_scales_distance() {
    let mut nav = NavigationData::new(3, 3);
    nav.map = vec![2u32; 9];
    nav.generate_heatmap(0, 0);
    assert_eq!(heat(&nav, 0, 0), Some(0));
    assert_eq!(heat(&nav, 1, 0), Some(3));
    assert_eq!(heat(&nav, 2, 2), Some(12));
    assert_eq!(heat(&nav, 1, 2), Some(9));
}

#[test]
fn heatmap_adds_tile_costs_along_the_way() {
    let mut nav = NavigationData::new(3, 1);
    nav.map = vec![0, 5, 0];
    nav.generate_heatmap(0, 0);
    assert_eq!(nav.heatmap, vec![Some(0), Some(6), Some(7)]);
}

#[test]
fn heatmap_follows_search_order_not_cheapest_path() {
    // 2 x 2 grid, affector at (0, 0): the tile above, (0, 1), is queued
    // before the tile to the right, (1, 0), so (1, 1) is reached from (0, 1).
    let mut nav = NavigationData::new(2, 2);
    nav.map = vec![0, 100, 7, 0];
    nav.generate_heatmap(0, 0);
    assert_eq!(heat(&nav, 0, 0), Some(0));
    assert_eq!(heat(&nav, 1, 0), Some(101));
    assert_eq!(heat(&nav, 0, 1), Some(8));
    assert_eq!(heat(&nav, 1, 1), Some(9));
}

#[test]
fn heatmap_overwrites_previous_values() {
    let mut nav = NavigationData::new(3, 1);
    nav.heatmap = vec![Some(77), None, Some(3)];
    nav.generate_heatmap(2, 0);
    assert_eq!(nav.heatmap, vec![Some(2), Some(1), Some(0)]);
}

#[test]
fn heatmap_affector_past_row_end() {
    // (2, 0) lies past the end of the first row of a 2 x 2 grid; its index
    // is that of (0, 1).
    let mut nav = NavigationData::new(2, 2);
    nav.generate_heatmap(2, 0);
    assert_eq!(nav.heatmap, vec![Some(2), Some(1), Some(0), Some(2)]);
}

#[test]
fn heatmap_leaves_map_and_field_alone() {
    let mut nav = NavigationData::new(2, 2);
    nav.map = vec![1, 2, 3, 4];
    nav.vectorfield = vec![(1, 1); 4];
    nav.generate_heatmap(1, 1);
    assert_eq!(nav.map, vec![1, 2, 3, 4]);
    assert_eq!(nav.vectorfield, vec![(1, 1); 4]);
}

#[test]
fn vectorfield_points_downhill() {
    let mut nav = NavigationData::new(3, 3);
    nav.generate_heatmap(1, 1);
    nav.generate_vectorfield();
    assert_eq!(nav.get_field_value(0, 0), (1, 1));
    assert_eq!(nav.get_field_value(1, 0), (0, 1));
    assert_eq!(nav.get_field_value(2, 2), (-1, -1));
    // at the affector every neighbour is higher; the first least one wins
    assert_eq!(nav.get_field_value(1, 1), (-1, 0));
}

#[test]
fn vectorfield_without_reached_neighbours_is_zero() {
    let mut nav = NavigationData::new(2, 2);
    nav.heatmap = vec![None; 4];
    nav.generate_vectorfield();
    assert_eq!(nav.vectorfield, vec![(0, 0); 4]);
}

#[test]
fn vectorfield_first_of_equal_neighbours_wins() {
    let mut nav = NavigationData::new(3, 1);
    nav.heatmap = vec![Some(4), None, Some(4)];
    nav.generate_vectorfield();
    assert_eq!(nav.vectorfield, vec![(0, 0), (-1, 0), (0, 0)]);
}

#[test]
fn following_the_field_reaches_the_affector() {
    let (w, h) = (6usize, 5usize);
    let mut nav = NavigationData::new(w, h);
    nav.map = (0..(w * h) as u32).map(|i| i % 3).collect();
    nav.generate_heatmap(4, 1);
    nav.generate_vectorfield();
    for y in 0..h {
        for x in 0..w {
            let budget = heat(&nav, x, y).unwrap();
            let (mut cx, mut cy) = (x as i64, y as i64);
            let mut steps = 0u64;
            while !(cx == 4 && cy == 1) {
                let (dx, dy) = nav.get_field_value(cx as usize, cy as usize);
                cx += dx as i64;
                cy += dy as i64;
                steps += 1;
                assert!(steps <= budget);
            }
        }
    }
}

#[test]
fn get_field_value_reads_by_index() {
    let mut nav = NavigationData::new(2, 2);
    nav.vectorfield = vec![(0, 0), (1, 0), (0, 1), (-1, -1)];
    assert_eq!(nav.get_field_value(1, 1), (-1, -1));
    assert_eq!(nav.get_field_value(1, 0), (1, 0));
    // a column index past the row end reads the next row
    assert_eq!(nav.get_field_value(2, 0), (0, 1));
}

#[test]
fn heatmap_depends_only_on_costs_and_affector() {
    let mut a = NavigationData::new(4, 3);
    a.map = vec![3, 0, 1, 4, 1, 5, 9, 2, 6, 5, 3, 5];
    let mut b = NavigationData::new(4, 3);
    b.map = a.map.clone();
    b.heatmap = vec![None; 12];
    a.generate_heatmap(1, 2);
    b.generate_heatmap(1, 2);
    let first = a.heatmap.clone();
    a.generate_heatmap(1, 2);
    assert_eq!(a.heatmap, first);
    assert_eq!(b.heatmap, first);
}
