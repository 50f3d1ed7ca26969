use molecule_sim::geometry::Pos;
use molecule_sim::particle_grid::{
    calculate_connected_cells_for_every_particle, get_connected_cells, get_connected_cells_indexes,
    grid_pos_to_index, grid_size_for_region, neighbor_candidates, pixel_pos_to_gird_pos,
    pos_to_grid_index, split_particles_into_grid, GridSize,
};

fn size() -> GridSize {
    GridSize { width: 32, height: 32 }
}

fn pm(x: i32, y: i32) -> Pos {
    Pos::new(x * 1000, y * 1000)
}

#[test]
fn grid_position_is_floor_plus_half() {
    assert_eq!(pixel_pos_to_gird_pos(&pm(0, 0), size()), Some((16, 16)));
    assert_eq!(pixel_pos_to_gird_pos(&pm(39, 40), size()), Some((16, 17)));
    assert_eq!(pixel_pos_to_gird_pos(&Pos::new(-1, 0), size()), Some((15, 16)));
    assert_eq!(pixel_pos_to_gird_pos(&pm(-640, 639), size()), Some((0, 31)));
    assert_eq!(pixel_pos_to_gird_pos(&pm(640, 0), size()), None);
    assert_eq!(pixel_pos_to_gird_pos(&Pos::new(-640001, 0), size()), None);
}

#[test]
fn cell_index_is_row_major() {
    assert_eq!(grid_pos_to_index((3, 2), size()), 67);
    assert_eq!(pos_to_grid_index(&pm(0, 0), size()), Some(16 * 32 + 16));
    assert_eq!(pos_to_grid_index(&pm(0, 5000), size()), None);
}

#[test]
fn corner_cell_has_four_connected_cells() {
    assert_eq!(get_connected_cells((0, 0), size()), vec![(0, 1), (1, 1), (0, 0), (1, 0)]);
    assert_eq!(get_connected_cells_indexes((0, 0), size()), vec![32, 33, 0, 1]);
    assert_eq!(get_connected_cells((31, 31), size()), vec![(30, 31), (31, 31), (30, 30), (31, 30)]);
}

#[test]
fn inner_cell_has_nine_connected_cells() {
    let cells = get_connected_cells((5, 5), size());
    assert_eq!(
        cells,
        vec![(4, 6), (5, 6), (6, 6), (4, 5), (5, 5), (6, 5), (4, 4), (5, 4), (6, 4)]
    );
}

#[test]
fn split_assigns_indices_and_drops_outside_positions() {
    let positions = vec![pm(0, 0), pm(10, 10), pm(-10, 0), pm(5000, 0)];
    let grid = split_particles_into_grid(&positions, size());
    assert_eq!(grid.len(), 32 * 32);
    assert_eq!(grid[16 * 32 + 16], vec![0, 1]);
    assert_eq!(grid[16 * 32 + 15], vec![2]);
    let total: usize = grid.iter().map(|b| b.len()).sum();
    assert_eq!(total, 3);
}

#[test]
fn close_particles_are_candidates_of_each_other() {
    let positions = vec![pm(39, 0), pm(41, 0), pm(200, 200)];
    let grid = split_particles_into_grid(&positions, size());
    let a = neighbor_candidates(&grid, size(), &positions[0]);
    let b = neighbor_candidates(&grid, size(), &positions[1]);
    assert!(a.contains(&1));
    assert!(b.contains(&0));
    assert!(!a.contains(&2));
    let outside = neighbor_candidates(&grid, size(), &pm(9000, 0));
    assert!(outside.is_empty());
}

#[test]
fn candidates_may_include_distant_particles() {
    let positions = vec![pm(0, 0), pm(79, 0)];
    let grid = split_particles_into_grid(&positions, size());
    let a = neighbor_candidates(&grid, size(), &positions[0]);
    assert_eq!(a, vec![0, 1]);
}

#[test]
fn connected_cells_for_every_particle_concatenates() {
    let positions = vec![pm(-640, -640), pm(9000, 0)];
    let all = calculate_connected_cells_for_every_particle(&positions, size());
    assert_eq!(all, vec![32, 33, 0, 1]);
}

#[test]
fn grid_size_covers_region() {
    let g = grid_size_for_region(1_280_000, 720_000).unwrap();
    assert_eq!(g, GridSize { width: 33, height: 19 });
    assert_eq!(grid_size_for_region(40_001, 1), Some(GridSize { width: 3, height: 2 }));
    assert_eq!(grid_size_for_region(0, 100), Some(GridSize { width: 1, height: 2 }));
    assert_eq!(grid_size_for_region(200_000_000, 100), None);
}

#[test]
fn region_edges_lie_on_grid() {
    let g = grid_size_for_region(1_280_000, 720_000).unwrap();
    for p in [pm(640, 360), pm(-640, -360), pm(640, -360), pm(-640, 360), pm(0, 0)] {
        assert!(pixel_pos_to_gird_pos(&p, g).is_some());
    }
    let odd = grid_size_for_region(200_000, 120_000).unwrap();
    for p in [pm(100, 60), pm(-100, -60)] {
        assert!(pixel_pos_to_gird_pos(&p, odd).is_some());
    }
}

#[test]
fn particles_on_right_wall_find_each_other() {
    let g = grid_size_for_region(1_280_000, 720_000).unwrap();
    let positions = vec![pm(640, 0), pm(620, 0)];
    let grid = split_particles_into_grid(&positions, g);
    assert!(neighbor_candidates(&grid, g, &positions[0]).contains(&1));
    assert!(neighbor_candidates(&grid, g, &positions[1]).contains(&0));
}
