use basebuilder::pathfinding::{
    can_climb, can_move_to, dig_work_area, can_stand, can_stand_or_climb, climbing_towards, find_path,
    follow_path_step, manhattan_distance, path_from_search, same_tile, successors,
    tile_is_accessible, ClimbableMap, Path, PathStep, SquareDirection, TerrainData, TilePos,
    TilemapSize,
};

/// A 5 by 5 grid whose bottom row is solid ground and the rest open air.
fn flat_ground() -> TerrainData {
    let mut terrain = TerrainData::new(5, 5);
    for x in 0..5 {
        terrain.set_tile(TilePos::new(x, 0), 1);
    }
    terrain
}

fn is_adjacent(a: TilePos, b: TilePos) -> bool {
    a != b && (a.x as i64 - b.x as i64).abs() <= 1 && (a.y as i64 - b.y as i64).abs() <= 1
}

#[test]
fn square_offset_steps_inside_the_grid() {
    let size = TilemapSize { x: 5, y: 5 };
    let pos = TilePos::new(2, 2);
    assert_eq!(pos.square_offset(&SquareDirection::North, &size), Some(TilePos::new(2, 3)));
    assert_eq!(pos.square_offset(&SquareDirection::South, &size), Some(TilePos::new(2, 1)));
    assert_eq!(pos.square_offset(&SquareDirection::East, &size), Some(TilePos::new(3, 2)));
    assert_eq!(pos.square_offset(&SquareDirection::SouthWest, &size), Some(TilePos::new(1, 1)));
    assert_eq!(pos.square_offset(&SquareDirection::NorthEast, &size), Some(TilePos::new(3, 3)));
}

#[test]
fn square_offset_is_none_outside_the_grid() {
    let size = TilemapSize { x: 5, y: 5 };
    assert_eq!(TilePos::new(0, 0).square_offset(&SquareDirection::West, &size), None);
    assert_eq!(TilePos::new(0, 0).square_offset(&SquareDirection::South, &size), None);
    assert_eq!(TilePos::new(4, 4).square_offset(&SquareDirection::NorthEast, &size), None);
}

#[test]
fn terrain_tiles_read_back_what_was_set() {
    let mut terrain = TerrainData::new(3, 2);
    assert_eq!(terrain.get_tile(TilePos::new(2, 1)), Some(0));
    terrain.set_tile(TilePos::new(2, 1), 7);
    assert_eq!(terrain.get_tile(TilePos::new(2, 1)), Some(7));
    assert_eq!(terrain.get_tile(TilePos::new(1, 1)), Some(0));
    assert_eq!(terrain.get_tile(TilePos::new(3, 0)), None);
    terrain.set_tile(TilePos::new(3, 0), 7);
    assert_eq!(terrain.get_tile(TilePos::new(3, 0)), None);
    let size = terrain.map_size();
    assert_eq!((size.x, size.y), (3, 2));
}

#[test]
fn standing_needs_solid_ground_below() {
    let terrain = flat_ground();
    assert!(can_stand(&terrain, TilePos::new(1, 1)));
    assert!(!can_stand(&terrain, TilePos::new(1, 2)));
    assert!(!can_stand(&terrain, TilePos::new(1, 0)));
}

#[test]
fn climbing_needs_a_climbable_map_that_marks_the_tile() {
    let terrain = flat_ground();
    let mut climbable = ClimbableMap::new();
    assert!(!climbable.is_climbable(TilePos::new(1, 2)));
    climbable.mark_climbable(TilePos::new(1, 2));
    assert!(climbable.is_climbable(TilePos::new(1, 2)));
    assert!(can_climb(Some(&climbable), TilePos::new(1, 2)));
    assert!(!can_climb(None, TilePos::new(1, 2)));
    assert!(can_stand_or_climb(&terrain, Some(&climbable), TilePos::new(1, 2)));
    assert!(!can_stand_or_climb(&terrain, None, TilePos::new(1, 2)));
    assert!(!can_stand_or_climb(&terrain, Some(&climbable), TilePos::new(1, 0)));
}

#[test]
fn moves_along_the_ground_and_up_ladders() {
    let terrain = flat_ground();
    let mut climbable = ClimbableMap::new();
    climbable.mark_climbable(TilePos::new(2, 2));
    let start = TilePos::new(2, 1);
    assert!(can_move_to(&terrain, None, start, SquareDirection::East));
    assert!(can_move_to(&terrain, None, start, SquareDirection::West));
    assert!(!can_move_to(&terrain, None, start, SquareDirection::North));
    assert!(can_move_to(&terrain, Some(&climbable), start, SquareDirection::North));
    assert!(!can_move_to(&terrain, None, start, SquareDirection::South));
    assert!(can_move_to(&terrain, None, start, SquareDirection::NorthEast));
    assert!(can_move_to(&terrain, Some(&climbable), TilePos::new(2, 2), SquareDirection::South));
    assert!(!can_move_to(&terrain, Some(&climbable), TilePos::new(3, 2), SquareDirection::North));
    assert!(can_move_to(&terrain, Some(&climbable), TilePos::new(2, 3), SquareDirection::East));
}

#[test]
fn successors_on_flat_ground_are_left_and_right() {
    let terrain = flat_ground();
    let moves = successors(&terrain, None, &TilePos::new(2, 1));
    assert_eq!(moves, vec![(TilePos::new(3, 1), 1), (TilePos::new(1, 1), 1)]);
}

#[test]
fn successors_include_the_rung_above() {
    let terrain = flat_ground();
    let mut climbable = ClimbableMap::new();
    climbable.mark_climbable(TilePos::new(2, 2));
    let moves = successors(&terrain, Some(&climbable), &TilePos::new(2, 1));
    assert_eq!(
        moves,
        vec![(TilePos::new(2, 2), 1), (TilePos::new(3, 1), 1), (TilePos::new(1, 1), 1)]
    );
}

#[test]
fn manhattan_distance_counts_columns_and_rows() {
    assert_eq!(manhattan_distance(&TilePos::new(1, 2), &TilePos::new(4, 0)), 5);
    assert_eq!(manhattan_distance(&TilePos::new(4, 0), &TilePos::new(1, 2)), 5);
    assert_eq!(manhattan_distance(&TilePos::new(3, 3), &TilePos::new(3, 3)), 0);
    assert!(same_tile(&TilePos::new(3, 3), &TilePos::new(3, 3)));
    assert!(!same_tile(&TilePos::new(3, 3), &TilePos::new(3, 4)));
}

#[test]
fn find_path_walks_along_the_ground() {
    let terrain = flat_ground();
    let path = find_path(&terrain, None, TilePos::new(0, 1), TilePos::new(4, 1)).unwrap();
    assert_eq!(
        path.0,
        vec![
            TilePos::new(0, 1),
            TilePos::new(1, 1),
            TilePos::new(2, 1),
            TilePos::new(3, 1),
            TilePos::new(4, 1)
        ]
    );
}

#[test]
fn find_path_climbs_a_ladder() {
    let terrain = flat_ground();
    let mut climbable = ClimbableMap::new();
    climbable.mark_climbable(TilePos::new(2, 2));
    climbable.mark_climbable(TilePos::new(2, 3));
    let path = find_path(&terrain, Some(&climbable), TilePos::new(0, 1), TilePos::new(2, 3)).unwrap();
    assert_eq!(path.0.first(), Some(&TilePos::new(0, 1)));
    assert_eq!(path.0.last(), Some(&TilePos::new(2, 3)));
    for pair in path.0.windows(2) {
        assert!(is_adjacent(pair[0], pair[1]));
    }
    assert!(path.0.contains(&TilePos::new(2, 2)));
}

#[test]
fn find_path_is_none_without_a_way_up() {
    let terrain = flat_ground();
    assert!(find_path(&terrain, None, TilePos::new(0, 1), TilePos::new(2, 3)).is_none());
}

#[test]
fn find_path_to_the_start_is_the_start_alone() {
    let terrain = flat_ground();
    let path = find_path(&terrain, None, TilePos::new(3, 1), TilePos::new(3, 1)).unwrap();
    assert_eq!(path.0, vec![TilePos::new(3, 1)]);
}

#[test]
fn path_from_search_drops_empty_results() {
    assert_eq!(path_from_search(None), None);
    assert_eq!(path_from_search(Some((vec![], 0))), None);
    assert_eq!(
        path_from_search(Some((vec![TilePos::new(1, 1), TilePos::new(2, 1)], 1))),
        Some(Path(vec![TilePos::new(1, 1), TilePos::new(2, 1)]))
    );
}

#[test]
fn dig_site_is_accessible_from_open_sides() {
    let terrain = flat_ground();
    assert!(tile_is_accessible(&terrain, TilePos::new(2, 0)));
    let mut buried = TerrainData::new(3, 3);
    for x in 0..3 {
        for y in 0..3 {
            buried.set_tile(TilePos::new(x, y), 1);
        }
    }
    assert!(!tile_is_accessible(&buried, TilePos::new(1, 1)));
    buried.set_tile(TilePos::new(2, 1), 0);
    assert!(tile_is_accessible(&buried, TilePos::new(1, 1)));
}

#[test]
fn climbing_is_a_move_straight_up_or_down() {
    assert!(climbing_towards(TilePos::new(2, 1), TilePos::new(2, 2)));
    assert!(climbing_towards(TilePos::new(2, 2), TilePos::new(2, 1)));
    assert!(!climbing_towards(TilePos::new(2, 1), TilePos::new(3, 1)));
    assert!(!climbing_towards(TilePos::new(2, 1), TilePos::new(3, 2)));
}

#[test]
fn following_a_path_drops_reached_tiles_until_arrival() {
    let mut path = Path(vec![TilePos::new(1, 1), TilePos::new(2, 2)]);
    match follow_path_step(&mut path, TilePos::new(1, 1), false) {
        PathStep::Toward { tile, climbing } => {
            assert_eq!(tile, TilePos::new(1, 1));
            assert!(!climbing);
        }
        PathStep::Arrived => panic!("the path is not used up"),
    }
    assert_eq!(path.0.len(), 2);
    match follow_path_step(&mut path, TilePos::new(1, 1), true) {
        PathStep::Toward { tile, climbing } => {
            assert_eq!(tile, TilePos::new(2, 2));
            assert!(!climbing);
        }
        PathStep::Arrived => panic!("one tile is left"),
    }
    assert!(matches!(follow_path_step(&mut path, TilePos::new(2, 2), true), PathStep::Arrived));
    assert!(path.0.is_empty());
    assert!(matches!(follow_path_step(&mut path, TilePos::new(2, 2), true), PathStep::Arrived));
}

#[test]
fn walkable_tiles_lists_the_tiles_above_ground_column_by_column() {
    let mut terrain = flat_ground();
    terrain.set_tile(TilePos::new(2, 1), 1);
    let tiles = basebuilder::pathfinding::walkable_tiles(&terrain, 5, 5);
    assert_eq!(
        tiles,
        vec![
            TilePos::new(0, 1),
            TilePos::new(1, 1),
            TilePos::new(2, 2),
            TilePos::new(3, 1),
            TilePos::new(4, 1)
        ]
    );
    assert!(basebuilder::pathfinding::walkable_tiles(&terrain, 0, 5).is_empty());
}

#[test]
fn first_reachable_path_takes_the_first_site_that_can_be_reached() {
    let terrain = flat_ground();
    let sites = vec![TilePos::new(2, 3), TilePos::new(4, 1), TilePos::new(1, 1)];
    let path = basebuilder::pathfinding::first_reachable_path(&terrain, None, TilePos::new(0, 1), &sites).unwrap();
    assert_eq!(path.0.last(), Some(&TilePos::new(4, 1)));
    assert_eq!(path.0.first(), Some(&TilePos::new(0, 1)));
    let unreachable = vec![TilePos::new(2, 3), TilePos::new(3, 4)];
    assert!(basebuilder::pathfinding::first_reachable_path(&terrain, None, TilePos::new(0, 1), &unreachable).is_none());
    assert!(basebuilder::pathfinding::first_reachable_path(&terrain, None, TilePos::new(0, 1), &vec![]).is_none());
}

#[test]
fn dig_work_area_lists_the_sites_around_a_tile_that_lie_on_the_grid() {
    let terrain = TerrainData::new(5, 5);
    assert_eq!(
        dig_work_area(&terrain, TilePos::new(2, 2)),
        vec![
            TilePos::new(1, 3),
            TilePos::new(3, 3),
            TilePos::new(3, 2),
            TilePos::new(3, 1),
            TilePos::new(2, 1),
            TilePos::new(1, 1),
            TilePos::new(1, 2),
        ]
    );
    assert_eq!(dig_work_area(&terrain, TilePos::new(0, 0)), vec![TilePos::new(1, 1), TilePos::new(1, 0)]);
    assert_eq!(dig_work_area(&terrain, TilePos::new(4, 4)), vec![TilePos::new(4, 3), TilePos::new(3, 3), TilePos::new(3, 4)]);
}

#[test]
fn find_path_takes_tiles_off_the_grid() {
    let terrain = flat_ground();
    let from_beside = find_path(&terrain, None, TilePos::new(5, 1), TilePos::new(4, 1));
    assert_eq!(from_beside, Some(Path(vec![TilePos::new(5, 1), TilePos::new(4, 1)])));
    assert_eq!(find_path(&terrain, None, TilePos::new(1, 1), TilePos::new(7, 7)), None);
    assert_eq!(find_path(&terrain, None, TilePos::new(9, 9), TilePos::new(9, 9)), Some(Path(vec![TilePos::new(9, 9)])));
}
