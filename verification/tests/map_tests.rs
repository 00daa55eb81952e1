use std::collections::HashSet;

use sc2pathlib::flood::flood_fill_overlord;
use sc2pathlib::map::{GameMap, OverlordSpot};
use sc2pathlib::map_point::{Cliff, MapPoint};
use sc2pathlib::refine::refine_points;
use sc2pathlib::survey::second_pass;

/// An 8 by 8 map of walkable ground at height 10, with an unwalkable 2 by 2 block of
/// height `block` at x, y in 3..5.
fn block_map(block: usize) -> (Vec<Vec<usize>>, Vec<Vec<usize>>, Vec<Vec<usize>>) {
    let mut pathing = vec![vec![1usize; 8]; 8];
    let placement = vec![vec![0usize; 8]; 8];
    let mut heights = vec![vec![10usize; 8]; 8];
    for x in 3..5 {
        for y in 3..5 {
            pathing[x][y] = 0;
            heights[x][y] = block;
        }
    }
    (pathing, placement, heights)
}

fn grid_of_heights(heights: &[Vec<usize>]) -> Vec<Vec<MapPoint>> {
    heights
        .iter()
        .map(|col| {
            col.iter()
                .map(|h| {
                    let mut p = MapPoint::new();
                    p.height = *h;
                    p
                })
                .collect()
        })
        .collect()
}

#[test]
fn new_finds_overlord_spot_on_high_block() {
    let (pathing, placement, heights) = block_map(40);
    let map = GameMap::new(pathing, placement, heights, 1, 1, 6, 6);
    assert_eq!(
        map.overlord_spots,
        vec![OverlordSpot { sum_x: 42, sum_y: 42, count: 12 }]
    );
    for x in 0..8 {
        for y in 0..8 {
            let in_block = (3..5).contains(&x) && (3..5).contains(&y);
            assert_eq!(map.points[x][y].overlord_spot, in_block, "cell {} {}", x, y);
        }
    }
}

#[test]
fn new_finds_no_spot_on_low_block() {
    let (pathing, placement, heights) = block_map(20);
    let map = GameMap::new(pathing, placement, heights, 1, 1, 6, 6);
    assert!(map.overlord_spots.is_empty());
    assert!(map.points.iter().all(|col| col.iter().all(|p| !p.overlord_spot)));
}

#[test]
fn new_unflags_plateau_with_high_rim() {
    let (pathing, placement, mut heights) = block_map(40);
    // a rim cell almost as high as the block
    heights[5][3] = 30;
    let map = GameMap::new(pathing, placement, heights, 1, 1, 6, 6);
    assert!(map.overlord_spots.is_empty());
    assert!(map.points.iter().all(|col| col.iter().all(|p| !p.overlord_spot)));
}

#[test]
fn new_builds_pathing_grids() {
    let (pathing, placement, heights) = block_map(40);
    let map = GameMap::new(pathing, placement, heights, 1, 1, 6, 6);
    for x in 0..8 {
        for y in 0..8 {
            let in_block = (3..5).contains(&x) && (3..5).contains(&y);
            let playable = (1..=6).contains(&x) && (1..=6).contains(&y);
            assert_eq!(map.ground_pathing.map[x][y], if in_block { 0 } else { 1 });
            assert_eq!(map.air_pathing.map[x][y], if playable { 1 } else { 0 });
            assert_eq!(map.reaper_pathing.map[x][y], map.ground_pathing.map[x][y]);
            assert_eq!(map.points[x][y].walkable, !in_block);
            assert_eq!(map.points[x][y].pathable, playable);
            assert_eq!(map.points[x][y].is_border, in_block);
        }
    }
    assert_eq!(map.colossus_pathing.map, map.reaper_pathing.map);
    assert_eq!(map.ground_pathing.width, 8);
    assert_eq!(map.ground_pathing.height, 8);
    assert!(!map.influence_colossus_map);
    assert!(!map.influence_reaper_map);
}

#[test]
fn placement_makes_cells_walkable() {
    let (pathing, mut placement, heights) = block_map(40);
    placement[3][3] = 1;
    let map = GameMap::new(pathing, placement, heights, 1, 1, 6, 6);
    assert!(map.points[3][3].walkable);
    assert_eq!(map.ground_pathing.map[3][3], 1);
}

#[test]
fn get_borders_lists_border_cells_in_order() {
    let (pathing, placement, heights) = block_map(40);
    let map = GameMap::new(pathing, placement, heights, 1, 1, 6, 6);
    assert_eq!(map.get_borders(), vec![(3, 3), (3, 4), (4, 3), (4, 4)]);
}

#[test]
fn borders_are_unwalkable_inner_cells_beside_walkable_ones() {
    // mostly unwalkable ground with a few walkable cells, one on the grid's edge
    let mut pathing = vec![vec![0usize; 9]; 10];
    let mut placement = vec![vec![0usize; 9]; 10];
    pathing[2][2] = 1;
    pathing[6][5] = 1;
    placement[8][7] = 1;
    pathing[0][4] = 1;
    let heights = vec![vec![5usize; 9]; 10];
    let walk = |x: usize, y: usize| pathing[x][y] > 0 || placement[x][y] > 0;
    let mut expected = Vec::new();
    for x in 1..8 {
        for y in 1..7 {
            let beside = (-1i32..=1).any(|dx| {
                (-1i32..=1).any(|dy| {
                    (dx, dy) != (0, 0) && walk((x as i32 + dx) as usize, (y as i32 + dy) as usize)
                })
            });
            if !walk(x, y) && beside {
                expected.push((x, y));
            }
        }
    }
    let map = GameMap::new(pathing.clone(), placement.clone(), heights, 1, 1, 8, 7);
    assert_eq!(map.get_borders(), expected);
    assert_eq!(expected.len(), 18);
}

#[test]
fn new_reads_only_the_pathing_grids_size_of_larger_grids() {
    let (pathing, placement, heights) = block_map(40);
    let mut wide_placement = placement.clone();
    for column in wide_placement.iter_mut() {
        column.extend([1, 1, 1]);
    }
    wide_placement.push(vec![1; 11]);
    let mut tall_heights = heights.clone();
    for column in tall_heights.iter_mut() {
        column.push(99);
    }
    tall_heights.push(vec![99; 9]);
    let small = GameMap::new(pathing.clone(), placement, heights, 1, 1, 6, 6);
    let large = GameMap::new(pathing, wide_placement, tall_heights, 1, 1, 6, 6);
    assert_eq!(large.ground_pathing.width, 8);
    assert_eq!(large.ground_pathing.height, 8);
    assert_eq!(large.ground_pathing.map, small.ground_pathing.map);
    assert_eq!(large.points, small.points);
    assert_eq!(large.overlord_spots, small.overlord_spots);
}

#[test]
fn draw_climbs_codes() {
    let (pathing, placement, heights) = block_map(40);
    let mut map = GameMap::new(pathing, placement, heights, 1, 1, 6, 6);
    map.points[1][1].cliff_type = Cliff::High;
    map.points[1][2].cliff_type = Cliff::Both;
    map.points[1][3].cliff_type = Cliff::Low;
    map.points[0][0].climbable = true;
    map.ground_pathing.map[0][0] = 0;
    let walk = map.draw_climbs();
    assert_eq!(walk[1][1], 5);
    assert_eq!(walk[1][2], 4);
    assert_eq!(walk[1][3], 3);
    assert_eq!(walk[2][2], 2);
    assert_eq!(walk[0][0], 1);
    assert_eq!(walk[3][3], 6);
    map.points[3][3].overlord_spot = false;
    assert_eq!(map.draw_climbs()[3][3], 0);
}

#[test]
fn draw_chokes_codes() {
    let (pathing, placement, heights) = block_map(40);
    let mut map = GameMap::new(pathing, placement, heights, 1, 1, 6, 6);
    map.points[3][4].is_choke = true;
    map.points[1][1].is_choke = true;
    let chokes = map.draw_chokes();
    assert_eq!(chokes[3][3], 255);
    assert_eq!(chokes[3][4], 175);
    assert_eq!(chokes[1][1], 100);
    assert_eq!(chokes[0][0], 0);
}

#[test]
fn get_map_selects_by_type() {
    let (pathing, placement, heights) = block_map(40);
    let mut map = GameMap::new(pathing, placement, heights, 1, 1, 6, 6);
    assert_eq!(map.get_map(0).map, map.ground_pathing.map);
    assert_eq!(map.get_map(3).map, map.air_pathing.map);
    map.get_map_mut(1).map[0][0] = 7;
    assert_eq!(map.reaper_pathing.map[0][0], 7);
    assert_eq!(map.colossus_pathing.map[0][0], 1);
    assert_eq!(map.get_map(1).map[0][0], 7);
    map.get_map_mut(2).map[0][1] = 9;
    assert_eq!(map.colossus_pathing.map[0][1], 9);
    assert_eq!(map.get_reaper_pathing()[0][0], 7);
    assert_eq!(map.get_colossus_pathing()[0][1], 9);
    assert_eq!(map.get_ground_pathing(), map.ground_pathing.map);
    assert_eq!(map.get_air_pathing(), map.air_pathing.map);
    assert_eq!(map.get_overlord_spots(), map.overlord_spots);
}

#[test]
fn flood_fill_visits_plateau_and_rim() {
    let (_, _, heights) = block_map(40);
    let mut points = grid_of_heights(&heights);
    let mut set = HashSet::new();
    assert!(flood_fill_overlord(&mut points, 3, 3, 40, true, &mut set));
    assert_eq!(set.len(), 12);
    for (x, y) in [(3, 3), (3, 4), (4, 3), (4, 4), (3, 2), (2, 3), (5, 4), (4, 5)] {
        assert!(set.contains(&(x + y * 1000000)));
    }
    assert!(!set.contains(&(2 + 2 * 1000000)));
    for x in 0..8 {
        for y in 0..8 {
            let in_block = (3..5).contains(&x) && (3..5).contains(&y);
            assert_eq!(points[x][y].overlord_spot, in_block);
        }
    }
    // a second fill from the same plateau with the set kept reaches nothing new
    assert!(flood_fill_overlord(&mut points, 4, 4, 40, false, &mut set));
    assert_eq!(set.len(), 12);
    assert!(points[4][4].overlord_spot);
}

#[test]
fn flood_fill_fails_on_high_rim() {
    let (_, _, mut heights) = block_map(40);
    heights[2][3] = 25;
    let mut points = grid_of_heights(&heights);
    let mut set = HashSet::new();
    assert!(!flood_fill_overlord(&mut points, 3, 3, 40, false, &mut set));
    assert_eq!(set.len(), 12);
    assert!(!points[3][3].overlord_spot);
}

#[test]
fn flood_fill_on_other_height_visits_one_cell() {
    let (_, _, heights) = block_map(40);
    let mut points = grid_of_heights(&heights);
    let mut set = HashSet::new();
    // the cell lies exactly DIFFERENCE below the target
    assert!(flood_fill_overlord(&mut points, 0, 0, 26, true, &mut set));
    assert_eq!(set.len(), 1);
    assert!(!points[0][0].overlord_spot);
    let mut set = HashSet::new();
    assert!(!flood_fill_overlord(&mut points, 0, 0, 25, true, &mut set));
}

#[test]
fn flood_fill_runs_along_the_grid_edge() {
    let heights = vec![vec![40usize, 40, 40], vec![10, 10, 10]];
    let mut points = grid_of_heights(&heights);
    let mut set = HashSet::new();
    assert!(flood_fill_overlord(&mut points, 0, 0, 40, true, &mut set));
    assert_eq!(set.len(), 6);
    assert!(points[0][0].overlord_spot && points[0][1].overlord_spot && points[0][2].overlord_spot);
    assert!(!points[1][1].overlord_spot);
}

#[test]
fn second_pass_marks_candidates_and_borders() {
    let (_, _, heights) = block_map(40);
    let mut points = grid_of_heights(&heights);
    for x in 0..8 {
        for y in 0..8 {
            points[x][y].walkable = !((3..5).contains(&x) && (3..5).contains(&y));
        }
    }
    second_pass(&mut points, 1, 1, 6, 6);
    // (3, 3) towers over (3, 2) and (3, 4) stands next to (3, 5)
    assert!(points[3][3].overlord_spot && points[3][4].overlord_spot);
    assert!(points[3][3].is_border);
    assert!(!points[2][2].overlord_spot && !points[2][2].is_border);
}

#[test]
fn refine_smooths_climbable_cells() {
    let heights = vec![vec![10usize; 5]; 5];
    let mut points = grid_of_heights(&heights);
    // a lone climbable cell and a pair of climbable cells
    points[1][1].climbable = true;
    points[3][2].climbable = true;
    points[3][3].climbable = true;
    let mut reaper = vec![vec![0usize; 5]; 5];
    let spots = refine_points(&mut points, &mut reaper, 1, 1, 4, 4);
    assert!(spots.is_empty());
    assert!(!points[1][1].climbable);
    assert!(points[3][2].climbable && points[3][3].climbable);
    assert_eq!(reaper[1][1], 0);
    assert_eq!(reaper[3][2], 1);
    assert_eq!(reaper[3][3], 1);
}

#[test]
fn refine_prunes_lone_cliffs() {
    let heights = vec![vec![10usize; 5]; 5];
    let mut points = grid_of_heights(&heights);
    points[1][1].cliff_type = Cliff::High;
    points[2][2].cliff_type = Cliff::Low;
    points[2][3].cliff_type = Cliff::Low;
    points[3][1].cliff_type = Cliff::Both;
    points[3][2].cliff_type = Cliff::High;
    let mut reaper = vec![vec![0usize; 5]; 5];
    refine_points(&mut points, &mut reaper, 1, 1, 4, 4);
    assert_eq!(points[1][1].cliff_type, Cliff::NoCliff);
    assert_eq!(points[2][2].cliff_type, Cliff::Low);
    assert_eq!(points[2][3].cliff_type, Cliff::Low);
    assert_eq!(points[3][1].cliff_type, Cliff::NoCliff);
    assert_eq!(points[3][2].cliff_type, Cliff::NoCliff);
}

#[test]
fn refine_counts_each_plateau_once() {
    // two separate high blocks, each flagged on one cell
    let mut heights = vec![vec![10usize; 9]; 9];
    for (x, y) in [(2, 2), (2, 3), (6, 6)] {
        heights[x][y] = 40;
    }
    let mut points = grid_of_heights(&heights);
    points[2][2].overlord_spot = true;
    points[2][3].overlord_spot = true;
    points[6][6].overlord_spot = true;
    let mut reaper = vec![vec![0usize; 9]; 9];
    let spots = refine_points(&mut points, &mut reaper, 1, 1, 8, 8);
    assert_eq!(spots.len(), 2);
    // plateau (2,2),(2,3) with rim (2,1),(1,2),(3,2),(1,3),(3,3),(2,4)
    assert_eq!(spots[0], OverlordSpot { sum_x: 2 + 2 + 2 + 1 + 3 + 1 + 3 + 2, sum_y: 2 + 3 + 1 + 2 + 2 + 3 + 3 + 4, count: 8 });
    assert_eq!(spots[1], OverlordSpot { sum_x: 6 + 5 + 7 + 6 + 6, sum_y: 6 + 6 + 6 + 5 + 7, count: 5 });
}

#[test]
fn fill_from_any_plateau_cell_is_the_same() {
    for rim in [10usize, 30] {
        let (_, _, mut heights) = block_map(40);
        heights[5][4] = rim;
        let mut results = Vec::new();
        for (x, y) in [(3, 3), (3, 4), (4, 3), (4, 4)] {
            let mut points = grid_of_heights(&heights);
            let mut set = HashSet::new();
            let ok = flood_fill_overlord(&mut points, x, y, 40, true, &mut set);
            let mut keys: Vec<usize> = set.into_iter().collect();
            keys.sort();
            results.push((ok, keys));
        }
        assert!(results.iter().all(|r| r == &results[0]));
        assert_eq!(results[0].0, rim == 10);
        assert_eq!(results[0].1.len(), 12);
    }
}

#[test]
fn second_pass_twice_changes_nothing() {
    let (_, _, heights) = block_map(40);
    let mut points = grid_of_heights(&heights);
    for x in 0..8 {
        for y in 0..8 {
            points[x][y].walkable = !((3..5).contains(&x) && (3..5).contains(&y));
        }
    }
    second_pass(&mut points, 1, 1, 6, 6);
    let once = points.clone();
    second_pass(&mut points, 1, 1, 6, 6);
    assert_eq!(points, once);
}

#[test]
fn spots_lie_on_the_map() {
    let (pathing, placement, heights) = block_map(40);
    let map = GameMap::new(pathing, placement, heights, 1, 1, 6, 6);
    for spot in &map.overlord_spots {
        assert!(spot.count >= 1);
        assert!(spot.sum_x <= (spot.count as u128) * 7);
        assert!(spot.sum_y <= (spot.count as u128) * 7);
    }
    assert_eq!(map.overlord_spots.len(), 1);
}

#[test]
fn pathing_grids_agree_with_points() {
    let (pathing, mut placement, heights) = block_map(40);
    placement[4][4] = 3;
    let map = GameMap::new(pathing, placement, heights, 2, 1, 5, 6);
    for x in 0..8 {
        for y in 0..8 {
            let p = &map.points[x][y];
            assert_eq!(map.ground_pathing.map[x][y] == 1, p.walkable);
            assert_eq!(map.air_pathing.map[x][y] == 1, p.pathable);
            if map.ground_pathing.map[x][y] == 1 {
                assert_eq!(map.reaper_pathing.map[x][y], 1);
                assert_eq!(map.colossus_pathing.map[x][y], 1);
            }
        }
    }
}

#[test]
fn empty_playable_area_leaves_points_unmarked() {
    let (pathing, placement, heights) = block_map(40);
    let map = GameMap::new(pathing, placement, heights, 5, 5, 2, 2);
    assert!(map.overlord_spots.is_empty());
    assert!(map.points.iter().all(|col| col.iter().all(|p| !p.is_border && !p.pathable)));
    assert!(map.air_pathing.map.iter().all(|col| col.iter().all(|v| *v == 0)));
}
