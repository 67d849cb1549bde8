use dungeon_map::corridors::sort_by_center;
use dungeon_map::placement::draw_candidate;
use dungeon_map::{BuildError, Grid, MapBuilder, Point, Rect, ReplaySource, TileType};

fn walled(width: i32, height: i32) -> MapBuilder {
    let mut builder =
        MapBuilder { map: Grid::new(width, height), rooms: Vec::new(), player_start: Point::zero() };
    builder.fill(TileType::Wall);
    builder
}

fn floor_cells(builder: &MapBuilder) -> Vec<(i32, i32)> {
    let mut cells = Vec::new();
    for y in 0..builder.map.height {
        for x in 0..builder.map.width {
            if builder.map.tile_at(Point::new(x, y)) == Some(TileType::Floor) {
                cells.push((x, y));
            }
        }
    }
    cells
}

#[test]
fn fill_sets_every_tile() {
    let mut builder =
        MapBuilder { map: Grid::new(9, 4), rooms: Vec::new(), player_start: Point::new(2, 2) };
    builder.fill(TileType::Wall);
    assert_eq!(builder.map.tiles.len(), 36);
    assert!(builder.map.tiles.iter().all(|t| *t == TileType::Wall));
    builder.fill(TileType::Floor);
    assert!(builder.map.tiles.iter().all(|t| *t == TileType::Floor));
    assert_eq!(builder.player_start, Point::new(2, 2));
}

#[test]
fn carve_room_turns_the_covered_tiles_to_floor() {
    let mut builder = walled(10, 8);
    builder.carve_room(&Rect::with_size(2, 3, 3, 2));
    assert_eq!(floor_cells(&builder), vec![(2, 3), (3, 3), (4, 3), (2, 4), (3, 4), (4, 4)]);
}

#[test]
fn carve_room_leaves_out_the_first_row_and_column() {
    let mut builder = walled(10, 8);
    builder.carve_room(&Rect { x1: -2, y1: -2, x2: 3, y2: 3 });
    assert_eq!(floor_cells(&builder), vec![(1, 1), (2, 1), (1, 2), (2, 2)]);
}

#[test]
fn carve_room_skips_points_beyond_the_grid() {
    let mut builder = walled(10, 8);
    builder.carve_room(&Rect { x1: 8, y1: 6, x2: 15, y2: 12 });
    assert_eq!(floor_cells(&builder), vec![(8, 6), (9, 6), (8, 7), (9, 7)]);
}

#[test]
fn carve_room_of_no_extent_changes_nothing() {
    let mut builder = walled(10, 8);
    builder.carve_room(&Rect { x1: 5, y1: 5, x2: 5, y2: 7 });
    builder.carve_room(&Rect { x1: 6, y1: 5, x2: 3, y2: 7 });
    assert_eq!(floor_cells(&builder), vec![]);
}

#[test]
fn overlaps_placed_looks_at_every_room() {
    let mut builder = walled(30, 30);
    builder.rooms.push(Rect::with_size(2, 2, 3, 3));
    builder.rooms.push(Rect::with_size(12, 12, 3, 3));
    assert!(builder.overlaps_placed(&Rect::with_size(4, 4, 2, 2)));
    assert!(builder.overlaps_placed(&Rect::with_size(15, 15, 2, 2)));
    assert!(!builder.overlaps_placed(&Rect::with_size(6, 6, 5, 5)));
}

#[test]
fn place_room_carves_and_keeps_a_room_that_is_free() {
    let mut builder = walled(20, 20);
    let room = Rect::with_size(2, 3, 3, 2);
    assert!(builder.place_room(&room));
    assert_eq!(builder.rooms, vec![room]);
    assert_eq!(floor_cells(&builder), vec![(2, 3), (3, 3), (4, 3), (2, 4), (3, 4), (4, 4)]);
}

#[test]
fn place_room_drops_a_room_that_overlaps() {
    let mut builder = walled(20, 20);
    let first = Rect::with_size(2, 3, 4, 3);
    assert!(builder.place_room(&first));
    let before = floor_cells(&builder);
    assert!(!builder.place_room(&Rect::with_size(5, 5, 3, 3)));
    assert!(!builder.place_room(&Rect::with_size(6, 6, 2, 2)));
    assert_eq!(builder.rooms, vec![first]);
    assert_eq!(floor_cells(&builder), before);
    assert!(builder.place_room(&Rect::with_size(7, 7, 2, 2)));
    assert_eq!(builder.rooms.len(), 2);
}

#[test]
fn link_carves_both_tunnels_of_the_corridor() {
    let mut down_first = walled(20, 20);
    down_first.link(Point::new(11, 10), Point::new(4, 4), 1);
    let mut expected = Vec::new();
    for y in 0..20 {
        for x in 0..20 {
            if (x == 11 && 4 <= y && y <= 10) || (y == 4 && 4 <= x && x <= 11) {
                expected.push((x, y));
            }
        }
    }
    assert_eq!(floor_cells(&down_first), expected);
    let mut across_first = walled(20, 20);
    across_first.link(Point::new(11, 10), Point::new(4, 4), 0);
    let mut expected = Vec::new();
    for y in 0..20 {
        for x in 0..20 {
            if (y == 10 && 4 <= x && x <= 11) || (x == 4 && 4 <= y && y <= 10) {
                expected.push((x, y));
            }
        }
    }
    assert_eq!(floor_cells(&across_first), expected);
}

#[test]
fn link_between_points_in_one_row_is_a_straight_line() {
    let mut builder = walled(20, 20);
    builder.link(Point::new(3, 5), Point::new(8, 5), 1);
    let row: Vec<(i32, i32)> = (3..=8).map(|x| (x, 5)).collect();
    assert_eq!(floor_cells(&builder), row);
}

#[test]
fn vertical_tunnel_covers_both_ends() {
    let mut builder = walled(10, 8);
    builder.apply_vertical_tunnel(2, 5, 3);
    assert_eq!(floor_cells(&builder), vec![(3, 2), (3, 3), (3, 4), (3, 5)]);
}

#[test]
fn vertical_tunnel_takes_its_ends_in_either_order() {
    let mut up = walled(10, 8);
    up.apply_vertical_tunnel(5, 2, 3);
    let mut down = walled(10, 8);
    down.apply_vertical_tunnel(2, 5, 3);
    assert_eq!(up, down);
}

#[test]
fn vertical_tunnel_is_clipped_to_the_grid() {
    let mut builder = walled(10, 8);
    builder.apply_vertical_tunnel(-5, 20, 9);
    let column: Vec<(i32, i32)> = (0..8).map(|y| (9, y)).collect();
    assert_eq!(floor_cells(&builder), column);
}

#[test]
fn vertical_tunnel_outside_the_grid_changes_nothing() {
    let mut builder = walled(10, 8);
    builder.apply_vertical_tunnel(0, 7, 10);
    builder.apply_vertical_tunnel(0, 7, -1);
    builder.apply_vertical_tunnel(8, 12, 4);
    assert_eq!(builder, walled(10, 8));
}

#[test]
fn horizontal_tunnel_covers_both_ends() {
    let mut builder = walled(10, 8);
    builder.apply_horizontal_tunnel(4, 7, 6);
    assert_eq!(floor_cells(&builder), vec![(4, 6), (5, 6), (6, 6), (7, 6)]);
}

#[test]
fn horizontal_tunnel_takes_its_ends_in_either_order() {
    let mut left = walled(10, 8);
    left.apply_horizontal_tunnel(7, 4, 6);
    let mut right = walled(10, 8);
    right.apply_horizontal_tunnel(4, 7, 6);
    assert_eq!(left, right);
}

#[test]
fn horizontal_tunnel_is_clipped_to_the_grid() {
    let mut builder = walled(10, 8);
    builder.apply_horizontal_tunnel(-3, 30, 0);
    let row: Vec<(i32, i32)> = (0..10).map(|x| (x, 0)).collect();
    assert_eq!(floor_cells(&builder), row);
}

#[test]
fn horizontal_tunnel_outside_the_grid_changes_nothing() {
    let mut builder = walled(10, 8);
    builder.apply_horizontal_tunnel(0, 9, 8);
    builder.apply_horizontal_tunnel(0, 9, -1);
    builder.apply_horizontal_tunnel(-9, -1, 3);
    assert_eq!(builder, walled(10, 8));
}

#[test]
fn tunnel_of_one_tile() {
    let mut builder = walled(10, 8);
    builder.apply_horizontal_tunnel(4, 4, 2);
    builder.apply_vertical_tunnel(6, 6, 1);
    assert_eq!(floor_cells(&builder), vec![(4, 2), (1, 6)]);
}

#[test]
fn rooms_are_read_from_the_draws_four_at_a_time() {
    let mut builder = walled(20, 20);
    let mut rng = ReplaySource::new(vec![2, 3, 4, 3, 9, 8, 5, 4]);
    assert_eq!(builder.build_random_rooms(&mut rng, 2, 10), Ok(()));
    assert_eq!(
        builder.rooms,
        vec![Rect { x1: 2, y1: 3, x2: 6, y2: 6 }, Rect { x1: 9, y1: 8, x2: 14, y2: 12 }]
    );
    let mut expected = Vec::new();
    for y in 0..20 {
        for x in 0..20 {
            let first = 2 <= x && x < 6 && 3 <= y && y < 6;
            let second = 9 <= x && x < 14 && 8 <= y && y < 12;
            if first || second {
                expected.push((x, y));
            }
        }
    }
    assert_eq!(floor_cells(&builder), expected);
}

#[test]
fn candidates_are_asked_for_up_to_the_margin_and_the_size_limit() {
    // On a grid of 20 by 20 the corner is asked for from 1 up to 10 and the
    // sizes from 2 up to 10, the upper ends left out.
    let mut builder = walled(20, 20);
    let mut rng = ReplaySource::new(vec![9, 9, 9, 9]);
    assert_eq!(builder.build_random_rooms(&mut rng, 1, 1), Ok(()));
    assert_eq!(builder.rooms, vec![Rect { x1: 9, y1: 9, x2: 18, y2: 18 }]);
    // A replay answers a value outside the range asked for with its lower end.
    let mut builder = walled(20, 20);
    let mut rng = ReplaySource::new(vec![10, 10, 10, 10]);
    assert_eq!(builder.build_random_rooms(&mut rng, 1, 1), Ok(()));
    assert_eq!(builder.rooms, vec![Rect { x1: 1, y1: 1, x2: 3, y2: 3 }]);
    let mut builder = walled(20, 20);
    let mut rng = ReplaySource::new(vec![0, 0, 1, 1]);
    assert_eq!(builder.build_random_rooms(&mut rng, 1, 1), Ok(()));
    assert_eq!(builder.rooms, vec![Rect { x1: 1, y1: 1, x2: 3, y2: 3 }]);
}

#[test]
fn candidate_ranges_follow_the_grid() {
    let mut builder = walled(40, 15);
    let mut rng = ReplaySource::new(vec![29, 4, 2, 2, 30, 5, 2, 2]);
    assert_eq!(builder.build_random_rooms(&mut rng, 2, 2), Ok(()));
    assert_eq!(
        builder.rooms,
        vec![Rect { x1: 29, y1: 4, x2: 31, y2: 6 }, Rect { x1: 1, y1: 1, x2: 3, y2: 3 }]
    );
}

#[test]
fn draw_candidate_reads_corner_then_size() {
    let mut rng = ReplaySource::new(vec![3, 4, 5, 6, 7]);
    assert_eq!(draw_candidate(&mut rng, 80, 50), Rect { x1: 3, y1: 4, x2: 8, y2: 10 });
    assert_eq!(dungeon_map::RandomSource::range(&mut rng, 0, 10), 7);
}

#[test]
fn a_flip_is_asked_for_from_zero_up_to_two() {
    // A two lies outside the range asked for, so the replay answers zero and
    // the corridor leaves horizontally.
    let mut two = walled(20, 20);
    two.rooms.push(Rect::with_size(2, 3, 4, 3));
    two.rooms.push(Rect::with_size(9, 8, 5, 4));
    two.build_corridors(&mut ReplaySource::new(vec![2]));
    let mut zero = walled(20, 20);
    zero.rooms.push(Rect::with_size(2, 3, 4, 3));
    zero.rooms.push(Rect::with_size(9, 8, 5, 4));
    zero.build_corridors(&mut ReplaySource::new(vec![0]));
    assert_eq!(two, zero);
    let mut one = walled(20, 20);
    one.rooms.push(Rect::with_size(2, 3, 4, 3));
    one.rooms.push(Rect::with_size(9, 8, 5, 4));
    one.build_corridors(&mut ReplaySource::new(vec![1]));
    assert!(one != zero);
}

#[test]
fn a_candidate_that_overlaps_is_dropped() {
    let mut builder = walled(20, 20);
    // The second candidate overlaps the first room, the third touches it.
    let mut rng = ReplaySource::new(vec![2, 3, 4, 3, 5, 5, 3, 3, 6, 6, 2, 2, 7, 7, 2, 2]);
    assert_eq!(builder.build_random_rooms(&mut rng, 2, 10), Ok(()));
    assert_eq!(
        builder.rooms,
        vec![Rect { x1: 2, y1: 3, x2: 6, y2: 6 }, Rect { x1: 7, y1: 7, x2: 9, y2: 9 }]
    );
    assert_eq!(builder.map.tile_at(Point::new(6, 6)), Some(TileType::Wall));
    assert_eq!(builder.map.tile_at(Point::new(7, 7)), Some(TileType::Floor));
    // Four candidates were read: the next draw is the first the record lacks.
    assert_eq!(dungeon_map::RandomSource::range(&mut rng, -1, 5), -1);
}

#[test]
fn placement_stops_reading_once_the_rooms_are_there() {
    let mut builder = walled(20, 20);
    let mut rng = ReplaySource::new(vec![2, 3, 4, 3, 4]);
    assert_eq!(builder.build_random_rooms(&mut rng, 1, 10), Ok(()));
    assert_eq!(builder.rooms.len(), 1);
    assert_eq!(dungeon_map::RandomSource::range(&mut rng, 0, 5), 4);
}

#[test]
fn placement_gives_up_when_the_attempts_run_out() {
    let mut builder = walled(20, 20);
    // An empty record makes every candidate the same room.
    let mut rng = ReplaySource::new(vec![]);
    assert_eq!(builder.build_random_rooms(&mut rng, 2, 5), Err(BuildError::PlacementExhausted));
    assert_eq!(builder.rooms, vec![Rect { x1: 1, y1: 1, x2: 3, y2: 3 }]);
}

#[test]
fn placement_with_no_attempts_places_nothing() {
    let mut builder = walled(20, 20);
    let mut rng = ReplaySource::new(vec![2, 3, 4, 3]);
    assert_eq!(builder.build_random_rooms(&mut rng, 1, 0), Err(BuildError::PlacementExhausted));
    assert!(builder.rooms.is_empty());
    assert_eq!(builder, walled(20, 20));
}

#[test]
fn placement_adds_to_the_rooms_already_there() {
    let mut builder = walled(20, 20);
    builder.rooms.push(Rect::with_size(2, 3, 4, 3));
    let mut rng = ReplaySource::new(vec![3, 4, 2, 2, 9, 8, 5, 4]);
    assert_eq!(builder.build_random_rooms(&mut rng, 2, 10), Ok(()));
    assert_eq!(
        builder.rooms,
        vec![Rect { x1: 2, y1: 3, x2: 6, y2: 6 }, Rect { x1: 9, y1: 8, x2: 14, y2: 12 }]
    );
    assert_eq!(builder.map.tile_at(Point::new(3, 4)), Some(TileType::Wall));
}

#[test]
fn sort_by_center_orders_by_x_and_keeps_ties_in_place() {
    let a = Rect::with_size(10, 1, 4, 4);
    let b = Rect::with_size(2, 9, 2, 2);
    let c = Rect::with_size(11, 20, 2, 6);
    let d = Rect::with_size(5, 5, 3, 3);
    // The centers lie at x = 12, 3, 12 and 6.
    assert_eq!(sort_by_center(&vec![a, b, c, d]), vec![b, d, a, c]);
    assert_eq!(sort_by_center(&vec![c, a]), vec![c, a]);
    assert_eq!(sort_by_center(&Vec::new()), Vec::new());
}

#[test]
fn corridor_leaves_vertically_on_one() {
    let mut builder = walled(20, 20);
    builder.rooms.push(Rect::with_size(2, 3, 4, 3));
    builder.rooms.push(Rect::with_size(9, 8, 5, 4));
    let mut rng = ReplaySource::new(vec![1]);
    builder.build_corridors(&mut rng);
    // From the center (4, 4) down column 4, then along row 10 to (11, 10).
    let mut expected = Vec::new();
    for y in 0..20 {
        for x in 0..20 {
            if (x == 4 && 4 <= y && y <= 10) || (y == 10 && 4 <= x && x <= 11) {
                expected.push((x, y));
            }
        }
    }
    assert_eq!(floor_cells(&builder), expected);
}

#[test]
fn corridor_leaves_horizontally_on_zero() {
    let mut builder = walled(20, 20);
    builder.rooms.push(Rect::with_size(2, 3, 4, 3));
    builder.rooms.push(Rect::with_size(9, 8, 5, 4));
    let mut rng = ReplaySource::new(vec![0]);
    builder.build_corridors(&mut rng);
    // From the center (4, 4) along row 4, then down column 11 to (11, 10).
    let mut expected = Vec::new();
    for y in 0..20 {
        for x in 0..20 {
            if (y == 4 && 4 <= x && x <= 11) || (x == 11 && 4 <= y && y <= 10) {
                expected.push((x, y));
            }
        }
    }
    assert_eq!(floor_cells(&builder), expected);
}

#[test]
fn corridors_follow_the_chain_and_leave_the_rooms_in_order() {
    let mut builder = walled(20, 20);
    let right = Rect::with_size(9, 8, 5, 4);
    let left = Rect::with_size(2, 3, 4, 3);
    builder.rooms.push(right);
    builder.rooms.push(left);
    let mut rng = ReplaySource::new(vec![1]);
    builder.build_corridors(&mut rng);
    assert_eq!(builder.rooms, vec![right, left]);
    // The chain starts at the left room, whatever the order of placement.
    assert_eq!(builder.map.tile_at(Point::new(4, 7)), Some(TileType::Floor));
    assert_eq!(builder.map.tile_at(Point::new(11, 7)), Some(TileType::Wall));
}

#[test]
fn corridors_draw_once_for_each_link() {
    let mut builder = walled(30, 30);
    builder.rooms.push(Rect::with_size(2, 2, 2, 2));
    builder.rooms.push(Rect::with_size(8, 8, 2, 2));
    builder.rooms.push(Rect::with_size(14, 14, 2, 2));
    let mut rng = ReplaySource::new(vec![1, 0, 1, 1]);
    builder.build_corridors(&mut rng);
    assert_eq!(dungeon_map::RandomSource::range(&mut rng, 0, 2), 1);
    assert_eq!(dungeon_map::RandomSource::range(&mut rng, 0, 2), 1);
    assert_eq!(dungeon_map::RandomSource::range(&mut rng, 0, 2), 0);
}

#[test]
fn corridors_need_two_rooms() {
    let mut builder = walled(20, 20);
    let mut rng = ReplaySource::new(vec![1]);
    builder.build_corridors(&mut rng);
    assert_eq!(builder, walled(20, 20));
    builder.rooms.push(Rect::with_size(2, 3, 4, 3));
    builder.build_corridors(&mut rng);
    assert_eq!(floor_cells(&builder), vec![]);
    assert_eq!(dungeon_map::RandomSource::range(&mut rng, 0, 2), 1);
}

#[test]
fn corridor_between_rooms_off_the_grid_is_clipped() {
    let mut builder = walled(10, 8);
    builder.rooms.push(Rect { x1: -6, y1: 2, x2: -2, y2: 4 });
    builder.rooms.push(Rect { x1: 12, y1: 2, x2: 16, y2: 4 });
    let mut rng = ReplaySource::new(vec![0]);
    builder.build_corridors(&mut rng);
    let row: Vec<(i32, i32)> = (0..10).map(|x| (x, 3)).collect();
    assert_eq!(floor_cells(&builder), row);
}
