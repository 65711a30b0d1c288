use dungeon_gen::generator::Generator;
use dungeon_gen::rect::URect;
use macroquad::rand::srand;

fn config(width: usize, height: usize) -> Generator {
    let mut g = Generator::new();
    g.dungeon_width = width;
    g.dungeon_height = height;
    g
}

fn blank(width: usize, height: usize) -> Vec<Vec<u16>> {
    vec![vec![0; width]; height]
}

fn floor_neighbors(map: &[Vec<u16>], x: usize, y: usize) -> usize {
    let mut n = 0;
    if map[y][x + 1] != 0 {
        n += 1;
    }
    if map[y + 1][x] != 0 {
        n += 1;
    }
    if map[y][x - 1] != 0 {
        n += 1;
    }
    if map[y - 1][x] != 0 {
        n += 1;
    }
    n
}

fn border_is_wall(map: &[Vec<u16>]) -> bool {
    let h = map.len();
    let w = map[0].len();
    (0..h).all(|y| (0..w).all(|x| (x > 0 && y > 0 && x < w - 1 && y < h - 1) || map[y][x] == 0))
}

fn has_dead_end(map: &[Vec<u16>]) -> bool {
    let h = map.len();
    let w = map[0].len();
    (1..h - 1).any(|y| (1..w - 1).any(|x| map[y][x] != 0 && floor_neighbors(map, x, y) == 1))
}

fn floor_count(map: &[Vec<u16>]) -> usize {
    map.iter().map(|r| r.iter().filter(|&&v| v != 0).count()).sum()
}

fn is_connected(map: &[Vec<u16>]) -> bool {
    let h = map.len();
    let w = map[0].len();
    let mut start = None;
    for y in 0..h {
        for x in 0..w {
            if map[y][x] != 0 && start.is_none() {
                start = Some((x, y));
            }
        }
    }
    let Some(start) = start else { return true };
    let mut seen = vec![vec![false; w]; h];
    let mut stack = vec![start];
    seen[start.1][start.0] = true;
    let mut reached = 0;
    while let Some((x, y)) = stack.pop() {
        reached += 1;
        let next = [(x + 1, y), (x, y + 1), (x.wrapping_sub(1), y), (x, y.wrapping_sub(1))];
        for (nx, ny) in next {
            if nx < w && ny < h && map[ny][nx] != 0 && !seen[ny][nx] {
                seen[ny][nx] = true;
                stack.push((nx, ny));
            }
        }
    }
    reached == floor_count(map)
}

#[test]
fn new_has_the_default_configuration() {
    let g = Generator::new();
    assert_eq!(g.dungeon_width, 64);
    assert_eq!(g.dungeon_height, 36);
    assert_eq!(g.max_room_size, 11);
    assert_eq!(g.room_attempts, 600);
    assert_eq!(g.winding_chance, 50);
    assert_eq!(g.connectivity_chance, 10);
}

#[test]
fn rect_new_keeps_its_fields() {
    let r = URect::new(3, 5, 7, 9);
    assert_eq!((r.x, r.y, r.w, r.h), (3, 5, 7, 9));
}

#[test]
fn rects_apart_do_not_overlap() {
    let a = URect::new(1, 1, 3, 3);
    let b = URect::new(5, 1, 3, 3);
    assert!(!a.overlaps(&b));
    assert!(!b.overlaps(&a));
    let c = URect::new(1, 5, 3, 3);
    assert!(!a.overlaps(&c));
}

#[test]
fn touching_rects_overlap() {
    let a = URect::new(1, 1, 3, 3);
    let b = URect::new(4, 1, 3, 3);
    assert!(a.overlaps(&b));
    assert!(b.overlaps(&a));
}

#[test]
fn nested_rects_overlap() {
    let a = URect::new(1, 1, 9, 9);
    let b = URect::new(3, 3, 3, 3);
    assert!(a.overlaps(&b));
    assert!(b.overlaps(&a));
}

#[test]
fn default_dungeon_keeps_all_invariants() {
    srand(42);
    let g = Generator::new();
    let map = g.generate();
    assert_eq!(map.len(), 36);
    assert!(map.iter().all(|r| r.len() == 64));
    assert!(border_is_wall(&map));
    assert!(!has_dead_end(&map));
    assert!(is_connected(&map));
    assert!(floor_count(&map) > 0);
}

#[test]
fn dungeons_under_several_seeds_are_connected() {
    for seed in 0..20u64 {
        srand(seed);
        let map = Generator::new().generate();
        assert!(border_is_wall(&map));
        assert!(!has_dead_end(&map));
        assert!(is_connected(&map));
    }
}

#[test]
fn small_grid_without_rooms_is_all_maze() {
    let mut g = config(8, 6);
    g.room_attempts = 0;
    g.winding_chance = 0;
    srand(3);
    let mut map = blank(8, 6);
    let rooms = g.fill_rooms(&mut map);
    assert!(rooms.is_empty());
    let next = g.carve_mazes(&mut map, 1);
    assert!(next >= 2);
    for y in (1..5).step_by(2) {
        for x in (1..7).step_by(2) {
            assert!(map[y][x] >= 1);
        }
    }
    assert!(border_is_wall(&map));

    srand(3);
    let out = g.generate();
    assert!(border_is_wall(&out));
    assert!(!has_dead_end(&out));
    assert!(is_connected(&out));
}

#[test]
fn oversized_rooms_leave_the_maze_to_fill_the_grid() {
    let mut g = config(64, 36);
    g.max_room_size = 64;
    srand(11);
    let mut map = blank(64, 36);
    let rooms = g.fill_rooms(&mut map);
    for r in &rooms {
        assert!(r.x + r.w <= 63 && r.y + r.h <= 35);
    }
    let first = rooms.len() as u16 + 1;
    g.carve_mazes(&mut map, first);
    for y in (1..35).step_by(2) {
        for x in (1..63).step_by(2) {
            assert!(map[y][x] != 0);
        }
    }
    srand(11);
    let out = g.generate();
    assert!(border_is_wall(&out));
    assert!(!has_dead_end(&out));
}

#[test]
fn room_wider_than_grid_is_never_placed() {
    let mut g = config(8, 6);
    g.max_room_size = 200;
    g.room_attempts = 50;
    srand(5);
    let mut map = blank(8, 6);
    let rooms = g.fill_rooms(&mut map);
    for r in &rooms {
        assert!(r.x + r.w <= 7 && r.y + r.h <= 5);
    }
    assert!(border_is_wall(&map));
}

#[test]
fn tiny_grids_stay_wall() {
    for (w, h) in [(0, 0), (1, 1), (2, 2), (4, 2), (2, 6)] {
        let map = config(w, h).generate();
        assert_eq!(map.len(), h);
        assert!(map.iter().all(|r| r.len() == w && r.iter().all(|&v| v == 0)));
    }
}

#[test]
fn three_by_three_grid_holds_one_cell() {
    let mut g = config(3, 3);
    g.max_room_size = 3;
    let map = g.generate();
    assert_eq!(map, vec![vec![0, 0, 0], vec![0, 1, 0], vec![0, 0, 0]]);
}

#[test]
fn placed_rooms_do_not_overlap_and_are_stamped() {
    srand(9);
    let g = Generator::new();
    let mut map = blank(64, 36);
    let rooms = g.fill_rooms(&mut map);
    assert!(!rooms.is_empty());
    for (k, a) in rooms.iter().enumerate() {
        assert!(a.x % 2 == 1 && a.y % 2 == 1 && a.w % 2 == 1 && a.h % 2 == 1);
        assert!(a.w >= 3 && a.h >= 3 && a.w <= 11 && a.h <= 11);
        for b in rooms.iter().skip(k + 1) {
            assert!(!a.overlaps(b));
        }
        for y in a.y..a.y + a.h {
            for x in a.x..a.x + a.w {
                assert_eq!(map[y][x], k as u16 + 1);
            }
        }
    }
}

#[test]
fn same_seed_gives_the_same_dungeon() {
    let g = Generator::new();
    srand(1234);
    let a = g.generate();
    srand(1234);
    let b = g.generate();
    assert_eq!(a, b);
}

#[test]
fn pruning_a_pruned_grid_changes_nothing() {
    srand(77);
    let g = Generator::new();
    let map = g.generate();
    let mut again = map.clone();
    g.remove_dead_ends(&mut again);
    assert_eq!(map, again);
}

#[test]
fn corridor_unravels_to_its_last_cell() {
    let g = config(7, 3);
    let mut map = vec![vec![0, 0, 0, 0, 0, 0, 0], vec![0, 1, 1, 1, 1, 1, 0], vec![0; 7]];
    g.remove_dead_ends(&mut map);
    assert_eq!(map, vec![vec![0; 7], vec![0, 0, 0, 0, 0, 1, 0], vec![0; 7]]);
}

#[test]
fn loop_survives_pruning() {
    let g = config(5, 5);
    let mut map = vec![
        vec![0, 0, 0, 0, 0],
        vec![0, 1, 1, 1, 0],
        vec![0, 1, 0, 1, 0],
        vec![0, 1, 1, 1, 0],
        vec![0, 0, 0, 0, 0],
    ];
    let before = map.clone();
    g.remove_dead_ends(&mut map);
    assert_eq!(map, before);
}

#[test]
fn connector_needs_two_different_regions() {
    let g = config(7, 3);
    let map = vec![vec![0; 7], vec![0, 1, 1, 0, 2, 2, 0], vec![0; 7]];
    assert!(g.is_connector(&map, 3, 1));
    assert!(!g.is_connector(&map, 1, 1));
    assert!(!g.is_connector(&map, 3, 0));
    let same = vec![vec![0; 7], vec![0, 1, 1, 0, 1, 1, 0], vec![0; 7]];
    assert!(!g.is_connector(&same, 3, 1));
}

#[test]
fn vertical_connector_is_found() {
    let g = config(3, 7);
    let map = vec![
        vec![0, 0, 0],
        vec![0, 4, 0],
        vec![0, 4, 0],
        vec![0, 0, 0],
        vec![0, 5, 0],
        vec![0, 5, 0],
        vec![0, 0, 0],
    ];
    assert!(g.is_connector(&map, 1, 3));
    assert!(!g.is_connector(&map, 1, 0));
}

#[test]
fn two_regions_get_joined() {
    let mut g = config(7, 3);
    g.connectivity_chance = 0;
    srand(21);
    let mut map = vec![vec![0; 7], vec![0, 1, 1, 0, 2, 2, 0], vec![0; 7]];
    let merged = g.connect_regions(&mut map, 2);
    assert_eq!(merged.len(), 2);
    assert!(merged.contains(&1) && merged.contains(&2));
    assert!(map[1][3] == 1 || map[1][3] == 2);
    assert_eq!(map[1][3], merged[1]);
    assert_eq!(&map[1][..3], &[0, 1, 1]);
    assert_eq!(&map[1][4..], &[2, 2, 0]);
    assert!(is_connected(&map));
}

#[test]
fn three_regions_in_a_row_get_joined() {
    for seed in 0..10u64 {
        let mut g = config(11, 3);
        g.connectivity_chance = 100;
        srand(seed);
        let mut map = vec![vec![0; 11], vec![0, 1, 1, 0, 2, 2, 0, 3, 3, 3, 0], vec![0; 11]];
        let merged = g.connect_regions(&mut map, 3);
        assert_eq!(merged.len(), 3);
        assert!(map[1][3] != 0 && map[1][6] != 0);
        assert!(is_connected(&map));
    }
}

#[test]
fn maze_blob_carves_only_odd_steps() {
    let g = config(9, 9);
    srand(8);
    let mut map = blank(9, 9);
    g.make_maze(&mut map, 1, 1, 7);
    assert_eq!(map[1][1], 7);
    for y in (1..8).step_by(2) {
        for x in (1..8).step_by(2) {
            assert_eq!(map[y][x], 7);
        }
    }
    for y in (2..8).step_by(2) {
        for x in (2..8).step_by(2) {
            assert_eq!(map[y][x], 0);
        }
    }
    assert!(border_is_wall(&map));
    assert!(is_connected(&map));
}

#[test]
fn regions_without_connector_stay_apart() {
    let g = config(9, 5);
    srand(4);
    let mut map = vec![
        vec![0; 9],
        vec![0, 1, 1, 0, 0, 0, 2, 2, 0],
        vec![0; 9],
        vec![0, 0, 0, 0, 3, 0, 0, 0, 0],
        vec![0; 9],
    ];
    let before = map.clone();
    let merged = g.connect_regions(&mut map, 3);
    assert_eq!(merged.len(), 1);
    assert!((1..=3).contains(&merged[0]));
    assert_eq!(map, before);
}

#[test]
fn place_room_keeps_a_free_candidate() {
    let g = config(16, 12);
    let mut map = blank(16, 12);
    let mut rooms = Vec::new();
    assert!(g.place_room(&mut map, &mut rooms, URect::new(1, 1, 3, 3)));
    assert!(g.place_room(&mut map, &mut rooms, URect::new(7, 1, 5, 3)));
    assert_eq!(rooms.len(), 2);
    assert_eq!(map[1][1], 1);
    assert_eq!(map[3][3], 1);
    assert_eq!(map[4][3], 0);
    assert_eq!(map[2][9], 2);
    assert_eq!(map[1][6], 0);
    assert_eq!(map[1][12], 0);
}

#[test]
fn place_room_refuses_an_overlapping_candidate() {
    let g = config(16, 12);
    let mut map = blank(16, 12);
    let mut rooms = Vec::new();
    assert!(g.place_room(&mut map, &mut rooms, URect::new(1, 1, 5, 5)));
    let before = map.clone();
    assert!(!g.place_room(&mut map, &mut rooms, URect::new(5, 5, 3, 3)));
    assert!(!g.place_room(&mut map, &mut rooms, URect::new(5, 1, 3, 3)));
    assert_eq!(rooms.len(), 1);
    assert_eq!(map, before);
    assert!(g.place_room(&mut map, &mut rooms, URect::new(9, 1, 3, 3)));
    assert_eq!(map[1][9], 2);
}

#[test]
fn maze_on_small_grid_is_a_tree_over_the_odd_cells() {
    let g = config(8, 6);
    srand(17);
    let mut map = blank(8, 6);
    g.make_maze(&mut map, 1, 1, 1);
    let ones = map.iter().flatten().filter(|&&v| v == 1).count();
    assert_eq!(ones, 11);
    assert!(map.iter().flatten().all(|&v| v == 0 || v == 1));
    for y in [1, 3] {
        for x in [1, 3, 5] {
            assert_eq!(map[y][x], 1);
        }
    }
    assert!(is_connected(&map));
}

#[test]
fn single_attempt_places_a_room_that_must_fit() {
    let mut g = config(16, 12);
    g.room_attempts = 1;
    g.max_room_size = 5;
    srand(2);
    let mut map = blank(16, 12);
    let rooms = g.fill_rooms(&mut map);
    assert_eq!(rooms.len(), 1);
    let r = &rooms[0];
    assert_eq!(map[r.y][r.x], 1);
}

#[test]
fn wide_flat_grid_within_the_area_limit_generates() {
    srand(6);
    let map = config(512, 64).generate();
    assert_eq!(map.len(), 64);
    assert!(border_is_wall(&map));
    assert!(!has_dead_end(&map));
    assert!(floor_count(&map) > 0);
}

#[test]
fn full_connectivity_chance_opens_every_connector() {
    let mut g = config(5, 5);
    g.connectivity_chance = 100;
    srand(31);
    let mut map = vec![
        vec![0, 0, 0, 0, 0],
        vec![0, 1, 0, 2, 0],
        vec![0, 1, 0, 2, 0],
        vec![0, 1, 0, 2, 0],
        vec![0, 0, 0, 0, 0],
    ];
    g.connect_regions(&mut map, 2);
    for y in 1..4 {
        assert!(map[y][2] == 1 || map[y][2] == 2);
    }
}

#[test]
fn zero_connectivity_chance_opens_one_connector() {
    let mut g = config(5, 5);
    g.connectivity_chance = 0;
    srand(32);
    let mut map = vec![
        vec![0, 0, 0, 0, 0],
        vec![0, 1, 0, 2, 0],
        vec![0, 1, 0, 2, 0],
        vec![0, 1, 0, 2, 0],
        vec![0, 0, 0, 0, 0],
    ];
    g.connect_regions(&mut map, 2);
    let opened = (1..4).filter(|&y| map[y][2] != 0).count();
    assert_eq!(opened, 1);
}

#[test]
fn tail_off_a_block_is_pruned() {
    let g = config(6, 4);
    let mut map = vec![
        vec![0, 0, 0, 0, 0, 0],
        vec![0, 1, 1, 0, 0, 0],
        vec![0, 1, 1, 2, 2, 0],
        vec![0, 0, 0, 0, 0, 0],
    ];
    g.remove_dead_ends(&mut map);
    assert_eq!(
        map,
        vec![
            vec![0, 0, 0, 0, 0, 0],
            vec![0, 1, 1, 0, 0, 0],
            vec![0, 1, 1, 0, 0, 0],
            vec![0, 0, 0, 0, 0, 0],
        ]
    );
    assert!(is_connected(&map));
}
