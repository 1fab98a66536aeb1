use bracket_lib::random::RandomNumberGenerator;
use harvest_captain::level_generator::{LevelGenerator, LevelInsert, LevelItem};

fn count(level: &[LevelInsert], item: LevelItem) -> usize {
    level.iter().filter(|i| i.item == item).count()
}

fn all_distinct(level: &[LevelInsert]) -> bool {
    for i in 0..level.len() {
        for j in (i + 1)..level.len() {
            if level[i].position == level[j].position {
                return false;
            }
        }
    }
    true
}

#[test]
fn generate_twelve_by_twelve_two_houses_no_trees() {
    for seed in 0..20u64 {
        let mut rng = RandomNumberGenerator::seeded(seed);
        let mut generator = LevelGenerator::new(12, 12);
        let level = generator.generate(&mut rng, 2, 0);
        assert_eq!(count(&level, LevelItem::House), 2);
        assert_eq!(count(&level, LevelItem::Farm), 2);
        assert_eq!(count(&level, LevelItem::Wall), 4);
        assert_eq!(count(&level, LevelItem::Player { health: 5 }), 1);
        assert_eq!(count(&level, LevelItem::Tree), 0);
        assert_eq!(level.len(), 9);
        assert!(all_distinct(&level));
        assert!(level.iter().all(|i| i.position.0 < 12 && i.position.1 < 12));
    }
}

#[test]
fn generate_fifteen_percent_adds_fourteen_trees() {
    let mut rng = RandomNumberGenerator::seeded(3);
    let mut generator = LevelGenerator::new(12, 12);
    let level = generator.generate(&mut rng, 2, 15);
    // 22 of 144 cells is the first count at or above 15%.
    assert_eq!(count(&level, LevelItem::Tree), 14);
    assert_eq!(level.len(), 23);
    assert!(all_distinct(&level));
}

#[test]
fn generate_full_density_fills_every_cell() {
    let mut rng = RandomNumberGenerator::seeded(11);
    let mut generator = LevelGenerator::new(5, 5);
    let level = generator.generate(&mut rng, 1, 100);
    assert_eq!(level.len(), 25);
    assert_eq!(count(&level, LevelItem::Tree), 21);
    assert_eq!(count(&level, LevelItem::Player { health: 5 }), 0);
    assert!(all_distinct(&level));
}

#[test]
fn generate_smallest_board_without_room_for_trees() {
    let mut rng = RandomNumberGenerator::seeded(5);
    let mut generator = LevelGenerator::new(3, 3);
    let level = generator.generate(&mut rng, 2, 50);
    assert_eq!(count(&level, LevelItem::House), 2);
    assert_eq!(count(&level, LevelItem::Farm), 2);
    assert_eq!(count(&level, LevelItem::Wall), 4);
    assert_eq!(count(&level, LevelItem::Tree), 0);
    assert_eq!(count(&level, LevelItem::Player { health: 5 }), 1);
    assert_eq!(level.len(), 9);
}

#[test]
fn first_house_lies_in_the_middle_third() {
    for seed in 0..30u64 {
        let mut rng = RandomNumberGenerator::seeded(seed);
        let mut generator = LevelGenerator::new(9, 9);
        let level = generator.generate(&mut rng, 1, 0);
        let house = level.iter().find(|i| i.item == LevelItem::House).unwrap();
        assert!((3..6).contains(&house.position.0));
        assert!((3..6).contains(&house.position.1));
    }
}

fn empty_grid(w: usize, h: usize) -> Vec<Vec<Option<LevelItem>>> {
    vec![vec![None; w]; h]
}

#[test]
fn ring_search_picks_an_axis_point_at_the_smallest_radius() {
    for seed in 0..20u64 {
        let mut rng = RandomNumberGenerator::seeded(seed);
        let mut generator = LevelGenerator::new(7, 7);
        let mut grid = empty_grid(7, 7);
        grid[3][3] = Some(LevelItem::House);
        let (x, y) = generator.find_somewhat_adjacent_position(&mut rng, 2, 4, &LevelItem::House, &grid);
        assert!([(5, 3), (1, 3), (3, 5), (3, 1)].contains(&(x, y)));
    }
}

#[test]
fn ring_search_skips_a_radius_without_room() {
    let mut rng = RandomNumberGenerator::seeded(1);
    let mut generator = LevelGenerator::new(7, 7);
    let mut grid = empty_grid(7, 7);
    grid[3][3] = Some(LevelItem::House);
    for &(x, y) in &[(4usize, 3usize), (2, 3), (3, 4), (3, 2)] {
        grid[y][x] = Some(LevelItem::Tree);
    }
    let (x, y) = generator.find_somewhat_adjacent_position(&mut rng, 1, 3, &LevelItem::House, &grid);
    assert!([(5, 3), (1, 3), (3, 5), (3, 1)].contains(&(x, y)));
}

#[test]
fn ring_search_reaches_row_zero() {
    let mut rng = RandomNumberGenerator::seeded(2);
    let mut generator = LevelGenerator::new(3, 3);
    let mut grid = vec![vec![Some(LevelItem::Tree); 3]; 3];
    grid[1][1] = Some(LevelItem::House);
    grid[0][1] = None;
    let found = generator.find_somewhat_adjacent_position(&mut rng, 1, 2, &LevelItem::House, &grid);
    assert_eq!(found, (1, 0));
}

#[test]
fn ring_search_falls_back_to_the_only_open_cell() {
    let mut rng = RandomNumberGenerator::seeded(4);
    let mut generator = LevelGenerator::new(4, 4);
    let mut grid = vec![vec![Some(LevelItem::Tree); 4]; 4];
    grid[0][0] = Some(LevelItem::House);
    grid[3][3] = None;
    let found = generator.find_somewhat_adjacent_position(&mut rng, 1, 2, &LevelItem::House, &grid);
    assert_eq!(found, (3, 3));
}

#[test]
fn closest_board_edges_lists_neighbours_left_right_up_down() {
    let generator = LevelGenerator::new(5, 4);
    assert_eq!(generator.closest_board_edges(2, 2), vec![(1, 2), (3, 2), (2, 1), (2, 3)]);
    assert_eq!(generator.closest_board_edges(0, 0), vec![(1, 0), (0, 1)]);
    assert_eq!(generator.closest_board_edges(4, 3), vec![(3, 3), (4, 2)]);
}

#[test]
fn shuffle_keeps_the_items_and_moves_them() {
    let mut rng = RandomNumberGenerator::seeded(9);
    let mut generator = LevelGenerator::new(3, 3);
    let unshuffled: Vec<usize> = (0..50).collect();
    let mut items = unshuffled.clone();
    generator.shuffle(&mut rng, &mut items);
    assert_ne!(items, unshuffled);
    let mut sorted = items.clone();
    sorted.sort();
    assert_eq!(sorted, unshuffled);
}

#[test]
fn insert_builds_entities_and_returns_the_player() {
    let mut store = harvest_captain::store::Store::new();
    let level = vec![
        LevelInsert { position: (1, 2), item: LevelItem::House },
        LevelInsert { position: (3, 4), item: LevelItem::Player { health: 5 } },
        LevelInsert { position: (0, 0), item: LevelItem::Tree },
    ];
    let player = LevelGenerator::insert(&mut store, level);
    assert_eq!(player, Some(1));
    assert_eq!(store.len(), 3);
    let house = store.get(0).unwrap();
    assert!(house.town);
    assert_eq!(house.health.unwrap().maximum, 2);
    let p = store.get(1).unwrap();
    assert!(p.player);
    assert_eq!(p.position.unwrap().x, 3);
    assert_eq!(p.health.unwrap().amount, 5);
    let tree = store.get(2).unwrap();
    assert!(!tree.town && !tree.monster && !tree.player);
}

#[test]
fn insert_without_player_returns_none() {
    let mut store = harvest_captain::store::Store::new();
    let level = vec![LevelInsert { position: (1, 1), item: LevelItem::Wall }];
    assert_eq!(LevelGenerator::insert(&mut store, level), None);
    assert_eq!(store.get(0).unwrap().health.unwrap().amount, 3);
}
