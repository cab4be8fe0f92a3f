use roguelike::entity::{player_action, Entity};
use roguelike::map::{is_passable, DungeonMap};

fn small_map() -> DungeonMap {
    // A 11 x 11 grid with one 3 x 3 room of floor at [2, 5) x [2, 5).
    let mut m = DungeonMap::new(10, 10);
    m.make_room(2, 2, 3, 3).unwrap();
    m
}

fn entity_at(x: i32, y: i32) -> Entity {
    Entity { x, y, c: '@', cl: 0 }
}

#[test]
fn is_passable_checks_bounds_and_floor() {
    let m = small_map();
    assert!(is_passable(3, 3, &m));
    assert!(!is_passable(1, 1, &m));
    assert!(!is_passable(-1, 0, &m));
    assert!(!is_passable(0, -1, &m));
    assert!(!is_passable(11, 0, &m));
    assert!(!is_passable(0, 11, &m));
}

#[test]
fn move_into_floor_commits() {
    let mut m = small_map();
    let mut e = entity_at(3, 3);
    e.move_entity(1, 0, &mut m);
    assert_eq!((e.x, e.y), (4, 3));
    e.move_entity(0, -1, &mut m);
    assert_eq!((e.x, e.y), (4, 2));
}

#[test]
fn move_into_wall_is_dropped() {
    let mut m = small_map();
    let mut e = entity_at(2, 2);
    e.move_entity(-1, 0, &mut m);
    assert_eq!((e.x, e.y), (2, 2));
    e.move_entity(0, -1, &mut m);
    assert_eq!((e.x, e.y), (2, 2));
}

#[test]
fn move_off_grid_is_dropped() {
    let mut m = small_map();
    let mut e = entity_at(0, 0);
    e.move_entity(-1, 0, &mut m);
    assert_eq!((e.x, e.y), (0, 0));
}

#[test]
fn player_action_maps_the_four_codes() {
    let mut m = small_map();
    let mut e = entity_at(3, 3);
    player_action(115, &mut e, &mut m); // 's': down
    assert_eq!((e.x, e.y), (3, 4));
    player_action(119, &mut e, &mut m); // 'w': up
    assert_eq!((e.x, e.y), (3, 3));
    player_action(100, &mut e, &mut m); // 'd': right
    assert_eq!((e.x, e.y), (4, 3));
    player_action(97, &mut e, &mut m); // 'a': left
    assert_eq!((e.x, e.y), (3, 3));
}

#[test]
fn player_action_ignores_unknown_codes() {
    let mut m = small_map();
    let mut e = entity_at(3, 3);
    player_action(120, &mut e, &mut m);
    player_action(0, &mut e, &mut m);
    player_action(-5, &mut e, &mut m);
    assert_eq!((e.x, e.y), (3, 3));
}

#[test]
fn glyph_survives_movement() {
    let mut m = small_map();
    let mut e = entity_at(3, 3);
    e.move_entity(1, 0, &mut m);
    assert_eq!(e.c, '@');
    assert_eq!(e.cl, 0);
}

#[test]
fn rand_char_is_alphanumeric_and_reproducible() {
    let mut a = entity_at(3, 3);
    let mut b = entity_at(3, 3);
    let mut rng_a = roguelike::rng::Rng::new(7);
    let mut rng_b = roguelike::rng::Rng::new(7);
    a.rand_char(&mut rng_a);
    b.rand_char(&mut rng_b);
    assert_eq!(a.c, b.c);
    assert_eq!(a.c, 'a');
    for seed in 0..100u64 {
        let mut e = entity_at(0, 0);
        let mut rng = roguelike::rng::Rng::new(seed);
        e.rand_char(&mut rng);
        assert!(e.c.is_ascii_alphanumeric());
        assert_eq!((e.x, e.y), (0, 0));
    }
}
