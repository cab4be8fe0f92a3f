use roguelike::map::{DungeonMap, MAP_HEIGHT, MAP_WIDTH, MAX_ROOMS};
use roguelike::order::{room_pair_distances, sort_by_distance};
use roguelike::rng::Rng;
use roguelike::room::{Room, RoomDistance};

fn dig(seed: u64) -> (DungeonMap, Vec<RoomDistance>) {
    let mut m = DungeonMap::new(MAP_WIDTH, MAP_HEIGHT);
    let mut rng = Rng::new(seed);
    let pairs = m.map_digger(MAP_WIDTH, MAP_HEIGHT, &mut rng);
    (m, pairs)
}

#[test]
fn digger_accepts_rooms_within_quota() {
    let (m, _) = dig(42);
    assert!(1 <= m.rooms.len());
    assert!(m.rooms.len() <= MAX_ROOMS as usize);
    for r in &m.rooms {
        assert!(1 <= r.x1 && r.x1 < r.x2 && r.x2 <= MAP_WIDTH - 2);
        assert!(1 <= r.y1 && r.y1 < r.y2 && r.y2 <= MAP_HEIGHT - 2);
    }
}

#[test]
fn accepted_rooms_never_overlap() {
    let (m, _) = dig(42);
    for i in 0..m.rooms.len() {
        for j in 0..m.rooms.len() {
            if i != j {
                assert!(!m.rooms[i].intersect(&m.rooms[j]));
            }
        }
    }
}

#[test]
fn outer_ring_is_impassable() {
    for seed in [0u64, 7, 42, 1234567] {
        let (m, _) = dig(seed);
        for x in 0..=MAP_WIDTH {
            assert!(!m.cells[x as usize][0].passable);
            assert!(!m.cells[x as usize][MAP_HEIGHT as usize].passable);
        }
        for y in 0..=MAP_HEIGHT {
            assert!(!m.cells[0][y as usize].passable);
            assert!(!m.cells[MAP_WIDTH as usize][y as usize].passable);
        }
    }
}

#[test]
fn room_interiors_are_passable() {
    let (m, _) = dig(7);
    for r in &m.rooms {
        for x in r.x1..r.x2 {
            for y in r.y1..r.y2 {
                let cell = m.cells[x as usize][y as usize];
                assert!(cell.passable);
                assert_eq!(cell.c, '.');
            }
        }
    }
}

#[test]
fn passable_cells_are_exactly_rooms_and_corridors() {
    let (m, pairs) = dig(42);
    for x in 0..=MAP_WIDTH {
        for y in 0..=MAP_HEIGHT {
            let mut carved = false;
            for r in &m.rooms {
                if r.x1 <= x && x < r.x2 && r.y1 <= y && y < r.y2 {
                    carved = true;
                }
            }
            for rd in &pairs {
                let (rx, ry) = rd.room_one.center();
                let (ox, oy) = rd.room_two.center();
                if y == ry && rx.min(ox) <= x && x <= rx.max(ox) {
                    carved = true;
                }
                if x == rx && ry.min(oy) <= y && y <= ry.max(oy) {
                    carved = true;
                }
            }
            let on_ring = x == 0 || y == 0 || x == MAP_WIDTH || y == MAP_HEIGHT;
            let expect = carved && !on_ring;
            assert_eq!(m.cells[x as usize][y as usize].passable, expect);
        }
    }
}

#[test]
fn generation_is_reproducible_from_the_seed() {
    let (m1, p1) = dig(20260101);
    let (m2, p2) = dig(20260101);
    assert_eq!(m1.rooms, m2.rooms);
    assert_eq!(p1, p2);
    assert_eq!(m1.cells, m2.cells);
}

#[test]
fn different_seeds_give_different_dungeons() {
    let (m1, _) = dig(1);
    let (m2, _) = dig(2);
    assert_ne!(m1.rooms, m2.rooms);
}

#[test]
fn carve_list_is_sorted_by_distance() {
    let (_, pairs) = dig(42);
    for w in pairs.windows(2) {
        assert!(w[0].dist_sq <= w[1].dist_sq);
    }
}

#[test]
fn carve_list_holds_every_pair_once() {
    let (m, pairs) = dig(42);
    let n = m.rooms.len();
    assert_eq!(pairs.len(), n * (n - 1) / 2);
    for i in 0..n {
        for j in (i + 1)..n {
            let mut found = 0;
            for rd in &pairs {
                let fwd = rd.room_one == m.rooms[i] && rd.room_two == m.rooms[j];
                let rev = rd.room_one == m.rooms[j] && rd.room_two == m.rooms[i];
                if fwd || rev {
                    found += 1;
                }
            }
            assert_eq!(found, 1);
        }
    }
}

#[test]
fn closest_pairs_are_carved_first() {
    // Three rooms whose pairwise center distances are strictly ordered:
    // d(a,b) < d(a,c) < d(b,c); the carve list must order them the same way.
    let a = Room { x1: 1, x2: 3, y1: 1, y2: 3 }; // center (2, 2)
    let b = Room { x1: 3, x2: 5, y1: 1, y2: 3 }; // center (4, 2)
    let c = Room { x1: 1, x2: 3, y1: 6, y2: 8 }; // center (2, 7)
    let rooms = vec![a, b, c];
    let mut pairs = room_pair_distances(&rooms);
    sort_by_distance(&mut pairs);
    assert_eq!(pairs.len(), 3);
    assert_eq!(pairs[0].dist_sq, 4); // (a, b)
    assert_eq!(pairs[1].dist_sq, 25); // (a, c)
    assert_eq!(pairs[2].dist_sq, 29); // (b, c)
    assert!(pairs[0].room_one == a && pairs[0].room_two == b);
    assert!(pairs[1].room_one == a && pairs[1].room_two == c);
    assert!(pairs[2].room_one == b && pairs[2].room_two == c);
}

#[test]
fn sorting_keeps_equal_distances_stable() {
    let a = Room { x1: 1, x2: 3, y1: 1, y2: 3 }; // center (2, 2)
    let b = Room { x1: 5, x2: 7, y1: 1, y2: 3 }; // center (6, 2): d(a,b)^2 = 16
    let c = Room { x1: 1, x2: 3, y1: 5, y2: 7 }; // center (2, 6): d(a,c)^2 = 16
    let rooms = vec![a, b, c];
    let mut pairs = room_pair_distances(&rooms);
    sort_by_distance(&mut pairs);
    assert_eq!(pairs[0].dist_sq, 16);
    assert_eq!(pairs[1].dist_sq, 16);
    // Equal keys keep their original order: (a, b) was listed before (a, c).
    assert!(pairs[0].room_one == a && pairs[0].room_two == b);
    assert!(pairs[1].room_one == a && pairs[1].room_two == c);
}
