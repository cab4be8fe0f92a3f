use roguelike::map::{DungeonMap, MapError};

#[test]
fn make_room_carves_exactly_its_rectangle() {
    let mut m = DungeonMap::new(10, 10);
    m.make_room(2, 3, 4, 2).unwrap();
    for x in 0..=10i32 {
        for y in 0..=10i32 {
            let cell = m.cells[x as usize][y as usize];
            if 2 <= x && x < 6 && 3 <= y && y < 5 {
                assert!(cell.passable);
                assert_eq!(cell.c, '.');
                assert_eq!((cell.x, cell.y), (x, y));
            } else {
                assert!(!cell.passable);
                assert_eq!(cell.c, '!');
            }
        }
    }
}

#[test]
fn make_room_rejects_out_of_range() {
    let mut m = DungeonMap::new(5, 5);
    assert_eq!(m.make_room(4, 4, 5, 5), Err(MapError::OutOfBounds));
    assert_eq!(m.make_room(-1, 0, 2, 2), Err(MapError::OutOfBounds));
    assert_eq!(m.make_room(0, -1, 2, 2), Err(MapError::OutOfBounds));
    // Nothing was written by the rejected calls.
    for col in &m.cells {
        for cell in col {
            assert!(!cell.passable);
        }
    }
}

#[test]
fn make_room_with_empty_extent_is_a_no_op() {
    let mut m = DungeonMap::new(5, 5);
    assert_eq!(m.make_room(2, 2, 0, 3), Ok(()));
    assert_eq!(m.make_room(2, 2, 3, -1), Ok(()));
    for col in &m.cells {
        for cell in col {
            assert!(!cell.passable);
        }
    }
}

#[test]
fn h_tunnel_is_inclusive_and_order_free() {
    let mut a = DungeonMap::new(10, 10);
    a.make_h_tunnel(7, 3, 5).unwrap();
    let mut b = DungeonMap::new(10, 10);
    b.make_h_tunnel(3, 7, 5).unwrap();
    for x in 0..=10i32 {
        for y in 0..=10i32 {
            let on_run = y == 5 && 3 <= x && x <= 7;
            assert_eq!(a.cells[x as usize][y as usize].passable, on_run);
            assert_eq!(b.cells[x as usize][y as usize].passable, on_run);
        }
    }
}

#[test]
fn v_tunnel_is_inclusive_and_order_free() {
    let mut a = DungeonMap::new(10, 10);
    a.make_v_tunnel(8, 2, 4).unwrap();
    for x in 0..=10i32 {
        for y in 0..=10i32 {
            let on_run = x == 4 && 2 <= y && y <= 8;
            assert_eq!(a.cells[x as usize][y as usize].passable, on_run);
        }
    }
}

#[test]
fn tunnels_reject_out_of_range() {
    let mut m = DungeonMap::new(10, 10);
    assert_eq!(m.make_h_tunnel(0, 11, 5), Err(MapError::OutOfBounds));
    assert_eq!(m.make_h_tunnel(-1, 3, 5), Err(MapError::OutOfBounds));
    assert_eq!(m.make_h_tunnel(0, 3, 11), Err(MapError::OutOfBounds));
    assert_eq!(m.make_v_tunnel(0, 11, 5), Err(MapError::OutOfBounds));
    assert_eq!(m.make_v_tunnel(0, 3, -2), Err(MapError::OutOfBounds));
    for col in &m.cells {
        for cell in col {
            assert!(!cell.passable);
        }
    }
}

#[test]
fn fresh_map_is_all_sentinel() {
    let m = DungeonMap::new(4, 3);
    assert_eq!(m.cells.len(), 5);
    for col in &m.cells {
        assert_eq!(col.len(), 4);
        for cell in col {
            assert!(!cell.passable);
            assert_eq!(cell.c, '!');
            assert_eq!((cell.x, cell.y), (-1, -1));
        }
    }
    assert!(m.rooms.is_empty());
    assert!(m.entities.is_empty());
}
