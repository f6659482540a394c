use roguemap::dir::Dir;
use roguemap::map::{getwall, PushResult, Tile, TileMap, FULL_LIGHT};
use roguemap::point::Point;

fn floor_map() -> TileMap {
    TileMap::new(6, 5, Tile::Floor, 0)
}

#[test]
fn tiles_set_and_get() {
    let mut m = floor_map();
    assert_eq!(m.set_tile(2, 3, Tile::Abyss), Some(20));
    assert_eq!(m.get_tile(2, 3), Some(Tile::Abyss));
    assert_eq!(m.get_tile(3, 2), Some(Tile::Floor));
    assert_eq!(m.set_tile(6, 0, Tile::Wall), None);
    assert_eq!(m.get_tile(-1, 0), None);
    assert_eq!(m.set_light(1, 1, 300), Some(7));
    assert_eq!(m.get_light(1, 1), Some(300));
    assert_eq!(m.get_light(0, 5), None);
    assert_eq!(m.to_index(5, 4), Some(29));
    assert_eq!(m.to_coord(29), (5, 4));
    assert_eq!(m.size(), 30);
    assert_eq!((m.width(), m.height()), (6, 5));
}

#[test]
fn push_wall_onto_floor() {
    let mut m = floor_map();
    m.set_tile(2, 2, Tile::Wall);
    assert_eq!(m.apply_push(2, 2, Dir::Right), PushResult::Pushed);
    assert_eq!(m.get_tile(2, 2), Some(Tile::Floor));
    assert_eq!(m.get_tile(3, 2), Some(Tile::Wall));
}

#[test]
fn push_wall_into_pit() {
    let mut m = floor_map();
    m.set_tile(2, 2, Tile::Wall);
    m.set_tile(2, 1, Tile::Abyss);
    assert_eq!(m.apply_push(2, 2, Dir::Up), PushResult::Tumble);
    assert_eq!(m.get_tile(2, 2), Some(Tile::Floor));
    assert_eq!(m.get_tile(2, 1), Some(Tile::Floor));
}

#[test]
fn push_wall_against_wall_is_blocked() {
    let mut m = floor_map();
    m.set_tile(2, 2, Tile::Wall);
    m.set_tile(1, 2, Tile::Wall);
    assert_eq!(m.apply_push(2, 2, Dir::Left), PushResult::Blocked);
    assert_eq!(m.get_tile(2, 2), Some(Tile::Wall));
    assert_eq!(m.get_tile(1, 2), Some(Tile::Wall));
}

#[test]
fn push_floor_is_free_and_pit_is_blocked() {
    let mut m = floor_map();
    assert_eq!(m.apply_push(3, 3, Dir::Down), PushResult::Free);
    m.set_tile(3, 3, Tile::Abyss);
    assert_eq!(m.apply_push(3, 3, Dir::Down), PushResult::Blocked);
    assert_eq!(m.get_tile(3, 3), Some(Tile::Abyss));
}

#[test]
fn push_wall_against_map_edge_is_blocked() {
    let mut m = floor_map();
    m.set_tile(5, 1, Tile::Wall);
    assert_eq!(m.apply_push(5, 1, Dir::Right), PushResult::Blocked);
    assert_eq!(m.get_tile(5, 1), Some(Tile::Wall));
}

#[test]
fn free_passable_and_occupied() {
    let mut m = floor_map();
    m.set_tile(1, 1, Tile::Abyss);
    m.set_tile(2, 1, Tile::Wall);
    assert!(m.is_free(0, 0));
    assert!(!m.is_free(1, 1));
    assert!(!m.is_free(2, 1));
    assert!(!m.is_free(-1, 0));
    assert!(m.is_passable(1, 1));
    assert!(!m.is_passable(2, 1));
    assert!(!m.is_passable(0, 9));
    m.index_entities(&vec![Point::new(3, 3), Point::new(4, 4), Point::new(40, 4)]);
    assert!(m.is_occupied(3, 3));
    assert!(m.is_occupied(4, 4));
    assert!(!m.is_free_at(Point::new(3, 3)));
    assert!(m.is_free_at(Point::new(3, 2)));
    m.index_entities(&vec![Point::new(3, 2)]);
    assert!(!m.is_occupied(3, 3));
    assert!(!m.is_occupied(4, 4));
    assert!(m.is_occupied(3, 2));
    m.clear_all_entities();
    assert!(!m.is_occupied(3, 2));
    m.apply_entity(0, 0);
    assert!(m.is_occupied(0, 0));
}

#[test]
fn darken_all_turns_every_light_off() {
    let mut m = TileMap::new(4, 4, Tile::Floor, FULL_LIGHT);
    m.set_light(1, 2, 5);
    m.darken_all();
    for y in 0..4 {
        for x in 0..4 {
            assert_eq!(m.get_light(x, y), Some(0));
        }
    }
}

#[test]
fn empty_map_with_and_without_border() {
    let m = TileMap::new_empty(5, 4, Tile::Floor, true);
    for y in 0..4 {
        for x in 0..5 {
            let edge = x == 0 || x == 4 || y == 0 || y == 3;
            let want = if edge { Tile::Wall } else { Tile::Floor };
            assert_eq!(m.get_tile(x, y), Some(want));
            assert_eq!(m.get_light(x, y), Some(0));
        }
    }
    let open = TileMap::new_empty(5, 4, Tile::Abyss, false);
    assert_eq!(open.get_tile(0, 0), Some(Tile::Abyss));
}

#[test]
fn wall_glyphs_follow_neighbours() {
    let w = Tile::Wall;
    let f = Tile::Floor;
    assert_eq!(getwall(f, f, f, f), '\u{25A0}');
    assert_eq!(getwall(w, f, w, f), '\u{2551}');
    assert_eq!(getwall(f, w, f, w), '\u{2550}');
    assert_eq!(getwall(w, f, f, w), '\u{255A}');
    assert_eq!(getwall(f, f, w, w), '\u{2554}');
    assert_eq!(getwall(w, f, w, w), '\u{2560}');
    assert_eq!(getwall(w, w, f, f), '\u{255D}');
    assert_eq!(getwall(w, w, f, w), '\u{2569}');
    assert_eq!(getwall(f, w, w, f), '\u{2557}');
    assert_eq!(getwall(w, w, w, f), '\u{2563}');
    assert_eq!(getwall(f, w, w, w), '\u{2566}');
    assert_eq!(getwall(w, w, w, w), '\u{256C}');
    assert_eq!(getwall(Tile::Abyss, f, f, f), '\u{25A0}');
}

#[test]
fn push_from_off_the_map_counts_as_wall() {
    let mut m = floor_map();
    assert_eq!(m.apply_push(-1, 2, Dir::Right), PushResult::Pushed);
    assert_eq!(m.get_tile(0, 2), Some(Tile::Wall));
    assert_eq!(m.apply_push(-1, 2, Dir::Left), PushResult::Blocked);
    assert_eq!(m.apply_push(i32::MAX, 0, Dir::Right), PushResult::Blocked);
}
