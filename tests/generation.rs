use rltk::RandomNumberGenerator;
use roguemap::dir::Dir;
use roguemap::map::{Tile, TileMap};
use roguemap::maze::dig_two;
use roguemap::point::Point;

fn assert_ring_is_wall(m: &TileMap) {
    let w = m.width() as i32;
    let h = m.height() as i32;
    for x in 0..w {
        assert_eq!(m.get_tile(x, 0), Some(Tile::Wall));
        assert_eq!(m.get_tile(x, h - 1), Some(Tile::Wall));
    }
    for y in 0..h {
        assert_eq!(m.get_tile(0, y), Some(Tile::Wall));
        assert_eq!(m.get_tile(w - 1, y), Some(Tile::Wall));
    }
}

#[test]
fn seeded_maze_keeps_walls_and_digs() {
    for seed in [1u64, 7, 42, 1234] {
        let mut rng = RandomNumberGenerator::seeded(seed);
        let m = TileMap::new_maze_with(&mut rng, 33, 41);
        assert_eq!((m.width(), m.height()), (33, 41));
        assert_ring_is_wall(&m);
        let mut floors = 0;
        for y in 0..41 {
            for x in 0..33 {
                let t = m.get_tile(x, y).unwrap();
                assert!(t == Tile::Wall || t == Tile::Floor);
                if x % 2 == 0 && y % 2 == 0 {
                    assert_eq!(t, Tile::Wall);
                }
                if t == Tile::Floor {
                    floors += 1;
                }
                assert_eq!(m.get_light(x, y), Some(0));
            }
        }
        assert!(floors > 0);
    }
}

#[test]
fn same_seed_gives_same_maze() {
    let a = TileMap::new_maze_with(&mut RandomNumberGenerator::seeded(9), 21, 15);
    let b = TileMap::new_maze_with(&mut RandomNumberGenerator::seeded(9), 21, 15);
    for y in 0..15 {
        for x in 0..21 {
            assert_eq!(a.get_tile(x, y), b.get_tile(x, y));
        }
    }
}

#[test]
fn smallest_maze_digs_its_middle() {
    let m = TileMap::new_maze_with(&mut RandomNumberGenerator::seeded(3), 3, 3);
    assert_ring_is_wall(&m);
    assert_eq!(m.get_tile(1, 1), Some(Tile::Floor));
}

#[test]
fn unseeded_maze_keeps_walls() {
    let m = TileMap::new_maze(11, 9);
    assert_ring_is_wall(&m);
}

#[test]
fn random_map_keeps_walls() {
    let m = TileMap::new_random_with(&mut RandomNumberGenerator::seeded(5), 12, 10, 20, 20);
    assert_ring_is_wall(&m);
    let mut changed = 0;
    for y in 1..9 {
        for x in 1..11 {
            if m.get_tile(x, y) != Some(Tile::Floor) {
                changed += 1;
            }
        }
    }
    assert!(changed > 0 && changed <= 40);
    let n = TileMap::new_random(6, 6, 0, 0);
    assert_ring_is_wall(&n);
    assert_eq!(n.get_tile(2, 2), Some(Tile::Floor));
}

#[test]
fn dig_two_digs_both_cells() {
    let mut m = TileMap::new_empty(7, 7, Tile::Wall, true);
    m.set_tile(1, 1, Tile::Floor);
    let end = dig_two(&mut m, Point::new(1, 1), Dir::Right);
    assert_eq!(end, Point::new(3, 1));
    assert_eq!(m.get_tile(2, 1), Some(Tile::Floor));
    assert_eq!(m.get_tile(3, 1), Some(Tile::Floor));
    assert_eq!(m.get_tile(4, 1), Some(Tile::Wall));
    assert_eq!(m.get_tile(1, 2), Some(Tile::Wall));
    let end = dig_two(&mut m, end, Dir::Down);
    assert_eq!(end, Point::new(3, 3));
    assert_eq!(m.get_tile(3, 2), Some(Tile::Floor));
}
