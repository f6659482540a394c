use roguemap::light::{light_level, light_system, LIGHT_RADIUS_TENTHS};
use roguemap::line::Line;
use roguemap::map::{Tile, TileMap, FULL_LIGHT};
use roguemap::point::Point;

#[test]
fn light_levels_fall_off_linearly() {
    assert_eq!(light_level(0, 10), FULL_LIGHT);
    assert_eq!(light_level(3, 10), 700);
    assert_eq!(light_level(9, 10), 100);
    assert_eq!(light_level(1, 3), 666);
    assert_eq!(light_level(0, 1), FULL_LIGHT);
    for len in 1..30usize {
        for i in 1..len {
            assert!(light_level(i, len) <= light_level(i - 1, len));
        }
    }
}

#[test]
fn darkness_then_one_source() {
    let mut m = TileMap::new(33, 41, Tile::Floor, 0);
    m.set_light(0, 0, 123);
    light_system(&mut m, &vec![Point::new(16, 20)]);
    assert_eq!(m.get_light(16, 20), Some(FULL_LIGHT));
    assert_eq!(m.get_light(0, 0), Some(0));
    let mut lit = 0;
    for y in 0..41 {
        for x in 0..33 {
            let v = m.get_light(x, y).unwrap();
            assert!(v <= FULL_LIGHT);
            if v > 0 {
                lit += 1;
                let dx = (x - 16) as f64;
                let dy = (y - 20) as f64;
                assert!((dx * dx + dy * dy).sqrt() <= 9.5);
            }
        }
    }
    assert!(lit > 100);
    assert_eq!(m.get_light(16, 11), Some(100));
}

#[test]
fn a_single_ray_dims_with_distance() {
    let mut m = TileMap::new(20, 5, Tile::Wall, 0);
    m.cast_light(Point::new(2, 2), 0);
    assert_eq!(m.get_light(2, 2), Some(FULL_LIGHT));
    let mut m = TileMap::new(20, 20, Tile::Floor, 0);
    m.cast_light(Point::new(10, 10), LIGHT_RADIUS_TENTHS);
    let ray = Line::new(Point::new(10, 10), Point::new(19, 10)).to_grid();
    let mut last = FULL_LIGHT;
    for p in ray.iter().skip(1) {
        let v = m.get_light(p.x, p.y).unwrap();
        assert!(v <= last);
        last = v;
    }
    assert_eq!(m.get_light(10, 10), Some(FULL_LIGHT));
}

#[test]
fn light_passes_through_walls_and_skips_off_map() {
    let mut m = TileMap::new(5, 5, Tile::Wall, 0);
    light_system(&mut m, &vec![Point::new(0, 0)]);
    assert_eq!(m.get_light(0, 0), Some(FULL_LIGHT));
    assert!(m.get_light(3, 0).unwrap() > 0);
}

#[test]
fn no_sources_leaves_everything_dark() {
    let mut m = TileMap::new(4, 3, Tile::Floor, 500);
    light_system(&mut m, &Vec::new());
    for y in 0..3 {
        for x in 0..4 {
            assert_eq!(m.get_light(x, y), Some(0));
        }
    }
}

#[test]
fn pass_ignores_the_light_before() {
    let mut a = TileMap::new(15, 15, Tile::Floor, 0);
    let mut b = TileMap::new(15, 15, Tile::Floor, 777);
    b.set_light(0, 0, 3);
    let sources = vec![Point::new(7, 7), Point::new(2, 3)];
    light_system(&mut a, &sources);
    light_system(&mut b, &sources);
    for y in 0..15 {
        for x in 0..15 {
            assert_eq!(a.get_light(x, y), b.get_light(x, y));
        }
    }
    assert_eq!(a.get_light(2, 3), Some(FULL_LIGHT));
}

#[test]
fn ray_cells_get_linear_falloff() {
    // radius 1.0: the outline is the four neighbours, each ray has two cells
    let mut m = TileMap::new(5, 5, Tile::Floor, 0);
    m.cast_light(Point::new(2, 2), 10);
    assert_eq!(m.get_light(2, 2), Some(FULL_LIGHT));
    assert_eq!(m.get_light(1, 2), Some(500));
    assert_eq!(m.get_light(3, 2), Some(500));
    assert_eq!(m.get_light(2, 1), Some(500));
    assert_eq!(m.get_light(2, 3), Some(500));
    assert_eq!(m.get_light(1, 1), Some(0));
}
