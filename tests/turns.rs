use rltk::RandomNumberGenerator;
use roguemap::dir::Dir;
use roguemap::map::{PushResult, Tile, TileMap};
use roguemap::point::Point;
use roguemap::rules::{
    camera_offset, monster_step, monsters_move, next_state, player_step, projectile_step,
    runs_systems, spawn_point, Flight, RunState,
};

#[test]
fn player_moves_only_onto_floor() {
    let mut m = TileMap::new_empty(5, 5, Tile::Floor, true);
    m.set_tile(2, 1, Tile::Abyss);
    assert_eq!(player_step(&m, Point::new(2, 2), Dir::Down), Point::new(2, 3));
    assert_eq!(player_step(&m, Point::new(2, 2), Dir::Up), Point::new(2, 2));
    assert_eq!(player_step(&m, Point::new(3, 3), Dir::Right), Point::new(3, 3));
}

#[test]
fn monster_walks_on_or_turns() {
    let mut m = TileMap::new_empty(5, 5, Tile::Floor, true);
    assert_eq!(monster_step(&m, Point::new(2, 2), Dir::Left, false), (Point::new(1, 2), Dir::Left));
    // wall ahead: turn to the next direction on the ring, or the previous when swapped
    assert_eq!(monster_step(&m, Point::new(1, 2), Dir::Left, false), (Point::new(1, 2), Dir::Down));
    assert_eq!(monster_step(&m, Point::new(1, 2), Dir::Left, true), (Point::new(1, 2), Dir::Up));
    // first choice blocked, second open
    m.set_tile(1, 3, Tile::Wall);
    assert_eq!(monster_step(&m, Point::new(1, 2), Dir::Left, false), (Point::new(1, 2), Dir::Up));
    // boxed in: first choice
    m.set_tile(1, 1, Tile::Wall);
    assert_eq!(monster_step(&m, Point::new(1, 2), Dir::Left, false), (Point::new(1, 2), Dir::Down));
    // an occupied cell blocks too
    m.index_entities(&vec![Point::new(2, 2)]);
    assert_eq!(monster_step(&m, Point::new(3, 2), Dir::Left, false).0, Point::new(3, 2));
}

#[test]
fn projectile_flies_hits_and_expires() {
    let mut m = TileMap::new_empty(6, 5, Tile::Floor, true);
    m.set_tile(2, 2, Tile::Abyss);
    assert_eq!(projectile_step(&mut m, Point::new(1, 2), Dir::Right, 10), (Flight::Moved(Point::new(2, 2)), 9));
    assert_eq!(projectile_step(&mut m, Point::new(1, 2), Dir::Right, 0), (Flight::Expired, -1));
    m.set_tile(3, 2, Tile::Wall);
    assert_eq!(
        projectile_step(&mut m, Point::new(2, 2), Dir::Right, 5),
        (Flight::Hit(PushResult::Pushed), 4)
    );
    assert_eq!(m.get_tile(3, 2), Some(Tile::Floor));
    assert_eq!(m.get_tile(4, 2), Some(Tile::Wall));
    assert_eq!(
        projectile_step(&mut m, Point::new(3, 2), Dir::Right, 5),
        (Flight::Hit(PushResult::Blocked), 4)
    );
}

#[test]
fn camera_centres_the_player() {
    assert_eq!(camera_offset(33, 41, Point::new(3, 3)), Point::new(13, 17));
    assert_eq!(camera_offset(33, 41, Point::new(16, 20)), Point::new(0, 0));
}

#[test]
fn spawn_points_are_odd_and_inside() {
    let m = TileMap::new(33, 41, Tile::Floor, 0);
    let mut rng = RandomNumberGenerator::seeded(11);
    let mut seen = Vec::new();
    for _ in 0..50 {
        let p = spawn_point(&mut rng, &m);
        assert!(p.x % 2 == 1 && p.y % 2 == 1);
        assert!(p.x >= 1 && p.x < 33 && p.y >= 1 && p.y < 41);
        if !seen.contains(&p) {
            seen.push(p);
        }
    }
    assert!(seen.len() > 1);
}

#[test]
fn run_state_cycle() {
    assert_eq!(next_state(RunState::PreRun, false), RunState::AwaitingInput);
    assert_eq!(next_state(RunState::AwaitingInput, false), RunState::AwaitingInput);
    assert_eq!(next_state(RunState::AwaitingInput, true), RunState::PlayerTurn);
    assert_eq!(next_state(RunState::PlayerTurn, true), RunState::MonsterTurn);
    assert_eq!(next_state(RunState::MonsterTurn, false), RunState::AwaitingInput);
    assert!(runs_systems(RunState::PreRun));
    assert!(!runs_systems(RunState::AwaitingInput));
    assert!(monsters_move(RunState::MonsterTurn));
    assert!(!monsters_move(RunState::PlayerTurn));
}
