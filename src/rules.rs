use vstd::prelude::*;
use rltk::RandomNumberGenerator;
use crate::dir::{Dir, step_of, ring_index, dir_at};
use crate::map::{TileMap, Tile, PushResult, push_outcome};
use crate::point::{Point, fits_i32};
use crate::rng::range_i32;

verus! {

/// Whether a walker can enter cell `c`: floor inside the map that no solid
/// entity stands on.
pub open spec fn walkable(m: &TileMap, c: (int, int)) -> bool {
    m.tile_or_wall(c.0, c.1) == Tile::Floor && !m.occ(c.0, c.1)
}

/// The cell one step from `p` in `d`.
pub open spec fn ahead(p: (int, int), d: Dir) -> (int, int) {
    (p.0 + step_of(d).0, p.1 + step_of(d).1)
}

/// A point whose four neighbours are all `i32` points.
pub open spec fn inner_point(p: Point) -> bool {
    i32::MIN < p.x < i32::MAX && i32::MIN < p.y < i32::MAX
}

fn step(p: Point, d: Dir) -> (r: Point)
    requires
        inner_point(p),
    ensures
        r@ == ahead(p@, d),
{
    let (dx, dy) = d.xy();
    Point { x: p.x + dx, y: p.y + dy }
}

/// The player's move in `dir`: onto the next cell when it is free floor,
/// else nowhere.
pub fn player_step(map: &TileMap, pos: Point, dir: Dir) -> (r: Point)
    requires
        map.wf(),
        inner_point(pos),
    ensures
        map.tile_or_wall(ahead(pos@, dir).0, ahead(pos@, dir).1) == Tile::Floor ==> r@ == ahead(pos@, dir),
        map.tile_or_wall(ahead(pos@, dir).0, ahead(pos@, dir).1) != Tile::Floor ==> r == pos,
{
    let next = step(pos, dir);
    if map.is_free(next.x, next.y) {
        next
    } else {
        pos
    }
}

/// A monster's turn: it walks on while the way ahead is walkable; else it
/// stays and turns to one side of the ring (`swap` picks which is tried
/// first), or to the other side if only that is walkable, or to the first
/// side if neither is.
pub fn monster_step(map: &TileMap, pos: Point, dir: Dir, swap: bool) -> (r: (Point, Dir))
    requires
        map.wf(),
        inner_point(pos),
    ensures
        walkable(map, ahead(pos@, dir)) ==> r.0@ == ahead(pos@, dir) && r.1 == dir,
        !walkable(map, ahead(pos@, dir)) ==> {
            let first = if swap {
                dir_at((ring_index(dir) + 3) % 4)
            } else {
                dir_at((ring_index(dir) + 1) % 4)
            };
            let second = if swap {
                dir_at((ring_index(dir) + 1) % 4)
            } else {
                dir_at((ring_index(dir) + 3) % 4)
            };
            &&& r.0 == pos
            &&& r.1 == if walkable(map, ahead(pos@, first)) {
                first
            } else if walkable(map, ahead(pos@, second)) {
                second
            } else {
                first
            }
        },
{
    let next = step(pos, dir);
    if map.is_free_at(next) {
        return (next, dir);
    }
    let mut left = dir.next();
    let mut right = dir.prev();
    if swap {
        let temp = left;
        left = right;
        right = temp;
    }
    if map.is_free_at(step(pos, left)) {
        (pos, left)
    } else if map.is_free_at(step(pos, right)) {
        (pos, right)
    } else {
        (pos, left)
    }
}

/// What one turn did to a projectile.
#[derive(Clone, Copy, Debug, PartialEq, Eq, Structural)]
pub enum Flight {
    /// Its time ran out; it is gone.
    Expired,
    /// It flew on to this cell.
    Moved(Point),
    /// It hit the cell ahead, bumped it as `apply_push` does, and is gone.
    Hit(PushResult),
}

/// One turn of a projectile at `pos` flying in `dir` with `lifetime` turns
/// left: the lifetime drops by one; below zero the projectile expires;
/// else it flies on over floor and pits, and bumps into anything else.
/// Returns what happened and the new lifetime.
pub fn projectile_step(map: &mut TileMap, pos: Point, dir: Dir, lifetime: i32) -> (r: (Flight, i32))
    requires
        old(map).wf(),
        inner_point(pos),
        lifetime > i32::MIN,
    ensures
        final(map).wf(),
        r.1 == lifetime - 1,
        r.1 < 0 ==> r.0 == Flight::Expired && *final(map) == *old(map),
        r.1 >= 0 && (old(map).tile_or_wall(ahead(pos@, dir).0, ahead(pos@, dir).1) == Tile::Floor
            || old(map).tile_or_wall(ahead(pos@, dir).0, ahead(pos@, dir).1) == Tile::Abyss) ==> {
            &&& r.0 matches Flight::Moved(p) && p@ == ahead(pos@, dir)
            &&& *final(map) == *old(map)
        },
        r.1 >= 0 && old(map).tile_or_wall(ahead(pos@, dir).0, ahead(pos@, dir).1) == Tile::Wall ==> {
            &&& r.0 == Flight::Hit(
                push_outcome(
                    Tile::Wall,
                    old(map).tile_or_wall(
                        ahead(ahead(pos@, dir), dir).0,
                        ahead(ahead(pos@, dir), dir).1,
                    ),
                ),
            )
            &&& final(map).light == old(map).light
            &&& final(map).occupied == old(map).occupied
            &&& final(map).w() == old(map).w()
            &&& final(map).h() == old(map).h()
            &&& forall|a: int, b: int|
                #![trigger final(map).tile(a, b)]
                final(map).in_bounds(a, b) ==> final(map).tile(a, b) == old(map).tile_after_push(
                    ahead(pos@, dir).0,
                    ahead(pos@, dir).1,
                    dir,
                    r.0->Hit_0,
                    a,
                    b,
                )
        },
{
    let left = lifetime - 1;
    if left < 0 {
        return (Flight::Expired, left);
    }
    let next = step(pos, dir);
    if map.is_passable(next.x, next.y) {
        (Flight::Moved(next), left)
    } else {
        let hit = map.apply_push(next.x, next.y, dir);
        (Flight::Hit(hit), left)
    }
}

/// The camera offset that puts `player` in the middle of a `screen_w ×
/// screen_h` screen.
pub fn camera_offset(screen_w: i32, screen_h: i32, player: Point) -> (r: Point)
    requires
        screen_w >= 0,
        screen_h >= 0,
        fits_i32((screen_w / 2 - player.x, screen_h / 2 - player.y)),
    ensures
        r@ == (screen_w / 2 - player.x, screen_h / 2 - player.y),
{
    Point { x: screen_w / 2 - player.x, y: screen_h / 2 - player.y }
}

/// A random cell with odd coordinates for a new monster: `x` in
/// `[1, width - 1]`, `y` in `[1, height - 1]`.
pub fn spawn_point(rng: &mut RandomNumberGenerator, map: &TileMap) -> (r: Point)
    requires
        map.wf(),
        map.w() >= 2,
        map.h() >= 2,
    ensures
        1 <= r.x < map.w(),
        1 <= r.y < map.h(),
        r.x % 2 == 1,
        r.y % 2 == 1,
{
    let hw = (map.width() / 2) as i32;
    let hh = (map.height() / 2) as i32;
    let x = range_i32(rng, 0, hw) * 2 + 1;
    let y = range_i32(rng, 0, hh) * 2 + 1;
    Point { x, y }
}

/// The player's lives: how many are left, out of how many.
pub struct Lives {
    pub count: i32,
    pub max: i32,
}

/// Whose turn it is.
#[derive(Clone, Copy, Debug, PartialEq, Eq, Structural)]
pub enum RunState {
    AwaitingInput,
    PreRun,
    PlayerTurn,
    MonsterTurn,
}

/// Whether the world's systems run in this state (every state but waiting
/// for the player).
pub fn runs_systems(state: RunState) -> (r: bool)
    ensures
        r == (state != RunState::AwaitingInput),
{
    match state {
        RunState::AwaitingInput => false,
        _ => true,
    }
}

/// Whether monsters move in this state.
pub fn monsters_move(state: RunState) -> (r: bool)
    ensures
        r == (state == RunState::MonsterTurn),
{
    match state {
        RunState::MonsterTurn => true,
        _ => false,
    }
}

/// The state after one frame: after the opening run, and after the
/// monsters' turn, the game waits for input; the player's turn hands over
/// to the monsters; while waiting, a key that acted starts the player's
/// turn and anything else keeps waiting.
pub fn next_state(state: RunState, acted: bool) -> (r: RunState)
    ensures
        state == RunState::PreRun ==> r == RunState::AwaitingInput,
        state == RunState::AwaitingInput ==> r == if acted {
            RunState::PlayerTurn
        } else {
            RunState::AwaitingInput
        },
        state == RunState::PlayerTurn ==> r == RunState::MonsterTurn,
        state == RunState::MonsterTurn ==> r == RunState::AwaitingInput,
{
    match state {
        RunState::PreRun => RunState::AwaitingInput,
        RunState::AwaitingInput => if acted {
            RunState::PlayerTurn
        } else {
            RunState::AwaitingInput
        },
        RunState::PlayerTurn => RunState::MonsterTurn,
        RunState::MonsterTurn => RunState::AwaitingInput,
    }
}

} // verus!
