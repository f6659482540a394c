use vstd::prelude::*;
use rltk::RandomNumberGenerator;
use crate::dir::{Dir, step_of, ring_index};
use crate::map::{TileMap, Tile};
use crate::point::Point;
use crate::line::points_view;
use crate::rng::{fresh_rng, range_i32, shuffle_dirs, choose_dir};

verus! {

/// How many diggers a maze starts with.
pub const MAZE_AGENTS: usize = 100;

/// How many rounds the diggers walk.
pub const MAZE_ROUNDS: usize = 6;

/// The chance, in percent, that a digger keeps walking over dug ground once
/// every fresh direction is used up; 0 gives a tight maze, 100 an open one.
pub const MAZE_OPENNESS: i32 = 50;

/// Whether a digger at `a` may move two cells in `d` and stay off the
/// outer ring of a `w × h` map.
pub open spec fn valid_move(a: (int, int), d: Dir, w: int, h: int) -> bool {
    1 <= a.0 + 2 * step_of(d).0 <= w - 2 && 1 <= a.1 + 2 * step_of(d).1 <= h - 2
}

/// The cell two steps from `a` in `d`.
pub open spec fn two_ahead(a: (int, int), d: Dir) -> (int, int) {
    (a.0 + 2 * step_of(d).0, a.1 + 2 * step_of(d).1)
}

/// A digger's place: inside the outer ring, on odd coordinates.
pub open spec fn agent_ok(a: (int, int), w: int, h: int) -> bool {
    1 <= a.0 <= w - 2 && 1 <= a.1 <= h - 2 && a.0 % 2 == 1 && a.1 % 2 == 1
}

/// What every map made by the generators here looks like: the outer ring is
/// wall, there are no pits, the cells with two even coordinates stay wall
/// (so parallel corridors keep a wall between them), and it is dark and
/// empty.
pub open spec fn maze_shaped(m: &TileMap) -> bool {
    forall|x: int, y: int|
        #![trigger m.tile(x, y)]
        m.in_bounds(x, y) ==> {
            &&& m.is_edge(x, y) ==> m.tile(x, y) == Tile::Wall
            &&& m.tile(x, y) == Tile::Wall || m.tile(x, y) == Tile::Floor
            &&& x % 2 == 0 && y % 2 == 0 ==> m.tile(x, y) == Tile::Wall
            &&& m.lit(x, y) == 0
            &&& !m.occ(x, y)
        }
}

/// A digger in a good place, on a dug cell of `m`.
pub open spec fn digger_ok(m: &TileMap, p: Point) -> bool {
    agent_ok(p@, m.w(), m.h()) && m.tile(p.x as int, p.y as int) == Tile::Floor
}

/// Every floor cell of `before` is still floor in `after`.
pub open spec fn keeps_floor(before: &TileMap, after: &TileMap) -> bool {
    forall|x: int, y: int|
        #![trigger after.tile(x, y)]
        before.in_bounds(x, y) && before.tile(x, y) == Tile::Floor ==> after.tile(x, y)
            == Tile::Floor
}

fn to_even(n: i32) -> (r: i32)
    requires
        n >= 0,
    ensures
        r % 2 == 0,
        n - 1 <= r <= n,
{
    n / 2 * 2
}

/// The directions in which a digger at `a` can move two cells and stay off
/// the outer ring.
fn valid_dirs(a: Point, w: i32, h: i32) -> (r: Vec<Dir>)
    requires
        1 <= a.x <= w - 2,
        1 <= a.y <= h - 2,
    ensures
        forall|d: Dir| r@.contains(d) <==> valid_move(a@, d, w as int, h as int),
{
    let mut options: Vec<Dir> = Vec::new();
    let mut i: i32 = 0;
    while i < 4
        invariant
            1 <= a.x <= w - 2,
            1 <= a.y <= h - 2,
            0 <= i <= 4,
            forall|d: Dir|
                options@.contains(d) <==> (ring_index(d) < i && valid_move(a@, d, w as int, h as int)),
        decreases 4 - i,
    {
        if let Some(dir) = Dir::from_num(i) {
            let (dx, dy) = dir.xy();
            let nx = a.x + dx * 2;
            let ny = a.y + dy * 2;
            let ghost before = options@;
            if 1 <= nx && nx <= w - 2 && 1 <= ny && ny <= h - 2 {
                options.push(dir);
            }
            proof {
                assert forall|d: Dir|
                    options@.contains(d) <==> (ring_index(d) < i + 1 && valid_move(
                        a@,
                        d,
                        w as int,
                        h as int,
                    )) by {
                    if d == dir {
                        if valid_move(a@, d, w as int, h as int) {
                            assert(options@[options@.len() - 1] == d);
                        }
                    } else if options@.contains(d) && !before.contains(d) {
                        let k = choose|k: int| 0 <= k < options@.len() && options@[k] == d;
                        assert(k == before.len());
                    } else if before.contains(d) {
                        let k = choose|k: int| 0 <= k < before.len() && before[k] == d;
                        assert(options@[k] == d);
                    }
                }
            }
        }
        i = i + 1;
    }
    options
}

/// Picks, in random order, a direction in which a digger at `a` reaches a
/// cell two steps away that is not dug yet.
fn try_select(rng: &mut RandomNumberGenerator, a: Point, maze: &TileMap) -> (r: Option<Dir>)
    requires
        maze.wf(),
        1 <= a.x <= maze.w() - 2,
        1 <= a.y <= maze.h() - 2,
    ensures
        r matches Some(d) ==> valid_move(a@, d, maze.w(), maze.h()) && maze.tile(
            two_ahead(a@, d).0,
            two_ahead(a@, d).1,
        ) != Tile::Floor,
        r is None ==> forall|d: Dir|
            valid_move(a@, d, maze.w(), maze.h()) ==> maze.tile(two_ahead(a@, d).0, two_ahead(a@, d).1)
                == Tile::Floor,
{
    let w = maze.width() as i32;
    let h = maze.height() as i32;
    let mut dirs = valid_dirs(a, w, h);
    let ghost listed = dirs@;
    shuffle_dirs(rng, &mut dirs);
    proof {
        assert forall|j: int| 0 <= j < dirs@.len() implies valid_move(
            a@,
            #[trigger] dirs@[j],
            maze.w(),
            maze.h(),
        ) by {
            assert(dirs@.contains(dirs@[j]));
            vstd::seq_lib::to_multiset_contains(listed, dirs@[j]);
            vstd::seq_lib::to_multiset_contains(dirs@, dirs@[j]);
        }
    }
    let mut k: usize = 0;
    while k < dirs.len()
        invariant
            maze.wf(),
            w == maze.w(),
            h == maze.h(),
            1 <= a.x <= maze.w() - 2,
            1 <= a.y <= maze.h() - 2,
            k <= dirs@.len(),
            forall|j: int| 0 <= j < dirs@.len() ==> valid_move(a@, #[trigger] dirs@[j], maze.w(), maze.h()),
            forall|j: int|
                0 <= j < k ==> maze.tile(two_ahead(a@, #[trigger] dirs@[j]).0, two_ahead(a@, dirs@[j]).1)
                    == Tile::Floor,
        decreases dirs@.len() - k,
    {
        let dir = dirs[k];
        let (dx, dy) = dir.xy();
        match maze.get_tile(a.x + dx * 2, a.y + dy * 2) {
            Some(t) => {
                if t != Tile::Floor {
                    return Some(dir);
                }
            },
            None => {},
        }
        k = k + 1;
    }
    proof {
        assert forall|d: Dir| valid_move(a@, d, maze.w(), maze.h()) implies maze.tile(
            two_ahead(a@, d).0,
            two_ahead(a@, d).1,
        ) == Tile::Floor by {
            assert(listed.contains(d));
            vstd::seq_lib::to_multiset_contains(listed, d);
            vstd::seq_lib::to_multiset_contains(dirs@, d);
            let j = choose|j: int| 0 <= j < dirs@.len() && dirs@[j] == d;
        }
    }
    None
}

/// Digs out the inner cell `(x, y)`, which has an odd coordinate.
fn carve(maze: &mut TileMap, x: i32, y: i32)
    requires
        old(maze).wf(),
        maze_shaped(old(maze)),
        1 <= x <= old(maze).w() - 2,
        1 <= y <= old(maze).h() - 2,
        x % 2 == 1 || y % 2 == 1,
    ensures
        final(maze).wf(),
        final(maze).w() == old(maze).w(),
        final(maze).h() == old(maze).h(),
        maze_shaped(final(maze)),
        keeps_floor(old(maze), final(maze)),
        final(maze).tile(x as int, y as int) == Tile::Floor,
        forall|a: int, b: int|
            #![trigger final(maze).tile(a, b)]
            final(maze).in_bounds(a, b) && !(a == x && b == y) ==> final(maze).tile(a, b) == old(
                maze,
            ).tile(a, b),
{
    let ghost m0 = *maze;
    maze.set_tile(x, y, Tile::Floor);
    proof {
        assert forall|a: int, b: int|
            #![trigger maze.tile(a, b)]
            maze.in_bounds(a, b) && !(a == x && b == y) implies maze.tile(a, b) == m0.tile(a, b) by {}
        assert forall|a: int, b: int|
            #![trigger maze.tile(a, b)]
            maze.in_bounds(a, b) implies maze.lit(a, b) == m0.lit(a, b) && maze.occ(a, b) == m0.occ(a, b) by {}
    }
}

/// Drops `count` diggers on random odd cells, digs out each one's cell, and
/// tells for each whether it keeps walking over dug ground.
fn place_agents(rng: &mut RandomNumberGenerator, maze: &mut TileMap, count: usize) -> (r: (
    Vec<Point>,
    Vec<bool>,
))
    requires
        old(maze).wf(),
        maze_shaped(old(maze)),
        3 <= old(maze).w(),
        3 <= old(maze).h(),
    ensures
        final(maze).wf(),
        final(maze).w() == old(maze).w(),
        final(maze).h() == old(maze).h(),
        maze_shaped(final(maze)),
        r.0@.len() == count,
        r.1@.len() == count,
        forall|k: int|
            0 <= k < count ==> digger_ok(final(maze), #[trigger] r.0@[k]),
{
    let w = maze.width() as i32;
    let h = maze.height() as i32;
    let mut agents: Vec<Point> = Vec::new();
    let mut continuous: Vec<bool> = Vec::new();
    let mut i: usize = 0;
    while i < count
        invariant
            maze.wf(),
            w == maze.w(),
            h == maze.h(),
            maze.w() == old(maze).w(),
            maze.h() == old(maze).h(),
            3 <= w,
            3 <= h,
            maze_shaped(maze),
            i <= count,
            agents@.len() == i,
            continuous@.len() == i,
            forall|k: int|
                0 <= k < i ==> digger_ok(maze, #[trigger] agents@[k]),
        decreases count - i,
    {
        let x = to_even(range_i32(rng, 0, w - 2)) + 1;
        let y = to_even(range_i32(rng, 0, h - 2)) + 1;
        let ghost m0 = *maze;
        let ghost a0 = agents@;
        carve(maze, x, y);
        let c = range_i32(rng, 0, 100) < MAZE_OPENNESS;
        agents.push(Point { x, y });
        continuous.push(c);
        proof {
            assert forall|k: int|
                0 <= k < i + 1 implies digger_ok(maze, #[trigger] agents@[k]) by {
                if k < i {
                    assert(agents@[k] == a0[k]);
                    assert(digger_ok(&m0, a0[k]));
                }
            }
        }
        i = i + 1;
    }
    (agents, continuous)
}

/// The cell one step from `a` in `d`.
pub open spec fn one_ahead(a: (int, int), d: Dir) -> (int, int) {
    (a.0 + step_of(d).0, a.1 + step_of(d).1)
}

/// What one round did to a digger that stood at `before` and now stands at
/// `after`, seen in the map `m`: either it stayed, because every move open to
/// it led onto dug ground and it does not keep walking (or has no move at
/// all); or it made a move open to it, and both cells it crossed are dug.
pub open spec fn digger_round(m: &TileMap, before: Point, after: Point, cont: bool) -> bool {
    ||| {
        &&& after == before
        &&& forall|d: Dir|
            #[trigger] valid_move(before@, d, m.w(), m.h()) ==> m.tile(
                two_ahead(before@, d).0,
                two_ahead(before@, d).1,
            ) == Tile::Floor
        &&& cont ==> forall|d: Dir| !#[trigger] valid_move(before@, d, m.w(), m.h())
    }
    ||| exists|d: Dir|
        #[trigger] valid_move(before@, d, m.w(), m.h()) && after@ == two_ahead(before@, d) && m.tile(
            one_ahead(before@, d).0,
            one_ahead(before@, d).1,
        ) == Tile::Floor && m.tile(two_ahead(before@, d).0, two_ahead(before@, d).1) == Tile::Floor
}

/// What a round says of a digger stays true while more ground is dug.
proof fn lemma_round_persists(m0: &TileMap, m1: &TileMap, before: Point, after: Point, cont: bool)
    requires
        digger_round(m0, before, after, cont),
        agent_ok(before@, m0.w(), m0.h()),
        keeps_floor(m0, m1),
        m1.w() == m0.w(),
        m1.h() == m0.h(),
    ensures
        digger_round(m1, before, after, cont),
{
    if after == before && forall|d: Dir|
        #[trigger] valid_move(before@, d, m0.w(), m0.h()) ==> m0.tile(
            two_ahead(before@, d).0,
            two_ahead(before@, d).1,
        ) == Tile::Floor {
        assert forall|d: Dir| #[trigger] valid_move(before@, d, m1.w(), m1.h()) implies m1.tile(
            two_ahead(before@, d).0,
            two_ahead(before@, d).1,
        ) == Tile::Floor by {
            assert(m0.tile(two_ahead(before@, d).0, two_ahead(before@, d).1) == Tile::Floor);
        }
        if cont {
            assert forall|d: Dir| !#[trigger] valid_move(before@, d, m1.w(), m1.h()) by {
                assert(!valid_move(before@, d, m0.w(), m0.h()));
            }
        }
    } else {
        let d = choose|d: Dir|
            #[trigger] valid_move(before@, d, m0.w(), m0.h()) && after@ == two_ahead(before@, d) && m0.tile(
                one_ahead(before@, d).0,
                one_ahead(before@, d).1,
            ) == Tile::Floor && m0.tile(two_ahead(before@, d).0, two_ahead(before@, d).1) == Tile::Floor;
        assert(m1.tile(one_ahead(before@, d).0, one_ahead(before@, d).1) == Tile::Floor);
        assert(m1.tile(two_ahead(before@, d).0, two_ahead(before@, d).1) == Tile::Floor);
        assert(valid_move(before@, d, m1.w(), m1.h()));
    }
}

/// Moves a digger at `a` two cells in `dir`, digging out both cells it
/// crosses, and returns where it ends.
pub fn dig_two(maze: &mut TileMap, a: Point, dir: Dir) -> (r: Point)
    requires
        old(maze).wf(),
        maze_shaped(old(maze)),
        agent_ok(a@, old(maze).w(), old(maze).h()),
        valid_move(a@, dir, old(maze).w(), old(maze).h()),
    ensures
        final(maze).wf(),
        final(maze).w() == old(maze).w(),
        final(maze).h() == old(maze).h(),
        maze_shaped(final(maze)),
        keeps_floor(old(maze), final(maze)),
        r@ == two_ahead(a@, dir),
        agent_ok(r@, final(maze).w(), final(maze).h()),
        forall|x: int, y: int|
            #![trigger final(maze).tile(x, y)]
            final(maze).in_bounds(x, y) ==> final(maze).tile(x, y) == if (x, y) == one_ahead(a@, dir)
                || (x, y) == two_ahead(a@, dir) {
                Tile::Floor
            } else {
                old(maze).tile(x, y)
            },
{
    let (dx, dy) = dir.xy();
    let ghost m0 = *maze;
    let p1 = Point { x: a.x + dx, y: a.y + dy };
    carve(maze, p1.x, p1.y);
    let ghost m1 = *maze;
    let p2 = Point { x: p1.x + dx, y: p1.y + dy };
    carve(maze, p2.x, p2.y);
    proof {
        assert forall|x: int, y: int|
            #![trigger maze.tile(x, y)]
            maze.in_bounds(x, y) implies maze.tile(x, y) == if (x, y) == one_ahead(a@, dir) || (x, y)
                == two_ahead(a@, dir) {
                Tile::Floor
            } else {
                m0.tile(x, y)
            } by {
            if (x, y) != two_ahead(a@, dir) {
                assert(maze.tile(x, y) == m1.tile(x, y));
            }
        }
        assert forall|x: int, y: int|
            #![trigger maze.tile(x, y)]
            m0.in_bounds(x, y) && m0.tile(x, y) == Tile::Floor implies maze.tile(x, y) == Tile::Floor by {
            assert(m1.tile(x, y) == Tile::Floor);
        }
    }
    p2
}

/// One round of digging: each digger picks a fresh direction if it has
/// one, else (if it keeps walking) any direction that stays inside, and
/// digs two cells that way; a digger with no move stays where it is.
fn walk_round(
    rng: &mut RandomNumberGenerator,
    maze: &mut TileMap,
    agents: &mut Vec<Point>,
    continuous: &Vec<bool>,
)
    requires
        old(maze).wf(),
        maze_shaped(old(maze)),
        old(agents)@.len() == continuous@.len(),
        forall|k: int|
            0 <= k < old(agents)@.len() ==> digger_ok(old(maze), #[trigger] old(agents)@[k]),
    ensures
        final(maze).wf(),
        final(maze).w() == old(maze).w(),
        final(maze).h() == old(maze).h(),
        maze_shaped(final(maze)),
        final(agents)@.len() == old(agents)@.len(),
        forall|k: int|
            0 <= k < final(agents)@.len() ==> digger_ok(final(maze), #[trigger] final(agents)@[k]),
        keeps_floor(old(maze), final(maze)),
        forall|k: int|
            0 <= k < final(agents)@.len() ==> digger_round(
                final(maze),
                old(agents)@[k],
                #[trigger] final(agents)@[k],
                continuous@[k],
            ),
{
    let w = maze.width() as i32;
    let h = maze.height() as i32;
    let mut j: usize = 0;
    while j < agents.len()
        invariant
            maze.wf(),
            w == maze.w(),
            h == maze.h(),
            maze.w() == old(maze).w(),
            maze.h() == old(maze).h(),
            maze_shaped(maze),
            agents@.len() == old(agents)@.len(),
            agents@.len() == continuous@.len(),
            j <= agents@.len(),
            forall|k: int|
                0 <= k < agents@.len() ==> digger_ok(maze, #[trigger] agents@[k]),
            keeps_floor(old(maze), maze),
            forall|k: int|
                0 <= k < old(agents)@.len() ==> agent_ok(#[trigger] old(agents)@[k]@, maze.w(), maze.h()),
            forall|k: int| j <= k < agents@.len() ==> #[trigger] agents@[k] == old(agents)@[k],
            forall|k: int|
                0 <= k < j ==> digger_round(maze, old(agents)@[k], #[trigger] agents@[k], continuous@[k]),
        decreases agents@.len() - j,
    {
        let a = agents[j];
        assert(digger_ok(maze, agents@[j as int]));
        let ghost a0 = agents@;
        let fresh = try_select(rng, a, maze);
        let chosen = match fresh {
            Some(d) => Some(d),
            None => {
                if continuous[j] {
                    let options = valid_dirs(a, w, h);
                    let picked = choose_dir(rng, &options);
                    proof {
                        if picked is None {
                            assert forall|d: Dir| !#[trigger] valid_move(a@, d, maze.w(), maze.h()) by {
                                if valid_move(a@, d, maze.w(), maze.h()) {
                                    assert(options@.contains(d));
                                }
                            }
                        }
                    }
                    picked
                } else {
                    None
                }
            },
        };
        let ghost m0 = *maze;
        if let Some(dir) = chosen {
            let p2 = dig_two(maze, a, dir);
            agents.set(j, p2);
            proof {
                assert forall|k: int|
                    0 <= k < agents@.len() implies digger_ok(maze, #[trigger] agents@[k]) by {
                    if k != j {
                        assert(agents@[k] == a0[k]);
                        assert(digger_ok(&m0, a0[k]));
                        assert(maze.tile(agents@[k].x as int, agents@[k].y as int) == Tile::Floor);
                    }
                }
                assert(digger_round(maze, old(agents)@[j as int], agents@[j as int], continuous@[j as int]));
            }
        } else {
            proof {
                assert(agents@[j as int] == old(agents)@[j as int]);
                assert(fresh is None);
                assert(digger_round(maze, old(agents)@[j as int], agents@[j as int], continuous@[j as int]));
            }
        }
        proof {
            assert forall|x: int, y: int|
                #![trigger maze.tile(x, y)]
                old(maze).in_bounds(x, y) && old(maze).tile(x, y) == Tile::Floor implies maze.tile(x, y)
                == Tile::Floor by {
                assert(m0.tile(x, y) == Tile::Floor);
            }
            assert forall|k: int| 0 <= k < j + 1 implies digger_round(
                maze,
                old(agents)@[k],
                #[trigger] agents@[k],
                continuous@[k],
            ) by {
                if k < j {
                    assert(agent_ok(old(agents)@[k]@, maze.w(), maze.h()));
                    assert(agents@[k] == a0[k]);
                    assert(digger_round(&m0, old(agents)@[k], a0[k], continuous@[k]));
                    assert(digger_ok(&m0, a0[k]));
                    lemma_round_persists(&m0, maze, old(agents)@[k], a0[k], continuous@[k]);
                }
            }
        }
        j = j + 1;
    }
}

/// The outer ring is wall, and the map is dark and empty.
pub open spec fn walled(m: &TileMap) -> bool {
    forall|x: int, y: int|
        #![trigger m.tile(x, y)]
        m.in_bounds(x, y) ==> {
            &&& m.is_edge(x, y) ==> m.tile(x, y) == Tile::Wall
            &&& m.lit(x, y) == 0
            &&& !m.occ(x, y)
        }
}

/// The inner cells of `m` are pits where `holes` names them, else walls
/// where `walls` names them, else floor.
pub open spec fn scattered(m: &TileMap, walls: Seq<(int, int)>, holes: Seq<(int, int)>) -> bool {
    forall|x: int, y: int|
        #![trigger m.tile(x, y)]
        m.in_bounds(x, y) && !m.is_edge(x, y) ==> m.tile(x, y) == if holes.contains((x, y)) {
            Tile::Abyss
        } else if walls.contains((x, y)) {
            Tile::Wall
        } else {
            Tile::Floor
        }
}

/// Sets `count` random inner cells of `map` to `tile` and returns them, in
/// the order drawn (a cell may come twice).
fn scatter(rng: &mut RandomNumberGenerator, map: &mut TileMap, count: u32, tile: Tile) -> (drawn: Vec<Point>)
    requires
        old(map).wf(),
        walled(old(map)),
        3 <= old(map).w(),
        3 <= old(map).h(),
    ensures
        final(map).wf(),
        final(map).w() == old(map).w(),
        final(map).h() == old(map).h(),
        walled(final(map)),
        drawn@.len() == count,
        forall|k: int|
            0 <= k < drawn@.len() ==> 1 <= #[trigger] drawn@[k].x <= final(map).w() - 2 && 1
                <= drawn@[k].y <= final(map).h() - 2,
        forall|a: int, b: int|
            #![trigger final(map).tile(a, b)]
            final(map).in_bounds(a, b) ==> final(map).tile(a, b) == if points_view(drawn@).contains(
                (a, b),
            ) {
                tile
            } else {
                old(map).tile(a, b)
            },
{
    let w = map.width() as i32;
    let h = map.height() as i32;
    let mut drawn: Vec<Point> = Vec::new();
    let mut i: u32 = 0;
    while i < count
        invariant
            map.wf(),
            w == map.w(),
            h == map.h(),
            map.w() == old(map).w(),
            map.h() == old(map).h(),
            3 <= w,
            3 <= h,
            walled(map),
            i <= count,
            drawn@.len() == i,
            forall|k: int|
                0 <= k < drawn@.len() ==> 1 <= #[trigger] drawn@[k].x <= w - 2 && 1 <= drawn@[k].y
                    <= h - 2,
            forall|a: int, b: int|
                #![trigger map.tile(a, b)]
                map.in_bounds(a, b) ==> map.tile(a, b) == if points_view(drawn@).contains((a, b)) {
                    tile
                } else {
                    old(map).tile(a, b)
                },
        decreases count - i,
    {
        let x = range_i32(rng, 1, w - 1);
        let y = range_i32(rng, 1, h - 1);
        let ghost m0 = *map;
        let ghost d0 = points_view(drawn@);
        map.set_tile(x, y, tile);
        drawn.push(Point { x, y });
        proof {
            let d1 = points_view(drawn@);
            assert(d1 =~= d0.push((x as int, y as int)));
            assert forall|a: int, b: int|
                #![trigger map.tile(a, b)]
                map.in_bounds(a, b) && !(a == x && b == y) implies map.tile(a, b) == m0.tile(a, b) by {}
            assert forall|a: int, b: int|
                #![trigger map.tile(a, b)]
                map.in_bounds(a, b) implies map.tile(a, b) == if d1.contains((a, b)) {
                    tile
                } else {
                    old(map).tile(a, b)
                } by {
                if a == x && b == y {
                    assert(d1[d1.len() - 1] == (a, b));
                } else {
                    assert(map.tile(a, b) == m0.tile(a, b));
                    if d0.contains((a, b)) {
                        let k = choose|k: int| 0 <= k < d0.len() && d0[k] == (a, b);
                        assert(d1[k] == (a, b));
                    }
                    if d1.contains((a, b)) {
                        let k = choose|k: int| 0 <= k < d1.len() && d1[k] == (a, b);
                        assert(d0[k] == (a, b));
                    }
                }
            }
        }
        i = i + 1;
    }
    drawn
}

impl TileMap {
    /// A floor of `width × height` ringed with wall, with `num_walls` walls
    /// and then `num_holes` pits dropped on random inner cells (a later one
    /// may land on an earlier one), drawing on `rng`.
    pub fn new_random_with(
        rng: &mut RandomNumberGenerator,
        width: usize,
        height: usize,
        num_walls: u32,
        num_holes: u32,
    ) -> (r: TileMap)
        requires
            3 <= width,
            3 <= height,
            width * height <= usize::MAX,
            width <= i32::MAX,
            height <= i32::MAX,
        ensures
            r.wf(),
            r.w() == width,
            r.h() == height,
            walled(&r),
            exists|walls: Seq<(int, int)>, holes: Seq<(int, int)>|
                walls.len() == num_walls && holes.len() == num_holes && #[trigger] scattered(&r, walls, holes),
    {
        let mut map = TileMap::new_empty(width, height, Tile::Floor, true);
        let ghost m0 = map;
        let walls = scatter(rng, &mut map, num_walls, Tile::Wall);
        let ghost m1 = map;
        let holes = scatter(rng, &mut map, num_holes, Tile::Abyss);
        proof {
            let wv = points_view(walls@);
            let hv = points_view(holes@);
            assert forall|x: int, y: int|
                #![trigger map.tile(x, y)]
                map.in_bounds(x, y) && !map.is_edge(x, y) implies map.tile(x, y) == if hv.contains((x, y)) {
                    Tile::Abyss
                } else if wv.contains((x, y)) {
                    Tile::Wall
                } else {
                    Tile::Floor
                } by {
                assert(m1.tile(x, y) == (if wv.contains((x, y)) { Tile::Wall } else { m0.tile(x, y) }));
                assert(m0.tile(x, y) == Tile::Floor);
            }
            assert(scattered(&map, wv, hv));
        }
        map
    }

    /// `new_random_with` on a freshly seeded generator.
    pub fn new_random(width: usize, height: usize, num_walls: u32, num_holes: u32) -> (r: TileMap)
        requires
            3 <= width,
            3 <= height,
            width * height <= usize::MAX,
            width <= i32::MAX,
            height <= i32::MAX,
        ensures
            r.wf(),
            r.w() == width,
            r.h() == height,
            walled(&r),
            exists|walls: Seq<(int, int)>, holes: Seq<(int, int)>|
                walls.len() == num_walls && holes.len() == num_holes && #[trigger] scattered(&r, walls, holes),
    {
        let mut rng = fresh_rng();
        TileMap::new_random_with(&mut rng, width, height, num_walls, num_holes)
    }
    /// A maze of `width × height`: a walled block in which diggers, dropped
    /// on odd cells, tunnel two cells at a time for a few rounds, drawing
    /// on `rng`. The outer ring stays wall and at least one cell is dug.
    /// Whether all dug cells connect is left to chance.
    pub fn new_maze_with(rng: &mut RandomNumberGenerator, width: usize, height: usize) -> (r: TileMap)
        requires
            3 <= width,
            3 <= height,
            width * height <= usize::MAX,
            width <= i32::MAX,
            height <= i32::MAX,
        ensures
            r.wf(),
            r.w() == width,
            r.h() == height,
            maze_shaped(&r),
            exists|x: int, y: int|
                r.in_bounds(x, y) && !r.is_edge(x, y) && #[trigger] r.tile(x, y) == Tile::Floor,
    {
        let mut maze = TileMap::new_empty(width, height, Tile::Wall, true);
        let (mut agents, continuous) = place_agents(rng, &mut maze, MAZE_AGENTS);
        let mut round: usize = 0;
        while round < MAZE_ROUNDS
            invariant
                maze.wf(),
                maze.w() == width,
                maze.h() == height,
                maze_shaped(&maze),
                agents@.len() == MAZE_AGENTS,
                continuous@.len() == MAZE_AGENTS,
                forall|k: int|
                    0 <= k < agents@.len() ==> digger_ok(&maze, #[trigger] agents@[k]),
            decreases MAZE_ROUNDS - round,
        {
            walk_round(rng, &mut maze, &mut agents, &continuous);
            round = round + 1;
        }
        proof {
            let p = agents@[0];
            assert(digger_ok(&maze, p));
            assert(maze.in_bounds(p.x as int, p.y as int) && !maze.is_edge(p.x as int, p.y as int)
                && maze.tile(p.x as int, p.y as int) == Tile::Floor);
        }
        maze
    }

    /// A maze of `width × height` drawn with a freshly seeded generator.
    pub fn new_maze(width: usize, height: usize) -> (r: TileMap)
        requires
            3 <= width,
            3 <= height,
            width * height <= usize::MAX,
            width <= i32::MAX,
            height <= i32::MAX,
        ensures
            r.wf(),
            r.w() == width,
            r.h() == height,
            maze_shaped(&r),
            exists|x: int, y: int|
                r.in_bounds(x, y) && !r.is_edge(x, y) && #[trigger] r.tile(x, y) == Tile::Floor,
    {
        let mut rng = fresh_rng();
        TileMap::new_maze_with(&mut rng, width, height)
    }
}

} // verus!
