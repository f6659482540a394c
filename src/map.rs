use vstd::prelude::*;
use crate::dir::{Dir, step_of};
use crate::matrix::Matrix;
use crate::point::Point;

verus! {

/// The terrain of one cell.
#[derive(Clone, Copy, Debug, PartialEq, Eq, Structural)]
pub enum Tile {
    Wall,
    Floor,
    /// A pit: not walkable, but open to projectiles, and it swallows a
    /// pushed wall.
    Abyss,
}

/// What bumping into a cell did.
#[derive(Clone, Copy, Debug, PartialEq, Eq, Structural)]
pub enum PushResult {
    /// There was nothing to push.
    Free,
    /// A wall moved one cell on.
    Pushed,
    /// Something was in the way and stayed.
    Blocked,
    /// A wall was pushed into a pit and filled it.
    Tumble,
}

/// The light level of a fully lit cell; 0 is dark.
pub const FULL_LIGHT: u32 = 1000;

/// What a push decides, from the bumped cell `t` and the cell `beyond` it.
pub open spec fn push_outcome(t: Tile, beyond: Tile) -> PushResult {
    match t {
        Tile::Floor => PushResult::Free,
        Tile::Wall => match beyond {
            Tile::Wall => PushResult::Blocked,
            Tile::Floor => PushResult::Pushed,
            Tile::Abyss => PushResult::Tumble,
        },
        Tile::Abyss => PushResult::Blocked,
    }
}

/// The playing field: terrain, the light on each cell, and which cells a
/// solid entity stands on, all of one shape.
pub struct TileMap {
    pub tiles: Matrix<Tile>,
    pub light: Matrix<u32>,
    pub occupied: Matrix<bool>,
}

impl TileMap {
    pub open spec fn w(&self) -> int {
        self.tiles.w()
    }

    pub open spec fn h(&self) -> int {
        self.tiles.h()
    }

    pub open spec fn wf(&self) -> bool {
        &&& self.tiles.wf()
        &&& self.light.wf()
        &&& self.occupied.wf()
        &&& self.light.w() == self.w() && self.light.h() == self.h()
        &&& self.occupied.w() == self.w() && self.occupied.h() == self.h()
    }

    pub open spec fn in_bounds(&self, x: int, y: int) -> bool {
        self.tiles.in_bounds(x, y)
    }

    pub open spec fn tile(&self, x: int, y: int) -> Tile {
        self.tiles.at(x, y)
    }

    pub open spec fn lit(&self, x: int, y: int) -> u32 {
        self.light.at(x, y)
    }

    pub open spec fn occ(&self, x: int, y: int) -> bool {
        self.occupied.at(x, y)
    }

    /// The terrain, with everything outside the map counted as wall.
    pub open spec fn tile_or_wall(&self, x: int, y: int) -> Tile {
        if self.in_bounds(x, y) {
            self.tile(x, y)
        } else {
            Tile::Wall
        }
    }

    /// The tile at `(a, b)` after a push at `(x, y)` in `d` that ended in
    /// `r`: a moved wall leaves floor behind, and lands one cell on as wall,
    /// or fills the pit there with floor.
    pub open spec fn tile_after_push(&self, x: int, y: int, d: Dir, r: PushResult, a: int, b: int) -> Tile {
        if (r == PushResult::Pushed || r == PushResult::Tumble) && a == x && b == y {
            Tile::Floor
        } else if r == PushResult::Pushed && a == x + step_of(d).0 && b == y + step_of(d).1 {
            Tile::Wall
        } else if r == PushResult::Tumble && a == x + step_of(d).0 && b == y + step_of(d).1 {
            Tile::Floor
        } else {
            self.tile(a, b)
        }
    }

    /// Same shape, and the tiles of `self` are those of `other`.
    pub open spec fn same_tiles(&self, other: &TileMap) -> bool {
        &&& self.w() == other.w()
        &&& self.h() == other.h()
        &&& forall|a: int, b: int|
            #![trigger self.tile(a, b)]
            self.in_bounds(a, b) ==> self.tile(a, b) == other.tile(a, b)
    }

    /// A `width × height` map of `def_tile`, lit at `def_light`, with no
    /// cell occupied.
    pub fn new(width: usize, height: usize, def_tile: Tile, def_light: u32) -> (r: TileMap)
        requires
            width * height <= usize::MAX,
            width <= i32::MAX,
            height <= i32::MAX,
        ensures
            r.wf(),
            r.w() == width,
            r.h() == height,
            forall|x: int, y: int|
                #![trigger r.tile(x, y)]
                r.in_bounds(x, y) ==> r.tile(x, y) == def_tile && r.lit(x, y) == def_light && !r.occ(x, y),
    {
        let r = TileMap {
            tiles: Matrix::new(width, height, def_tile),
            light: Matrix::new(width, height, def_light),
            occupied: Matrix::new(width, height, false),
        };
        proof {
            assert forall|x: int, y: int|
                #![trigger r.tile(x, y)]
                r.in_bounds(x, y) implies r.tile(x, y) == def_tile && r.lit(x, y) == def_light
                && !r.occ(x, y) by {
                crate::matrix::lemma_index_in_range(r.w(), r.h(), x, y);
            }
        }
        r
    }

    pub fn width(&self) -> (r: usize)
        ensures
            r == self.w(),
    {
        self.tiles.width()
    }

    pub fn height(&self) -> (r: usize)
        ensures
            r == self.h(),
    {
        self.tiles.height()
    }

    /// Number of cells.
    pub fn size(&self) -> (r: usize)
        requires
            self.wf(),
        ensures
            r == self.w() * self.h(),
    {
        self.tiles.size()
    }

    /// The row-major index of `(x, y)`, or `None` out of bounds.
    pub fn to_index(&self, x: i32, y: i32) -> (r: Option<usize>)
        requires
            self.wf(),
        ensures
            self.in_bounds(x as int, y as int) ==> r == Some(
                crate::matrix::index_of(self.w(), x as int, y as int) as usize,
            ),
            !self.in_bounds(x as int, y as int) ==> r is None,
    {
        self.tiles.to_index(x, y)
    }

    /// The cell that the row-major index `i` stands for.
    pub fn to_coord(&self, i: usize) -> (r: (i32, i32))
        requires
            self.wf(),
            i < self.w() * self.h(),
        ensures
            (r.0 as int, r.1 as int) == crate::matrix::coord_of(self.w(), i as int),
            self.in_bounds(r.0 as int, r.1 as int),
    {
        self.tiles.to_coord(i)
    }

    /// Sets the terrain of `(x, y)` and returns its index; out of bounds it
    /// changes nothing and returns `None`.
    pub fn set_tile(&mut self, x: i32, y: i32, tile: Tile) -> (r: Option<usize>)
        requires
            old(self).wf(),
        ensures
            final(self).wf(),
            final(self).tiles.w() == old(self).tiles.w(),
            final(self).tiles.h() == old(self).tiles.h(),
            final(self).tiles.cells() == old(self).tiles.cells_after_set(x as int, y as int, tile),
            final(self).light == old(self).light,
            final(self).occupied == old(self).occupied,
            old(self).in_bounds(x as int, y as int) ==> {
                &&& r == Some(crate::matrix::index_of(old(self).w(), x as int, y as int) as usize)
                &&& final(self).tile(x as int, y as int) == tile
                &&& final(self).tiles.same_except(&old(self).tiles, x as int, y as int)
            },
            !old(self).in_bounds(x as int, y as int) ==> r is None && final(self).tiles == old(
                self,
            ).tiles,
    {
        self.tiles.set(x, y, tile)
    }

    /// The terrain of `(x, y)`, or `None` out of bounds.
    pub fn get_tile(&self, x: i32, y: i32) -> (r: Option<Tile>)
        requires
            self.wf(),
        ensures
            r == self.tiles.get_spec(x as int, y as int),
    {
        self.tiles.get(x, y)
    }

    /// Sets the light level of `(x, y)` and returns its index; out of bounds
    /// it changes nothing and returns `None`.
    pub fn set_light(&mut self, x: i32, y: i32, light: u32) -> (r: Option<usize>)
        requires
            old(self).wf(),
        ensures
            final(self).wf(),
            final(self).light.w() == old(self).light.w(),
            final(self).light.h() == old(self).light.h(),
            final(self).light.cells() == old(self).light.cells_after_set(x as int, y as int, light),
            final(self).tiles == old(self).tiles,
            final(self).occupied == old(self).occupied,
            old(self).in_bounds(x as int, y as int) ==> {
                &&& r == Some(crate::matrix::index_of(old(self).w(), x as int, y as int) as usize)
                &&& final(self).lit(x as int, y as int) == light
                &&& final(self).light.same_except(&old(self).light, x as int, y as int)
            },
            !old(self).in_bounds(x as int, y as int) ==> r is None && final(self).light == old(
                self,
            ).light,
    {
        self.light.set(x, y, light)
    }

    /// The light level of `(x, y)`, or `None` out of bounds.
    pub fn get_light(&self, x: i32, y: i32) -> (r: Option<u32>)
        requires
            self.wf(),
        ensures
            r == self.light.get_spec(x as int, y as int),
    {
        self.light.get(x, y)
    }

    /// The terrain at `(x, y)`, with wall outside the map. Takes wide
    /// coordinates so that a neighbour of any cell can be asked for.
    fn tile_or_wall_wide(&self, x: i64, y: i64) -> (r: Tile)
        requires
            self.wf(),
        ensures
            r == self.tile_or_wall(x as int, y as int),
    {
        if i32::MIN as i64 <= x && x <= i32::MAX as i64 && i32::MIN as i64 <= y && y
            <= i32::MAX as i64 {
            match self.get_tile(x as i32, y as i32) {
                Some(t) => t,
                None => Tile::Wall,
            }
        } else {
            Tile::Wall
        }
    }

    /// Whether `(x, y)` can be walked on: it is floor (pits, walls and
    /// everything off the map cannot).
    pub fn is_free(&self, x: i32, y: i32) -> (r: bool)
        requires
            self.wf(),
        ensures
            r == (self.tile_or_wall(x as int, y as int) == Tile::Floor),
    {
        let t = self.tile_or_wall_wide(x as i64, y as i64);
        t == Tile::Floor
    }

    /// Whether a projectile can fly through `(x, y)`: floor or pit.
    pub fn is_passable(&self, x: i32, y: i32) -> (r: bool)
        requires
            self.wf(),
        ensures
            r == (self.tile_or_wall(x as int, y as int) == Tile::Floor || self.tile_or_wall(
                x as int,
                y as int,
            ) == Tile::Abyss),
    {
        let t = self.tile_or_wall_wide(x as i64, y as i64);
        t == Tile::Floor || t == Tile::Abyss
    }

    /// Whether a walker can step onto `p`: free floor that no solid entity
    /// stands on.
    pub fn is_free_at(&self, p: Point) -> (r: bool)
        requires
            self.wf(),
        ensures
            r == (self.tile_or_wall(p.x as int, p.y as int) == Tile::Floor && !self.occ(
                p.x as int,
                p.y as int,
            )),
    {
        if !self.is_free(p.x, p.y) {
            return false;
        }
        match self.occupied.get(p.x, p.y) {
            Some(o) => !o,
            None => false,
        }
    }

    /// Whether a solid entity stands on `(x, y)`; never off the map.
    pub fn is_occupied(&self, x: i32, y: i32) -> (r: bool)
        requires
            self.wf(),
        ensures
            r == (self.in_bounds(x as int, y as int) && self.occ(x as int, y as int)),
    {
        match self.occupied.get(x, y) {
            Some(o) => o,
            None => false,
        }
    }

    /// Turns every light off.
    pub fn darken_all(&mut self)
        requires
            old(self).wf(),
        ensures
            final(self).wf(),
            final(self).tiles == old(self).tiles,
            final(self).occupied == old(self).occupied,
            final(self).light.w() == old(self).light.w(),
            final(self).light.h() == old(self).light.h(),
            forall|x: int, y: int|
                #![trigger final(self).lit(x, y)]
                final(self).in_bounds(x, y) ==> final(self).lit(x, y) == 0,
    {
        self.light.fill(0);
        proof {
            assert forall|x: int, y: int|
                #![trigger self.lit(x, y)]
                self.in_bounds(x, y) implies self.lit(x, y) == 0 by {
                crate::matrix::lemma_index_in_range(self.w(), self.h(), x, y);
            }
        }
    }

    /// Marks no cell as occupied.
    pub fn clear_all_entities(&mut self)
        requires
            old(self).wf(),
        ensures
            final(self).wf(),
            final(self).tiles == old(self).tiles,
            final(self).light == old(self).light,
            final(self).occupied.w() == old(self).occupied.w(),
            final(self).occupied.h() == old(self).occupied.h(),
            forall|x: int, y: int|
                #![trigger final(self).occ(x, y)]
                final(self).in_bounds(x, y) ==> !final(self).occ(x, y),
    {
        self.occupied.fill(false);
        proof {
            assert forall|x: int, y: int|
                #![trigger self.occ(x, y)]
                self.in_bounds(x, y) implies !self.occ(x, y) by {
                crate::matrix::lemma_index_in_range(self.w(), self.h(), x, y);
            }
        }
    }

    /// Marks `(x, y)` as occupied; off the map it does nothing.
    pub fn apply_entity(&mut self, x: i32, y: i32)
        requires
            old(self).wf(),
        ensures
            final(self).wf(),
            final(self).tiles == old(self).tiles,
            final(self).light == old(self).light,
            final(self).occupied.w() == old(self).occupied.w(),
            final(self).occupied.h() == old(self).occupied.h(),
            forall|a: int, b: int|
                #![trigger final(self).occ(a, b)]
                final(self).in_bounds(a, b) ==> final(self).occ(a, b) == (old(self).occ(a, b) || (a
                    == x && b == y)),
    {
        self.occupied.set(x, y, true);
    }

    /// Rebuilds the occupancy from scratch: afterwards exactly the cells
    /// that one of `positions` names are occupied, and no stale mark is left.
    pub fn index_entities(&mut self, positions: &Vec<Point>)
        requires
            old(self).wf(),
        ensures
            final(self).wf(),
            final(self).tiles == old(self).tiles,
            final(self).light == old(self).light,
            final(self).occupied.w() == old(self).occupied.w(),
            final(self).occupied.h() == old(self).occupied.h(),
            forall|a: int, b: int|
                #![trigger final(self).occ(a, b)]
                final(self).in_bounds(a, b) ==> (final(self).occ(a, b) <==> exists|i: int|
                    0 <= i < positions@.len() && #[trigger] positions@[i]@ == (a, b)),
    {
        self.clear_all_entities();
        let mut i: usize = 0;
        while i < positions.len()
            invariant
                self.wf(),
                self.tiles == old(self).tiles,
                self.light == old(self).light,
                self.occupied.w() == old(self).occupied.w(),
                self.occupied.h() == old(self).occupied.h(),
                i <= positions@.len(),
                forall|a: int, b: int|
                    #![trigger self.occ(a, b)]
                    self.in_bounds(a, b) ==> (self.occ(a, b) <==> exists|j: int|
                        0 <= j < i && #[trigger] positions@[j]@ == (a, b)),
            decreases positions@.len() - i,
        {
            let p = positions[i];
            self.apply_entity(p.x, p.y);
            proof {
                assert forall|a: int, b: int|
                    #![trigger self.occ(a, b)]
                    self.in_bounds(a, b) implies (self.occ(a, b) <==> exists|j: int|
                        0 <= j < i + 1 && #[trigger] positions@[j]@ == (a, b)) by {
                    if a == p.x && b == p.y {
                        assert(positions@[i as int]@ == (a, b));
                    }
                }
            }
            i = i + 1;
        }
    }

    /// Bumps into the cell `(x, y)` while moving in `dir`: a wall there is
    /// pushed one cell on into floor, or into a pit, which it fills; anything
    /// else stays put. Off the map counts as wall.
    pub fn apply_push(&mut self, x: i32, y: i32, dir: Dir) -> (r: PushResult)
        requires
            old(self).wf(),
        ensures
            final(self).wf(),
            final(self).light == old(self).light,
            final(self).occupied == old(self).occupied,
            final(self).w() == old(self).w(),
            final(self).h() == old(self).h(),
            r == push_outcome(
                old(self).tile_or_wall(x as int, y as int),
                old(self).tile_or_wall(x + step_of(dir).0, y + step_of(dir).1),
            ),
            forall|a: int, b: int|
                #![trigger final(self).tile(a, b)]
                final(self).in_bounds(a, b) ==> final(self).tile(a, b) == old(self).tile_after_push(
                    x as int,
                    y as int,
                    dir,
                    r,
                    a,
                    b,
                ),
    {
        let (dx, dy) = dir.xy();
        let tile = self.tile_or_wall_wide(x as i64, y as i64);
        let bx: i64 = x as i64 + dx as i64;
        let by: i64 = y as i64 + dy as i64;
        if tile == Tile::Wall {
            let beyond = self.tile_or_wall_wide(bx, by);
            if beyond == Tile::Wall {
                return PushResult::Blocked;
            }
            self.set_tile(x, y, Tile::Floor);
            let ghost mid = *self;
            if beyond == Tile::Floor {
                self.set_tile(bx as i32, by as i32, Tile::Wall);
                proof {
                    assert forall|a: int, b: int|
                        #![trigger self.tile(a, b)]
                        self.in_bounds(a, b) && !(a == x && b == y) && !(a == bx && b == by) implies
                        self.tile(a, b) == old(self).tile(a, b) by {
                        assert(self.tile(a, b) == mid.tile(a, b));
                    }
                }
                return PushResult::Pushed;
            }
            self.set_tile(bx as i32, by as i32, Tile::Floor);
            proof {
                assert forall|a: int, b: int|
                    #![trigger self.tile(a, b)]
                    self.in_bounds(a, b) && !(a == x && b == y) && !(a == bx && b == by) implies
                    self.tile(a, b) == old(self).tile(a, b) by {
                    assert(self.tile(a, b) == mid.tile(a, b));
                }
            }
            return PushResult::Tumble;
        }
        if tile == Tile::Floor {
            PushResult::Free
        } else {
            PushResult::Blocked
        }
    }

    /// A cell of the outermost ring.
    pub open spec fn is_edge(&self, x: int, y: int) -> bool {
        x == 0 || x == self.w() - 1 || y == 0 || y == self.h() - 1
    }

    /// A dark, unoccupied `width × height` map of `filler`, ringed with
    /// wall when `border` is set.
    pub fn new_empty(width: usize, height: usize, filler: Tile, border: bool) -> (r: TileMap)
        requires
            width * height <= usize::MAX,
            width <= i32::MAX,
            height <= i32::MAX,
        ensures
            r.wf(),
            r.w() == width,
            r.h() == height,
            forall|x: int, y: int|
                #![trigger r.tile(x, y)]
                r.in_bounds(x, y) ==> r.tile(x, y) == (if border && r.is_edge(x, y) {
                    Tile::Wall
                } else {
                    filler
                }) && r.lit(x, y) == 0 && !r.occ(x, y),
    {
        let mut map = TileMap::new(width, height, filler, 0);
        let w = width as i32;
        let h = height as i32;
        if border {
            let mut i: i32 = 0;
            while i < w
                invariant
                    map.wf(),
                    map.w() == width,
                    map.h() == height,
                    w == width,
                    h == height,
                    0 <= i <= w,
                    forall|x: int, y: int|
                        #![trigger map.tile(x, y)]
                        map.in_bounds(x, y) ==> map.tile(x, y) == (if (y == 0 || y == h - 1) && x
                            < i {
                            Tile::Wall
                        } else {
                            filler
                        }) && map.lit(x, y) == 0 && !map.occ(x, y),
                decreases w - i,
            {
                let ghost m0 = map;
                map.set_tile(i, 0, Tile::Wall);
                let ghost m1 = map;
                map.set_tile(i, h - 1, Tile::Wall);
                proof {
                    assert forall|x: int, y: int|
                        #![trigger map.tile(x, y)]
                        map.in_bounds(x, y) implies map.tile(x, y) == (if (y == 0 || y == h - 1)
                            && x < i + 1 {
                            Tile::Wall
                        } else {
                            filler
                        }) && map.lit(x, y) == 0 && !map.occ(x, y) by {
                        if !(x == i && y == h - 1) {
                            assert(map.tile(x, y) == m1.tile(x, y));
                            if !(x == i && y == 0) {
                                assert(m1.tile(x, y) == m0.tile(x, y));
                            }
                        }
                    }
                }
                i = i + 1;
            }
            let mut i: i32 = 0;
            while i < h
                invariant
                    map.wf(),
                    map.w() == width,
                    map.h() == height,
                    w == width,
                    h == height,
                    0 <= i <= h,
                    forall|x: int, y: int|
                        #![trigger map.tile(x, y)]
                        map.in_bounds(x, y) ==> map.tile(x, y) == (if y == 0 || y == h - 1 || ((x
                            == 0 || x == w - 1) && y < i) {
                            Tile::Wall
                        } else {
                            filler
                        }) && map.lit(x, y) == 0 && !map.occ(x, y),
                decreases h - i,
            {
                let ghost m0 = map;
                map.set_tile(0, i, Tile::Wall);
                let ghost m1 = map;
                map.set_tile(w - 1, i, Tile::Wall);
                proof {
                    assert forall|x: int, y: int|
                        #![trigger map.tile(x, y)]
                        map.in_bounds(x, y) implies map.tile(x, y) == (if y == 0 || y == h - 1 || ((
                        x == 0 || x == w - 1) && y < i + 1) {
                            Tile::Wall
                        } else {
                            filler
                        }) && map.lit(x, y) == 0 && !map.occ(x, y) by {
                        if !(x == w - 1 && y == i) {
                            assert(map.tile(x, y) == m1.tile(x, y));
                            if !(x == 0 && y == i) {
                                assert(m1.tile(x, y) == m0.tile(x, y));
                            }
                        }
                    }
                }
                i = i + 1;
            }
        }
        map
    }
}

/// Which of a wall's four neighbours are walls, as bits: up 1, right 2,
/// down 4, left 8.
pub open spec fn wall_mask(up: Tile, left: Tile, bot: Tile, right: Tile) -> int {
    (if up == Tile::Wall { 1int } else { 0 }) + (if right == Tile::Wall { 2int } else { 0 }) + (
    if bot == Tile::Wall { 4int } else { 0 }) + (if left == Tile::Wall { 8int } else { 0 })
}

/// The box-drawing glyph for a wall whose wall neighbours form `mask`.
pub open spec fn wall_glyph(mask: int) -> char {
    if mask == 1 || mask == 4 || mask == 5 {
        '\u{2551}'
    } else if mask == 2 || mask == 8 || mask == 10 {
        '\u{2550}'
    } else if mask == 3 {
        '\u{255A}'
    } else if mask == 6 {
        '\u{2554}'
    } else if mask == 7 {
        '\u{2560}'
    } else if mask == 9 {
        '\u{255D}'
    } else if mask == 11 {
        '\u{2569}'
    } else if mask == 12 {
        '\u{2557}'
    } else if mask == 13 {
        '\u{2563}'
    } else if mask == 14 {
        '\u{2566}'
    } else if mask == 15 {
        '\u{256C}'
    } else {
        '\u{25A0}'
    }
}

/// The glyph that joins a wall to its wall neighbours (a lone block when it
/// has none).
pub fn getwall(up: Tile, left: Tile, bot: Tile, right: Tile) -> (r: char)
    ensures
        r == wall_glyph(wall_mask(up, left, bot, right)),
{
    let mut i: u8 = 0;
    if up == Tile::Wall {
        i = i + 1;
    }
    if right == Tile::Wall {
        i = i + 2;
    }
    if bot == Tile::Wall {
        i = i + 4;
    }
    if left == Tile::Wall {
        i = i + 8;
    }
    match i {
        1 | 4 | 5 => '\u{2551}',
        2 | 8 | 10 => '\u{2550}',
        3 => '\u{255A}',
        6 => '\u{2554}',
        7 => '\u{2560}',
        9 => '\u{255D}',
        11 => '\u{2569}',
        12 => '\u{2557}',
        13 => '\u{2563}',
        14 => '\u{2566}',
        15 => '\u{256C}',
        _ => '\u{25A0}',
    }
}

} // verus!
