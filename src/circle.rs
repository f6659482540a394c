use vstd::prelude::*;
use crate::point::Point;
use crate::line::{abs, points_view};
use crate::point::fits_i32;

verus! {

/// The nearer of a cell's two axis offsets from `c`.
pub open spec fn near_offset(c: (int, int), p: (int, int)) -> int {
    if abs(p.0 - c.0) <= abs(p.1 - c.1) {
        abs(p.0 - c.0)
    } else {
        abs(p.1 - c.1)
    }
}

/// The farther of a cell's two axis offsets from `c`.
pub open spec fn far_offset(c: (int, int), p: (int, int)) -> int {
    if abs(p.0 - c.0) <= abs(p.1 - c.1) {
        abs(p.1 - c.1)
    } else {
        abs(p.0 - c.0)
    }
}

/// Whether `p` lies inside the disc of radius `t / 10` around `c`.
pub open spec fn in_disc(c: (int, int), t: int, p: (int, int)) -> bool {
    100 * ((p.0 - c.0) * (p.0 - c.0) + (p.1 - c.1) * (p.1 - c.1)) <= t * t
}

/// Whether `p` is a cell of the outline of the circle of radius `t / 10`
/// around `c`: it lies inside the disc, and one more step outwards along its
/// farther axis leaves it. Such a cell is less than one tile from the circle.
pub open spec fn on_border(c: (int, int), t: int, p: (int, int)) -> bool {
    let lo = near_offset(c, p);
    let hi = far_offset(c, p);
    100 * (hi * hi + lo * lo) <= t * t < 100 * ((hi + 1) * (hi + 1) + lo * lo)
}

/// A circle with room for its cells in `i32` coordinates.
pub open spec fn circle_fits(c: Point, t: int) -> bool {
    i32::MIN + t / 10 <= c.x <= i32::MAX - t / 10 && i32::MIN + t / 10 <= c.y <= i32::MAX - t / 10
}

/// The squared distance from `c` to `p`.
pub open spec fn dist_sq(c: (int, int), p: (int, int)) -> int {
    (p.0 - c.0) * (p.0 - c.0) + (p.1 - c.1) * (p.1 - c.1)
}

/// A cell of the outline is at most the radius `t / 10` from the center and,
/// for a radius of at least one tile, more than one tile less than it:
/// `r - 1 < dist <= r`, written with squares of tenths.
pub proof fn law_border_near_circle(c: (int, int), t: int, p: (int, int))
    requires
        t >= 0,
        on_border(c, t, p),
    ensures
        100 * dist_sq(c, p) <= t * t,
        t >= 10 ==> (t - 10) * (t - 10) < 100 * dist_sq(c, p),
{
    let lo = near_offset(c, p);
    let hi = far_offset(c, p);
    let dx = p.0 - c.0;
    let dy = p.1 - c.1;
    assert(hi * hi + lo * lo == dist_sq(c, p)) by {
        assert(abs(dx) * abs(dx) == dx * dx) by (nonlinear_arith)
            requires abs(dx) == dx || abs(dx) == -dx;
        assert(abs(dy) * abs(dy) == dy * dy) by (nonlinear_arith)
            requires abs(dy) == dy || abs(dy) == -dy;
    }
    if t >= 10 {
        let d = dist_sq(c, p);
        assert((t - 10) * (t - 10) < 100 * d) by (nonlinear_arith)
            requires
                t >= 10,
                0 <= hi,
                0 <= lo,
                d == hi * hi + lo * lo,
                t * t < 100 * ((hi + 1) * (hi + 1) + lo * lo),
        {
            if (t - 10) * (t - 10) >= 100 * d {
                assert(20 * t - 100 < 200 * hi + 100);
                assert((t - 10) * (t - 10) >= 100 * (hi * hi));
                if t - 10 < 10 * hi {
                    assert((t - 10) * (t - 10) < (10 * hi) * (10 * hi));
                }
            }
        }
    }
}

/// A cell inside the disc is at most `t / 10` from the center along each axis.
proof fn lemma_disc_offset(t: int, a: int, b: int)
    requires
        t >= 0,
        100 * (a * a + b * b) <= t * t,
    ensures
        abs(a) <= t / 10,
{
    let m = t / 10;
    if abs(a) > m {
        assert(10 * abs(a) > t);
        assert(100 * (a * a) > t * t) by (nonlinear_arith)
            requires 10 * abs(a) > t, t >= 0, abs(a) == a || abs(a) == -a;
        assert(b * b >= 0) by (nonlinear_arith);
    }
}

/// There is only one outline offset for each nearer offset.
proof fn lemma_far_unique(t2: int, lo: int, h1: int, h2: int)
    requires
        0 <= h1,
        0 <= h2,
        100 * (h1 * h1 + lo * lo) <= t2 < 100 * ((h1 + 1) * (h1 + 1) + lo * lo),
        100 * (h2 * h2 + lo * lo) <= t2 < 100 * ((h2 + 1) * (h2 + 1) + lo * lo),
    ensures
        h1 == h2,
{
    if h1 < h2 {
        assert((h1 + 1) * (h1 + 1) <= h2 * h2) by (nonlinear_arith)
            requires 0 <= h1 < h2;
    }
    if h2 < h1 {
        assert((h2 + 1) * (h2 + 1) <= h1 * h1) by (nonlinear_arith)
            requires 0 <= h2 < h1;
    }
}

/// The offsets of the outline cells that mirror `(a, b)` (with `0 <= b <= a`)
/// into all eight octants, each once, in the order they are emitted.
pub open spec fn row_offsets(a: int, b: int) -> Seq<(int, int)> {
    let first = if b != 0 {
        seq![(-a, -b), (a, b)]
    } else {
        Seq::empty()
    };
    let second = if a != 0 {
        seq![(-a, b), (a, -b)]
    } else {
        seq![(-a, b)]
    };
    let third = if a == b {
        Seq::empty()
    } else if b != 0 {
        seq![(-b, a), (b, -a), (-b, -a), (b, a)]
    } else {
        seq![(-b, -a), (b, a)]
    };
    first + second + third
}

pub open spec fn row_cells(c: (int, int), a: int, b: int) -> Seq<(int, int)> {
    row_offsets(a, b).map_values(|o: (int, int)| (c.0 + o.0, c.1 + o.1))
}

/// The far offset of row `dy` of the outline of radius `t / 10`: the largest
/// `a`, counting down from `start`, with `100 * (a² + dy²) <= t²`.
pub open spec fn far_leg(t: int, dy: int, start: int) -> int
    decreases start,
{
    if start <= 0 || 100 * (start * start + dy * dy) <= t * t {
        start
    } else {
        far_leg(t, dy, start - 1)
    }
}

/// The outline cells of rows `dy`, `dy + 1`, ... of the circle of radius
/// `t / 10` around `c`, in the order they are emitted.
pub open spec fn rows_from(c: (int, int), t: int, dy: int) -> Seq<(int, int)>
    decreases t + 1 - dy,
{
    if dy < 0 || dy > t || 200 * (dy * dy) > t * t {
        Seq::empty()
    } else {
        row_cells(c, far_leg(t, dy, t / 10), dy) + rows_from(c, t, dy + 1)
    }
}

/// The outline of the circle of radius `t / 10` around `c`, cell by cell in
/// the order `grid_border` emits it.
pub open spec fn border_cells(c: (int, int), t: int) -> Seq<(int, int)> {
    rows_from(c, t, 0)
}

/// Counting down from a leg that is too long by less than one finds the
/// row's far offset.
proof fn lemma_far_leg(t: int, dy: int, start: int)
    requires
        0 <= start,
        0 <= dy,
        200 * (dy * dy) <= t * t,
        t * t < 100 * ((start + 1) * (start + 1) + dy * dy),
    ensures
        0 <= far_leg(t, dy, start),
        100 * (far_leg(t, dy, start) * far_leg(t, dy, start) + dy * dy) <= t * t,
        t * t < 100 * ((far_leg(t, dy, start) + 1) * (far_leg(t, dy, start) + 1) + dy * dy),
    decreases start,
{
    if 100 * (start * start + dy * dy) <= t * t {
    } else if start <= 0 {
        assert(start == 0);
        assert(start * start == 0) by (nonlinear_arith)
            requires start == 0;
        assert(100 * (dy * dy) <= 200 * (dy * dy)) by (nonlinear_arith)
            requires 0 <= dy;
    } else {
        lemma_far_leg(t, dy, start - 1);
    }
}

/// The mirrored cells of a row are distinct, all have offsets `b` and `a`,
/// and every cell with those offsets is among them.
proof fn lemma_row_cells(c: (int, int), a: int, b: int)
    requires
        0 <= b <= a,
    ensures
        row_cells(c, a, b).no_duplicates(),
        forall|k: int|
            0 <= k < row_cells(c, a, b).len() ==> near_offset(c, #[trigger] row_cells(c, a, b)[k])
                == b && far_offset(c, row_cells(c, a, b)[k]) == a,
        forall|p: (int, int)|
            near_offset(c, p) == b && far_offset(c, p) == a ==> #[trigger] row_cells(c, a, b).contains(p),
{
    let row = row_cells(c, a, b);
    let offs = row_offsets(a, b);
    assert(row.len() == offs.len());
    assert forall|k: int| 0 <= k < row.len() implies row[k] == (c.0 + offs[k].0, c.1 + offs[k].1) by {}
    assert forall|p: (int, int)| near_offset(c, p) == b && far_offset(c, p) == a implies row.contains(p) by {
        let o = (p.0 - c.0, p.1 - c.1);
        assert(p == (c.0 + o.0, c.1 + o.1));
        let k: int = if abs(o.0) > abs(o.1) {
            if b != 0 {
                if o == (-a, -b) { 0 } else if o == (a, b) { 1 } else if o == (-a, b) { 2 } else { 3 }
            } else {
                if o == (-a, b) { 0 } else { 1 }
            }
        } else if a == b {
            if b != 0 {
                if o == (-a, -b) { 0 } else if o == (a, b) { 1 } else if o == (-a, b) { 2 } else { 3 }
            } else {
                0
            }
        } else if b != 0 {
            if o == (-b, a) { 4 } else if o == (b, -a) { 5 } else if o == (-b, -a) { 6 } else { 7 }
        } else {
            if o == (-b, -a) { 2 } else { 3 }
        };
        if b != 0 {
            if a != b {
                assert(offs =~= seq![(-a, -b), (a, b), (-a, b), (a, -b), (-b, a), (b, -a), (-b, -a), (b, a)]);
            } else {
                assert(offs =~= seq![(-a, -b), (a, b), (-a, b), (a, -b)]);
            }
        } else if a != 0 {
            assert(offs =~= seq![(-a, b), (a, -b), (-b, -a), (b, a)]);
        } else {
            assert(offs =~= seq![(-a, b)]);
        }
        assert(offs[k] == o);
        assert(row[k] == p);
    }
}

/// The mirrored cells of row `b` of an outline whose far offset there is `a`.
fn row_points(cx: i64, cy: i64, a: i64, b: i64) -> (r: Vec<Point>)
    requires
        0 <= b <= a,
        fits_i32((cx - a, cy - a)),
        fits_i32((cx + a, cy + a)),
    ensures
        points_view(r@) == row_cells((cx as int, cy as int), a as int, b as int),
{
    let ghost c = (cx as int, cy as int);
    let mut r: Vec<Point> = Vec::new();
    if b != 0 {
        r.push(Point { x: (cx - a) as i32, y: (cy - b) as i32 });
        r.push(Point { x: (cx + a) as i32, y: (cy + b) as i32 });
    }
    r.push(Point { x: (cx - a) as i32, y: (cy + b) as i32 });
    if a != 0 {
        r.push(Point { x: (cx + a) as i32, y: (cy - b) as i32 });
    }
    if a != b {
        if b != 0 {
            r.push(Point { x: (cx - b) as i32, y: (cy + a) as i32 });
            r.push(Point { x: (cx + b) as i32, y: (cy - a) as i32 });
        }
        r.push(Point { x: (cx - b) as i32, y: (cy - a) as i32 });
        r.push(Point { x: (cx + b) as i32, y: (cy + a) as i32 });
    }
    assert(points_view(r@) =~= row_cells(c, a as int, b as int));
    r
}

/// A circle on the grid. Its radius is counted in tenths of a tile, so that
/// radii such as 9.5 tiles give smoother outlines than whole ones.
pub struct Circle {
    pub center: Point,
    pub radius_tenths: u32,
}

impl Circle {
    pub fn new(center: Point, radius_tenths: u32) -> (r: Circle)
        ensures
            r.center == center,
            r.radius_tenths == radius_tenths,
    {
        Circle { center, radius_tenths }
    }

    /// The outline of the circle: each of its cells once, in octant order
    /// (not a connected walk).
    pub fn grid_border(&self) -> (r: Vec<Point>)
        requires
            circle_fits(self.center, self.radius_tenths as int),
        ensures
            points_view(r@) == border_cells(self.center@, self.radius_tenths as int),
            points_view(r@).no_duplicates(),
            forall|k: int|
                0 <= k < r@.len() ==> on_border(
                    self.center@,
                    self.radius_tenths as int,
                    #[trigger] r@[k]@,
                ),
            forall|p: (int, int)|
                on_border(self.center@, self.radius_tenths as int, p) ==> exists|k: int|
                    0 <= k < r@.len() && #[trigger] r@[k]@ == p,
    {
        let c = self.center;
        let ghost cv = c@;
        let ghost t = self.radius_tenths as int;
        proof {
            assert(t * t <= 0xffff_ffff * 0xffff_ffff) by (nonlinear_arith)
                requires 0 <= t <= 0xffff_ffff;
        }
        let t2: u128 = self.radius_tenths as u128 * self.radius_tenths as u128;
        let cx: i64 = c.x as i64;
        let cy: i64 = c.y as i64;
        let mut border: Vec<Point> = Vec::new();
        let mut dy: u64 = 0;
        let mut dx: u64 = (self.radius_tenths / 10) as u64;
        proof {
            let m = t / 10;
            assert(100 * (m * m) <= t * t) by (nonlinear_arith)
                requires 0 <= 10 * m <= t;
            assert(t * t < 100 * ((m + 1) * (m + 1))) by (nonlinear_arith)
                requires 0 <= t < 10 * m + 10;
        }
        loop
            invariant
                t2 == t * t,
                t == self.radius_tenths,
                cv == c@,
                cx == c.x,
                cy == c.y,
                circle_fits(c, t),
                t * t <= 0xffff_ffff * 0xffff_ffff,
                0 <= dy,
                dy <= t + 1,
                t * t < 100 * ((dx + 1) * (dx + 1) + dy * dy),
                dx <= t / 10,
                points_view(border@) + rows_from(cv, t, dy as int) == border_cells(cv, t),
                points_view(border@).no_duplicates(),
                forall|k: int|
                    0 <= k < border@.len() ==> near_offset(cv, #[trigger] border@[k]@) < dy,
                forall|k: int| 0 <= k < border@.len() ==> on_border(cv, t, #[trigger] border@[k]@),
                forall|p: (int, int)|
                    on_border(cv, t, p) && near_offset(cv, p) < dy ==> exists|k: int|
                        0 <= k < border@.len() && #[trigger] border@[k]@ == p,
            ensures
                200 * (dy * dy) > t * t,
            decreases t + 1 - dy,
        {
            proof {
                assert(dy * dy <= (t + 1) * (t + 1)) by (nonlinear_arith)
                    requires 0 <= dy <= t + 1;
                assert((t + 1) * (t + 1) <= 0x1_0000_0000 * 0x1_0000_0000) by (nonlinear_arith)
                    requires 0 <= t <= 0xffff_ffff;
            }
            if 200 * ((dy as u128) * (dy as u128)) > t2 {
                break;
            }
            proof {
                if dy > t {
                    assert(200 * (dy * dy) > t * t) by (nonlinear_arith)
                        requires dy > t, t >= 0;
                }
            }
            loop
                invariant
                    t2 == t * t,
                    t >= 0,
                    t * t <= 0xffff_ffff * 0xffff_ffff,
                    0 <= dy <= t,
                    200 * (dy * dy) <= t * t,
                    t * t < 100 * ((dx + 1) * (dx + 1) + dy * dy),
                    dx <= t / 10,
                ensures
                    100 * (dx * dx + dy * dy) <= t * t,
                    t * t < 100 * ((dx + 1) * (dx + 1) + dy * dy),
                    dx <= t / 10,
                decreases dx,
            {
                proof {
                    assert(dx * dx <= t * t) by (nonlinear_arith)
                        requires 0 <= dx <= t;
                    assert(dy * dy <= t * t) by (nonlinear_arith)
                        requires 0 <= dy <= t;
                }
                if 100 * ((dx as u128) * (dx as u128) + (dy as u128) * (dy as u128)) <= t2 {
                    break;
                }
                proof {
                    if dx <= dy {
                        assert(dx * dx <= dy * dy) by (nonlinear_arith)
                            requires 0 <= dx <= dy;
                    }
                }
                dx = dx - 1;
            }
            proof {
                if dx < dy {
                    assert((dx + 1) * (dx + 1) <= dy * dy) by (nonlinear_arith)
                        requires 0 <= dx < dy;
                }
            }
            let a: i64 = dx as i64;
            let b: i64 = dy as i64;
            proof {
                let m = t / 10;
                assert(t * t < 100 * ((m + 1) * (m + 1) + dy * dy)) by (nonlinear_arith)
                    requires 0 <= t < 10 * m + 10, 0 <= dy;
                lemma_far_leg(t, dy as int, m);
                lemma_far_unique(t * t, dy as int, dx as int, far_leg(t, dy as int, m));
                assert(rows_from(cv, t, dy as int) == row_cells(cv, dx as int, dy as int) + rows_from(
                    cv,
                    t,
                    dy + 1,
                ));
                assert((dx + 1) * (dx + 1) + dy * dy <= (dx + 1) * (dx + 1) + (dy + 1) * (dy + 1))
                    by (nonlinear_arith)
                    requires 0 <= dy;
            }
            let mut row = row_points(cx, cy, a, b);
            proof {
                let rc = row_cells(cv, dx as int, dy as int);
                lemma_row_cells(cv, dx as int, dy as int);
                assert forall|i: int, j: int|
                    0 <= i < points_view(border@).len() && 0 <= j < rc.len() implies
                    points_view(border@)[i] != rc[j] by {
                    assert(near_offset(cv, border@[i]@) < dy);
                    assert(near_offset(cv, rc[j]) == dy);
                }
                vstd::seq_lib::lemma_no_dup_in_concat(points_view(border@), rc);
            }
            let ghost before = border@;
            border.append(&mut row);
            proof {
                let rc = row_cells(cv, dx as int, dy as int);
                assert(points_view(border@) =~= points_view(before) + rc);
                assert(points_view(border@) + rows_from(cv, t, dy + 1) =~= points_view(before) + (rc
                    + rows_from(cv, t, dy + 1)));
                assert forall|k: int| 0 <= k < border@.len() implies near_offset(cv, #[trigger] border@[k]@) < dy + 1
                    && on_border(cv, t, border@[k]@) by {
                    if k >= before.len() {
                        assert(border@[k]@ == rc[k - before.len()]);
                    } else {
                        assert(border@[k] == before[k]);
                    }
                }
                assert forall|p: (int, int)|
                    on_border(cv, t, p) && near_offset(cv, p) < dy + 1 implies exists|k: int|
                        0 <= k < border@.len() && #[trigger] border@[k]@ == p by {
                    if near_offset(cv, p) == dy {
                        lemma_far_unique(t * t, dy as int, dx as int, far_offset(cv, p));
                        assert(rc.contains(p));
                        let j = choose|j: int| 0 <= j < rc.len() && rc[j] == p;
                        assert(border@[before.len() + j]@ == p);
                    } else {
                        let k = choose|k: int| 0 <= k < before.len() && #[trigger] before[k]@ == p;
                        assert(border@[k] == before[k]);
                    }
                }
            }
            dy = dy + 1;
        }
        proof {
            assert forall|p: (int, int)| on_border(cv, t, p) implies exists|k: int|
                0 <= k < border@.len() && #[trigger] border@[k]@ == p by {
                let lo = near_offset(cv, p);
                let hi = far_offset(cv, p);
                assert(lo <= hi);
                assert(200 * (lo * lo) <= 100 * (hi * hi + lo * lo)) by (nonlinear_arith)
                    requires 0 <= lo <= hi;
                if lo >= dy {
                    assert(200 * (dy * dy) <= 200 * (lo * lo)) by (nonlinear_arith)
                        requires 0 <= dy <= lo;
                }
            }
        }
        border
    }

    /// Every cell of the disc, row by row from the top, each once.
    pub fn grid_fill(&self) -> (r: Vec<Point>)
        requires
            circle_fits(self.center, self.radius_tenths as int),
        ensures
            points_view(r@).no_duplicates(),
            forall|k: int|
                0 <= k < r@.len() ==> in_disc(self.center@, self.radius_tenths as int, #[trigger] r@[k]@),
            forall|p: (int, int)|
                in_disc(self.center@, self.radius_tenths as int, p) ==> exists|k: int|
                    0 <= k < r@.len() && #[trigger] r@[k]@ == p,
    {
        let c = self.center;
        let ghost cv = c@;
        let ghost t = self.radius_tenths as int;
        proof {
            assert(t * t <= 0xffff_ffff * 0xffff_ffff) by (nonlinear_arith)
                requires 0 <= t <= 0xffff_ffff;
        }
        let t2: u128 = self.radius_tenths as u128 * self.radius_tenths as u128;
        let m: i64 = (self.radius_tenths / 10) as i64;
        let cx: i64 = c.x as i64;
        let cy: i64 = c.y as i64;
        let mut fill: Vec<Point> = Vec::new();
        let mut y: i64 = -m;
        proof {
            assert forall|p: (int, int)| in_disc(cv, t, p) implies p.1 - cv.1 >= -m by {
                lemma_disc_offset(t, p.1 - cv.1, p.0 - cv.0);
            }
        }
        while y <= m
            invariant
                t * t <= 0xffff_ffff * 0xffff_ffff,
                t2 == t * t,
                t == self.radius_tenths,
                m == t / 10,
                cv == c@,
                cx == c.x,
                cy == c.y,
                circle_fits(c, t),
                -m <= y <= m + 1,
                points_view(fill@).no_duplicates(),
                forall|k: int|
                    0 <= k < fill@.len() ==> in_disc(cv, t, #[trigger] fill@[k]@) && fill@[k]@.1
                        - cv.1 < y,
                forall|p: (int, int)|
                    in_disc(cv, t, p) && p.1 - cv.1 < y ==> exists|k: int|
                        0 <= k < fill@.len() && #[trigger] fill@[k]@ == p,
            decreases m + 1 - y,
        {
            let mut x: i64 = -m;
            proof {
                assert forall|p: (int, int)| in_disc(cv, t, p) implies p.0 - cv.0 >= -m by {
                    lemma_disc_offset(t, p.0 - cv.0, p.1 - cv.1);
                }
            }
            while x <= m
                invariant
                    t * t <= 0xffff_ffff * 0xffff_ffff,
                    t2 == t * t,
                    t == self.radius_tenths,
                    m == t / 10,
                    cv == c@,
                    cx == c.x,
                    cy == c.y,
                    circle_fits(c, t),
                    -m <= y <= m,
                    -m <= x <= m + 1,
                    points_view(fill@).no_duplicates(),
                    forall|k: int|
                        0 <= k < fill@.len() ==> in_disc(cv, t, #[trigger] fill@[k]@) && (
                        fill@[k]@.1 - cv.1 < y || (fill@[k]@.1 - cv.1 == y && fill@[k]@.0 - cv.0
                            < x)),
                    forall|p: (int, int)|
                        in_disc(cv, t, p) && (p.1 - cv.1 < y || (p.1 - cv.1 == y && p.0 - cv.0 < x))
                            ==> exists|k: int| 0 <= k < fill@.len() && #[trigger] fill@[k]@ == p,
                decreases m + 1 - x,
            {
                proof {
                    assert(x * x <= m * m && y * y <= m * m) by (nonlinear_arith)
                        requires -m <= x <= m, -m <= y <= m;
                    assert(0 <= x * x && 0 <= y * y) by (nonlinear_arith);
                    assert(m * m <= t * t) by (nonlinear_arith)
                        requires 0 <= m <= t;
                }
                let inside = 100 * (((x as i128) * (x as i128)) as u128 + ((y as i128) * (y as i128)) as u128) <= t2;
                let ghost before = fill@;
                if inside {
                    let q = Point { x: (cx + x) as i32, y: (cy + y) as i32 };
                    proof {
                        assert forall|i: int, j: int|
                            0 <= i < points_view(before).len() && 0 <= j < 1 implies
                            points_view(before)[i] != seq![q@][j] by {
                            assert(before[i]@ == points_view(before)[i]);
                        }
                        vstd::seq_lib::lemma_no_dup_in_concat(points_view(before), seq![q@]);
                    }
                    fill.push(q);
                    proof {
                        assert(points_view(fill@) =~= points_view(before) + seq![q@]);
                    }
                }
                proof {
                    assert forall|p: (int, int)|
                        in_disc(cv, t, p) && (p.1 - cv.1 < y || (p.1 - cv.1 == y && p.0 - cv.0 < x + 1))
                            implies exists|k: int| 0 <= k < fill@.len() && #[trigger] fill@[k]@ == p by {
                        if p.1 - cv.1 == y && p.0 - cv.0 == x {
                            assert(fill@[fill@.len() - 1]@ == p);
                        } else {
                            let k = choose|k: int| 0 <= k < before.len() && #[trigger] before[k]@ == p;
                            assert(fill@[k] == before[k]);
                        }
                    }
                    assert forall|k: int| 0 <= k < fill@.len() implies in_disc(cv, t, #[trigger] fill@[k]@) && (
                        fill@[k]@.1 - cv.1 < y || (fill@[k]@.1 - cv.1 == y && fill@[k]@.0 - cv.0
                            < x + 1)) by {
                        if k < before.len() {
                            assert(fill@[k] == before[k]);
                        }
                    }
                }
                x = x + 1;
            }
            proof {
                assert forall|p: (int, int)| in_disc(cv, t, p) && p.1 - cv.1 < y + 1 implies exists|k: int|
                    0 <= k < fill@.len() && #[trigger] fill@[k]@ == p by {
                    if p.1 - cv.1 == y {
                        lemma_disc_offset(t, p.0 - cv.0, p.1 - cv.1);
                    }
                }
            }
            y = y + 1;
        }
        proof {
            assert forall|p: (int, int)| in_disc(cv, t, p) implies exists|k: int|
                0 <= k < fill@.len() && #[trigger] fill@[k]@ == p by {
                lemma_disc_offset(t, p.1 - cv.1, p.0 - cv.0);
            }
        }
        fill
    }
}

} // verus!
