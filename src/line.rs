use vstd::prelude::*;
use crate::point::Point;

verus! {

/// The unit step (`1` or `-1`) that moves from `a` towards `b` along one axis;
/// `-1` where they are equal, which then takes no step.
pub open spec fn step_towards(a: int, b: int) -> int {
    if b - a > 0 {
        1
    } else {
        -1
    }
}

pub open spec fn abs(d: int) -> int {
    if d < 0 {
        -d
    } else {
        d
    }
}

/// The sign test that decides the next step of a line with `xc` horizontal and
/// `yc` vertical unit steps, after `xi` and `yi` of them: it compares where
/// the segment leaves the current cell, through its next vertical or its
/// next horizontal boundary. Zero means through the corner: both steps.
pub open spec fn crossing(xc: int, yc: int, xi: int, yi: int) -> int {
    (1 + 2 * xi) * yc - (1 + 2 * yi) * xc
}

/// The cells of a line from `from` after the cursor has taken `xi` of its
/// `xc` horizontal steps (each of sign `xs`) and `yi` of its `yc` vertical
/// steps (each of sign `ys`).
pub open spec fn walk(
    from: (int, int),
    xs: int,
    ys: int,
    xc: int,
    yc: int,
    xi: int,
    yi: int,
) -> Seq<(int, int)>
    decreases (xc - xi) + (yc - yi),
    when 0 <= xi <= xc && 0 <= yi <= yc
{
    let c = crossing(xc, yc, xi, yi);
    let nx = if c <= 0 && xi < xc {
        xi + 1
    } else {
        xi
    };
    let ny = if c >= 0 && yi < yc {
        yi + 1
    } else {
        yi
    };
    if nx == xi && ny == yi {
        Seq::empty()
    } else {
        seq![(from.0 + xs * nx, from.1 + ys * ny)] + walk(from, xs, ys, xc, yc, nx, ny)
    }
}

/// The grid cells of the segment from `from` to `to`, in order, both ends
/// included: each step moves one cell horizontally, vertically, or both
/// where the segment passes exactly through a cell corner.
pub open spec fn line_cells(from: (int, int), to: (int, int)) -> Seq<(int, int)> {
    seq![from] + walk(
        from,
        step_towards(from.0, to.0),
        step_towards(from.1, to.1),
        abs(to.0 - from.0),
        abs(to.1 - from.1),
        0,
        0,
    )
}

/// Two cells that touch, by a side or a corner (or are the same).
pub open spec fn touching(a: (int, int), b: (int, int)) -> bool {
    -1 <= a.0 - b.0 <= 1 && -1 <= a.1 - b.1 <= 1
}

pub open spec fn points_view(s: Seq<Point>) -> Seq<(int, int)> {
    s.map_values(|p: Point| p@)
}

/// Until the line is done, the sign test always allows a step on an axis
/// that has steps left.
proof fn lemma_step_progress(xc: int, yc: int, xi: int, yi: int)
    requires
        0 <= xi <= xc,
        0 <= yi <= yc,
        xi < xc || yi < yc,
    ensures
        crossing(xc, yc, xi, yi) <= 0 ==> xi < xc,
        crossing(xc, yc, xi, yi) >= 0 ==> yi < yc,
{
    if xi == xc {
        assert(crossing(xc, yc, xi, yi) > 0) by (nonlinear_arith)
            requires xi == xc, 0 <= yi < yc, 0 <= xc;
    }
    if yi == yc {
        assert(crossing(xc, yc, xi, yi) < 0) by (nonlinear_arith)
            requires yi == yc, 0 <= xi < xc, 0 <= yc;
    }
}

/// After the start, a line never comes back to its first cell.
pub proof fn lemma_walk_avoids_start(
    from: (int, int),
    xs: int,
    ys: int,
    xc: int,
    yc: int,
    xi: int,
    yi: int,
)
    requires
        0 <= xi <= xc,
        0 <= yi <= yc,
        xs == 1 || xs == -1,
        ys == 1 || ys == -1,
    ensures
        forall|k: int|
            0 <= k < walk(from, xs, ys, xc, yc, xi, yi).len() ==> #[trigger] walk(
                from,
                xs,
                ys,
                xc,
                yc,
                xi,
                yi,
            )[k] != from,
    decreases (xc - xi) + (yc - yi),
{
    let c = crossing(xc, yc, xi, yi);
    let nx = if c <= 0 && xi < xc {
        xi + 1
    } else {
        xi
    };
    let ny = if c >= 0 && yi < yc {
        yi + 1
    } else {
        yi
    };
    if !(nx == xi && ny == yi) {
        lemma_walk_avoids_start(from, xs, ys, xc, yc, nx, ny);
        let w = walk(from, xs, ys, xc, yc, xi, yi);
        let rest = walk(from, xs, ys, xc, yc, nx, ny);
        assert(w == seq![(from.0 + xs * nx, from.1 + ys * ny)] + rest);
        assert forall|k: int| 0 <= k < w.len() implies #[trigger] w[k] != from by {
            if k > 0 {
                assert(w[k] == rest[k - 1]);
            }
        }
    }
}

/// A segment between two grid points.
pub struct Line {
    pub from: Point,
    pub to: Point,
}

impl Line {
    pub fn new(from: Point, to: Point) -> (r: Line)
        ensures
            r.from == from,
            r.to == to,
    {
        Line { from, to }
    }

    /// The grid cells of the segment, from `from` to `to`.
    pub fn to_grid(&self) -> (r: Vec<Point>)
        ensures
            points_view(r@) == line_cells(self.from@, self.to@),
            r@.len() >= 1,
            r@[0] == self.from,
            r@.last() == self.to,
            forall|k: int| 0 <= k < r@.len() - 1 ==> touching(#[trigger] r@[k]@, r@[k + 1]@),
            forall|k: int| 1 <= k < r@.len() ==> #[trigger] r@[k] != self.from,
            r@.len() >= 1 + abs(self.to.x - self.from.x),
            r@.len() >= 1 + abs(self.to.y - self.from.y),
    {
        let from = self.from;
        let to = self.to;
        let dx: i64 = to.x as i64 - from.x as i64;
        let dy: i64 = to.y as i64 - from.y as i64;
        let x_step: i32 = if dx > 0 { 1 } else { -1 };
        let y_step: i32 = if dy > 0 { 1 } else { -1 };
        let x_count: i64 = if dx < 0 { -dx } else { dx };
        let y_count: i64 = if dy < 0 { -dy } else { dy };
        let ghost xs = step_towards(from.x as int, to.x as int);
        let ghost ys = step_towards(from.y as int, to.y as int);
        let ghost whole = line_cells(from@, to@);

        let mut cover: Vec<Point> = Vec::new();
        let mut cursor = from;
        cover.push(cursor);
        let mut xi: i64 = 0;
        let mut yi: i64 = 0;
        proof {
            assert(points_view(cover@) =~= seq![from@]);
        }
        while xi < x_count || yi < y_count
            invariant
                x_count == abs(to.x - from.x),
                y_count == abs(to.y - from.y),
                x_step == xs,
                y_step == ys,
                xs == step_towards(from.x as int, to.x as int),
                ys == step_towards(from.y as int, to.y as int),
                whole == line_cells(from@, to@),
                0 <= xi <= x_count,
                0 <= yi <= y_count,
                cursor@ == (from.x + xs * xi, from.y + ys * yi),
                cover@.len() >= 1,
                cover@[0] == from,
                cover@.last() == cursor,
                forall|k: int| 1 <= k < cover@.len() ==> #[trigger] cover@[k] != from,
                cover@.len() - 1 >= xi,
                cover@.len() - 1 >= yi,
                forall|k: int|
                    0 <= k < cover@.len() - 1 ==> touching(#[trigger] cover@[k]@, cover@[k + 1]@),
                points_view(cover@) + walk(from@, xs, ys, x_count as int, y_count as int, xi as int, yi as int)
                    == whole,
            decreases (x_count - xi) + (y_count - yi),
        {
            proof {
                lemma_step_progress(x_count as int, y_count as int, xi as int, yi as int);
                assert((1 + 2 * xi) * y_count <= (1 + 2 * 0x1_0000_0000int) * 0x1_0000_0000int)
                    by (nonlinear_arith)
                    requires 0 <= xi <= x_count, 0 <= y_count, x_count <= 0x1_0000_0000int, y_count <= 0x1_0000_0000int;
                assert((1 + 2 * yi) * x_count <= (1 + 2 * 0x1_0000_0000int) * 0x1_0000_0000int)
                    by (nonlinear_arith)
                    requires 0 <= yi <= y_count, 0 <= x_count, x_count <= 0x1_0000_0000int, y_count <= 0x1_0000_0000int;
                assert(0 <= (1 + 2 * xi) * y_count) by (nonlinear_arith)
                    requires 0 <= xi, 0 <= y_count;
                assert(0 <= (1 + 2 * yi) * x_count) by (nonlinear_arith)
                    requires 0 <= yi, 0 <= x_count;
            }
            let c: i128 = (1 + 2 * xi as i128) * (y_count as i128) - (1 + 2 * yi as i128) * (
            x_count as i128);
            let ghost old_cover = cover@;
            let ghost oxi = xi as int;
            let ghost oyi = yi as int;
            if c >= 0 {
                yi = yi + 1;
                cursor.y = cursor.y + y_step;
            }
            if c <= 0 {
                xi = xi + 1;
                cursor.x = cursor.x + x_step;
            }
            cover.push(cursor);
            proof {
                let rest = walk(from@, xs, ys, x_count as int, y_count as int, oxi, oyi);
                assert(rest == seq![cursor@] + walk(
                    from@,
                    xs,
                    ys,
                    x_count as int,
                    y_count as int,
                    xi as int,
                    yi as int,
                ));
                assert(points_view(cover@) =~= points_view(old_cover) + seq![cursor@]);
                assert(cursor != from);
                assert forall|k: int| 1 <= k < cover@.len() implies #[trigger] cover@[k] != from by {
                    if k < cover@.len() - 1 {
                        assert(cover@[k] == old_cover[k]);
                    }
                }
                assert(points_view(cover@) + walk(
                    from@,
                    xs,
                    ys,
                    x_count as int,
                    y_count as int,
                    xi as int,
                    yi as int,
                ) =~= points_view(old_cover) + rest);
                assert forall|k: int| 0 <= k < cover@.len() - 1 implies touching(
                    #[trigger] cover@[k]@,
                    cover@[k + 1]@,
                ) by {
                    if k < cover@.len() - 2 {
                        assert(cover@[k] == old_cover[k]);
                        assert(cover@[k + 1] == old_cover[k + 1]);
                    }
                }
            }
        }
        proof {
            assert(walk(from@, xs, ys, x_count as int, y_count as int, xi as int, yi as int)
                =~= Seq::empty());
            assert(points_view(cover@) =~= whole);
        }
        cover
    }
}

} // verus!
