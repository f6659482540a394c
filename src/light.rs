use vstd::prelude::*;
use crate::circle::{Circle, circle_fits, on_border, border_cells, row_cells, row_offsets, far_leg};
use crate::line::{Line, line_cells, points_view, lemma_walk_avoids_start, step_towards, abs, walk};
use crate::map::{TileMap, FULL_LIGHT};
use crate::point::Point;

verus! {

/// The reach of a light source, in tenths of a tile.
pub const LIGHT_RADIUS_TENTHS: u32 = 95;

/// The light given to the cell at position `i` of a ray of `len` cells:
/// full at the source, falling linearly towards zero at the far end.
pub open spec fn falloff(i: int, len: int) -> int {
    FULL_LIGHT * (len - i) / len
}

/// Whether some ray from `center` to a cell of the outline of radius
/// `t / 10` passes through `c` at a position whose falloff is `v`.
pub open spec fn lit_by_ray(center: (int, int), t: int, c: (int, int), v: int) -> bool {
    exists|b: (int, int), i: int|
        on_border(center, t, b) && 0 <= i < line_cells(center, b).len() && #[trigger] line_cells(
            center,
            b,
        )[i] == c && v == falloff(i, line_cells(center, b).len() as int)
}

/// The light that the first `n` cells of the ray `cells` leave on `c`: the
/// falloff of the last of them that is `c`, or none if none is.
pub open spec fn ray_value(cells: Seq<(int, int)>, n: int, c: (int, int)) -> Option<int>
    decreases n,
{
    if n <= 0 {
        None
    } else if cells[n - 1] == c {
        Some(falloff(n - 1, cells.len() as int))
    } else {
        ray_value(cells, n - 1, c)
    }
}

/// The light on `c` after rays from `center` to each of `targets`, in order,
/// starting from `before`: the value of the last ray through `c`, or
/// `before` if no ray passes it.
pub open spec fn light_after(center: (int, int), targets: Seq<(int, int)>, c: (int, int), before: int) -> int
    decreases targets.len(),
{
    if targets.len() == 0 {
        before
    } else {
        let cells = line_cells(center, targets.last());
        match ray_value(cells, cells.len() as int, c) {
            Some(v) => v,
            None => light_after(center, targets.drop_last(), c, before),
        }
    }
}

/// The light on `c` after one source at `center` with radius `t / 10` has
/// cast its rays over a cell that held `before`.
pub open spec fn cast_spec(center: (int, int), t: int, c: (int, int), before: int) -> int {
    light_after(center, border_cells(center, t), c, before)
}

/// The light on `c` after a whole lighting pass: darkness, then each of
/// `sources` in order with radius `t / 10`.
pub open spec fn pass_light(sources: Seq<(int, int)>, t: int, c: (int, int)) -> int
    decreases sources.len(),
{
    if sources.len() == 0 {
        0
    } else {
        cast_spec(sources.last(), t, c, pass_light(sources.drop_last(), t, c))
    }
}

/// The light at position `i` of a ray of `len` cells.
pub fn light_level(i: usize, len: usize) -> (r: u32)
    requires
        i < len,
    ensures
        r == falloff(i as int, len as int),
{
    proof {
        assert(FULL_LIGHT * (len - i) <= FULL_LIGHT * len) by (nonlinear_arith)
            requires i < len;
        assert(FULL_LIGHT * (len - i) / (len as int) <= FULL_LIGHT) by (nonlinear_arith)
            requires i < len, 0 < len;
        assert(0 <= FULL_LIGHT * (len - i) / (len as int)) by (nonlinear_arith)
            requires i < len, 0 < len;
    }
    ((FULL_LIGHT as u128 * (len - i) as u128) / len as u128) as u32
}

/// Along one ray the light starts full at the source and never grows with
/// distance, and it never exceeds full light.
pub proof fn law_falloff_decreasing(i: int, j: int, len: int)
    requires
        0 <= i <= j < len,
    ensures
        falloff(0, len) == FULL_LIGHT,
        falloff(j, len) <= falloff(i, len) <= FULL_LIGHT,
        0 <= falloff(j, len),
{
    assert(FULL_LIGHT * (len - j) <= FULL_LIGHT * (len - i)) by (nonlinear_arith)
        requires i <= j;
    vstd::arithmetic::div_mod::lemma_div_is_ordered(FULL_LIGHT * (len - j), FULL_LIGHT * (len - i), len);
    vstd::arithmetic::div_mod::lemma_div_is_ordered(FULL_LIGHT * (len - i), FULL_LIGHT * len, len);
    vstd::arithmetic::div_mod::lemma_div_multiples_vanish(FULL_LIGHT as int, len);
    assert(FULL_LIGHT * len == len * FULL_LIGHT) by (nonlinear_arith);
    vstd::arithmetic::div_mod::lemma_div_pos_is_pos(FULL_LIGHT * (len - j), len);
}

/// Light left by a ray is never negative and never more than full light,
/// so the source cell, which every ray lights fully, is the brightest.
pub proof fn law_ray_light_bounded(center: (int, int), t: int, c: (int, int), v: int)
    requires
        lit_by_ray(center, t, c, v),
    ensures
        0 <= v <= FULL_LIGHT,
{
    let (b, i) = choose|b: (int, int), i: int|
        on_border(center, t, b) && 0 <= i < line_cells(center, b).len() && #[trigger] line_cells(
            center,
            b,
        )[i] == c && v == falloff(i, line_cells(center, b).len() as int);
    law_falloff_decreasing(i, i, line_cells(center, b).len() as int);
}

/// A ray lights its own first cell, its source, fully.
proof fn lemma_ray_value_source(from: (int, int), to: (int, int), n: int)
    requires
        1 <= n <= line_cells(from, to).len(),
    ensures
        ray_value(line_cells(from, to), n, from) == Some(FULL_LIGHT as int),
    decreases n,
{
    let cells = line_cells(from, to);
    let xs = step_towards(from.0, to.0);
    let ys = step_towards(from.1, to.1);
    let w = walk(from, xs, ys, abs(to.0 - from.0), abs(to.1 - from.1), 0, 0);
    assert(cells == seq![from] + w);
    if n == 1 {
        law_falloff_decreasing(0, 0, cells.len() as int);
    } else {
        lemma_walk_avoids_start(from, xs, ys, abs(to.0 - from.0), abs(to.1 - from.1), 0, 0);
        assert(cells[n - 1] == w[n - 2]);
        lemma_ray_value_source(from, to, n - 1);
    }
}

/// Whatever a ray leaves on a cell lies between dark and full light.
proof fn lemma_ray_value_bounded(cells: Seq<(int, int)>, n: int, c: (int, int))
    requires
        n <= cells.len(),
    ensures
        ray_value(cells, n, c) matches Some(v) ==> 0 <= v <= FULL_LIGHT,
    decreases n,
{
    if n > 0 {
        if cells[n - 1] == c {
            law_falloff_decreasing(n - 1, n - 1, cells.len() as int);
        } else {
            lemma_ray_value_bounded(cells, n - 1, c);
        }
    }
}

/// Rays never leave a cell darker than dark or brighter than full, if it
/// started that way.
pub proof fn law_light_after_bounded(center: (int, int), targets: Seq<(int, int)>, c: (int, int), before: int)
    requires
        0 <= before <= FULL_LIGHT,
    ensures
        0 <= light_after(center, targets, c, before) <= FULL_LIGHT,
    decreases targets.len(),
{
    if targets.len() > 0 {
        let cells = line_cells(center, targets.last());
        lemma_ray_value_bounded(cells, cells.len() as int, c);
        law_light_after_bounded(center, targets.drop_last(), c, before);
    }
}

/// A cell that no ray passes keeps the light it had.
pub proof fn law_light_after_unlit(center: (int, int), targets: Seq<(int, int)>, c: (int, int), before: int)
    requires
        forall|k: int, i: int|
            0 <= k < targets.len() && 0 <= i < line_cells(center, targets[k]).len() ==> #[trigger] line_cells(
                center,
                targets[k],
            )[i] != c,
    ensures
        light_after(center, targets, c, before) == before,
    decreases targets.len(),
{
    if targets.len() > 0 {
        let cells = line_cells(center, targets.last());
        assert forall|n: int| 0 <= n <= cells.len() implies ray_value(cells, n, c) is None by {
            lemma_ray_value_none(cells, n, c);
        }
        let rest = targets.drop_last();
        assert forall|k: int, i: int|
            0 <= k < rest.len() && 0 <= i < line_cells(center, rest[k]).len() implies #[trigger] line_cells(
                center,
                rest[k],
            )[i] != c by {
            assert(rest[k] == targets[k]);
        }
        law_light_after_unlit(center, rest, c, before);
    }
}

proof fn lemma_ray_value_none(cells: Seq<(int, int)>, n: int, c: (int, int))
    requires
        n <= cells.len(),
        forall|i: int| 0 <= i < cells.len() ==> cells[i] != c,
    ensures
        ray_value(cells, n, c) is None,
    decreases n,
{
    if n > 0 {
        lemma_ray_value_none(cells, n - 1, c);
    }
}

/// A source lights its own cell fully, whatever its radius, and leaves
/// every cell between dark and full light: its own cell is the brightest.
pub proof fn law_cast_source_full(center: (int, int), t: int, c: (int, int), before: int)
    requires
        t >= 0,
        0 <= before <= FULL_LIGHT,
    ensures
        cast_spec(center, t, center, before) == FULL_LIGHT,
        0 <= cast_spec(center, t, c, before) <= FULL_LIGHT,
{
    law_light_after_bounded(center, border_cells(center, t), c, before);
    let row = row_cells(center, far_leg(t, 0, t / 10), 0);
    assert(0 * 0 == 0);
    assert(border_cells(center, t) == row + crate::circle::rows_from(center, t, 1));
    assert(row.len() == row_offsets(far_leg(t, 0, t / 10), 0).len());
    assert(row.len() >= 1);
    let targets = border_cells(center, t);
    let cells = line_cells(center, targets.last());
    lemma_ray_value_source(center, targets.last(), cells.len() as int);
}

impl TileMap {
    /// Casts rays from `center` to every cell of the outline of radius
    /// `radius_tenths / 10` and lights the cells of each ray by their
    /// falloff, a later ray overwriting an earlier one. Rays pass through
    /// walls.
    pub fn cast_light(&mut self, center: Point, radius_tenths: u32)
        requires
            old(self).wf(),
            circle_fits(center, radius_tenths as int),
        ensures
            final(self).wf(),
            final(self).tiles == old(self).tiles,
            final(self).occupied == old(self).occupied,
            final(self).light.w() == old(self).light.w(),
            final(self).light.h() == old(self).light.h(),
            final(self).in_bounds(center.x as int, center.y as int) ==> final(self).lit(
                center.x as int,
                center.y as int,
            ) == FULL_LIGHT,
            forall|a: int, b: int|
                #![trigger final(self).lit(a, b)]
                final(self).in_bounds(a, b) ==> final(self).lit(a, b) as int == cast_spec(
                    center@,
                    radius_tenths as int,
                    (a, b),
                    old(self).lit(a, b) as int,
                ),
            forall|a: int, b: int|
                #![trigger final(self).lit(a, b)]
                final(self).in_bounds(a, b) ==> final(self).lit(a, b) == old(self).lit(a, b)
                    || lit_by_ray(center@, radius_tenths as int, (a, b), final(self).lit(a, b) as int),
    {
        let ghost t = radius_tenths as int;
        let circle = Circle::new(center, radius_tenths);
        let border = circle.grid_border();
        let ghost bv = points_view(border@);
        proof {
            let m = t / 10;
            assert(100 * (m * m) <= t * t) by (nonlinear_arith)
                requires 0 <= 10 * m <= t;
            assert(t * t < 100 * ((m + 1) * (m + 1))) by (nonlinear_arith)
                requires 0 <= t < 10 * m + 10;
            let p = (center.x - m, center.y as int);
            assert(crate::circle::near_offset(center@, p) == 0);
            assert(crate::circle::far_offset(center@, p) == m);
            assert(on_border(center@, t, p));
        }
        let mut k: usize = 0;
        while k < border.len()
            invariant
                self.wf(),
                self.tiles == old(self).tiles,
                self.occupied == old(self).occupied,
                self.light.w() == old(self).light.w(),
                self.light.h() == old(self).light.h(),
                t == radius_tenths,
                border@.len() > 0,
                k <= border@.len(),
                bv == points_view(border@),
                bv == border_cells(center@, t),
                forall|a: int, b: int|
                    #![trigger self.lit(a, b)]
                    self.in_bounds(a, b) ==> self.lit(a, b) as int == light_after(
                        center@,
                        bv.take(k as int),
                        (a, b),
                        old(self).lit(a, b) as int,
                    ),
                forall|j: int| 0 <= j < border@.len() ==> on_border(center@, t, #[trigger] border@[j]@),
                k > 0 && self.in_bounds(center.x as int, center.y as int) ==> self.lit(
                    center.x as int,
                    center.y as int,
                ) == FULL_LIGHT,
                forall|a: int, b: int|
                    #![trigger self.lit(a, b)]
                    self.in_bounds(a, b) ==> self.lit(a, b) == old(self).lit(a, b) || lit_by_ray(
                        center@,
                        t,
                        (a, b),
                        self.lit(a, b) as int,
                    ),
            decreases border@.len() - k,
        {
            let target = border[k];
            let ray = Line::new(center, target).to_grid();
            let ghost cells = line_cells(center@, target@);
            let n = ray.len();
            let mut i: usize = 0;
            while i < n
                invariant
                    self.wf(),
                    self.tiles == old(self).tiles,
                    self.occupied == old(self).occupied,
                    self.light.w() == old(self).light.w(),
                    self.light.h() == old(self).light.h(),
                    t == radius_tenths,
                    on_border(center@, t, target@),
                    cells == line_cells(center@, target@),
                    points_view(ray@) == cells,
                    n == ray@.len(),
                    ray@[0] == center,
                    k < border@.len(),
                    bv == points_view(border@),
                    target@ == bv[k as int],
                    forall|a: int, b: int|
                        #![trigger self.lit(a, b)]
                        self.in_bounds(a, b) ==> self.lit(a, b) as int == match ray_value(
                            cells,
                            i as int,
                            (a, b),
                        ) {
                            Some(v) => v,
                            None => light_after(center@, bv.take(k as int), (a, b), old(self).lit(a, b) as int),
                        },
                    forall|j: int| 1 <= j < ray@.len() ==> #[trigger] ray@[j] != center,
                    i <= n,
                    (k > 0 || i > 0) && self.in_bounds(center.x as int, center.y as int) ==> self.lit(
                        center.x as int,
                        center.y as int,
                    ) == FULL_LIGHT,
                    forall|a: int, b: int|
                        #![trigger self.lit(a, b)]
                        self.in_bounds(a, b) ==> self.lit(a, b) == old(self).lit(a, b) || lit_by_ray(
                            center@,
                            t,
                            (a, b),
                            self.lit(a, b) as int,
                        ),
                decreases n - i,
            {
                let cell = ray[i];
                let level = light_level(i, n);
                let ghost before = *self;
                self.set_light(cell.x, cell.y, level);
                proof {
                    assert(cells[i as int] == cell@);
                    assert(cells.len() == n);
                    assert forall|a: int, b: int|
                        #![trigger self.lit(a, b)]
                        self.in_bounds(a, b) implies self.lit(a, b) as int == match ray_value(
                            cells,
                            i + 1,
                            (a, b),
                        ) {
                            Some(v) => v,
                            None => light_after(center@, bv.take(k as int), (a, b), old(self).lit(a, b) as int),
                        } by {
                        if !(a == cell.x && b == cell.y) {
                            assert(self.lit(a, b) == before.lit(a, b));
                        }
                    }
                    assert forall|a: int, b: int|
                        #![trigger self.lit(a, b)]
                        self.in_bounds(a, b) implies self.lit(a, b) == old(self).lit(a, b)
                        || lit_by_ray(center@, t, (a, b), self.lit(a, b) as int) by {
                        if a == cell.x && b == cell.y {
                            assert(line_cells(center@, target@)[i as int] == (a, b));
                        } else {
                            assert(self.lit(a, b) == before.lit(a, b));
                        }
                    }
                    if i > 0 {
                        assert(ray@[i as int] != center);
                        if self.in_bounds(center.x as int, center.y as int) {
                            assert(self.lit(center.x as int, center.y as int) == before.lit(
                                center.x as int,
                                center.y as int,
                            ));
                        }
                    } else {
                        law_falloff_decreasing(0, 0, n as int);
                    }
                }
                i = i + 1;
            }
            proof {
                assert(bv.take(k + 1).last() == bv[k as int]);
                assert(bv.take(k + 1).drop_last() =~= bv.take(k as int));
                assert(cells.len() == n);
            }
            k = k + 1;
        }
        proof {
            assert(bv.take(bv.len() as int) =~= bv);
        }
    }
}

/// One lighting pass: everything goes dark, then each source casts its
/// light with radius `LIGHT_RADIUS_TENTHS`, in order.
pub fn light_system(map: &mut TileMap, sources: &Vec<Point>)
    requires
        old(map).wf(),
        forall|i: int| 0 <= i < sources@.len() ==> circle_fits(#[trigger] sources@[i], LIGHT_RADIUS_TENTHS as int),
    ensures
        final(map).wf(),
        final(map).tiles == old(map).tiles,
        final(map).occupied == old(map).occupied,
        final(map).light.w() == old(map).light.w(),
        final(map).light.h() == old(map).light.h(),
        forall|a: int, b: int|
            #![trigger final(map).lit(a, b)]
            final(map).in_bounds(a, b) ==> final(map).lit(a, b) as int == pass_light(
                points_view(sources@),
                LIGHT_RADIUS_TENTHS as int,
                (a, b),
            ),
        sources@.len() > 0 && final(map).in_bounds(sources@.last().x as int, sources@.last().y as int)
            ==> final(map).lit(sources@.last().x as int, sources@.last().y as int) == FULL_LIGHT,
        forall|a: int, b: int|
            #![trigger final(map).lit(a, b)]
            final(map).in_bounds(a, b) ==> final(map).lit(a, b) == 0 || exists|s: int|
                0 <= s < sources@.len() && lit_by_ray(
                    #[trigger] sources@[s]@,
                    LIGHT_RADIUS_TENTHS as int,
                    (a, b),
                    final(map).lit(a, b) as int,
                ),
{
    map.darken_all();
    let ghost sv = points_view(sources@);
    let mut s: usize = 0;
    proof {
        assert(sv.take(0) =~= Seq::<(int, int)>::empty());
    }
    while s < sources.len()
        invariant
            map.wf(),
            map.tiles == old(map).tiles,
            map.occupied == old(map).occupied,
            map.light.w() == old(map).light.w(),
            map.light.h() == old(map).light.h(),
            s <= sources@.len(),
            sv == points_view(sources@),
            forall|a: int, b: int|
                #![trigger map.lit(a, b)]
                map.in_bounds(a, b) ==> map.lit(a, b) as int == pass_light(
                    sv.take(s as int),
                    LIGHT_RADIUS_TENTHS as int,
                    (a, b),
                ),
            forall|i: int| 0 <= i < sources@.len() ==> circle_fits(#[trigger] sources@[i], LIGHT_RADIUS_TENTHS as int),
            s > 0 && map.in_bounds(sources@[s - 1].x as int, sources@[s - 1].y as int) ==> map.lit(
                sources@[s - 1].x as int,
                sources@[s - 1].y as int,
            ) == FULL_LIGHT,
            forall|a: int, b: int|
                #![trigger map.lit(a, b)]
                map.in_bounds(a, b) ==> map.lit(a, b) == 0 || exists|j: int|
                    0 <= j < s && lit_by_ray(
                        #[trigger] sources@[j]@,
                        LIGHT_RADIUS_TENTHS as int,
                        (a, b),
                        map.lit(a, b) as int,
                    ),
        decreases sources@.len() - s,
    {
        let src = sources[s];
        let ghost before = *map;
        map.cast_light(src, LIGHT_RADIUS_TENTHS);
        proof {
            assert(sv.take(s + 1).last() == src@);
            assert(sv.take(s + 1).drop_last() =~= sv.take(s as int));
            assert forall|a: int, b: int|
                #![trigger map.lit(a, b)]
                map.in_bounds(a, b) implies map.lit(a, b) as int == pass_light(
                    sv.take(s + 1),
                    LIGHT_RADIUS_TENTHS as int,
                    (a, b),
                ) by {
                assert(before.lit(a, b) as int == pass_light(sv.take(s as int), LIGHT_RADIUS_TENTHS as int, (a, b)));
            }
            assert forall|a: int, b: int|
                #![trigger map.lit(a, b)]
                map.in_bounds(a, b) implies map.lit(a, b) == 0 || exists|j: int|
                    0 <= j < s + 1 && lit_by_ray(
                        #[trigger] sources@[j]@,
                        LIGHT_RADIUS_TENTHS as int,
                        (a, b),
                        map.lit(a, b) as int,
                    ) by {
                if map.lit(a, b) == before.lit(a, b) {
                    assert(before.lit(a, b) == 0 || exists|j: int|
                        0 <= j < s && lit_by_ray(
                            #[trigger] sources@[j]@,
                            LIGHT_RADIUS_TENTHS as int,
                            (a, b),
                            before.lit(a, b) as int,
                        ));
                } else {
                    assert(lit_by_ray(sources@[s as int]@, LIGHT_RADIUS_TENTHS as int, (a, b), map.lit(a, b) as int));
                }
            }
        }
        s = s + 1;
    }
    proof {
        assert(sv.take(sv.len() as int) =~= sv);
    }
}

} // verus!
