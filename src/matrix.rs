use vstd::prelude::*;

verus! {

/// A dense, row-major `width × height` grid of small values.
///
/// Every cell `(x, y)` with `0 <= x < width` and `0 <= y < height` lives at
/// index `y * width + x`; anything else is out of bounds and reads as absent.
pub struct Matrix<T> {
    width: usize,
    height: usize,
    data: Vec<T>,
}

/// The row-major index of `(x, y)` in a grid `w` cells wide.
pub open spec fn index_of(w: int, x: int, y: int) -> int {
    y * w + x
}

/// Row-major indices of in-bounds cells lie inside the grid.
pub proof fn lemma_index_in_range(w: int, h: int, x: int, y: int)
    requires
        0 <= x < w,
        0 <= y < h,
    ensures
        0 <= index_of(w, x, y) < w * h,
{
    assert(y * w <= (h - 1) * w) by (nonlinear_arith)
        requires 0 <= y < h, 0 <= w;
    assert((h - 1) * w + w == h * w) by (nonlinear_arith);
    assert(0 <= y * w) by (nonlinear_arith)
        requires 0 <= y, 0 <= w;
}

/// Distinct in-bounds cells have distinct row-major indices.
pub proof fn lemma_index_injective(w: int, x1: int, y1: int, x2: int, y2: int)
    requires
        0 <= x1 < w,
        0 <= x2 < w,
        0 <= y1,
        0 <= y2,
        index_of(w, x1, y1) == index_of(w, x2, y2),
    ensures
        x1 == x2 && y1 == y2,
{
    if y1 < y2 {
        assert(y1 * w + w <= y2 * w) by (nonlinear_arith)
            requires y1 < y2, 0 <= w;
    } else if y2 < y1 {
        assert(y2 * w + w <= y1 * w) by (nonlinear_arith)
            requires y2 < y1, 0 <= w;
    }
}

/// The cell that row-major index `i` stands for in a grid `w` cells wide.
pub open spec fn coord_of(w: int, i: int) -> (int, int) {
    (i % w, i / w)
}

impl<T> Matrix<T> {
    /// Number of columns.
    pub closed spec fn w(&self) -> int {
        self.width as int
    }

    /// Number of rows.
    pub closed spec fn h(&self) -> int {
        self.height as int
    }

    /// All cells, in row-major order.
    pub closed spec fn cells(&self) -> Seq<T> {
        self.data@
    }

    /// The grid holds exactly `width * height` cells, and its sides fit
    /// the `i32` coordinates that address it.
    pub open spec fn wf(&self) -> bool {
        &&& self.cells().len() == self.w() * self.h()
        &&& self.w() * self.h() <= usize::MAX
        &&& 0 <= self.w() <= i32::MAX
        &&& 0 <= self.h() <= i32::MAX
    }

    pub open spec fn in_bounds(&self, x: int, y: int) -> bool {
        0 <= x < self.w() && 0 <= y < self.h()
    }

    /// The value stored at an in-bounds cell.
    pub open spec fn at(&self, x: int, y: int) -> T {
        self.cells()[index_of(self.w(), x, y)]
    }

    /// What `get` returns: the value of an in-bounds cell, else nothing.
    pub open spec fn get_spec(&self, x: int, y: int) -> Option<T> {
        if self.in_bounds(x, y) {
            Some(self.at(x, y))
        } else {
            None
        }
    }

    /// The cells after `set(x, y, v)`: one cell replaced, or none out of bounds.
    pub open spec fn cells_after_set(&self, x: int, y: int, v: T) -> Seq<T> {
        if self.in_bounds(x, y) {
            self.cells().update(index_of(self.w(), x, y), v)
        } else {
            self.cells()
        }
    }

    /// Same shape, and every in-bounds cell but `(x, y)` keeps its value.
    pub open spec fn same_except(&self, other: &Self, x: int, y: int) -> bool {
        &&& self.w() == other.w()
        &&& self.h() == other.h()
        &&& forall|a: int, b: int|
            #![trigger self.at(a, b)]
            self.in_bounds(a, b) && !(a == x && b == y) ==> self.at(a, b) == other.at(a, b)
    }

    pub fn width(&self) -> (r: usize)
        ensures
            r == self.w(),
    {
        self.width
    }

    pub fn height(&self) -> (r: usize)
        ensures
            r == self.h(),
    {
        self.height
    }

    /// Number of cells.
    pub fn size(&self) -> (r: usize)
        requires
            self.wf(),
        ensures
            r == self.w() * self.h(),
    {
        self.data.len()
    }

    /// Bounds check for `i32` coordinates.
    pub fn contains(&self, x: i32, y: i32) -> (r: bool)
        ensures
            r == self.in_bounds(x as int, y as int),
    {
        0 <= x && (x as usize) < self.width && 0 <= y && (y as usize) < self.height
    }

    /// The row-major index of `(x, y)`, or `None` out of bounds.
    pub fn to_index(&self, x: i32, y: i32) -> (r: Option<usize>)
        requires
            self.wf(),
        ensures
            self.in_bounds(x as int, y as int) ==> r == Some(
                index_of(self.w(), x as int, y as int) as usize,
            ),
            !self.in_bounds(x as int, y as int) ==> r is None,
            r matches Some(i) ==> i < self.w() * self.h(),
    {
        if self.contains(x, y) {
            proof {
                lemma_index_in_range(self.w(), self.h(), x as int, y as int);
                assert(0 <= (y as int) * self.w() <= index_of(self.w(), x as int, y as int));
            }
            Some(y as usize * self.width + x as usize)
        } else {
            None
        }
    }

    /// The cell that the row-major index `i` stands for.
    pub fn to_coord(&self, i: usize) -> (r: (i32, i32))
        requires
            self.wf(),
            i < self.w() * self.h(),
        ensures
            (r.0 as int, r.1 as int) == coord_of(self.w(), i as int),
            self.in_bounds(r.0 as int, r.1 as int),
            index_of(self.w(), r.0 as int, r.1 as int) == i,
    {
        proof {
            assert(self.w() > 0) by (nonlinear_arith)
                requires i < self.w() * self.h(), 0 <= self.h(), 0 <= i;
            vstd::arithmetic::div_mod::lemma_fundamental_div_mod(i as int, self.w());
            vstd::arithmetic::div_mod::lemma_div_pos_is_pos(i as int, self.w());
            vstd::arithmetic::div_mod::lemma_mod_pos_bound(i as int, self.w());
            if (i as int) / self.w() >= self.h() {
                assert(self.w() * ((i as int) / self.w()) >= self.w() * self.h()) by (nonlinear_arith)
                    requires (i as int) / self.w() >= self.h(), self.w() > 0;
            }
        }
        ((i % self.width) as i32, (i / self.width) as i32)
    }
}

impl<T: Copy> Matrix<T> {
    /// A `width × height` grid with every cell set to `value`.
    pub fn new(width: usize, height: usize, value: T) -> (r: Self)
        requires
            width * height <= usize::MAX,
            width <= i32::MAX,
            height <= i32::MAX,
        ensures
            r.wf(),
            r.w() == width,
            r.h() == height,
            forall|i: int| 0 <= i < r.cells().len() ==> r.cells()[i] == value,
    {
        let n: usize = width * height;
        let mut data: Vec<T> = Vec::new();
        let mut k: usize = 0;
        while k < n
            invariant
                k <= n,
                data@.len() == k,
                forall|i: int| 0 <= i < k ==> data@[i] == value,
            decreases n - k,
        {
            data.push(value);
            k = k + 1;
        }
        Matrix { width, height, data }
    }

    /// The value at `(x, y)`, or `None` out of bounds.
    pub fn get(&self, x: i32, y: i32) -> (r: Option<T>)
        requires
            self.wf(),
        ensures
            r == self.get_spec(x as int, y as int),
    {
        proof {
            if self.in_bounds(x as int, y as int) {
                lemma_index_in_range(self.w(), self.h(), x as int, y as int);
            }
        }
        match self.to_index(x, y) {
            Some(i) => Some(self.data[i]),
            None => None,
        }
    }

    /// Overwrites `(x, y)` and returns its index; out of bounds it changes
    /// nothing and returns `None`.
    pub fn set(&mut self, x: i32, y: i32, value: T) -> (r: Option<usize>)
        requires
            old(self).wf(),
        ensures
            final(self).wf(),
            final(self).w() == old(self).w(),
            final(self).h() == old(self).h(),
            final(self).cells() == old(self).cells_after_set(x as int, y as int, value),
            old(self).in_bounds(x as int, y as int) ==> {
                &&& r == Some(index_of(old(self).w(), x as int, y as int) as usize)
                &&& final(self).cells() == old(self).cells().update(
                    index_of(old(self).w(), x as int, y as int),
                    value,
                )
                &&& final(self).at(x as int, y as int) == value
                &&& final(self).same_except(old(self), x as int, y as int)
            },
            !old(self).in_bounds(x as int, y as int) ==> r is None && *final(self) == *old(self),
    {
        match self.to_index(x, y) {
            Some(i) => {
                self.data.set(i, value);
                proof {
                    lemma_index_in_range(self.w(), self.h(), x as int, y as int);
                    assert forall|a: int, b: int|
                        #![trigger self.at(a, b)]
                        self.in_bounds(a, b) && !(a == x && b == y) implies self.at(a, b)
                        == old(self).at(a, b) by {
                        lemma_index_in_range(self.w(), self.h(), a, b);
                        if index_of(self.w(), a, b) == i {
                            lemma_index_injective(self.w(), a, b, x as int, y as int);
                        }
                    }
                }
                Some(i)
            },
            None => None,
        }
    }

    /// Sets every cell to `value`.
    pub fn fill(&mut self, value: T)
        requires
            old(self).wf(),
        ensures
            final(self).wf(),
            final(self).w() == old(self).w(),
            final(self).h() == old(self).h(),
            forall|i: int| 0 <= i < final(self).cells().len() ==> final(self).cells()[i] == value,
    {
        let n: usize = self.data.len();
        let mut k: usize = 0;
        while k < n
            invariant
                k <= n,
                n == self.data@.len(),
                self.width == old(self).width,
                self.height == old(self).height,
                self.data@.len() == old(self).data@.len(),
                forall|i: int| 0 <= i < k ==> self.data@[i] == value,
            decreases n - k,
        {
            self.data.set(k, value);
            k = k + 1;
        }
    }
}

/// Writing an in-bounds cell and reading it back gives the value written.
pub proof fn law_set_then_get<T>(before: Matrix<T>, after: Matrix<T>, x: int, y: int, v: T)
    requires
        before.wf(),
        before.in_bounds(x, y),
        after.w() == before.w(),
        after.h() == before.h(),
        after.cells() == before.cells_after_set(x, y, v),
    ensures
        after.get_spec(x, y) == Some(v),
{
    lemma_index_in_range(before.w(), before.h(), x, y);
}

/// Out of bounds, reading gives nothing and writing changes nothing.
pub proof fn law_out_of_bounds<T>(m: Matrix<T>, x: int, y: int, v: T)
    requires
        m.wf(),
        !m.in_bounds(x, y),
    ensures
        m.get_spec(x, y) is None,
        m.cells_after_set(x, y, v) == m.cells(),
{
}

/// The index of an in-bounds cell converts back to that cell.
pub proof fn law_index_round_trip(w: int, h: int, x: int, y: int)
    requires
        0 <= x < w,
        0 <= y < h,
    ensures
        coord_of(w, index_of(w, x, y)) == (x, y),
{
    vstd::arithmetic::div_mod::lemma_fundamental_div_mod_converse(index_of(w, x, y), w, y, x);
}

} // verus!
