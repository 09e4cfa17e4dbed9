//! A dense three-dimensional array stored plane by plane, row by row.
use crate::array2d::{Array2D, Coord2D};
use crate::index::{
    lemma_index2_injective, lemma_index2_order, lemma_index3_bound, lemma_index3_div_mod,
    lemma_index3_injective,
    lemma_index3_nested,
};
use vstd::prelude::*;

verus! {

/// A cell of a three-dimensional array: column `x`, row `y`, plane `z`.
#[derive(Clone, Copy, PartialEq, Eq, Hash, Debug, Structural)]
pub struct Coord3D {
    pub x: usize,
    pub y: usize,
    pub z: usize,
}

impl Coord3D {
    pub fn new(x: usize, y: usize, z: usize) -> (r: Self)
        ensures
            r == (Coord3D { x, y, z }),
    {
        Coord3D { x, y, z }
    }
}

impl From<(usize, usize, usize)> for Coord3D {
    fn from(coord: (usize, usize, usize)) -> (r: Self) {
        Coord3D::new(coord.0, coord.1, coord.2)
    }
}

impl vstd::std_specs::convert::FromSpecImpl<(usize, usize, usize)> for Coord3D {
    open spec fn obeys_from_spec() -> bool {
        true
    }

    open spec fn from_spec(coord: (usize, usize, usize)) -> Coord3D {
        Coord3D { x: coord.0, y: coord.1, z: coord.2 }
    }
}

impl From<[usize; 3]> for Coord3D {
    fn from(coord: [usize; 3]) -> (r: Self) {
        Coord3D::new(coord[0], coord[1], coord[2])
    }
}

impl vstd::std_specs::convert::FromSpecImpl<[usize; 3]> for Coord3D {
    open spec fn obeys_from_spec() -> bool {
        true
    }

    open spec fn from_spec(coord: [usize; 3]) -> Coord3D {
        Coord3D { x: coord@[0], y: coord@[1], z: coord@[2] }
    }
}

/// The coordinate of the `i`-th cell, in row-major order, of an array `w`
/// cells wide and `h` cells high.
pub open spec fn coord_at(w: nat, h: nat, i: int) -> Coord3D {
    let row = i / (w as int);
    Coord3D {
        x: (i % (w as int)) as usize,
        y: (row % (h as int)) as usize,
        z: (row / (h as int)) as usize,
    }
}

/// The value of cell `c` in a row-major sequence of planes `w` by `h` cells.
pub open spec fn flat_cell<T>(s: Seq<T>, w: nat, h: nat, c: Coord3D) -> T {
    s[c.x + w * c.y + w * h * c.z]
}

/// `c` lies in plane `dest.z`, in the `w` by `h` rectangle whose top-left
/// cell is `(dest.x, dest.y)`.
pub open spec fn in_footprint(c: Coord3D, dest: Coord3D, w: nat, h: nat) -> bool {
    c.z == dest.z && dest.x <= c.x < dest.x + w && dest.y <= c.y < dest.y + h
}

/// The cell of the footprint's source that lands on `c`.
pub open spec fn source_cell(c: Coord3D, dest: Coord3D) -> Coord2D {
    Coord2D { x: (c.x - dest.x) as usize, y: (c.y - dest.y) as usize }
}

/// A `width` by `height` by `depth` grid of values, stored plane by plane,
/// row by row.
#[derive(Clone)]
pub struct Array3D<T> {
    width: usize,
    height: usize,
    depth: usize,
    data: Vec<T>,
}

impl<T> Array3D<T> {
    /// The number of columns.
    pub closed spec fn w(&self) -> nat {
        self.width as nat
    }

    /// The number of rows in a plane.
    pub closed spec fn h(&self) -> nat {
        self.height as nat
    }

    /// The number of planes.
    pub closed spec fn d(&self) -> nat {
        self.depth as nat
    }

    /// All cells, plane by plane, row by row.
    pub closed spec fn cells(&self) -> Seq<T> {
        self.data@
    }

    /// The backing sequence holds exactly one value per cell.
    pub open spec fn wf(&self) -> bool {
        &&& self.cells().len() == self.w() * self.h() * self.d()
        &&& self.w() * self.h() <= usize::MAX
        &&& self.w() * self.h() * self.d() <= usize::MAX
    }

    /// `c` names a cell of this array.
    pub open spec fn valid(&self, c: Coord3D) -> bool {
        c.x < self.w() && c.y < self.h() && c.z < self.d()
    }

    /// Where cell `c` stands in the backing sequence.
    pub open spec fn index_of(&self, c: Coord3D) -> int {
        c.x + self.w() * c.y + self.w() * self.h() * c.z
    }

    /// The value of cell `c`.
    pub open spec fn cell(&self, c: Coord3D) -> T {
        flat_cell(self.cells(), self.w(), self.h(), c)
    }

    /// Every cell holds a clone of `v`.
    pub open spec fn filled_with(&self, v: T) -> bool where T: Clone {
        forall|i: int| 0 <= i < self.cells().len() ==> cloned(v, #[trigger] self.cells()[i])
    }

    /// `self` is `before` with the footprint of `source` at `dest`, in plane
    /// `dest.z`, overwritten by clones of the cells of `source`.
    pub open spec fn is_plane_blit_of(
        &self,
        before: &Self,
        source: &Array2D<T>,
        dest: Coord3D,
    ) -> bool where T: Clone {
        &&& self.wf()
        &&& self.w() == before.w()
        &&& self.h() == before.h()
        &&& self.d() == before.d()
        &&& forall|c: Coord3D|
            self.valid(c) ==> if in_footprint(c, dest, source.w(), source.h()) {
                cloned(source.cell(source_cell(c, dest)), #[trigger] self.cell(c))
            } else {
                self.cell(c) == before.cell(c)
            }
    }

    /// The pairs of coordinate and value of all cells, in row-major order.
    pub open spec fn entries(&self) -> Seq<(Coord3D, T)> {
        Seq::new(self.cells().len(), |i: int| (coord_at(self.w(), self.h(), i), self.cells()[i]))
    }
}

/// The row-major successor of a valid cell, wrapping at the end of each row
/// and each plane: the cell that a traversal yields next.
pub open spec fn successor(c: Coord3D, w: nat, h: nat) -> Coord3D {
    if c.x + 1 < w {
        Coord3D { x: (c.x + 1) as usize, y: c.y, z: c.z }
    } else if c.y + 1 < h {
        Coord3D { x: 0, y: (c.y + 1) as usize, z: c.z }
    } else {
        Coord3D { x: 0, y: 0, z: (c.z + 1) as usize }
    }
}

/// Moving to the successor of a cell of a box `w` by `h` by `d` moves one
/// place forward in row-major order.
proof fn lemma_successor(c: Coord3D, w: nat, h: nat, d: nat)
    requires
        w <= usize::MAX,
        h <= usize::MAX,
        d <= usize::MAX,
        c.x < w,
        c.y < h,
        c.z < d,
    ensures
        ({
            let n = successor(c, w, h);
            &&& n.x + w * n.y + w * h * n.z == c.x + w * c.y + w * h * c.z + 1
            &&& n.x < w && n.y < h
        }),
{
    let n = successor(c, w, h);
    if c.x + 1 < w {
    } else if c.y + 1 < h {
        assert(w * (c.y + 1) == w * c.y + w) by (nonlinear_arith);
        assert(n.x + w * n.y == w * (c.y + 1));
    } else {
        assert(w * h * (c.z + 1) == w * h * c.z + w * h) by (nonlinear_arith);
        assert(w * (h - 1) + w == w * h) by (nonlinear_arith)
            requires
                h > 0,
        ;
        assert(c.x + 1 == w && c.y + 1 == h);
        assert(n.x == 0 && n.y == 0 && n.z == c.z + 1);
        assert(w * n.y == 0);
        assert(n.x + w * n.y + w * h * n.z == w * h * (c.z + 1));
    }
}

/// A position below `w * h * d` with `x < w` and `y < h` lies in a plane below `d`.
proof fn lemma_plane_below(x: int, y: int, z: int, w: int, h: int, d: int)
    requires
        0 <= x < w,
        0 <= y < h,
        0 <= z,
        x + w * y + w * h * z < w * h * d,
    ensures
        z < d,
{
    if z >= d {
        assert(w * h * z >= w * h * d) by (nonlinear_arith)
            requires
                z >= d,
                0 < w,
                0 < h,
        ;
        assert(w * y >= 0) by (nonlinear_arith)
            requires
                0 <= w,
                0 <= y,
        ;
    }
}

/// A traversal of all cells of an array in row-major order, yielding each
/// coordinate with a reference to its value.
pub struct Iter<'a, T> {
    this: &'a Array3D<T>,
    coord: Coord3D,
}

impl<'a, T> Iter<'a, T> {
    /// The array being traversed.
    pub closed spec fn array(&self) -> Array3D<T> {
        *self.this
    }

    /// The pairs that the traversal has still to yield, in order.
    pub closed spec fn remaining(&self) -> Seq<(Coord3D, T)> {
        if self.this.valid(self.coord) {
            self.this.entries().subrange(
                self.this.index_of(self.coord),
                self.this.entries().len() as int,
            )
        } else {
            Seq::empty()
        }
    }

    /// The traversal is over a well-formed array.
    pub closed spec fn inv(&self) -> bool {
        self.this.wf()
    }

    /// The next coordinate and value, or `None` once every cell has been yielded.
    pub fn next(&mut self) -> (r: Option<(Coord3D, &'a T)>)
        requires
            old(self).inv(),
        ensures
            final(self).inv(),
            final(self).array() == old(self).array(),
            old(self).remaining().len() == 0 ==> r is None && final(self).remaining().len() == 0,
            old(self).remaining().len() > 0 ==> {
                &&& r matches Some((c, v))
                &&& c == old(self).remaining()[0].0
                &&& *v == old(self).remaining()[0].1
                &&& final(self).remaining() == old(self).remaining().drop_first()
            },
    {
        let this = self.this;
        let coord = self.coord;
        if this.coord_is_valid(coord) {
            let v = this.at(coord);
            let ghost w = this.w();
            let ghost h = this.h();
            let ghost p = this.index_of(coord);
            let ghost n = this.cells().len() as int;
            proof {
                this.lemma_index_in_bounds(coord);
                lemma_index3_div_mod(
                    coord.x as int,
                    coord.y as int,
                    coord.z as int,
                    w as int,
                    h as int,
                );
                assert(this.entries()[p].0 == coord);
                lemma_successor(coord, w, h, this.d());
            }
            if coord.x + 1 < this.width {
                self.coord = Coord3D::new(coord.x + 1, coord.y, coord.z);
            } else if coord.y + 1 < this.height {
                self.coord = Coord3D::new(0, coord.y + 1, coord.z);
            } else {
                self.coord = Coord3D::new(0, 0, coord.z + 1);
            }
            proof {
                assert(self.coord == successor(coord, w, h));
                if this.valid(self.coord) {
                    assert(self.remaining() =~= this.entries().subrange(p + 1, n));
                } else {
                    if p + 1 < n {
                        let c = self.coord;
                        lemma_plane_below(c.x as int, c.y as int, c.z as int, w as int, h as int, this.d() as int);
                    }
                    assert(self.remaining() =~= this.entries().subrange(p + 1, n));
                }
            }
            Some((coord, v))
        } else {
            None
        }
    }
}

/// A traversal of all cells of an array in row-major order, yielding each
/// coordinate with an exclusive reference to its value. The references come
/// from splitting the backing sequence, so no two of them overlap.
pub struct IterMut<'a, T> {
    rest: Option<&'a mut [T]>,
    width: usize,
    height: usize,
    depth: usize,
    coord: Coord3D,
}

impl<'a, T> IterMut<'a, T> {
    /// The current values of the cells not yet yielded, in order.
    pub closed spec fn rest_now(&self) -> Seq<T> {
        match self.rest {
            Some(s) => s@,
            None => Seq::empty(),
        }
    }

    /// The reference to the cells not yet yielded.
    pub closed spec fn rest_ref(&self) -> &'a mut [T] {
        self.rest.unwrap()
    }

    /// The position in row-major order of the next cell to be yielded.
    pub closed spec fn pos(&self) -> int {
        self.coord.x + self.width * self.coord.y + self.width * self.height * self.coord.z
    }

    /// The number of columns of the array being traversed.
    pub closed spec fn w(&self) -> nat {
        self.width as nat
    }

    /// The number of rows in a plane of the array being traversed.
    pub closed spec fn h(&self) -> nat {
        self.height as nat
    }

    /// The pairs of coordinate and current value that the traversal has still to yield.
    pub open spec fn remaining(&self) -> Seq<(Coord3D, T)> {
        Seq::new(
            self.rest_now().len(),
            |k: int| (coord_at(self.w(), self.h(), self.pos() + k), self.rest_now()[k]),
        )
    }

    /// The traversal has handed out its last reference and reported the end.
    pub closed spec fn finished(&self) -> bool {
        self.rest is None
    }

    /// The next position and the cells left to yield account for the whole array.
    pub closed spec fn inv(&self) -> bool {
        &&& self.pos() + self.rest_now().len() == self.width * self.height * self.depth
        &&& self.rest_now().len() > 0 ==> self.coord.x < self.width && self.coord.y < self.height
            && self.coord.z < self.depth
    }

    /// The next coordinate with a reference to its cell, or `None` once every
    /// cell has been yielded. What is written through the reference is what the
    /// cell holds when the traversal ends.
    pub fn next(&mut self) -> (r: Option<(Coord3D, &'a mut T)>)
        requires
            old(self).inv(),
        ensures
            final(self).inv(),
            final(self).w() == old(self).w(),
            final(self).h() == old(self).h(),
            old(self).remaining().len() == 0 ==> {
                &&& r is None
                &&& final(self).finished()
                &&& final(self).remaining().len() == 0
                &&& !old(self).finished() ==> final(old(self).rest_ref())@ == Seq::<T>::empty()
            },
            old(self).remaining().len() > 0 ==> {
                &&& r matches Some((c, v))
                &&& c == old(self).remaining()[0].0
                &&& *v == old(self).remaining()[0].1
                &&& final(self).remaining() == old(self).remaining().drop_first()
                &&& !final(self).finished()
                &&& final(old(self).rest_ref())@ == seq![*final(v)] + final(final(self).rest_ref())@
            },
    {
        let mut taken: Option<&'a mut [T]> = None;
        std::mem::swap(&mut self.rest, &mut taken);
        let s = match taken {
            Some(s) => s,
            None => {
                return None;
            },
        };
        if s.len() == 0 {
            // Borrowing the empty remainder settles that nothing more is written through it.
            let _ = s.first_mut();
            return None;
        }
        let ghost s_now = s@;
        let ghost p = old(self).pos();
        let (first, tail) = s.split_at_mut(1);
        assert(tail@.len() + 1 == s_now.len());
        self.rest = Some(tail);
        let coord = self.coord;
        proof {
            lemma_index3_div_mod(
                coord.x as int,
                coord.y as int,
                coord.z as int,
                self.w() as int,
                self.h() as int,
            );
            lemma_successor(coord, self.w(), self.h(), self.depth as nat);
        }
        if coord.x + 1 < self.width {
            self.coord = Coord3D::new(coord.x + 1, coord.y, coord.z);
        } else if coord.y + 1 < self.height {
            self.coord = Coord3D::new(0, coord.y + 1, coord.z);
        } else {
            self.coord = Coord3D::new(0, 0, coord.z + 1);
        }
        proof {
            assert(self.coord == successor(coord, self.w(), self.h()));
            assert(self.pos() == p + 1);
            assert(self.pos() + self.rest_now().len() == self.width * self.height * self.depth);
            if self.rest_now().len() > 0 {
                let c = self.coord;
                lemma_plane_below(
                    c.x as int,
                    c.y as int,
                    c.z as int,
                    self.width as int,
                    self.height as int,
                    self.depth as int,
                );
            }
            assert(self.remaining() =~= old(self).remaining().drop_first());
        }
        let ghost first_ref = first;
        match first.first_mut() {
            Some(v) => {
                proof {
                    assert(final(first_ref)@ =~= seq![*final(v)]);
                }
                Some((coord, v))
            },
            None => None,
        }
    }
}

impl<T: Clone> Array3D<T> {
    /// A `width` by `height` by `depth` array whose every cell is a clone of `fill`.
    pub fn new_with(width: usize, height: usize, depth: usize, fill: T) -> (r: Self)
        requires
            width * height <= usize::MAX,
            width * height * depth <= usize::MAX,
        ensures
            r.wf(),
            r.w() == width,
            r.h() == height,
            r.d() == depth,
            r.filled_with(fill),
    {
        let data: Vec<T> = vec![fill; width * height * depth];
        Array3D { width, height, depth, data }
    }
}

impl<T: Clone + Default> Array3D<T> {
    /// A `width` by `height` by `depth` array whose every cell holds the
    /// default value of `T`.
    pub fn new(width: usize, height: usize, depth: usize) -> (r: Self)
        requires
            width * height <= usize::MAX,
            width * height * depth <= usize::MAX,
        ensures
            r.wf(),
            r.w() == width,
            r.h() == height,
            r.d() == depth,
            exists|d: T| #[trigger] call_ensures(T::default, (), d) && r.filled_with(d),
    {
        let d = T::default();
        Self::new_with(width, height, depth, d)
    }
}

impl<T> Array3D<T> {
    pub fn width(&self) -> (r: usize)
        ensures
            r == self.w(),
    {
        self.width
    }

    pub fn height(&self) -> (r: usize)
        ensures
            r == self.h(),
    {
        self.height
    }

    pub fn depth(&self) -> (r: usize)
        ensures
            r == self.d(),
    {
        self.depth
    }

    fn coord_is_valid(&self, coord: Coord3D) -> (r: bool)
        ensures
            r == self.valid(coord),
    {
        coord.x < self.width && coord.y < self.height && coord.z < self.depth
    }

    fn coord_index(&self, coord: Coord3D) -> (r: usize)
        requires
            self.wf(),
            self.valid(coord),
        ensures
            r == self.index_of(coord),
            r < self.cells().len(),
    {
        proof {
            lemma_index3_bound(
                coord.x as int,
                coord.y as int,
                coord.z as int,
                self.w() as int,
                self.h() as int,
                self.d() as int,
            );
            assert(self.w() * self.h() <= self.w() * self.h() * self.d()) by (nonlinear_arith)
                requires
                    coord.z < self.d(),
            ;
            assert(self.w() * self.h() * coord.z <= self.w() * self.h() * self.d()) by (nonlinear_arith)
                requires
                    coord.z < self.d(),
            ;
            assert(self.w() * coord.y <= self.w() * self.h()) by (nonlinear_arith)
                requires
                    coord.y < self.h(),
            ;
        }
        coord.x + self.width * coord.y + self.width * self.height * coord.z
    }

    /// A traversal of all cells, plane by plane, row by row.
    pub fn iter(&self) -> (r: Iter<'_, T>)
        requires
            self.wf(),
        ensures
            r.inv(),
            r.array() == *self,
            r.remaining() == self.entries(),
    {
        let r = Iter { this: self, coord: Coord3D::new(0, 0, 0) };
        proof {
            if !self.valid(Coord3D { x: 0, y: 0, z: 0 }) {
                assert(self.cells().len() == 0) by (nonlinear_arith)
                    requires
                        self.cells().len() == self.w() * self.h() * self.d(),
                        self.w() == 0 || self.h() == 0 || self.d() == 0,
                ;
            }
            assert(r.remaining() =~= self.entries());
        }
        r
    }

    /// A traversal of all cells, plane by plane, row by row, yielding each
    /// coordinate with an exclusive reference to its cell.
    pub fn iter_mut(&mut self) -> (r: IterMut<'_, T>)
        requires
            old(self).wf(),
        ensures
            r.inv(),
            !r.finished(),
            r.w() == old(self).w(),
            r.h() == old(self).h(),
            r.remaining() == old(self).entries(),
            final(self).w() == old(self).w(),
            final(self).h() == old(self).h(),
            final(self).d() == old(self).d(),
            final(self).cells() == final(r.rest_ref())@,
    {
        let width = self.width;
        let height = self.height;
        let depth = self.depth;
        let rest = self.data.as_mut_slice();
        let r = IterMut { rest: Some(rest), width, height, depth, coord: Coord3D::new(0, 0, 0) };
        proof {
            if r.rest_now().len() > 0 {
                assert(width > 0 && height > 0 && depth > 0) by (nonlinear_arith)
                    requires
                        r.rest_now().len() == width * height * depth,
                        r.rest_now().len() > 0,
                ;
            }
            assert(r.remaining() =~= old(self).entries());
        }
        r
    }

    /// The backing sequence, plane by plane, row by row.
    pub fn data(&self) -> (r: &[T])
        ensures
            r@ == self.cells(),
    {
        self.data.as_slice()
    }

    /// The backing sequence, plane by plane, row by row, for writing in place.
    pub fn data_mut(&mut self) -> (r: &mut [T])
        ensures
            r@ == old(self).cells(),
            final(self).cells() == final(r)@,
            final(self).w() == old(self).w(),
            final(self).h() == old(self).h(),
            final(self).d() == old(self).d(),
    {
        self.data.as_mut_slice()
    }

    /// The value at `coord`.
    pub fn at(&self, coord: Coord3D) -> (r: &T)
        requires
            self.wf(),
            self.valid(coord),
        ensures
            *r == self.cell(coord),
    {
        let i = self.coord_index(coord);
        &self.data[i]
    }

    /// A reference through which the cell at `coord`, and only that cell, can be changed.
    pub fn at_mut(&mut self, coord: Coord3D) -> (r: &mut T)
        requires
            old(self).wf(),
            old(self).valid(coord),
        ensures
            *r == old(self).cell(coord),
            final(self).w() == old(self).w(),
            final(self).h() == old(self).h(),
            final(self).d() == old(self).d(),
            final(self).cells() == old(self).cells().update(old(self).index_of(coord), *final(r)),
    {
        let i = self.coord_index(coord);
        &mut self.data[i]
    }

    /// Stores `value` at `coord`.
    pub fn set(&mut self, coord: Coord3D, value: T)
        requires
            old(self).wf(),
            old(self).valid(coord),
        ensures
            final(self).wf(),
            final(self).w() == old(self).w(),
            final(self).h() == old(self).h(),
            final(self).d() == old(self).d(),
            final(self).cells() == old(self).cells().update(old(self).index_of(coord), value),
            final(self).cell(coord) == value,
            forall|c: Coord3D|
                old(self).valid(c) && c != coord ==> #[trigger] final(self).cell(c) == old(self).cell(c),
    {
        let i = self.coord_index(coord);
        self.data.set(i, value);
        proof {
            assert forall|c: Coord3D| old(self).valid(c) && c != coord implies #[trigger] self.cell(c)
                == old(self).cell(c) by {
                self.lemma_index_in_bounds(c);
                if self.index_of(c) == i {
                    lemma_index3_injective(
                        c.x as int,
                        c.y as int,
                        c.z as int,
                        coord.x as int,
                        coord.y as int,
                        coord.z as int,
                        self.w() as int,
                        self.h() as int,
                    );
                }
            }
        }
    }

    /// The index of a valid cell lies inside the backing sequence.
    proof fn lemma_index_in_bounds(&self, c: Coord3D)
        requires
            self.wf(),
            self.valid(c),
        ensures
            0 <= self.index_of(c) < self.cells().len(),
    {
        lemma_index3_bound(
            c.x as int,
            c.y as int,
            c.z as int,
            self.w() as int,
            self.h() as int,
            self.d() as int,
        );
    }
}

impl<T: Clone> Array3D<T> {
    /// Overwrites, in plane `dest.z`, the rectangle whose top-left cell is
    /// `(dest.x, dest.y)` with clones of the cells of `source`; every other cell
    /// keeps its value.
    pub fn copy_2d(&mut self, source: &Array2D<T>, dest: Coord3D)
        requires
            old(self).wf(),
            source.wf(),
            dest.x + source.w() <= old(self).w(),
            dest.y + source.h() <= old(self).h(),
            source.w() == 0 || source.h() == 0 || dest.z < old(self).d(),
        ensures
            final(self).is_plane_blit_of(old(self), source, dest),
    {
        let sw = source.width();
        let sh = source.height();
        let mut j: usize = 0;
        while j < sh
            invariant
                self.wf(),
                source.wf(),
                sw == source.w(),
                sh == source.h(),
                self.w() == old(self).w(),
                self.h() == old(self).h(),
                self.d() == old(self).d(),
                dest.x + sw <= self.w(),
                dest.y + sh <= self.h(),
                sw == 0 || sh == 0 || dest.z < self.d(),
                j <= sh,
                forall|c: Coord3D|
                    self.valid(c) ==> if in_footprint(c, dest, sw as nat, j as nat) {
                        cloned(source.cell(source_cell(c, dest)), #[trigger] self.cell(c))
                    } else {
                        self.cell(c) == old(self).cell(c)
                    },
            decreases sh - j,
        {
            let mut i: usize = 0;
            while i < sw
                invariant
                    self.wf(),
                    source.wf(),
                    sw == source.w(),
                    sh == source.h(),
                    self.w() == old(self).w(),
                    self.h() == old(self).h(),
                    self.d() == old(self).d(),
                    dest.x + sw <= self.w(),
                    dest.y + sh <= self.h(),
                    sw == 0 || sh == 0 || dest.z < self.d(),
                    j < sh,
                    i <= sw,
                    forall|c: Coord3D|
                        self.valid(c) ==> if in_footprint(c, dest, sw as nat, j as nat) || (c.z
                            == dest.z && c.y == dest.y + j && dest.x <= c.x < dest.x + i) {
                            cloned(source.cell(source_cell(c, dest)), #[trigger] self.cell(c))
                        } else {
                            self.cell(c) == old(self).cell(c)
                        },
                decreases sw - i,
            {
                let from = Coord2D::new(i, j);
                let to = Coord3D::new(dest.x + i, dest.y + j, dest.z);
                let v = source.at(from).clone();
                let k = self.coord_index(to);
                let ghost before = *self;
                self.data.set(k, v);
                proof {
                    assert forall|c: Coord3D|
                        self.valid(c) implies if in_footprint(c, dest, sw as nat, j as nat) || (c.z
                            == dest.z && c.y == dest.y + j && dest.x <= c.x < dest.x + i + 1) {
                            cloned(source.cell(source_cell(c, dest)), #[trigger] self.cell(c))
                        } else {
                            self.cell(c) == old(self).cell(c)
                        } by {
                        if c == to {
                            assert(source_cell(c, dest) == from);
                        } else {
                            if self.index_of(c) == k {
                                lemma_index3_injective(
                                    c.x as int,
                                    c.y as int,
                                    c.z as int,
                                    to.x as int,
                                    to.y as int,
                                    to.z as int,
                                    self.w() as int,
                                    self.h() as int,
                                );
                            }
                            self.lemma_index_in_bounds(c);
                            assert(self.cell(c) == before.cell(c));
                        }
                    }
                }
                i = i + 1;
            }
            j = j + 1;
        }
    }
}

/// Traversal order: the entries of a `w` by `h` by `d` array are its
/// `w * h * d` cells, each valid coordinate exactly once, in row-major order
/// (x fastest, then y, then z: one whole plane before the next), each with the
/// value of that cell.
pub proof fn lemma_entries_row_major<T>(a: &Array3D<T>)
    requires
        a.wf(),
    ensures
        a.entries().len() == a.w() * a.h() * a.d(),
        forall|i: int|
            0 <= i < a.entries().len() ==> {
                &&& a.valid(#[trigger] a.entries()[i].0)
                &&& a.index_of(a.entries()[i].0) == i
                &&& a.entries()[i].1 == a.cell(a.entries()[i].0)
            },
        forall|c: Coord3D| a.valid(c) ==> #[trigger] a.entries()[a.index_of(c)].0 == c,
        forall|i: int, j: int|
            0 <= i < j < a.entries().len() ==> {
                let ci = (#[trigger] a.entries()[i]).0;
                let cj = (#[trigger] a.entries()[j]).0;
                ||| ci.z < cj.z
                ||| ci.z == cj.z && ci.y < cj.y
                ||| ci.z == cj.z && ci.y == cj.y && ci.x < cj.x
            },
{
    let w = a.w() as int;
    let h = a.h() as int;
    let d = a.d() as int;
    assert forall|i: int| 0 <= i < a.entries().len() implies {
        &&& a.valid(#[trigger] a.entries()[i].0)
        &&& a.index_of(a.entries()[i].0) == i
        &&& a.entries()[i].1 == a.cell(a.entries()[i].0)
    } by {
        assert(w > 0 && h > 0 && d > 0) by (nonlinear_arith)
            requires
                0 <= i < w * h * d,
                0 <= w,
                0 <= h,
                0 <= d,
        ;
        let row = i / w;
        vstd::arithmetic::div_mod::lemma_fundamental_div_mod(i, w);
        vstd::arithmetic::div_mod::lemma_fundamental_div_mod(row, h);
        assert(0 <= row) by (nonlinear_arith)
            requires
                0 <= i,
                0 < w,
                row == i / w,
        ;
        assert(0 <= row / h) by (nonlinear_arith)
            requires
                0 <= row,
                0 < h,
        ;
        let c = a.entries()[i].0;
        lemma_index3_nested(i % w, row % h, row / h, w, h);
        assert(i == c.x + w * c.y + w * h * c.z);
        lemma_plane_below(c.x as int, c.y as int, c.z as int, w, h, d);
    }
    assert forall|c: Coord3D| a.valid(c) implies #[trigger] a.entries()[a.index_of(c)].0 == c by {
        a.lemma_index_in_bounds(c);
        lemma_index3_div_mod(c.x as int, c.y as int, c.z as int, w, h);
    }
    assert forall|i: int, j: int| 0 <= i < j < a.entries().len() implies {
        let ci = (#[trigger] a.entries()[i]).0;
        let cj = (#[trigger] a.entries()[j]).0;
        ||| ci.z < cj.z
        ||| ci.z == cj.z && ci.y < cj.y
        ||| ci.z == cj.z && ci.y == cj.y && ci.x < cj.x
    } by {
        let ci = a.entries()[i].0;
        let cj = a.entries()[j].0;
        assert(a.valid(ci) && a.index_of(ci) == i);
        assert(a.valid(cj) && a.index_of(cj) == j);
        lemma_index3_nested(ci.x as int, ci.y as int, ci.z as int, w, h);
        lemma_index3_nested(cj.x as int, cj.y as int, cj.z as int, w, h);
        assert(0 <= h * ci.z && 0 <= h * cj.z) by (nonlinear_arith)
            requires
                0 <= h,
                0 <= ci.z,
                0 <= cj.z,
        ;
        lemma_index2_order(
            ci.x as int,
            ci.y + h * ci.z,
            cj.x as int,
            cj.y + h * cj.z,
            w,
        );
        if ci.y + h * ci.z < cj.y + h * cj.z {
            lemma_index2_order(ci.y as int, ci.z as int, cj.y as int, cj.z as int, h);
        } else {
            lemma_index2_injective(ci.y as int, ci.z as int, cj.y as int, cj.z as int, h);
        }
    }
}

/// Plane isolation: `copy_2d` leaves every cell of every other plane, and
/// every cell of the target plane outside the footprint, as it was.
pub proof fn lemma_copy_2d_plane_isolation<T: Clone>(
    before: &Array3D<T>,
    source: &Array2D<T>,
    dest: Coord3D,
    after: &Array3D<T>,
)
    requires
        after.is_plane_blit_of(before, source, dest),
    ensures
        forall|c: Coord3D|
            after.valid(c) && c.z != dest.z ==> #[trigger] after.cell(c) == before.cell(c),
        forall|c: Coord3D|
            after.valid(c) && c.z == dest.z && !in_footprint(c, dest, source.w(), source.h())
                ==> #[trigger] after.cell(c) == before.cell(c),
{
}

} // verus!
