//! A dense two-dimensional array stored row by row in one flat vector.
use crate::index::{
    lemma_index2_bound, lemma_index2_div_mod, lemma_index2_injective, lemma_index2_order,
};
use vstd::prelude::*;

verus! {

/// A cell of a two-dimensional array: column `x`, row `y`.
#[derive(Clone, Copy, PartialEq, Eq, Hash, Debug, Structural)]
pub struct Coord2D {
    pub x: usize,
    pub y: usize,
}

impl Coord2D {
    pub fn new(x: usize, y: usize) -> (r: Self)
        ensures
            r == (Coord2D { x, y }),
    {
        Coord2D { x, y }
    }
}

impl From<(usize, usize)> for Coord2D {
    fn from(coord: (usize, usize)) -> (r: Self) {
        Coord2D::new(coord.0, coord.1)
    }
}

impl vstd::std_specs::convert::FromSpecImpl<(usize, usize)> for Coord2D {
    open spec fn obeys_from_spec() -> bool {
        true
    }

    open spec fn from_spec(coord: (usize, usize)) -> Coord2D {
        Coord2D { x: coord.0, y: coord.1 }
    }
}

impl From<[usize; 2]> for Coord2D {
    fn from(coord: [usize; 2]) -> (r: Self) {
        Coord2D::new(coord[0], coord[1])
    }
}

impl vstd::std_specs::convert::FromSpecImpl<[usize; 2]> for Coord2D {
    open spec fn obeys_from_spec() -> bool {
        true
    }

    open spec fn from_spec(coord: [usize; 2]) -> Coord2D {
        Coord2D { x: coord@[0], y: coord@[1] }
    }
}

/// The cell `c` moved by `by`.
pub open spec fn shifted(c: Coord2D, by: Coord2D) -> Coord2D {
    Coord2D { x: (c.x + by.x) as usize, y: (c.y + by.y) as usize }
}

/// The cell `c` seen from `corner`: the inverse of `shifted`.
pub open spec fn relative(c: Coord2D, corner: Coord2D) -> Coord2D {
    Coord2D { x: (c.x - corner.x) as usize, y: (c.y - corner.y) as usize }
}

/// `c` lies in the `w` by `h` rectangle whose top-left cell is `corner`.
pub open spec fn in_rect(c: Coord2D, corner: Coord2D, w: nat, h: nat) -> bool {
    corner.x <= c.x < corner.x + w && corner.y <= c.y < corner.y + h
}

/// The value of cell `c` in a row-major sequence of rows `w` cells wide.
pub open spec fn flat_cell<T>(s: Seq<T>, w: nat, c: Coord2D) -> T {
    s[c.x + w * c.y]
}

/// The coordinate of the `i`-th cell, in row-major order, of an array `w` cells wide.
pub open spec fn coord_at(w: nat, i: int) -> Coord2D {
    Coord2D { x: (i % (w as int)) as usize, y: (i / (w as int)) as usize }
}

/// A `width` by `height` grid of values, stored row by row.
#[derive(Clone)]
pub struct Array2D<T> {
    width: usize,
    height: usize,
    data: Vec<T>,
}

impl<T> Array2D<T> {
    /// The number of columns.
    pub closed spec fn w(&self) -> nat {
        self.width as nat
    }

    /// The number of rows.
    pub closed spec fn h(&self) -> nat {
        self.height as nat
    }

    /// All cells, row by row.
    pub closed spec fn cells(&self) -> Seq<T> {
        self.data@
    }

    /// The backing sequence holds exactly one value per cell.
    pub open spec fn wf(&self) -> bool {
        &&& self.cells().len() == self.w() * self.h()
        &&& self.w() * self.h() <= usize::MAX
    }

    /// `c` names a cell of this array.
    pub open spec fn valid(&self, c: Coord2D) -> bool {
        c.x < self.w() && c.y < self.h()
    }

    /// Where cell `c` stands in the backing sequence.
    pub open spec fn index_of(&self, c: Coord2D) -> int {
        c.x + self.w() * c.y
    }

    /// The value of cell `c`.
    pub open spec fn cell(&self, c: Coord2D) -> T {
        flat_cell(self.cells(), self.w(), c)
    }

    /// Every cell holds a clone of `v`.
    pub open spec fn filled_with(&self, v: T) -> bool where T: Clone {
        forall|i: int| 0 <= i < self.cells().len() ==> cloned(v, #[trigger] self.cells()[i])
    }

    /// `self` differs from `other` at most in the cells for which `region` holds.
    pub open spec fn same_outside(&self, other: &Self, region: spec_fn(Coord2D) -> bool) -> bool {
        forall|c: Coord2D| self.valid(c) && !region(c) ==> #[trigger] self.cell(c) == other.cell(c)
    }

    /// `self` is a `width` by `height` array of clones of the cells of `src`
    /// in the rectangle whose top-left cell is `corner`.
    pub open spec fn is_region_of(
        &self,
        src: &Self,
        corner: Coord2D,
        width: nat,
        height: nat,
    ) -> bool where T: Clone {
        &&& self.wf()
        &&& self.w() == width
        &&& self.h() == height
        &&& forall|c: Coord2D|
            self.valid(c) ==> cloned(src.cell(shifted(c, corner)), #[trigger] self.cell(c))
    }

    /// `self` is `before` with the rectangle whose top-left cell is `dest`
    /// overwritten by clones of the cells of `source`.
    pub open spec fn is_blit_of(&self, before: &Self, source: &Self, dest: Coord2D) -> bool where
        T: Clone,
     {
        &&& self.wf()
        &&& self.w() == before.w()
        &&& self.h() == before.h()
        &&& forall|c: Coord2D|
            self.valid(c) ==> if in_rect(c, dest, source.w(), source.h()) {
                cloned(source.cell(relative(c, dest)), #[trigger] self.cell(c))
            } else {
                self.cell(c) == before.cell(c)
            }
    }

    /// The pairs of coordinate and value of all cells, in row-major order.
    pub open spec fn entries(&self) -> Seq<(Coord2D, T)> {
        Seq::new(self.cells().len(), |i: int| (coord_at(self.w(), i), self.cells()[i]))
    }
}

/// A traversal of all cells of an array in row-major order, yielding each
/// coordinate with a reference to its value.
pub struct Iter<'a, T> {
    this: &'a Array2D<T>,
    coord: Coord2D,
}

impl<'a, T> Iter<'a, T> {
    /// The array being traversed.
    pub closed spec fn array(&self) -> Array2D<T> {
        *self.this
    }

    /// The pairs that the traversal has still to yield, in order.
    pub closed spec fn remaining(&self) -> Seq<(Coord2D, T)> {
        if self.this.valid(self.coord) {
            self.this.entries().subrange(
                self.this.index_of(self.coord),
                self.this.entries().len() as int,
            )
        } else {
            Seq::empty()
        }
    }

    /// The traversal is over a well-formed array.
    pub closed spec fn inv(&self) -> bool {
        &&& self.this.wf()
        &&& self.coord.x < self.this.w() || self.coord.x == 0
    }

    /// The next coordinate and value, or `None` once every cell has been yielded.
    pub fn next(&mut self) -> (r: Option<(Coord2D, &'a T)>)
        requires
            old(self).inv(),
        ensures
            final(self).inv(),
            final(self).array() == old(self).array(),
            old(self).remaining().len() == 0 ==> r is None && final(self).remaining().len() == 0,
            old(self).remaining().len() > 0 ==> {
                &&& r matches Some((c, v))
                &&& c == old(self).remaining()[0].0
                &&& *v == old(self).remaining()[0].1
                &&& final(self).remaining() == old(self).remaining().drop_first()
            },
    {
        let this = self.this;
        let coord = self.coord;
        if this.coord_is_valid(coord) {
            let v = this.at(coord);
            proof {
                let n = this.cells().len() as int;
                let p = this.index_of(coord);
                lemma_index2_bound(coord.x as int, coord.y as int, this.w() as int, this.h() as int);
                lemma_index2_div_mod(coord.x as int, coord.y as int, this.w() as int);
                assert(this.entries()[p].0 == coord);
            }
            if coord.x + 1 < this.width {
                self.coord = Coord2D::new(coord.x + 1, coord.y);
            } else {
                self.coord = Coord2D::new(0, coord.y + 1);
                proof {
                    assert(this.w() * (coord.y + 1) == this.w() * coord.y + this.w())
                        by (nonlinear_arith);
                    if coord.y + 1 == this.h() {
                        assert(this.index_of(coord) + 1 == this.cells().len());
                    }
                }
            }
            proof {
                let p = this.index_of(coord);
                let n = this.cells().len() as int;
                assert(old(self).remaining() == this.entries().subrange(p, n));
                assert(self.remaining() =~= this.entries().subrange(p + 1, n));
            }
            Some((coord, v))
        } else {
            None
        }
    }
}

/// A traversal of all cells of an array in row-major order, yielding each
/// coordinate with an exclusive reference to its value. The references come
/// from splitting the backing sequence, so no two of them overlap.
pub struct IterMut<'a, T> {
    rest: Option<&'a mut [T]>,
    width: usize,
    height: usize,
    coord: Coord2D,
}

impl<'a, T> IterMut<'a, T> {
    /// The current values of the cells not yet yielded, in order.
    pub closed spec fn rest_now(&self) -> Seq<T> {
        match self.rest {
            Some(s) => s@,
            None => Seq::empty(),
        }
    }

    /// The reference to the cells not yet yielded.
    pub closed spec fn rest_ref(&self) -> &'a mut [T] {
        self.rest.unwrap()
    }

    /// The position in row-major order of the next cell to be yielded.
    pub closed spec fn pos(&self) -> int {
        self.coord.x + self.width * self.coord.y
    }

    /// The number of columns of the array being traversed.
    pub closed spec fn w(&self) -> nat {
        self.width as nat
    }

    /// The pairs of coordinate and current value that the traversal has still to yield.
    pub open spec fn remaining(&self) -> Seq<(Coord2D, T)> {
        Seq::new(self.rest_now().len(), |k: int| (coord_at(self.w(), self.pos() + k), self.rest_now()[k]))
    }

    /// The traversal has handed out its last reference and reported the end.
    pub closed spec fn finished(&self) -> bool {
        self.rest is None
    }

    /// The next position and the cells left to yield account for the whole array.
    pub closed spec fn inv(&self) -> bool {
        &&& self.coord.x < self.width || self.coord.x == 0
        &&& self.width * self.height <= usize::MAX
        &&& self.pos() + self.rest_now().len() == self.width * self.height
        &&& self.rest_now().len() > 0 ==> self.coord.x < self.width && self.coord.y < self.height
    }

    /// The next coordinate with a reference to its cell, or `None` once every
    /// cell has been yielded. What is written through the reference is what the
    /// cell holds when the traversal ends.
    pub fn next(&mut self) -> (r: Option<(Coord2D, &'a mut T)>)
        requires
            old(self).inv(),
        ensures
            final(self).inv(),
            final(self).w() == old(self).w(),
            old(self).remaining().len() == 0 ==> {
                &&& r is None
                &&& final(self).finished()
                &&& final(self).remaining().len() == 0
                &&& !old(self).finished() ==> final(old(self).rest_ref())@ == Seq::<T>::empty()
            },
            old(self).remaining().len() > 0 ==> {
                &&& r matches Some((c, v))
                &&& c == old(self).remaining()[0].0
                &&& *v == old(self).remaining()[0].1
                &&& final(self).remaining() == old(self).remaining().drop_first()
                &&& !final(self).finished()
                &&& final(old(self).rest_ref())@ == seq![*final(v)] + final(final(self).rest_ref())@
            },
    {
        let mut taken: Option<&'a mut [T]> = None;
        std::mem::swap(&mut self.rest, &mut taken);
        let s = match taken {
            Some(s) => s,
            None => {
                return None;
            },
        };
        if s.len() == 0 {
            // Borrowing the empty remainder settles that nothing more is written through it.
            let _ = s.first_mut();
            return None;
        }
        let ghost w = self.width as int;
        let ghost h = self.height as int;
        let ghost p = old(self).pos();
        let ghost s_now = s@;
        let (first, tail) = s.split_at_mut(1);
        assert(tail@.len() + 1 == s_now.len());
        self.rest = Some(tail);
        let coord = self.coord;
        proof {
            lemma_index2_div_mod(coord.x as int, coord.y as int, w);
            assert(w * (coord.y + 1) == w * coord.y + w) by (nonlinear_arith);
        }
        if coord.x + 1 < self.width {
            self.coord = Coord2D::new(coord.x + 1, coord.y);
        } else {
            self.coord = Coord2D::new(0, coord.y + 1);
        }
        proof {
            assert(self.pos() == p + 1);
            assert(self.pos() + self.rest_now().len() == w * h);
            if self.rest_now().len() > 0 {
                let c = self.coord;
                assert(c.x + w * c.y == self.pos());
                assert(c.y < h) by (nonlinear_arith)
                    requires
                        c.x + w * c.y < w * h,
                        0 <= c.x,
                        0 <= w,
                ;
            }
            assert(self.remaining() =~= old(self).remaining().drop_first());
        }
        let ghost first_ref = first;
        match first.first_mut() {
            Some(v) => {
                proof {
                    assert(final(first_ref)@ =~= seq![*final(v)]);
                }
                Some((coord, v))
            },
            None => None,
        }
    }
}

impl<T: Clone> Array2D<T> {
    /// A `width` by `height` array whose every cell is a clone of `fill`.
    pub fn new_with(width: usize, height: usize, fill: T) -> (r: Self)
        requires
            width * height <= usize::MAX,
        ensures
            r.wf(),
            r.w() == width,
            r.h() == height,
            r.filled_with(fill),
    {
        let data: Vec<T> = vec![fill; width * height];
        Array2D { width, height, data }
    }
}

impl<T: Clone + Default> Array2D<T> {
    /// A `width` by `height` array whose every cell holds the default value of `T`.
    pub fn new(width: usize, height: usize) -> (r: Self)
        requires
            width * height <= usize::MAX,
        ensures
            r.wf(),
            r.w() == width,
            r.h() == height,
            exists|d: T| #[trigger] call_ensures(T::default, (), d) && r.filled_with(d),
    {
        let d = T::default();
        Self::new_with(width, height, d)
    }
}

impl<T> Array2D<T> {
    pub fn width(&self) -> (r: usize)
        ensures
            r == self.w(),
    {
        self.width
    }

    pub fn height(&self) -> (r: usize)
        ensures
            r == self.h(),
    {
        self.height
    }

    fn coord_is_valid(&self, coord: Coord2D) -> (r: bool)
        ensures
            r == self.valid(coord),
    {
        coord.x < self.width && coord.y < self.height
    }

    fn coord_index(&self, coord: Coord2D) -> (r: usize)
        requires
            self.wf(),
            self.valid(coord),
        ensures
            r == self.index_of(coord),
            r < self.cells().len(),
    {
        proof {
            lemma_index2_bound(coord.x as int, coord.y as int, self.w() as int, self.h() as int);
        }
        coord.x + self.width * coord.y
    }

    /// A traversal of all cells, row by row.
    pub fn iter(&self) -> (r: Iter<'_, T>)
        requires
            self.wf(),
        ensures
            r.inv(),
            r.array() == *self,
            r.remaining() == self.entries(),
    {
        let r = Iter { this: self, coord: Coord2D::new(0, 0) };
        proof {
            if self.valid(Coord2D { x: 0, y: 0 }) {
                assert(r.remaining() =~= self.entries());
            } else {
                assert(self.cells().len() == 0) by (nonlinear_arith)
                    requires
                        self.cells().len() == self.w() * self.h(),
                        self.w() == 0 || self.h() == 0,
                ;
                assert(r.remaining() =~= self.entries());
            }
        }
        r
    }

    /// A traversal of all cells, row by row, yielding each coordinate with an
    /// exclusive reference to its cell.
    pub fn iter_mut(&mut self) -> (r: IterMut<'_, T>)
        requires
            old(self).wf(),
        ensures
            r.inv(),
            !r.finished(),
            r.w() == old(self).w(),
            r.remaining() == old(self).entries(),
            final(self).w() == old(self).w(),
            final(self).h() == old(self).h(),
            final(self).cells() == final(r.rest_ref())@,
    {
        let width = self.width;
        let height = self.height;
        let rest = self.data.as_mut_slice();
        let r = IterMut { rest: Some(rest), width, height, coord: Coord2D::new(0, 0) };
        proof {
            assert(r.remaining() =~= old(self).entries());
        }
        r
    }

    /// The backing sequence, row by row.
    pub fn data(&self) -> (r: &[T])
        ensures
            r@ == self.cells(),
    {
        self.data.as_slice()
    }

    /// The backing sequence, row by row, for writing in place.
    pub fn data_mut(&mut self) -> (r: &mut [T])
        ensures
            r@ == old(self).cells(),
            final(self).cells() == final(r)@,
            final(self).w() == old(self).w(),
            final(self).h() == old(self).h(),
    {
        self.data.as_mut_slice()
    }

    /// The value at `coord`.
    pub fn at(&self, coord: Coord2D) -> (r: &T)
        requires
            self.wf(),
            self.valid(coord),
        ensures
            *r == self.cell(coord),
    {
        let i = self.coord_index(coord);
        &self.data[i]
    }

    /// A reference through which the cell at `coord`, and only that cell, can be changed.
    pub fn at_mut(&mut self, coord: Coord2D) -> (r: &mut T)
        requires
            old(self).wf(),
            old(self).valid(coord),
        ensures
            *r == old(self).cell(coord),
            final(self).w() == old(self).w(),
            final(self).h() == old(self).h(),
            final(self).cells() == old(self).cells().update(old(self).index_of(coord), *final(r)),
    {
        let i = self.coord_index(coord);
        &mut self.data[i]
    }

    /// Stores `value` at `coord`.
    pub fn set(&mut self, coord: Coord2D, value: T)
        requires
            old(self).wf(),
            old(self).valid(coord),
        ensures
            final(self).wf(),
            final(self).w() == old(self).w(),
            final(self).h() == old(self).h(),
            final(self).cells() == old(self).cells().update(old(self).index_of(coord), value),
            final(self).cell(coord) == value,
            forall|c: Coord2D|
                old(self).valid(c) && c != coord ==> #[trigger] final(self).cell(c) == old(self).cell(c),
    {
        let i = self.coord_index(coord);
        self.data.set(i, value);
        proof {
            assert forall|c: Coord2D| old(self).valid(c) && c != coord implies #[trigger] self.cell(c)
                == old(self).cell(c) by {
                lemma_index2_bound(c.x as int, c.y as int, self.w() as int, self.h() as int);
                if self.index_of(c) == i {
                    lemma_index2_injective(
                        c.x as int,
                        c.y as int,
                        coord.x as int,
                        coord.y as int,
                        self.w() as int,
                    );
                }
            }
        }
    }
}

impl<T: Clone> Array2D<T> {
    /// A new array holding clones of the `width` by `height` rectangle whose
    /// top-left cell is `coord`.
    pub fn sub(&self, coord: Coord2D, width: usize, height: usize) -> (r: Self)
        requires
            self.wf(),
            width > 0,
            height > 0,
            coord.x + width <= self.w(),
            coord.y + height <= self.h(),
        ensures
            r.is_region_of(self, coord, width as nat, height as nat),
    {
        proof {
            assert(width * height <= self.w() * self.h()) by (nonlinear_arith)
                requires
                    width <= self.w(),
                    height <= self.h(),
            ;
        }
        let mut data: Vec<T> = Vec::new();
        let mut j: usize = 0;
        while j < height
            invariant
                self.wf(),
                coord.x + width <= self.w(),
                coord.y + height <= self.h(),
                width * height <= usize::MAX,
                j <= height,
                data@.len() == width * j,
                forall|c: Coord2D|
                    c.x < width && c.y < j ==> cloned(
                        self.cell(shifted(c, coord)),
                        #[trigger] flat_cell(data@, width as nat, c),
                    ),
            decreases height - j,
        {
            let mut i: usize = 0;
            while i < width
                invariant
                    self.wf(),
                    coord.x + width <= self.w(),
                    coord.y + height <= self.h(),
                    width * height <= usize::MAX,
                    j < height,
                    i <= width,
                    data@.len() == width * j + i,
                    forall|c: Coord2D|
                        (c.x < width && c.y < j) || (c.x < i && c.y == j) ==> cloned(
                            self.cell(shifted(c, coord)),
                            #[trigger] flat_cell(data@, width as nat, c),
                        ),
                decreases width - i,
            {
                let src = Coord2D::new(coord.x + i, coord.y + j);
                let k = self.coord_index(src);
                let v = self.data[k].clone();
                proof {
                    assert(width * j + i < width * height) by (nonlinear_arith)
                        requires
                            i < width,
                            j < height,
                    ;
                }
                let ghost before = data@;
                data.push(v);
                proof {
                    assert forall|c: Coord2D|
                        (c.x < width && c.y < j) || (c.x < i + 1 && c.y == j) implies cloned(
                            self.cell(shifted(c, coord)),
                            #[trigger] flat_cell(data@, width as nat, c),
                        ) by {
                        if c.x < width && c.y < j {
                            lemma_index2_bound(c.x as int, c.y as int, width as int, j as int);
                            assert(flat_cell(data@, width as nat, c) == flat_cell(
                                before,
                                width as nat,
                                c,
                            ));
                        } else if c.x < i {
                            assert(flat_cell(data@, width as nat, c) == flat_cell(
                                before,
                                width as nat,
                                c,
                            ));
                        } else {
                            assert(c == Coord2D { x: i, y: j });
                            assert(shifted(c, coord) == src);
                        }
                    }
                }
                i = i + 1;
            }
            proof {
                assert(width * (j + 1) == width * j + width) by (nonlinear_arith);
            }
            j = j + 1;
        }
        Array2D { width, height, data }
    }

    /// Overwrites the cells of the rectangle whose top-left cell is `dest` with
    /// clones of the cells of `source`; every other cell keeps its value.
    pub fn copy(&mut self, source: &Self, dest: Coord2D)
        requires
            old(self).wf(),
            source.wf(),
            dest.x + source.w() <= old(self).w(),
            dest.y + source.h() <= old(self).h(),
        ensures
            final(self).is_blit_of(old(self), source, dest),
    {
        let sw = source.width;
        let sh = source.height;
        let mut j: usize = 0;
        while j < sh
            invariant
                self.wf(),
                source.wf(),
                sw == source.w(),
                sh == source.h(),
                self.w() == old(self).w(),
                self.h() == old(self).h(),
                dest.x + sw <= self.w(),
                dest.y + sh <= self.h(),
                j <= sh,
                forall|c: Coord2D|
                    self.valid(c) ==> if in_rect(c, dest, sw as nat, j as nat) {
                        cloned(source.cell(relative(c, dest)), #[trigger] self.cell(c))
                    } else {
                        self.cell(c) == old(self).cell(c)
                    },
            decreases sh - j,
        {
            let mut i: usize = 0;
            while i < sw
                invariant
                    self.wf(),
                    source.wf(),
                    sw == source.w(),
                    sh == source.h(),
                    self.w() == old(self).w(),
                    self.h() == old(self).h(),
                    dest.x + sw <= self.w(),
                    dest.y + sh <= self.h(),
                    j < sh,
                    i <= sw,
                    forall|c: Coord2D|
                        self.valid(c) ==> if in_rect(c, dest, sw as nat, j as nat) || (
                        c.y == dest.y + j && dest.x <= c.x < dest.x + i) {
                            cloned(source.cell(relative(c, dest)), #[trigger] self.cell(c))
                        } else {
                            self.cell(c) == old(self).cell(c)
                        },
                decreases sw - i,
            {
                let from = Coord2D::new(i, j);
                let to = Coord2D::new(dest.x + i, dest.y + j);
                let v = source.at(from).clone();
                let k = self.coord_index(to);
                let ghost before = *self;
                self.data.set(k, v);
                proof {
                    assert forall|c: Coord2D|
                        self.valid(c) implies if in_rect(c, dest, sw as nat, j as nat) || (
                        c.y == dest.y + j && dest.x <= c.x < dest.x + i + 1) {
                            cloned(source.cell(relative(c, dest)), #[trigger] self.cell(c))
                        } else {
                            self.cell(c) == old(self).cell(c)
                        } by {
                        if c == to {
                            assert(relative(c, dest) == from);
                        } else {
                            if self.index_of(c) == k {
                                lemma_index2_injective(
                                    c.x as int,
                                    c.y as int,
                                    to.x as int,
                                    to.y as int,
                                    self.w() as int,
                                );
                            }
                            lemma_index2_bound(c.x as int, c.y as int, self.w() as int, self.h() as int);
                            assert(self.cell(c) == before.cell(c));
                        }
                    }
                }
                i = i + 1;
            }
            j = j + 1;
        }
    }
}

/// Every clone of a value equals it: true of `Copy` types and of the usual
/// value types whose `clone` copies their contents.
pub open spec fn clone_is_exact<T: Clone>() -> bool {
    forall|a: T, b: T| #[trigger] cloned(a, b) ==> a == b
}

/// Traversal order: the entries of a `w` by `h` array are its `w * h` cells,
/// each valid coordinate exactly once, in row-major order (x fastest, then y),
/// each with the value of that cell.
pub proof fn lemma_entries_row_major<T>(a: &Array2D<T>)
    requires
        a.wf(),
    ensures
        a.entries().len() == a.w() * a.h(),
        forall|i: int|
            0 <= i < a.entries().len() ==> {
                &&& a.valid(#[trigger] a.entries()[i].0)
                &&& a.index_of(a.entries()[i].0) == i
                &&& a.entries()[i].1 == a.cell(a.entries()[i].0)
            },
        forall|c: Coord2D| a.valid(c) ==> #[trigger] a.entries()[a.index_of(c)].0 == c,
        forall|i: int, j: int|
            0 <= i < j < a.entries().len() ==> {
                ||| (#[trigger] a.entries()[i]).0.y < (#[trigger] a.entries()[j]).0.y
                ||| a.entries()[i].0.y == a.entries()[j].0.y && a.entries()[i].0.x
                    < a.entries()[j].0.x
            },
{
    let w = a.w() as int;
    let h = a.h() as int;
    assert forall|i: int| 0 <= i < a.entries().len() implies {
        &&& a.valid(#[trigger] a.entries()[i].0)
        &&& a.index_of(a.entries()[i].0) == i
        &&& a.entries()[i].1 == a.cell(a.entries()[i].0)
    } by {
        assert(w > 0) by (nonlinear_arith)
            requires
                0 <= i < w * h,
                0 <= h,
        ;
        vstd::arithmetic::div_mod::lemma_fundamental_div_mod(i, w);
        assert(i / w < h) by (nonlinear_arith)
            requires
                0 <= i < w * h,
                0 < w,
                i == w * (i / w) + i % w,
                0 <= i % w < w,
        ;
        assert(0 <= i / w) by (nonlinear_arith)
            requires
                0 <= i,
                0 < w,
        ;
    }
    assert forall|c: Coord2D| a.valid(c) implies #[trigger] a.entries()[a.index_of(c)].0 == c by {
        lemma_index2_bound(c.x as int, c.y as int, w, h);
        lemma_index2_div_mod(c.x as int, c.y as int, w);
    }
    assert forall|i: int, j: int| 0 <= i < j < a.entries().len() implies {
        ||| (#[trigger] a.entries()[i]).0.y < (#[trigger] a.entries()[j]).0.y
        ||| a.entries()[i].0.y == a.entries()[j].0.y && a.entries()[i].0.x < a.entries()[j].0.x
    } by {
        let ci = a.entries()[i].0;
        let cj = a.entries()[j].0;
        assert(a.valid(ci) && a.index_of(ci) == i);
        assert(a.valid(cj) && a.index_of(cj) == j);
        lemma_index2_order(ci.x as int, ci.y as int, cj.x as int, cj.y as int, w);
    }
}

/// Copying a region back: taking the rectangle `(coord, width, height)` out of
/// `a` with `sub`, then `copy`ing it to `coord` in an array `b` of the same
/// size, gives clones of clones of `a`'s cells inside the rectangle (the very
/// cells when cloning is exact) and leaves `b` unchanged outside it.
pub proof fn lemma_sub_copy_round_trip<T: Clone>(
    a: &Array2D<T>,
    coord: Coord2D,
    width: nat,
    height: nat,
    part: &Array2D<T>,
    b: &Array2D<T>,
    b_after: &Array2D<T>,
)
    requires
        a.wf(),
        b.wf(),
        b.w() == a.w(),
        b.h() == a.h(),
        part.is_region_of(a, coord, width, height),
        b_after.is_blit_of(b, part, coord),
    ensures
        b_after.wf(),
        b_after.w() == a.w(),
        b_after.h() == a.h(),
        forall|c: Coord2D|
            b_after.valid(c) && in_rect(c, coord, width, height) ==> {
                &&& cloned(a.cell(c), part.cell(relative(c, coord)))
                &&& cloned(part.cell(relative(c, coord)), #[trigger] b_after.cell(c))
                &&& clone_is_exact::<T>() ==> b_after.cell(c) == a.cell(c)
            },
        forall|c: Coord2D|
            b_after.valid(c) && !in_rect(c, coord, width, height) ==> #[trigger] b_after.cell(c)
                == b.cell(c),
{
    assert forall|c: Coord2D| b_after.valid(c) && in_rect(c, coord, width, height) implies {
        &&& cloned(a.cell(c), part.cell(relative(c, coord)))
        &&& cloned(part.cell(relative(c, coord)), #[trigger] b_after.cell(c))
        &&& clone_is_exact::<T>() ==> b_after.cell(c) == a.cell(c)
    } by {
        let r = relative(c, coord);
        assert(part.valid(r));
        assert(shifted(r, coord) == c);
        if clone_is_exact::<T>() {
            assert(cloned(a.cell(c), part.cell(r)));
            assert(cloned(part.cell(r), b_after.cell(c)));
        }
    }
}

} // verus!
