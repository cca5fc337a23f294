use vstd::prelude::*;
use std::cmp::Ordering;
use crate::polyominos::{
    Coord,
    Polyomino,
    shape_coords,
    shapes_of,
    shape_order,
    lemma_shape_order_equal,
    lemma_shape_order_antisymmetric,
    lemma_shape_order_transitive,
};
use crate::symmetry::{Symmetry, index_of, symmetry_at, lemma_symmetry_at_index};
use crate::text::{decimal, push_char, push_decimal};

verus! {

/// A rectangular grid of cells, each empty or holding the index of the placed
/// piece that covers it, with the pieces in the order they were placed.
#[derive(Debug, Clone)]
pub struct Board {
    pub cells: Vec<Option<usize>>,
    pub polyominos: Vec<Polyomino>,
    pub width: i8,
    pub height: i8,
}

/// The row-major index of cell (x, y) on a grid `w` cells wide.
pub open spec fn cell_index(w: int, x: int, y: int) -> int {
    x + y * w
}

pub proof fn lemma_cell_index_injective(w: int, x1: int, y1: int, x2: int, y2: int)
    requires
        0 <= x1 < w,
        0 <= x2 < w,
        cell_index(w, x1, y1) == cell_index(w, x2, y2),
    ensures
        x1 == x2,
        y1 == y2,
{
    assert((y1 - y2) * w == x2 - x1) by (nonlinear_arith)
        requires
            x1 + y1 * w == x2 + y2 * w,
    {
    }
    if y1 > y2 {
        assert((y1 - y2) * w >= w) by (nonlinear_arith)
            requires
                y1 - y2 >= 1,
                w > 0,
        {
        }
    } else if y1 < y2 {
        assert((y2 - y1) * w >= w) by (nonlinear_arith)
            requires
                y2 - y1 >= 1,
                w > 0,
        {
        }
        assert((y1 - y2) * w == -((y2 - y1) * w)) by (nonlinear_arith);
    }
}

pub proof fn lemma_cell_index_bounds(w: int, h: int, x: int, y: int)
    requires
        0 <= x < w,
        0 <= y < h,
    ensures
        0 <= cell_index(w, x, y) < w * h,
{
    assert(0 <= x + y * w < w * h) by (nonlinear_arith)
        requires
            0 <= x < w,
            0 <= y < h,
    {
    }
}

impl Board {
    /// The cells fill the rectangle.
    pub open spec fn dims_ok(&self) -> bool {
        &&& self.width >= 0
        &&& self.height >= 0
        &&& self.cells@.len() == self.width * self.height
    }

    pub open spec fn wf(&self) -> bool {
        &&& self.dims_ok()
        &&& forall|i: int|
            0 <= i < self.cells@.len() ==> (#[trigger] self.cells@[i] matches Some(p) ==> p
                < self.polyominos@.len())
        &&& forall|i: int| 0 <= i < self.polyominos@.len() ==> #[trigger] shape_coords(self.polyominos@[i].cells())
        &&& forall|p: int| 0 <= p < self.polyominos@.len() ==> #[trigger] self.shows_piece(p)
    }

    /// Some cell holds piece `p`.
    pub open spec fn shows_piece(&self, p: int) -> bool {
        exists|i: int| 0 <= i < self.cells@.len() && self.cells@[i] == Some(p as usize)
    }

    pub open spec fn in_bounds(&self, x: int, y: int) -> bool {
        0 <= x < self.width && 0 <= y < self.height
    }

    pub open spec fn cell(&self, x: int, y: int) -> Option<usize> {
        self.cells@[cell_index(self.width as int, x, y)]
    }

    pub open spec fn is_full_spec(&self) -> bool {
        forall|i: int| 0 <= i < self.cells@.len() ==> #[trigger] self.cells@[i] is Some
    }

    /// Cell (x, y) is the first empty cell in row-major order.
    pub open spec fn is_first_open(&self, x: int, y: int) -> bool {
        &&& self.in_bounds(x, y)
        &&& self.cell(x, y) is None
        &&& forall|i: int| 0 <= i < cell_index(self.width as int, x, y) ==> #[trigger] self.cells@[i] is Some
    }

    pub open spec fn first_open(&self) -> (int, int) {
        choose|p: (int, int)| self.is_first_open(p.0, p.1)
    }

    /// Every coordinate of `p`, anchored at (x, y), falls on an empty cell of the board.
    pub open spec fn fits(&self, p: Seq<Coord>, x: int, y: int) -> bool {
        forall|k: int|
            0 <= k < p.len() ==> {
                &&& self.in_bounds(x + (#[trigger] p[k]).0, y + p[k].1)
                &&& self.cell(x + p[k].0, y + p[k].1) is None
            }
    }

    /// A shape can be placed: the board has an empty cell, and the shape anchored
    /// at the first one fits.
    pub open spec fn can_place(&self, p: Seq<Coord>) -> bool {
        !self.is_full_spec() && self.fits(p, self.first_open().0, self.first_open().1)
    }

    /// Cell `i` is covered by `p` anchored at (x, y).
    pub open spec fn covers(&self, p: Seq<Coord>, x: int, y: int, i: int) -> bool {
        self.covers_first(p, x, y, p.len() as int, i)
    }

    /// Cell `i` is covered by one of the first `m` coordinates of `p` anchored at (x, y).
    pub open spec fn covers_first(&self, p: Seq<Coord>, x: int, y: int, m: int, i: int) -> bool {
        exists|k: int| 0 <= k < m && k < p.len() && #[trigger] cell_index(self.width as int, x + p[k].0, y + p[k].1) == i
    }

    /// `next` is this board with `p` placed with its origin at (x, y).
    pub open spec fn placed_at(&self, next: &Board, p: &Polyomino, x: int, y: int) -> bool {
        &&& next.width == self.width
        &&& next.height == self.height
        &&& next.cells@.len() == self.cells@.len()
        &&& forall|i: int|
            0 <= i < self.cells@.len() ==> #[trigger] next.cells@[i] == if self.covers(p.cells(), x, y, i) {
                Some(self.polyominos@.len() as usize)
            } else {
                self.cells@[i]
            }
        &&& shapes_of(next.polyominos@) == shapes_of(self.polyominos@).push(p.cells())
        &&& tables_of(next.polyominos@) == tables_of(self.polyominos@).push(p.symmetries@)
    }

    /// `next` is this board with `p` placed at the first empty cell.
    pub open spec fn placed(&self, next: &Board, p: &Polyomino) -> bool {
        self.placed_at(next, p, self.first_open().0, self.first_open().1)
    }
}

impl Board {
    /// An empty board of `width` by `height` cells.
    pub fn new(width: usize, height: usize) -> (r: Board)
        requires
            width <= 127,
            height <= 127,
        ensures
            r.wf(),
            r.width == width,
            r.height == height,
            forall|i: int| 0 <= i < r.cells@.len() ==> #[trigger] r.cells@[i] is None,
            r.polyominos@.len() == 0,
    {
        assert(width * height <= 127 * 127) by (nonlinear_arith)
            requires
                width <= 127,
                height <= 127,
        {
        }
        let n = width * height;
        let mut cells: Vec<Option<usize>> = Vec::new();
        let mut i: usize = 0;
        while i < n
            invariant
                i <= n,
                cells@.len() == i,
                forall|j: int| 0 <= j < i ==> #[trigger] cells@[j] is None,
            decreases n - i,
        {
            cells.push(None);
            i = i + 1;
        }
        Board { cells, polyominos: Vec::new(), width: width as i8, height: height as i8 }
    }

    fn is_in_bounds(&self, x: i32, y: i32) -> (r: bool)
        ensures
            r == self.in_bounds(x as int, y as int),
    {
        !(x < 0 || y < 0 || x >= self.width as i32 || y >= self.height as i32)
    }

    fn cell_at(&self, x: i32, y: i32) -> (r: Option<Option<usize>>)
        requires
            self.dims_ok(),
        ensures
            r == if self.in_bounds(x as int, y as int) {
                Some(self.cell(x as int, y as int))
            } else {
                None
            },
    {
        if self.is_in_bounds(x, y) {
            proof {
                lemma_cell_index_bounds(self.width as int, self.height as int, x as int, y as int);
            }
            Some(self.cells[flat_index(x, y, self.width, self.height)])
        } else {
            None
        }
    }

    /// The content of cell (x, y): `None` off the board, else `Some` of the cell,
    /// which is `None` when empty.
    pub fn get(&self, x: i8, y: i8) -> (r: Option<Option<usize>>)
        requires
            self.wf(),
        ensures
            r == if self.in_bounds(x as int, y as int) {
                Some(self.cell(x as int, y as int))
            } else {
                None
            },
    {
        self.cell_at(x as i32, y as i32)
    }

    fn set_at(&mut self, x: i32, y: i32, value: Option<usize>)
        requires
            old(self).dims_ok(),
            old(self).in_bounds(x as int, y as int),
            old(self).cell(x as int, y as int) is None,
        ensures
            final(self).cells@ == old(self).cells@.update(cell_index(old(self).width as int, x as int, y as int), value),
            final(self).polyominos == old(self).polyominos,
            final(self).width == old(self).width,
            final(self).height == old(self).height,
    {
        proof {
            lemma_cell_index_bounds(self.width as int, self.height as int, x as int, y as int);
        }
        let index = flat_index(x, y, self.width, self.height);
        self.cells.set(index, value);
    }

    /// Writes `value` into the empty cell (x, y).
    pub fn set(&mut self, x: i8, y: i8, value: Option<usize>)
        requires
            old(self).wf(),
            old(self).in_bounds(x as int, y as int),
            old(self).cell(x as int, y as int) is None,
        ensures
            final(self).cells@ == old(self).cells@.update(cell_index(old(self).width as int, x as int, y as int), value),
            final(self).polyominos == old(self).polyominos,
            final(self).width == old(self).width,
            final(self).height == old(self).height,
    {
        self.set_at(x as i32, y as i32, value)
    }

    /// The first empty cell in row-major order, if any.
    fn find_first_open_cell(&self) -> (r: Option<(i8, i8)>)
        requires
            self.wf(),
        ensures
            r is None <==> self.is_full_spec(),
            r matches Some(p) ==> self.is_first_open(p.0 as int, p.1 as int),
    {
        let w = self.width;
        let h = self.height;
        let mut y: i8 = 0;
        while y < h
            invariant
                self.wf(),
                w == self.width,
                h == self.height,
                0 <= y <= h,
                forall|i: int| 0 <= i < y * w ==> #[trigger] self.cells@[i] is Some,
            decreases h - y,
        {
            let mut x: i8 = 0;
            while x < w
                invariant
                    self.wf(),
                    w == self.width,
                    h == self.height,
                    0 <= y < h,
                    0 <= x <= w,
                    forall|i: int| 0 <= i < y * w + x ==> #[trigger] self.cells@[i] is Some,
                decreases w - x,
            {
                proof {
                    lemma_cell_index_bounds(w as int, h as int, x as int, y as int);
                }
                if self.cells[flat_index(x as i32, y as i32, w, h)].is_none() {
                    return Some((x, y));
                }
                x = x + 1;
            }
            assert((y + 1) * w == y * w + w) by (nonlinear_arith);
            y = y + 1;
        }
        None
    }

    pub fn is_full(&self) -> (r: bool)
        requires
            self.wf(),
        ensures
            r == self.is_full_spec(),
    {
        self.find_first_open_cell().is_none()
    }
}

fn flat_index(x: i32, y: i32, w: i8, h: i8) -> (r: usize)
    requires
        0 <= x < w,
        0 <= y < h,
    ensures
        r as int == cell_index(w as int, x as int, y as int),
        r < w * h,
{
    proof {
        assert(0 <= y * w <= 127 * 127) by (nonlinear_arith)
            requires
                0 <= y < h,
                h <= 127,
                0 < w <= 127,
        {
        }
        lemma_cell_index_bounds(w as int, h as int, x as int, y as int);
    }
    let yw: usize = (y as usize) * (w as usize);
    x as usize + yw
}

impl Board {
    /// Where `poly` would go: the first empty cell, if the shape anchored there
    /// lies on the board and covers only empty cells.
    fn try_add(&self, poly: &Polyomino) -> (r: Option<(i8, i8)>)
        requires
            self.wf(),
        ensures
            r is Some <==> self.can_place(poly.cells()),
            r matches Some(p) ==> (p.0 as int, p.1 as int) == self.first_open(),
    {
        match self.find_first_open_cell() {
            None => None,
            Some((bx, by)) => {
                proof {
                    lemma_first_open_unique(self, bx as int, by as int);
                }
                let mut k: usize = 0;
                while k < poly.coords().len()
                    invariant
                        self.wf(),
                        (bx as int, by as int) == self.first_open(),
                        k <= poly.cells().len(),
                        forall|kk: int|
                            0 <= kk < k ==> {
                                &&& self.in_bounds(bx + (#[trigger] poly.cells()[kk]).0, by + poly.cells()[kk].1)
                                &&& self.cell(bx + poly.cells()[kk].0, by + poly.cells()[kk].1) is None
                            },
                    decreases poly.cells().len() - k,
                {
                    let (px, py) = poly.coords()[k];
                    match self.cell_at(bx as i32 + px as i32, by as i32 + py as i32) {
                        Some(None) => {},
                        _ => {
                            return None;
                        },
                    }
                    k = k + 1;
                }
                Some((bx, by))
            },
        }
    }

    /// Writes the next piece index into every cell that `poly` anchored at
    /// `base` covers, and appends the piece.
    fn add_at_position(&mut self, poly: &Polyomino, base: (i8, i8))
        requires
            old(self).wf(),
            shape_coords(poly.cells()),
            old(self).fits(poly.cells(), base.0 as int, base.1 as int),
        ensures
            old(self).placed_at(&*final(self), poly, base.0 as int, base.1 as int),
            final(self).wf(),
    {
        let ghost start = *self;
        let ghost p = poly.cells();
        let ghost w = self.width as int;
        let n = self.polyominos.len();
        let (bx, by) = base;
        let mut k: usize = 0;
        while k < poly.coords().len()
            invariant
                start.wf(),
                start.fits(p, bx as int, by as int),
                p == poly.cells(),
                shape_coords(p),
                self.dims_ok(),
                self.width == start.width,
                self.height == start.height,
                self.polyominos == start.polyominos,
                n == start.polyominos@.len(),
                w == self.width,
                self.cells@.len() == start.cells@.len(),
                k <= p.len(),
                forall|i: int|
                    0 <= i < self.cells@.len() ==> #[trigger] self.cells@[i] == if start.covers_first(p, bx as int, by as int, k as int, i) {
                        Some(n)
                    } else {
                        start.cells@[i]
                    },
            decreases p.len() - k,
        {
            let (px, py) = poly.coords()[k];
            let x = bx as i32 + px as i32;
            let y = by as i32 + py as i32;
            proof {
                let t = cell_index(w, x as int, y as int);
                assert(start.in_bounds(bx + p[k as int].0, by + p[k as int].1));
                lemma_cell_index_bounds(w, self.height as int, x as int, y as int);
                if start.covers_first(p, bx as int, by as int, k as int, t) {
                    let kk = choose|kk: int| 0 <= kk < k && kk < p.len() && #[trigger] cell_index(w, bx + p[kk].0, by + p[kk].1) == t;
                    assert(start.in_bounds(bx + p[kk].0, by + p[kk].1));
                    lemma_cell_index_injective(w, bx + p[kk].0, by + p[kk].1, x as int, y as int);
                    assert(p[kk] == p[k as int]);
                    assert(crate::polyominos::coord_lt(p[kk], p[k as int]));
                }
                assert(self.cells@[t] == start.cells@[t]);
            }
            self.set_at(x, y, Some(n));
            proof {
                let t = cell_index(w, x as int, y as int);
                assert forall|i: int| 0 <= i < self.cells@.len() implies #[trigger] self.cells@[i] == if start.covers_first(
                    p,
                    bx as int,
                    by as int,
                    k + 1,
                    i,
                ) {
                    Some(n)
                } else {
                    start.cells@[i]
                } by {
                    if i == t {
                        assert(cell_index(w, bx + p[k as int].0, by + p[k as int].1) == t);
                        assert(start.covers_first(p, bx as int, by as int, k + 1, i));
                    } else {
                        if start.covers_first(p, bx as int, by as int, k + 1, i) {
                            let kk = choose|kk: int| 0 <= kk < k + 1 && kk < p.len() && #[trigger] cell_index(w, bx + p[kk].0, by + p[kk].1) == i;
                            assert(kk != k);
                            assert(start.covers_first(p, bx as int, by as int, k as int, i));
                        }
                    }
                }
            }
            k = k + 1;
        }
        let piece = poly.duplicate();
        self.polyominos.push(piece);
        proof {
            let olds = start.polyominos@;
            assert(self.polyominos@ == olds.push(piece));
            assert(shapes_of(self.polyominos@) =~= shapes_of(olds).push(p));
            assert(tables_of(self.polyominos@) =~= tables_of(olds).push(poly.symmetries@));
            assert forall|i: int| 0 <= i < self.polyominos@.len() implies #[trigger] shape_coords(self.polyominos@[i].cells()) by {
                if i < olds.len() {
                    assert(self.polyominos@[i] == olds[i]);
                }
            }
            let (ax, ay) = (bx as int, by as int);
            let o = choose|k: int| 0 <= k < p.len() && p[k] == (0i8, 0i8);
            let anchor = cell_index(w, ax, ay);
            assert(start.in_bounds(ax + p[o].0, ay + p[o].1));
            lemma_cell_index_bounds(w, self.height as int, ax, ay);
            assert(cell_index(w, ax + p[o].0, ay + p[o].1) == anchor);
            assert(start.covers_first(p, ax, ay, p.len() as int, anchor));
            assert(self.cells@[anchor] == Some(n));
            assert forall|q: int| 0 <= q < self.polyominos@.len() implies #[trigger] self.shows_piece(q) by {
                if q < n {
                    assert(start.shows_piece(q));
                    let i = choose|i: int| 0 <= i < start.cells@.len() && start.cells@[i] == Some(q as usize);
                    if start.covers_first(p, ax, ay, p.len() as int, i) {
                        let kk = choose|kk: int| 0 <= kk < p.len() && kk < p.len() && #[trigger] cell_index(w, ax + p[kk].0, ay + p[kk].1) == i;
                        assert(start.in_bounds(ax + p[kk].0, ay + p[kk].1));
                        assert(start.cells@[i] is None);
                    }
                    assert(self.cells@[i] == Some(q as usize));
                } else {
                    assert(self.cells@[anchor] == Some(q as usize));
                }
            }
            assert forall|i: int| 0 <= i < self.cells@.len() implies (#[trigger] self.cells@[i] matches Some(q) ==> q
                < self.polyominos@.len()) by {
                if start.covers_first(p, bx as int, by as int, p.len() as int, i) {
                } else {
                    assert(self.cells@[i] == start.cells@[i]);
                }
            }
        }
    }

    /// Places `poly` at the first empty cell if it fits there; says whether it did.
    pub fn add(&mut self, poly: &Polyomino) -> (r: bool)
        requires
            old(self).wf(),
            shape_coords(poly.cells()),
        ensures
            r == old(self).can_place(poly.cells()),
            r ==> old(self).placed(&*final(self), poly),
            !r ==> *final(self) == *old(self),
            final(self).wf(),
    {
        match self.try_add(poly) {
            Some(coords) => {
                self.add_at_position(poly, coords);
                true
            },
            None => false,
        }
    }

    /// A copy of the board with `poly` placed at the first empty cell, if it fits there.
    pub fn add_clone(&self, poly: &Polyomino) -> (r: Option<Board>)
        requires
            self.wf(),
            shape_coords(poly.cells()),
        ensures
            r is Some <==> self.can_place(poly.cells()),
            r matches Some(b) ==> self.placed(&b, poly) && b.wf(),
    {
        match self.try_add(poly) {
            Some(coords) => {
                let mut ret = self.duplicate();
                let ghost copy = ret;
                proof {
                    assert(shapes_of(copy.polyominos@).len() == shapes_of(self.polyominos@).len());
                    assert(copy.polyominos@.len() == self.polyominos@.len());
                }
                ret.add_at_position(poly, coords);
                proof {
                    assert forall|i: int| 0 <= i < self.cells@.len() implies #[trigger] ret.cells@[i] == if self.covers(
                        poly.cells(),
                        coords.0 as int,
                        coords.1 as int,
                        i,
                    ) {
                        Some(self.polyominos@.len() as usize)
                    } else {
                        self.cells@[i]
                    } by {
                        assert(copy.covers(poly.cells(), coords.0 as int, coords.1 as int, i) == self.covers(
                            poly.cells(),
                            coords.0 as int,
                            coords.1 as int,
                            i,
                        ));
                    }
                }
                Some(ret)
            },
            None => None,
        }
    }

    /// A copy of the board: same cells, same pieces with their tables.
    pub fn duplicate(&self) -> (r: Board)
        ensures
            r.cells@ == self.cells@,
            shapes_of(r.polyominos@) == shapes_of(self.polyominos@),
            tables_of(r.polyominos@) == tables_of(self.polyominos@),
            r.width == self.width,
            r.height == self.height,
            self.wf() ==> r.wf(),
            self.dims_ok() ==> r.dims_ok(),
    {
        let mut cells: Vec<Option<usize>> = Vec::new();
        let mut i: usize = 0;
        while i < self.cells.len()
            invariant
                i <= self.cells@.len(),
                cells@ == self.cells@.subrange(0, i as int),
            decreases self.cells@.len() - i,
        {
            cells.push(self.cells[i]);
            i = i + 1;
            assert(cells@ =~= self.cells@.subrange(0, i as int));
        }
        let mut polyominos: Vec<Polyomino> = Vec::new();
        let mut j: usize = 0;
        while j < self.polyominos.len()
            invariant
                j <= self.polyominos@.len(),
                polyominos@.len() == j,
                forall|k: int| 0 <= k < j ==> (#[trigger] polyominos@[k]).cells() == self.polyominos@[k].cells()
                    && polyominos@[k].symmetries@ == self.polyominos@[k].symmetries@,
            decreases self.polyominos@.len() - j,
        {
            polyominos.push(self.polyominos[j].duplicate());
            j = j + 1;
        }
        assert(cells@ =~= self.cells@);
        assert(shapes_of(polyominos@) =~= shapes_of(self.polyominos@));
        assert(tables_of(polyominos@) =~= tables_of(self.polyominos@));
        let r = Board { cells, polyominos, width: self.width, height: self.height };
        proof {
            if self.wf() {
                assert forall|k: int| 0 <= k < r.polyominos@.len() implies #[trigger] shape_coords(r.polyominos@[k].cells()) by {
                    assert(r.polyominos@[k].cells() == self.polyominos@[k].cells());
                }
                assert forall|q: int| 0 <= q < r.polyominos@.len() implies #[trigger] r.shows_piece(q) by {
                    assert(self.shows_piece(q));
                    let i = choose|i: int| 0 <= i < self.cells@.len() && self.cells@[i] == Some(q as usize);
                    assert(r.cells@[i] == Some(q as usize));
                }
            }
        }
        r
    }
}

/// A tiling as the sequence of its pieces' shapes.
#[derive(Debug, Clone)]
pub struct Solution(pub Vec<Polyomino>);

/// Pairwise comparison of two shape sequences of one length: the first
/// differing pair decides, by shape order.
pub open spec fn pieces_lex(a: Seq<Seq<Coord>>, b: Seq<Seq<Coord>>) -> Ordering
    decreases a.len(),
{
    if a.len() == 0 || b.len() == 0 {
        Ordering::Equal
    } else if a[0] != b[0] {
        shape_order(a[0], b[0])
    } else {
        pieces_lex(a.drop_first(), b.drop_first())
    }
}

/// The order of solutions: fewer pieces first, then piece by piece.
pub open spec fn solution_order(a: Seq<Seq<Coord>>, b: Seq<Seq<Coord>>) -> Ordering {
    if a.len() < b.len() {
        Ordering::Less
    } else if a.len() > b.len() {
        Ordering::Greater
    } else {
        pieces_lex(a, b)
    }
}

pub proof fn lemma_pieces_lex_equal(a: Seq<Seq<Coord>>, b: Seq<Seq<Coord>>)
    requires
        a.len() == b.len(),
        pieces_lex(a, b) == Ordering::Equal,
    ensures
        a == b,
    decreases a.len(),
{
    if a.len() > 0 {
        if a[0] == b[0] {
            lemma_pieces_lex_equal(a.drop_first(), b.drop_first());
            assert forall|i: int| 0 <= i < a.len() implies a[i] == b[i] by {
                if i > 0 {
                    assert(a[i] == a.drop_first()[i - 1]);
                    assert(b[i] == b.drop_first()[i - 1]);
                }
            }
        } else {
            lemma_shape_order_equal(a[0], b[0]);
        }
    }
    assert(a =~= b);
}

pub proof fn lemma_pieces_lex_antisymmetric(a: Seq<Seq<Coord>>, b: Seq<Seq<Coord>>)
    ensures
        (pieces_lex(a, b) == Ordering::Greater) == (pieces_lex(b, a) == Ordering::Less),
    decreases a.len(),
{
    if a.len() > 0 && b.len() > 0 {
        if a[0] == b[0] {
            lemma_pieces_lex_antisymmetric(a.drop_first(), b.drop_first());
        } else {
            lemma_shape_order_antisymmetric(a[0], b[0]);
        }
    }
}

pub proof fn lemma_pieces_lex_transitive(a: Seq<Seq<Coord>>, b: Seq<Seq<Coord>>, c: Seq<Seq<Coord>>)
    requires
        a.len() == b.len() == c.len(),
        pieces_lex(a, b) == Ordering::Less,
        pieces_lex(b, c) != Ordering::Greater,
    ensures
        pieces_lex(a, c) == Ordering::Less,
    decreases a.len(),
{
    if pieces_lex(b, c) == Ordering::Equal {
        lemma_pieces_lex_equal(b, c);
    } else if a[0] == b[0] && b[0] == c[0] {
        lemma_pieces_lex_transitive(a.drop_first(), b.drop_first(), c.drop_first());
    } else if a[0] == b[0] {
        assert(b[0] != c[0]);
    } else if b[0] == c[0] {
        assert(a[0] != c[0]);
    } else {
        lemma_shape_order_antisymmetric(b[0], c[0]);
        if a[0] == c[0] {
            lemma_shape_order_antisymmetric(a[0], b[0]);
        } else {
            lemma_shape_order_transitive(a[0], b[0], c[0]);
        }
    }
}

pub proof fn lemma_pieces_lex_reflexive(a: Seq<Seq<Coord>>)
    ensures
        pieces_lex(a, a) == Ordering::Equal,
    decreases a.len(),
{
    if a.len() > 0 {
        lemma_pieces_lex_reflexive(a.drop_first());
    }
}

/// Solutions that compare equal are the same.
pub proof fn lemma_solution_order_equal(a: Seq<Seq<Coord>>, b: Seq<Seq<Coord>>)
    requires
        solution_order(a, b) == Ordering::Equal,
    ensures
        a == b,
{
    lemma_pieces_lex_equal(a, b);
}

/// One solution is greater than another exactly when the other is less.
pub proof fn lemma_solution_order_antisymmetric(a: Seq<Seq<Coord>>, b: Seq<Seq<Coord>>)
    ensures
        (solution_order(a, b) == Ordering::Greater) == (solution_order(b, a) == Ordering::Less),
{
    lemma_pieces_lex_antisymmetric(a, b);
}

/// Less than, then at most, is less than.
pub proof fn lemma_solution_order_transitive(a: Seq<Seq<Coord>>, b: Seq<Seq<Coord>>, c: Seq<Seq<Coord>>)
    requires
        solution_order(a, b) == Ordering::Less,
        solution_order(b, c) != Ordering::Greater,
    ensures
        solution_order(a, c) == Ordering::Less,
{
    if solution_order(b, c) == Ordering::Equal {
        lemma_solution_order_equal(b, c);
    } else if a.len() == b.len() && b.len() == c.len() {
        lemma_pieces_lex_transitive(a, b, c);
    }
}

impl Solution {
    pub open spec fn shapes(&self) -> Seq<Seq<Coord>> {
        shapes_of(self.0@)
    }

    fn new(inner: Vec<Polyomino>) -> (r: Solution)
        ensures
            r.0 == inner,
    {
        Solution(inner)
    }

    /// Compares by the order of solutions.
    pub fn solution_cmp(&self, other: &Solution) -> (r: Ordering)
        ensures
            r == solution_order(self.shapes(), other.shapes()),
    {
        let n = self.0.len();
        if n > other.0.len() {
            return Ordering::Greater;
        } else if n < other.0.len() {
            return Ordering::Less;
        }
        let ghost a = self.shapes();
        let ghost b = other.shapes();
        let mut i: usize = 0;
        assert(a.subrange(0, n as int) =~= a);
        assert(b.subrange(0, n as int) =~= b);
        while i < n
            invariant
                n == self.0@.len() == other.0@.len(),
                a == self.shapes(),
                b == other.shapes(),
                i <= n,
                pieces_lex(a.subrange(i as int, n as int), b.subrange(i as int, n as int)) == pieces_lex(a, b),
            decreases n - i,
        {
            let ghost sa = a.subrange(i as int, n as int);
            let ghost sb = b.subrange(i as int, n as int);
            assert(sa.drop_first() =~= a.subrange(i + 1, n as int));
            assert(sb.drop_first() =~= b.subrange(i + 1, n as int));
            assert(sa[0] == self.0@[i as int].cells());
            assert(sb[0] == other.0@[i as int].cells());
            let o = self.0[i].shape_cmp(&other.0[i]);
            match o {
                Ordering::Equal => {
                    proof {
                        lemma_shape_order_equal(sa[0], sb[0]);
                    }
                },
                _ => {
                    proof {
                        if sa[0] == sb[0] {
                            crate::polyominos::lemma_lex_reflexive(sa[0]);
                        }
                    }
                    return o;
                },
            }
            i = i + 1;
        }
        Ordering::Equal
    }
}

impl PartialEq for Solution {
    fn eq(&self, other: &Solution) -> (r: bool) {
        match self.solution_cmp(other) {
            Ordering::Equal => {
                proof {
                    lemma_solution_order_equal(self.shapes(), other.shapes());
                }
                true
            },
            _ => {
                proof {
                    if self.shapes() == other.shapes() {
                        lemma_pieces_lex_reflexive(self.shapes());
                    }
                }
                false
            },
        }
    }
}

impl vstd::std_specs::cmp::PartialEqSpecImpl for Solution {
    open spec fn obeys_eq_spec() -> bool {
        true
    }

    open spec fn eq_spec(&self, other: &Solution) -> bool {
        self.shapes() == other.shapes()
    }
}

impl Eq for Solution {

}

impl PartialOrd for Solution {
    fn partial_cmp(&self, other: &Solution) -> (r: Option<Ordering>) {
        Some(self.solution_cmp(other))
    }
}

impl vstd::std_specs::cmp::PartialOrdSpecImpl for Solution {
    open spec fn obeys_partial_cmp_spec() -> bool {
        true
    }

    open spec fn partial_cmp_spec(&self, other: &Solution) -> Option<Ordering> {
        Some(solution_order(self.shapes(), other.shapes()))
    }
}

/// The cell of a `w` by `h` board that cell (x, y) of its image under `s`
/// shows: transpose if diagonal, then mirror across the width if horizontal and
/// across the height if vertical.
pub open spec fn source_cell(w: int, h: int, s: Symmetry, x: int, y: int) -> (int, int) {
    let a = if s.diagonal { y } else { x };
    let b = if s.diagonal { x } else { y };
    (if s.horizontal { w - 1 - a } else { a }, if s.vertical { h - 1 - b } else { b })
}

/// The distinct values of `s` in order of first appearance.
pub open spec fn first_seen(s: Seq<usize>) -> Seq<usize>
    decreases s.len(),
{
    if s.len() == 0 {
        Seq::empty()
    } else {
        let p = first_seen(s.drop_last());
        if p.contains(s.last()) {
            p
        } else {
            p.push(s.last())
        }
    }
}

impl Board {
    pub open spec fn piece_at(&self, x: int, y: int) -> usize {
        match self.cell(x, y) {
            Some(i) => i,
            None => 0,
        }
    }

    /// The piece indices met when reading the image of the board under `s`
    /// in row-major order.
    pub open spec fn visit(&self, s: Symmetry) -> Seq<usize> {
        let w = self.width as int;
        let h = self.height as int;
        Seq::new(
            (w * h) as nat,
            |k: int| {
                let c = source_cell(w, h, s, k % w, k / w);
                self.piece_at(c.0, c.1)
            },
        )
    }

    /// The diagonal transpose applies to square boards only.
    pub open spec fn applicable(&self, s: Symmetry) -> bool {
        self.width == self.height || !s.diagonal
    }

    /// Every piece has a transform table into a catalog of `n` shapes.
    pub open spec fn tables_fit(&self, n: int) -> bool {
        forall|i: int|
            0 <= i < self.polyominos@.len() ==> (#[trigger] self.polyominos@[i]).symmetries@.len() == 8
                && forall|k: int| 0 <= k < 8 ==> #[trigger] self.polyominos@[i].symmetries@[k] < n
    }

    /// The catalog indices of the pieces of the board's image under `s`, in
    /// the order the image meets them.
    pub open spec fn picked(&self, s: Symmetry) -> Seq<int> {
        first_seen(self.visit(s)).map_values(
            |i: usize| self.polyominos@[i as int].symmetries@[index_of(s) as int] as int,
        )
    }
}

/// `f` is the least of the solutions that the images of `b` under its
/// applicable symmetries spell.
pub open spec fn is_canonical_form(b: Board, catalog: Seq<Polyomino>, f: Seq<Seq<Coord>>) -> bool {
    &&& exists|s: Symmetry| b.applicable(s) && f == #[trigger] symmetric_solution(b, s, catalog)
    &&& forall|s: Symmetry|
        b.applicable(s) ==> solution_order(f, #[trigger] symmetric_solution(b, s, catalog)) != Ordering::Greater
}

/// `f` is the canonical form of some tiling of a `w` by `h` board.
pub open spec fn canonical_of_some_tiling(f: Seq<Seq<Coord>>, w: int, h: int, catalog: Seq<Polyomino>) -> bool {
    exists|b: Board|
        b.wf() && b.is_full_spec() && b.width == w && b.height == h && #[trigger] is_canonical_form(b, catalog, f)
}

/// The solution that the image of `b` under `s` spells, with shapes from `catalog`.
pub open spec fn symmetric_solution(b: Board, s: Symmetry, catalog: Seq<Polyomino>) -> Seq<Seq<Coord>> {
    b.picked(s).map_values(|i: int| catalog[i].cells())
}

fn contains_index(v: &Vec<usize>, x: usize) -> (r: bool)
    ensures
        r == v@.contains(x),
{
    let mut i: usize = 0;
    while i < v.len()
        invariant
            i <= v@.len(),
            forall|k: int| 0 <= k < i ==> v@[k] != x,
        decreases v@.len() - i,
    {
        if v[i] == x {
            return true;
        }
        i = i + 1;
    }
    false
}

impl Board {
    /// The solution spelled by the image of this full board under `symmetry`:
    /// its pieces in the order the image meets them, each replaced by its
    /// catalog entry under `symmetry`.
    pub fn symmetric_board_polyominos(&self, symmetry: Symmetry, catalog: &[Polyomino]) -> (r: Solution)
        requires
            self.wf(),
            self.is_full_spec(),
            self.applicable(symmetry),
            self.tables_fit(catalog@.len() as int),
        ensures
            r.0@.len() == self.picked(symmetry).len(),
            r.0@.len() == self.polyominos@.len(),
            forall|j: int|
                0 <= j < r.0@.len() ==> (#[trigger] r.0@[j]).cells() == catalog@[self.picked(symmetry)[j]].cells()
                    && r.0@[j].symmetries@ == catalog@[self.picked(symmetry)[j]].symmetries@,
            r.shapes() == symmetric_solution(*self, symmetry, catalog@),
    {
        let w = self.width;
        let h = self.height;
        let ghost v = self.visit(symmetry);
        let mut indices: Vec<usize> = Vec::new();
        let mut y: i8 = 0;
        while y < h
            invariant
                self.wf(),
                self.is_full_spec(),
                self.applicable(symmetry),
                w == self.width,
                h == self.height,
                v == self.visit(symmetry),
                0 <= y <= h,
                indices@ == first_seen(v.take(y * w)),
                forall|j: int| 0 <= j < indices@.len() ==> #[trigger] indices@[j] < self.polyominos@.len(),
            decreases h - y,
        {
            let mut x: i8 = 0;
            while x < w
                invariant
                    self.wf(),
                    self.is_full_spec(),
                    self.applicable(symmetry),
                    w == self.width,
                    h == self.height,
                    v == self.visit(symmetry),
                    0 <= y < h,
                    0 <= x <= w,
                    indices@ == first_seen(v.take(y * w + x)),
                    forall|j: int| 0 <= j < indices@.len() ==> #[trigger] indices@[j] < self.polyominos@.len(),
                decreases w - x,
            {
                let a = if symmetry.diagonal { y } else { x };
                let b = if symmetry.diagonal { x } else { y };
                let sx = if symmetry.horizontal { w - 1 - a } else { a };
                let sy = if symmetry.vertical { h - 1 - b } else { b };
                let ghost k = y * w + x;
                proof {
                    vstd::arithmetic::div_mod::lemma_fundamental_div_mod_converse(k, w as int, y as int, x as int);
                    lemma_cell_index_bounds(w as int, h as int, x as int, y as int);
                    lemma_cell_index_bounds(w as int, h as int, sx as int, sy as int);
                    assert(source_cell(w as int, h as int, symmetry, x as int, y as int) == (sx as int, sy as int));
                    assert(self.cells@[cell_index(w as int, sx as int, sy as int)] is Some);
                }
                let index = self.cells[flat_index(sx as i32, sy as i32, w, h)].unwrap();
                proof {
                    assert(v[k] == index);
                    assert(v.take(k + 1).drop_last() =~= v.take(k));
                    assert(v.take(k + 1).last() == index);
                }
                if !contains_index(&indices, index) {
                    indices.push(index);
                }
                x = x + 1;
            }
            assert((y + 1) * w == y * w + w) by (nonlinear_arith);
            y = y + 1;
        }
        assert(v.take(h * w) =~= v) by {
            assert(h * w == w * h) by (nonlinear_arith);
        }
        let ghost picked = self.picked(symmetry);
        let mut out: Vec<Polyomino> = Vec::new();
        let mut j: usize = 0;
        while j < indices.len()
            invariant
                self.wf(),
                self.tables_fit(catalog@.len() as int),
                picked == self.picked(symmetry),
                indices@ == first_seen(v),
                v == self.visit(symmetry),
                forall|i: int| 0 <= i < indices@.len() ==> #[trigger] indices@[i] < self.polyominos@.len(),
                j <= indices@.len(),
                out@.len() == j,
                forall|i: int|
                    0 <= i < j ==> (#[trigger] out@[i]).cells() == catalog@[picked[i]].cells()
                        && out@[i].symmetries@ == catalog@[picked[i]].symmetries@,
            decreases indices@.len() - j,
        {
            let piece = &self.polyominos[indices[j]];
            proof {
                assert(self.polyominos@[indices@[j as int] as int].symmetries@.len() == 8);
            }
            let t = piece.transform(symmetry, catalog);
            out.push(t.duplicate());
            j = j + 1;
        }
        let r = Solution::new(out);
        assert(r.shapes() =~= symmetric_solution(*self, symmetry, catalog@));
        // The count of pieces fits in a usize.
        let piece_count = self.polyominos.len();
        proof {
            assert(piece_count == self.polyominos@.len());
            lemma_visit_pieces(*self, symmetry);
            lemma_first_seen_len(self.visit(symmetry), self.polyominos@.len() as int);
        }
        r
    }

    /// The least, in the order of solutions, of the solutions that the images
    /// of this full board under its applicable symmetries spell.
    pub fn cannonical_form(&self, catalog: &[Polyomino]) -> (r: Solution)
        requires
            self.wf(),
            self.is_full_spec(),
            self.tables_fit(catalog@.len() as int),
        ensures
            is_canonical_form(*self, catalog@, r.shapes()),
    {
        let identity = Symmetry::from_index(0);
        let mut best = self.symmetric_board_polyominos(identity, catalog);
        proof {
            lemma_pieces_lex_reflexive(best.shapes());
        }
        let mut i: usize = 1;
        while i < 8
            invariant
                self.wf(),
                self.is_full_spec(),
                self.tables_fit(catalog@.len() as int),
                1 <= i <= 8,
                exists|k: int|
                    0 <= k < i && self.applicable(symmetry_at(k)) && best.shapes() == #[trigger] symmetric_solution(
                        *self,
                        symmetry_at(k),
                        catalog@,
                    ),
                forall|k: int|
                    0 <= k < i && self.applicable(symmetry_at(k)) ==> solution_order(
                        best.shapes(),
                        #[trigger] symmetric_solution(*self, symmetry_at(k), catalog@),
                    ) != Ordering::Greater,
            decreases 8 - i,
        {
            let symmetry = Symmetry::from_index(i);
            if self.width == self.height || !symmetry.diagonal {
                let current = self.symmetric_board_polyominos(symmetry, catalog);
                let ghost prev = best.shapes();
                proof {
                    lemma_pieces_lex_reflexive(current.shapes());
                }
                let less = match current.solution_cmp(&best) {
                    Ordering::Less => true,
                    _ => false,
                };
                if less {
                    proof {
                        assert forall|k: int|
                            0 <= k < i && self.applicable(symmetry_at(k)) implies solution_order(
                                current.shapes(),
                                #[trigger] symmetric_solution(*self, symmetry_at(k), catalog@),
                            ) == Ordering::Less by {
                            lemma_solution_order_transitive(
                                current.shapes(),
                                prev,
                                symmetric_solution(*self, symmetry_at(k), catalog@),
                            );
                        }
                    }
                    best = current;
                } else {
                    proof {
                        lemma_solution_order_antisymmetric(prev, current.shapes());
                    }
                }
            }
            i = i + 1;
        }
        proof {
            assert forall|s: Symmetry|
                self.applicable(s) implies solution_order(best.shapes(), #[trigger] symmetric_solution(*self, s, catalog@))
                != Ordering::Greater by {
                lemma_symmetry_at_index(s);
                let k = index_of(s) as int;
                assert(symmetry_at(k) == s);
            }
            let k = choose|k: int|
                0 <= k < 8 && self.applicable(symmetry_at(k)) && best.shapes() == #[trigger] symmetric_solution(
                    *self,
                    symmetry_at(k),
                    catalog@,
                );
            assert(best.shapes() == symmetric_solution(*self, symmetry_at(k), catalog@));
            assert(self.applicable(symmetry_at(k)));
        }
        best
    }
}

/// Two boards agree on everything that placement reads and writes.
pub open spec fn same_state(a: Board, b: Board) -> bool {
    &&& a.width == b.width
    &&& a.height == b.height
    &&& a.cells@ == b.cells@
    &&& shapes_of(a.polyominos@) == shapes_of(b.polyominos@)
    &&& tables_of(a.polyominos@) == tables_of(b.polyominos@)
}

/// `b` is an empty `w` by `h` board.
pub open spec fn is_empty_board(b: Board, w: int, h: int) -> bool {
    &&& b.wf()
    &&& b.width == w
    &&& b.height == h
    &&& b.polyominos@.len() == 0
    &&& forall|i: int| 0 <= i < b.cells@.len() ==> #[trigger] b.cells@[i] is None
}

/// `boards` is the run of placing `pieces` one after another, each at the
/// first empty cell, on an empty `w` by `h` board: every placement succeeds.
pub open spec fn placement_run(w: int, h: int, pieces: Seq<Polyomino>, boards: Seq<Board>) -> bool {
    &&& boards.len() == pieces.len() + 1
    &&& is_empty_board(boards[0], w, h)
    &&& forall|i: int| 0 <= i < boards.len() ==> (#[trigger] boards[i]).wf()
    &&& forall|i: int| 0 <= i < pieces.len() ==> #[trigger] run_step(pieces, boards, i)
}

/// Piece `i` fits on board `i` of the run, and board `i + 1` is board `i` with it placed.
pub open spec fn run_step(pieces: Seq<Polyomino>, boards: Seq<Board>, i: int) -> bool {
    boards[i].can_place(pieces[i].cells()) && boards[i].placed(&boards[i + 1], &pieces[i])
}

pub proof fn lemma_same_state_first_open(a: Board, b: Board)
    requires
        a.wf(),
        b.wf(),
        same_state(a, b),
    ensures
        a.is_full_spec() == b.is_full_spec(),
        !a.is_full_spec() ==> a.first_open() == b.first_open(),
        forall|p: Seq<Coord>| #[trigger] a.can_place(p) == b.can_place(p),
{
    if !a.is_full_spec() {
        lemma_first_open_exists(&a);
        let f = a.first_open();
        assert(b.is_first_open(f.0, f.1));
        lemma_first_open_unique(&b, f.0, f.1);
    }
}

pub proof fn lemma_placed_deterministic(a: Board, b: Board, p: Polyomino, a2: Board, b2: Board)
    requires
        a.wf(),
        b.wf(),
        same_state(a, b),
        !a.is_full_spec(),
        a.placed(&a2, &p),
        b.placed(&b2, &p),
    ensures
        same_state(a2, b2),
{
    lemma_same_state_first_open(a, b);
    assert(shapes_of(a.polyominos@).len() == shapes_of(b.polyominos@).len());
    let f = a.first_open();
    assert forall|i: int| 0 <= i < a2.cells@.len() implies a2.cells@[i] == b2.cells@[i] by {
        assert(a.covers(p.cells(), f.0, f.1, i) == b.covers(p.cells(), f.0, f.1, i));
    }
    assert(a2.cells@ =~= b2.cells@);
}

proof fn lemma_runs_agree(w: int, h: int, p1: Seq<Polyomino>, b1: Seq<Board>, p2: Seq<Polyomino>, b2: Seq<Board>, k: int)
    requires
        placement_run(w, h, p1, b1),
        placement_run(w, h, p2, b2),
        p1.len() <= p2.len(),
        forall|i: int| 0 <= i < p1.len() ==> p1[i] == p2[i],
        0 <= k <= p1.len(),
    ensures
        same_state(b1[k], b2[k]),
    decreases k,
{
    if k == 0 {
        assert(b1[0].cells@ =~= b2[0].cells@) by {
            assert forall|i: int| 0 <= i < b1[0].cells@.len() implies b1[0].cells@[i] == b2[0].cells@[i] by {
                assert(b1[0].cells@[i] is None);
                assert(b2[0].cells@[i] is None);
            }
        }
        assert(shapes_of(b1[0].polyominos@) =~= shapes_of(b2[0].polyominos@));
        assert(tables_of(b1[0].polyominos@) =~= tables_of(b2[0].polyominos@));
    } else {
        lemma_runs_agree(w, h, p1, b1, p2, b2, k - 1);
        assert(run_step(p1, b1, k - 1));
        assert(run_step(p2, b2, k - 1));
        assert(b1[k - 1].wf() && b2[k - 1].wf());
        assert(b1[k - 1].can_place(p1[k - 1].cells()));
        lemma_placed_deterministic(b1[k - 1], b2[k - 1], p1[k - 1], b1[k], b2[k]);
    }
}

proof fn lemma_first_seen_from(s: Seq<usize>, n: int)
    requires
        forall|k: int| 0 <= k < s.len() ==> #[trigger] s[k] < n,
    ensures
        forall|k: int| 0 <= k < first_seen(s).len() ==> #[trigger] first_seen(s)[k] < n,
    decreases s.len(),
{
    if s.len() > 0 {
        assert forall|k: int| 0 <= k < s.drop_last().len() implies #[trigger] s.drop_last()[k] < n by {
            assert(s.drop_last()[k] == s[k]);
        }
        lemma_first_seen_from(s.drop_last(), n);
        assert(s.last() < n);
        let p = first_seen(s.drop_last());
        if !p.contains(s.last()) {
            assert(first_seen(s) == p.push(s.last()));
            assert forall|k: int| 0 <= k < first_seen(s).len() implies #[trigger] first_seen(s)[k] < n by {
                if k < p.len() {
                    assert(first_seen(s)[k] == p[k]);
                }
            }
        }
    }
}

proof fn lemma_first_seen_props(s: Seq<usize>)
    ensures
        first_seen(s).no_duplicates(),
        forall|x: usize| #[trigger] first_seen(s).contains(x) <==> s.contains(x),
    decreases s.len(),
{
    if s.len() > 0 {
        let d = s.drop_last();
        lemma_first_seen_props(d);
        let p = first_seen(d);
        assert forall|x: usize| s.contains(x) <==> (d.contains(x) || x == s.last()) by {
            if s.contains(x) {
                let k = choose|k: int| 0 <= k < s.len() && s[k] == x;
                if k < s.len() - 1 {
                    assert(d[k] == x);
                }
            }
            if d.contains(x) {
                let k = choose|k: int| 0 <= k < d.len() && d[k] == x;
                assert(s[k] == x);
            }
            if x == s.last() {
                assert(s[s.len() - 1] == x);
            }
        }
        if !p.contains(s.last()) {
            vstd::seq_lib::lemma_seq_contains_after_push(p, s.last(), s.last());
            assert forall|x: usize| #[trigger] p.push(s.last()).contains(x) <==> (p.contains(x) || x == s.last()) by {
                vstd::seq_lib::lemma_seq_contains_after_push(p, s.last(), x);
            }
            let q = p.push(s.last());
            assert forall|i: int, j: int| 0 <= i < q.len() && 0 <= j < q.len() && i != j implies q[i] != q[j] by {
                if i < p.len() && j < p.len() {
                } else if i < p.len() {
                    assert(p.contains(q[i]));
                } else {
                    assert(p.contains(q[j]));
                }
            }
        }
    }
}

/// A first-seen order of values below `n` that meets each of them has `n` entries.
proof fn lemma_first_seen_len(s: Seq<usize>, n: int)
    requires
        0 <= n <= usize::MAX,
        forall|k: int| 0 <= k < s.len() ==> #[trigger] s[k] < n,
        forall|p: int| 0 <= p < n ==> #[trigger] s.contains(p as usize),
    ensures
        first_seen(s).len() == n,
{
    lemma_first_seen_props(s);
    let f = first_seen(s);
    lemma_first_seen_from(s, n);
    let t = f.map_values(|x: usize| x as int);
    assert(t.no_duplicates()) by {
        assert forall|i: int, j: int| 0 <= i < t.len() && 0 <= j < t.len() && i != j implies t[i] != t[j] by {
            assert(f[i] != f[j]);
        }
    }
    assert(t.to_set() =~= vstd::set_lib::set_int_range(0, n)) by {
        assert forall|x: int| #[trigger] t.to_set().contains(x) <==> vstd::set_lib::set_int_range(0, n).contains(x) by {
            if t.to_set().contains(x) {
                assert(t.contains(x));
                let k = choose|k: int| 0 <= k < t.len() && t[k] == x;
                assert(f[k] < n);
            }
            if 0 <= x < n {
                assert(s.contains(x as usize));
                assert(f.contains(x as usize));
                let k = choose|k: int| 0 <= k < f.len() && f[k] == x as usize;
                assert(t[k] == x);
                assert(t.contains(x));
            }
        }
    }
    t.unique_seq_to_set();
    vstd::set_lib::lemma_int_range(0, n);
}

/// Read through an applicable symmetry, a full board shows every one of its
/// pieces and nothing else.
proof fn lemma_visit_pieces(b: Board, s: Symmetry)
    requires
        b.wf(),
        b.is_full_spec(),
        b.applicable(s),
    ensures
        forall|k: int| 0 <= k < b.visit(s).len() ==> #[trigger] b.visit(s)[k] < b.polyominos@.len(),
        forall|p: int| 0 <= p < b.polyominos@.len() ==> #[trigger] b.visit(s).contains(p as usize),
{
    let v = b.visit(s);
    let w = b.width as int;
    let h = b.height as int;
    assert forall|k: int| 0 <= k < v.len() implies #[trigger] v[k] < b.polyominos@.len() by {
        let c = source_cell(w, h, s, k % w, k / w);
        assert(w > 0) by {
            if w <= 0 {
                assert(w * h <= 0) by (nonlinear_arith)
                    requires
                        w <= 0,
                        h >= 0,
                {
                }
            }
        }
        vstd::arithmetic::div_mod::lemma_fundamental_div_mod(k, w);
        vstd::arithmetic::div_mod::lemma_mod_bound(k, w);
        assert(0 <= k / w < h) by (nonlinear_arith)
            requires
                k == w * (k / w) + k % w,
                0 <= k % w < w,
                0 <= k < w * h,
        {
        }
        assert(0 <= c.0 < w && 0 <= c.1 < h);
        lemma_cell_index_bounds(w, h, c.0, c.1);
        assert(b.cells@[cell_index(w, c.0, c.1)] is Some);
    }
    assert forall|p: int| 0 <= p < b.polyominos@.len() implies #[trigger] v.contains(p as usize) by {
        assert(b.shows_piece(p));
        let i = choose|i: int| 0 <= i < b.cells@.len() && b.cells@[i] == Some(p as usize);
        assert(w > 0) by {
            if w <= 0 {
                assert(w * h <= 0) by (nonlinear_arith)
                    requires
                        w <= 0,
                        h >= 0,
                {
                }
            }
        }
        vstd::arithmetic::div_mod::lemma_fundamental_div_mod(i, w);
        vstd::arithmetic::div_mod::lemma_mod_bound(i, w);
        let x = i % w;
        let y = i / w;
        assert(0 <= y < h) by (nonlinear_arith)
            requires
                i == w * y + x,
                0 <= x < w,
                0 <= i < w * h,
        {
        }
        let a = if s.horizontal { w - 1 - x } else { x };
        let c = if s.vertical { h - 1 - y } else { y };
        let xx = if s.diagonal { c } else { a };
        let yy = if s.diagonal { a } else { c };
        assert(0 <= xx < w && 0 <= yy < h);
        assert(source_cell(w, h, s, xx, yy) == (x, y));
        let k = xx + yy * w;
        lemma_cell_index_bounds(w, h, xx, yy);
        vstd::arithmetic::div_mod::lemma_fundamental_div_mod_converse(k, w, yy, xx);
        assert(i == cell_index(w, x, y)) by (nonlinear_arith)
            requires
                i == w * y + x,
        {
        }
        assert(v[k] == p as usize);
    }
}

/// Boards in the same state spell the same solutions under every symmetry,
/// so they have the same canonical forms.
pub proof fn lemma_canonical_same_state(b1: Board, b2: Board, catalog: Seq<Polyomino>, f: Seq<Seq<Coord>>)
    requires
        b1.wf(),
        b1.is_full_spec(),
        same_state(b1, b2),
    ensures
        is_canonical_form(b1, catalog, f) == is_canonical_form(b2, catalog, f),
{
    assert forall|s: Symmetry| b1.applicable(s) implies #[trigger] symmetric_solution(b1, s, catalog) == symmetric_solution(
        b2,
        s,
        catalog,
    ) by {
        assert(b1.visit(s) =~= b2.visit(s));
        let v = b1.visit(s);
        let w = b1.width as int;
        let h = b1.height as int;
        assert forall|k: int| 0 <= k < v.len() implies #[trigger] v[k] < b1.polyominos@.len() by {
            let c = source_cell(w, h, s, k % w, k / w);
            assert(w > 0) by {
                if w <= 0 {
                    assert(w * h <= 0) by (nonlinear_arith)
                        requires
                            w <= 0,
                            h >= 0,
                    {
                    }
                }
            }
            vstd::arithmetic::div_mod::lemma_fundamental_div_mod(k, w);
            vstd::arithmetic::div_mod::lemma_mod_bound(k, w);
            assert(0 <= k / w < h) by (nonlinear_arith)
                requires
                    k == w * (k / w) + k % w,
                    0 <= k % w < w,
                    0 <= k < w * h,
            {
            }
            assert(0 <= c.0 < w && 0 <= c.1 < h);
            lemma_cell_index_bounds(w, h, c.0, c.1);
            assert(b1.cells@[cell_index(w, c.0, c.1)] is Some);
        }
        lemma_first_seen_from(v, b1.polyominos@.len() as int);
        let fs = first_seen(v);
        assert(shapes_of(b1.polyominos@).len() == shapes_of(b2.polyominos@).len());
        assert forall|i: int| 0 <= i < fs.len() implies b1.polyominos@[fs[i] as int].symmetries@
            == b2.polyominos@[fs[i] as int].symmetries@ by {
            assert(tables_of(b1.polyominos@)[fs[i] as int] == tables_of(b2.polyominos@)[fs[i] as int]);
        }
        assert(b1.picked(s) =~= b2.picked(s));
    }
    if is_canonical_form(b1, catalog, f) {
        let s0 = choose|s: Symmetry| b1.applicable(s) && f == #[trigger] symmetric_solution(b1, s, catalog);
        assert(f == symmetric_solution(b2, s0, catalog));
        assert forall|s: Symmetry| b2.applicable(s) implies solution_order(f, #[trigger] symmetric_solution(b2, s, catalog))
            != Ordering::Greater by {
            assert(symmetric_solution(b1, s, catalog) == symmetric_solution(b2, s, catalog));
        }
    }
    if is_canonical_form(b2, catalog, f) {
        let s0 = choose|s: Symmetry| b2.applicable(s) && f == #[trigger] symmetric_solution(b2, s, catalog);
        assert(symmetric_solution(b1, s0, catalog) == symmetric_solution(b2, s0, catalog));
        assert forall|s: Symmetry| b1.applicable(s) implies solution_order(f, #[trigger] symmetric_solution(b1, s, catalog))
            != Ordering::Greater by {
            assert(symmetric_solution(b1, s, catalog) == symmetric_solution(b2, s, catalog));
        }
    }
}

impl Board {
    /// The board of `width` by `height` cells with the pieces of `solution`
    /// placed one after another at the first empty cell: `Some` exactly when
    /// every piece fits in its turn, and then the last board of that run.
    pub fn from_solution(width: usize, height: usize, solution: &Solution) -> (r: Option<Board>)
        requires
            width <= 127,
            height <= 127,
            forall|i: int| 0 <= i < solution.0@.len() ==> #[trigger] shape_coords(solution.0@[i].cells()),
        ensures
            r is Some <==> exists|bs: Seq<Board>| placement_run(width as int, height as int, solution.0@, bs),
            r matches Some(b) ==> exists|bs: Seq<Board>|
                placement_run(width as int, height as int, solution.0@, bs) && bs.last() == b,
            r matches Some(b) ==> b.wf() && b.width == width && b.height == height && shapes_of(b.polyominos@)
                == solution.shapes(),
    {
        let mut ret = Board::new(width, height);
        let ghost mut run: Seq<Board> = seq![ret];
        let ghost pieces = solution.0@;
        let mut i: usize = 0;
        while i < solution.0.len()
            invariant
                pieces == solution.0@,
                forall|k: int| 0 <= k < solution.0@.len() ==> #[trigger] shape_coords(solution.0@[k].cells()),
                i <= solution.0@.len(),
                ret.wf(),
                ret.width == width,
                ret.height == height,
                shapes_of(ret.polyominos@) == solution.shapes().take(i as int),
                placement_run(width as int, height as int, pieces.take(i as int), run),
                run.last() == ret,
            decreases solution.0@.len() - i,
        {
            let ghost before = ret;
            if !ret.add(&solution.0[i]) {
                proof {
                    if exists|bs: Seq<Board>| placement_run(width as int, height as int, pieces, bs) {
                        let bs = choose|bs: Seq<Board>| placement_run(width as int, height as int, pieces, bs);
                        lemma_runs_agree(width as int, height as int, pieces.take(i as int), run, pieces, bs, i as int);
                        assert(run_step(pieces, bs, i as int));
                        lemma_same_state_first_open(before, bs[i as int]);
                    }
                }
                return None;
            }
            proof {
                let old_run = run;
                run = run.push(ret);
                let pt = pieces.take(i + 1);
                assert(pt.take(i as int) =~= pieces.take(i as int));
                assert forall|k: int| 0 <= k < run.len() implies (#[trigger] run[k]).wf() by {
                    if k < old_run.len() {
                        assert(run[k] == old_run[k]);
                    }
                }
                assert forall|k: int| 0 <= k < pt.len() implies #[trigger] run_step(pt, run, k) by {
                    if k < i {
                        assert(run[k] == old_run[k] && run[k + 1] == old_run[k + 1]);
                        assert(pt[k] == pieces.take(i as int)[k]);
                        assert(run_step(pieces.take(i as int), old_run, k));
                    } else {
                        assert(run[k] == before && run[k + 1] == ret);
                    }
                }
                assert(solution.shapes().take(i + 1) =~= solution.shapes().take(i as int).push(solution.0@[i as int].cells()));
            }
            i = i + 1;
        }
        assert(solution.shapes().take(i as int) =~= solution.shapes());
        assert(pieces.take(i as int) =~= pieces);
        Some(ret)
    }

    /// Cell index of the first empty cell, counted from the end: it shrinks with
    /// every placement.
    pub open spec fn open_rank(&self) -> int {
        if self.is_full_spec() {
            0
        } else {
            self.width * self.height - cell_index(self.width as int, self.first_open().0, self.first_open().1)
        }
    }

    /// A placement at the first empty cell fills it, so the next empty cell
    /// comes later.
    pub proof fn lemma_placement_advances(&self, next: &Board, p: &Polyomino)
        requires
            self.wf(),
            next.wf(),
            !self.is_full_spec(),
            shape_coords(p.cells()),
            self.placed(next, p),
            !next.is_full_spec(),
        ensures
            0 <= next.open_rank() < self.open_rank(),
    {
        lemma_first_open_exists(self);
        let (ax, ay) = self.first_open();
        let w = self.width as int;
        let a = cell_index(w, ax, ay);
        let o = choose|k: int| 0 <= k < p.cells().len() && p.cells()[k] == (0i8, 0i8);
        assert(cell_index(w, ax + p.cells()[o].0, ay + p.cells()[o].1) == a);
        assert(self.covers(p.cells(), ax, ay, a));
        lemma_first_open_exists(next);
        let (bx, by) = next.first_open();
        let b = cell_index(w, bx, by);
        lemma_cell_index_bounds(w, self.height as int, ax, ay);
        lemma_cell_index_bounds(w, self.height as int, bx, by);
        assert forall|i: int| 0 <= i <= a implies #[trigger] next.cells@[i] is Some by {
            if i < a {
                assert(self.cells@[i] is Some);
            }
        }
        if b <= a {
            assert(next.cells@[b] is Some);
        }
    }
}

proof fn lemma_find_open(b: &Board, j: int) -> (m: int)
    requires
        0 <= j <= b.cells@.len(),
        forall|i: int| 0 <= i < j ==> #[trigger] b.cells@[i] is Some,
        exists|i: int| j <= i < b.cells@.len() && #[trigger] b.cells@[i] is None,
    ensures
        0 <= m < b.cells@.len(),
        b.cells@[m] is None,
        forall|i: int| 0 <= i < m ==> #[trigger] b.cells@[i] is Some,
    decreases b.cells@.len() - j,
{
    if b.cells@[j] is None {
        j
    } else {
        lemma_find_open(b, j + 1)
    }
}

/// A board with an empty cell has a first one.
pub proof fn lemma_first_open_exists(b: &Board)
    requires
        b.wf(),
        !b.is_full_spec(),
    ensures
        b.is_first_open(b.first_open().0, b.first_open().1),
{
    let m = lemma_find_open(b, 0);
    let w = b.width as int;
    let h = b.height as int;
    assert(w > 0) by {
        if w == 0 {
            assert(w * h == 0) by (nonlinear_arith)
                requires
                    w == 0,
            {
            }
        }
    }
    vstd::arithmetic::div_mod::lemma_fundamental_div_mod(m, w);
    vstd::arithmetic::div_mod::lemma_mod_bound(m, w);
    let x = m % w;
    let y = m / w;
    assert(m == x + y * w) by (nonlinear_arith)
        requires
            m == w * (m / w) + m % w,
            x == m % w,
            y == m / w,
    {
    }
    assert(0 <= y < h) by (nonlinear_arith)
        requires
            m == x + y * w,
            0 <= x < w,
            0 <= m < w * h,
    {
    }
    let wit = (x, y);
    assert(b.is_first_open(wit.0, wit.1));
}

/// A cell as text: its piece index in decimal, or `?` when empty.
pub open spec fn cell_text(c: Option<usize>) -> Seq<char> {
    match c {
        Some(i) => decimal(i as nat),
        None => seq!['?'],
    }
}

impl Board {
    /// The first `n` cells of row `y` as text.
    pub open spec fn row_text(&self, y: int, n: int) -> Seq<char>
        decreases n,
    {
        if n <= 0 {
            Seq::empty()
        } else {
            self.row_text(y, n - 1) + cell_text(self.cell(n - 1, y))
        }
    }

    /// The first `m` rows as text, with a line break after each but the last row of the board.
    pub open spec fn rows_text(&self, m: int) -> Seq<char>
        decreases m,
    {
        if m <= 0 {
            Seq::empty()
        } else {
            self.rows_text(m - 1) + self.row_text(m - 1, self.width as int) + if m - 1 != self.height - 1 {
                seq!['\n']
            } else {
                Seq::empty()
            }
        }
    }

    /// The board as text: one line per row, each cell as its piece index or `?`.
    pub fn to_string(&self) -> (r: String)
        requires
            self.wf(),
        ensures
            r@ == self.rows_text(self.height as int),
    {
        let mut ret = String::new();
        let mut y: i8 = 0;
        while y < self.height
            invariant
                self.wf(),
                0 <= y <= self.height,
                ret@ == self.rows_text(y as int),
            decreases self.height - y,
        {
            let ghost before = ret@;
            let mut x: i8 = 0;
            while x < self.width
                invariant
                    self.wf(),
                    0 <= y < self.height,
                    0 <= x <= self.width,
                    ret@ == before + self.row_text(y as int, x as int),
                decreases self.width - x,
            {
                proof {
                    lemma_cell_index_bounds(self.width as int, self.height as int, x as int, y as int);
                }
                match self.cells[flat_index(x as i32, y as i32, self.width, self.height)] {
                    Some(index) => {
                        push_decimal(&mut ret, index);
                    },
                    None => {
                        push_char(&mut ret, '?');
                    },
                }
                assert(ret@ =~= before + self.row_text(y as int, x + 1));
                x = x + 1;
            }
            if y != self.height - 1 {
                push_char(&mut ret, '\n');
            }
            assert(ret@ =~= self.rows_text(y + 1));
            y = y + 1;
        }
        ret
    }
}

/// The transform table of each shape of a sequence.
pub open spec fn tables_of(ps: Seq<Polyomino>) -> Seq<Seq<usize>> {
    ps.map_values(|p: Polyomino| p.symmetries@)
}

proof fn lemma_first_open_unique(b: &Board, x: int, y: int)
    requires
        b.wf(),
        b.is_first_open(x, y),
    ensures
        b.first_open() == (x, y),
{
    let wit = (x, y);
    assert(b.is_first_open(wit.0, wit.1));
    let q = b.first_open();
    assert(b.is_first_open(q.0, q.1));
    let w = b.width as int;
    lemma_cell_index_bounds(w, b.height as int, x, y);
    lemma_cell_index_bounds(w, b.height as int, q.0, q.1);
    let i = cell_index(w, x, y);
    let j = cell_index(w, q.0, q.1);
    if i < j {
        assert(b.cells@[i] is Some);
    } else if j < i {
        assert(b.cells@[j] is Some);
    }
    lemma_cell_index_injective(w, x, y, q.0, q.1);
}

} // verus!
