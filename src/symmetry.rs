use vstd::prelude::*;

verus! {

/// One of the eight flips of the plane along the compass axes: an optional
/// diagonal transpose composed with optional horizontal and vertical mirrors.
#[derive(Clone, Copy, Debug, PartialEq, Eq, Structural, Hash, Default)]
pub struct Symmetry {
    pub horizontal: bool,
    pub vertical: bool,
    pub diagonal: bool,
}

pub const HORIZONTAL_MASK: usize = 1;

pub const VERTICAL_MASK: usize = 2;

pub const DIAGONAL_MASK: usize = 4;

/// The 3-bit index of a symmetry: bit 0 horizontal, bit 1 vertical, bit 2 diagonal.
pub open spec fn index_of(s: Symmetry) -> nat {
    (if s.horizontal { 1nat } else { 0nat }) + (if s.vertical { 2nat } else { 0nat }) + (if s.diagonal {
        4nat
    } else {
        0nat
    })
}

/// What a symmetry does to a shape's coordinate: negate x if horizontal, negate y
/// if vertical, then swap the two if diagonal.
pub open spec fn apply_coord(s: Symmetry, c: (int, int)) -> (int, int) {
    let x = if s.horizontal { -c.0 } else { c.0 };
    let y = if s.vertical { -c.1 } else { c.1 };
    if s.diagonal { (y, x) } else { (x, y) }
}

/// A quarter turn clockwise, with y growing downwards.
pub open spec fn rotate_coord(c: (int, int)) -> (int, int) {
    (-c.1, c.0)
}

pub open spec fn rotate_coord_n(c: (int, int), n: nat) -> (int, int)
    decreases n,
{
    if n == 0 {
        c
    } else {
        rotate_coord(rotate_coord_n(c, (n - 1) as nat))
    }
}

pub open spec fn mirror_coord_horizontal(c: (int, int)) -> (int, int) {
    (-c.0, c.1)
}

pub open spec fn mirror_coord_vertical(c: (int, int)) -> (int, int) {
    (c.0, -c.1)
}

/// The symmetry whose index is `i`, for `i` in 0..8.
pub open spec fn symmetry_at(i: int) -> Symmetry {
    Symmetry { horizontal: i % 2 == 1, vertical: (i / 2) % 2 == 1, diagonal: (i / 4) % 2 == 1 }
}

/// Every symmetry is the one at its own index.
pub proof fn lemma_symmetry_at_index(s: Symmetry)
    ensures
        symmetry_at(index_of(s) as int) == s,
        index_of(s) < 8,
{
}

/// A symmetry is fixed by where it sends one point off the axes and diagonals.
pub proof fn lemma_apply_determines(s1: Symmetry, s2: Symmetry)
    requires
        apply_coord(s1, (1, 2)) == apply_coord(s2, (1, 2)),
    ensures
        s1 == s2,
{
}

/// Four quarter turns after a symmetry give back that symmetry.
pub proof fn lemma_four_turns(s: Symmetry, r: Symmetry)
    requires
        forall|c: (int, int)| #[trigger] apply_coord(r, c) == rotate_coord_n(apply_coord(s, c), 4),
    ensures
        r == s,
{
    let p = apply_coord(s, (1, 2));
    assert(apply_coord(r, (1, 2)) == rotate_coord_n(p, 4));
    reveal_with_fuel(rotate_coord_n, 5);
    assert(rotate_coord_n(p, 4) == p);
    lemma_apply_determines(r, s);
}

/// Mirroring a symmetry's output horizontally twice gives back that symmetry.
pub proof fn lemma_mirror_horizontal_twice(s: Symmetry, once: Symmetry, twice: Symmetry)
    requires
        forall|c: (int, int)| #[trigger] apply_coord(once, c) == mirror_coord_horizontal(apply_coord(s, c)),
        forall|c: (int, int)| #[trigger] apply_coord(twice, c) == mirror_coord_horizontal(apply_coord(once, c)),
    ensures
        twice == s,
{
    assert(apply_coord(twice, (1, 2)) == mirror_coord_horizontal(apply_coord(once, (1, 2))));
    assert(apply_coord(once, (1, 2)) == mirror_coord_horizontal(apply_coord(s, (1, 2))));
    lemma_apply_determines(twice, s);
}

/// Mirroring a symmetry's output vertically twice gives back that symmetry.
pub proof fn lemma_mirror_vertical_twice(s: Symmetry, once: Symmetry, twice: Symmetry)
    requires
        forall|c: (int, int)| #[trigger] apply_coord(once, c) == mirror_coord_vertical(apply_coord(s, c)),
        forall|c: (int, int)| #[trigger] apply_coord(twice, c) == mirror_coord_vertical(apply_coord(once, c)),
    ensures
        twice == s,
{
    assert(apply_coord(twice, (1, 2)) == mirror_coord_vertical(apply_coord(once, (1, 2))));
    assert(apply_coord(once, (1, 2)) == mirror_coord_vertical(apply_coord(s, (1, 2))));
    lemma_apply_determines(twice, s);
}

/// The symmetry that does `a`, then `b`.
pub open spec fn compose(a: Symmetry, b: Symmetry) -> Symmetry {
    if !a.diagonal {
        Symmetry {
            horizontal: a.horizontal != b.horizontal,
            vertical: a.vertical != b.vertical,
            diagonal: b.diagonal,
        }
    } else {
        Symmetry {
            horizontal: a.horizontal != b.vertical,
            vertical: a.vertical != b.horizontal,
            diagonal: !b.diagonal,
        }
    }
}

/// Doing `compose(a, b)` is doing `a`, then `b`.
pub proof fn lemma_compose(a: Symmetry, b: Symmetry)
    ensures
        forall|p: (int, int)| #[trigger] apply_coord(compose(a, b), p) == apply_coord(b, apply_coord(a, p)),
{
}

pub open spec fn identity() -> Symmetry {
    Symmetry { horizontal: false, vertical: false, diagonal: false }
}

impl Symmetry {
    pub fn from_flips(horizontal: bool, vertical: bool, diagonal: bool) -> (r: Symmetry)
        ensures
            r == (Symmetry { horizontal, vertical, diagonal }),
    {
        Symmetry { horizontal, vertical, diagonal }
    }

    fn from_index_unchecked(index: usize) -> (r: Symmetry)
        requires
            index < 8,
        ensures
            index_of(r) == index,
            r == symmetry_at(index as int),
    {
        Symmetry {
            horizontal: index % 2 == 1,
            vertical: (index / 2) % 2 == 1,
            diagonal: (index / 4) % 2 == 1,
        }
    }

    /// The symmetry whose index is `index`; indices of 8 and more have none.
    pub fn from_index(index: usize) -> (r: Symmetry)
        requires
            index < 8,
        ensures
            index_of(r) == index,
            r == symmetry_at(index as int),
    {
        Self::from_index_unchecked(index)
    }

    pub fn into_index(self) -> (r: usize)
        ensures
            r == index_of(self),
            r < 8,
    {
        let mut ret: usize = 0;
        if self.horizontal {
            ret = ret + HORIZONTAL_MASK;
        }
        if self.vertical {
            ret = ret + VERTICAL_MASK;
        }
        if self.diagonal {
            ret = ret + DIAGONAL_MASK;
        }
        ret
    }

    /// The eight symmetries, in index order.
    pub fn all_symmetries() -> (r: Vec<Symmetry>)
        ensures
            r@.len() == 8,
            forall|i: int| 0 <= i < 8 ==> index_of(#[trigger] r@[i]) == i,
            forall|i: int| 0 <= i < 8 ==> #[trigger] r@[i] == symmetry_at(i),
    {
        let mut r: Vec<Symmetry> = Vec::new();
        let mut i: usize = 0;
        while i < 8
            invariant
                i <= 8,
                r@.len() == i,
                forall|j: int| 0 <= j < i ==> index_of(#[trigger] r@[j]) == j,
                forall|j: int| 0 <= j < i ==> #[trigger] r@[j] == symmetry_at(j),
            decreases 8 - i,
        {
            r.push(Self::from_index_unchecked(i));
            i = i + 1;
        }
        r
    }

    /// The symmetry that mirrors the output of `self` horizontally.
    pub fn mirror_horizontal(self) -> (r: Symmetry)
        ensures
            forall|c: (int, int)|
                #[trigger] apply_coord(r, c) == mirror_coord_horizontal(apply_coord(self, c)),
            r.diagonal == self.diagonal,
    {
        let mut s = self;
        if s.diagonal {
            // The transpose comes after the mirrors, so the output's horizontal
            // axis is the input's vertical one.
            s.vertical = !s.vertical;
        } else {
            s.horizontal = !s.horizontal;
        }
        s
    }

    /// The symmetry that mirrors the output of `self` vertically.
    pub fn mirror_vertical(self) -> (r: Symmetry)
        ensures
            forall|c: (int, int)|
                #[trigger] apply_coord(r, c) == mirror_coord_vertical(apply_coord(self, c)),
            r.diagonal == self.diagonal,
    {
        let mut s = self;
        if s.diagonal {
            s.horizontal = !s.horizontal;
        } else {
            s.vertical = !s.vertical;
        }
        s
    }

    /// The symmetry that turns the output of `self` clockwise by a quarter,
    /// `clockwise` times (a negative count turns anticlockwise).
    pub fn rotate(self, clockwise: i8) -> (r: Symmetry)
        ensures
            forall|c: (int, int)|
                #[trigger] apply_coord(r, c) == rotate_coord_n(
                    apply_coord(self, c),
                    ((clockwise as int) % 4) as nat,
                ),
    {
        let turns: u8 = if clockwise >= 0 {
            (clockwise as u8) % 4
        } else {
            let back: u8 = ((-(clockwise as i16)) as u8) % 4;
            (4 - back) % 4
        };
        assert(turns as int == (clockwise as int) % 4) by (nonlinear_arith)
            requires
                clockwise >= 0 ==> turns as int == (clockwise as int) % 4,
                clockwise < 0 ==> turns as int == (4 - ((-(clockwise as int)) % 4)) % 4,
        {
        }
        let mut s = self;
        let mut i: u8 = 0;
        while i < turns
            invariant
                i <= turns,
                turns < 4,
                forall|c: (int, int)|
                    #[trigger] apply_coord(s, c) == rotate_coord_n(apply_coord(self, c), i as nat),
            decreases turns - i,
        {
            let ghost prev = s;
            if s.diagonal {
                s.diagonal = false;
                s.horizontal = !s.horizontal;
            } else {
                s.diagonal = true;
                s.vertical = !s.vertical;
            }
            assert forall|c: (int, int)|
                #[trigger] apply_coord(s, c) == rotate_coord(apply_coord(prev, c)) by {}
            i = i + 1;
            assert forall|c: (int, int)|
                #[trigger] apply_coord(s, c) == rotate_coord_n(apply_coord(self, c), i as nat) by {
                assert(apply_coord(s, c) == rotate_coord(apply_coord(prev, c)));
            }
        }
        s
    }
}

} // verus!
