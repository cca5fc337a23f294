use vstd::prelude::*;
use std::cmp::Ordering;
use crate::symmetry::{Symmetry, apply_coord, index_of, symmetry_at, compose, lemma_compose, lemma_symmetry_at_index};
use crate::text::push_char;

verus! {

pub type Coord = (i8, i8);

/// The order of coordinates: by x, then by y.
pub open spec fn coord_lt(a: Coord, b: Coord) -> bool {
    a.0 < b.0 || (a.0 == b.0 && a.1 < b.1)
}

pub open spec fn coord_order(a: Coord, b: Coord) -> Ordering {
    if coord_lt(a, b) {
        Ordering::Less
    } else if a == b {
        Ordering::Equal
    } else {
        Ordering::Greater
    }
}

pub open spec fn strictly_sorted(s: Seq<Coord>) -> bool {
    forall|i: int, j: int| 0 <= i < j < s.len() ==> coord_lt(#[trigger] s[i], #[trigger] s[j])
}

pub open spec fn no_dups(s: Seq<Coord>) -> bool {
    forall|i: int, j: int| 0 <= i < j < s.len() ==> #[trigger] s[i] != #[trigger] s[j]
}

/// Pairwise comparison of two coordinate sequences of one length: the first
/// differing pair decides.
pub open spec fn lex_order(a: Seq<Coord>, b: Seq<Coord>) -> Ordering
    decreases a.len(),
{
    if a.len() == 0 || b.len() == 0 {
        Ordering::Equal
    } else if a[0] != b[0] {
        coord_order(a[0], b[0])
    } else {
        lex_order(a.drop_first(), b.drop_first())
    }
}

/// The order of shapes: shorter shapes first, then by their coordinates.
pub open spec fn shape_order(a: Seq<Coord>, b: Seq<Coord>) -> Ordering {
    if a.len() < b.len() {
        Ordering::Less
    } else if a.len() > b.len() {
        Ordering::Greater
    } else {
        lex_order(a, b)
    }
}

pub open spec fn as_int(c: Coord) -> (int, int) {
    (c.0 as int, c.1 as int)
}

/// Every coordinate lies within `b` of the origin on both axes.
pub open spec fn bounded(s: Seq<Coord>, b: int) -> bool {
    forall|k: int| 0 <= k < s.len() ==> -b <= #[trigger] s[k].0 <= b && -b <= s[k].1 <= b
}

/// `a` comes no later than `b` when reading rows top to bottom, each left to right.
pub open spec fn reads_before_or_at(a: (int, int), b: (int, int)) -> bool {
    a.1 < b.1 || (a.1 == b.1 && a.0 <= b.0)
}

pub open spec fn flipped(t: Symmetry, s: Seq<Coord>, k: int) -> (int, int) {
    apply_coord(t, as_int(s[k]))
}

/// `a` is the first of the flipped coordinates in reading order.
pub open spec fn is_top_left(a: (int, int), t: Symmetry, s: Seq<Coord>) -> bool {
    &&& exists|k: int| 0 <= k < s.len() && flipped(t, s, k) == a
    &&& forall|k: int| 0 <= k < s.len() ==> reads_before_or_at(a, #[trigger] flipped(t, s, k))
}

pub open spec fn top_left(t: Symmetry, s: Seq<Coord>) -> (int, int) {
    choose|a: (int, int)| is_top_left(a, t, s)
}

/// Where the `k`-th coordinate of `s` lands: flipped by `t`, then moved so that
/// the top-left flipped coordinate is the origin.
pub open spec fn moved(t: Symmetry, s: Seq<Coord>, k: int) -> (int, int) {
    let p = flipped(t, s, k);
    let a = top_left(t, s);
    (p.0 - a.0, p.1 - a.1)
}

/// `r` is the normal form of `s` under `t`: the moved coordinates, sorted.
pub open spec fn is_flip_of(r: Seq<Coord>, t: Symmetry, s: Seq<Coord>) -> bool {
    &&& r.len() == s.len()
    &&& strictly_sorted(r)
    &&& forall|k: int| 0 <= k < s.len() ==> lands_in(r, #[trigger] moved(t, s, k))
    &&& forall|j: int| 0 <= j < r.len() ==> comes_from(t, s, #[trigger] r[j])
}

pub open spec fn comes_from(t: Symmetry, s: Seq<Coord>, c: Coord) -> bool {
    exists|k: int| 0 <= k < s.len() && moved(t, s, k) == as_int(c)
}

proof fn lemma_sorted_same_elements(a: Seq<Coord>, b: Seq<Coord>)
    requires
        strictly_sorted(a),
        strictly_sorted(b),
        forall|x: Coord| a.contains(x) <==> b.contains(x),
    ensures
        a == b,
    decreases a.len(),
{
    if a.len() == 0 {
        if b.len() > 0 {
            assert(b.contains(b[0]));
        }
        assert(a =~= b);
    } else {
        assert(a.contains(a[0]));
        assert(b.contains(a[0]));
        assert(b.len() > 0);
        assert(b.contains(b[0]));
        assert(a.contains(b[0]));
        let ia = choose|i: int| 0 <= i < a.len() && a[i] == b[0];
        let ib = choose|i: int| 0 <= i < b.len() && b[i] == a[0];
        if ia > 0 {
            assert(coord_lt(a[0], a[ia]));
        }
        if ib > 0 {
            assert(coord_lt(b[0], b[ib]));
        }
        assert(a[0] == b[0]);
        let a1 = a.drop_first();
        let b1 = b.drop_first();
        assert forall|x: Coord| a1.contains(x) <==> b1.contains(x) by {
            if a1.contains(x) {
                let i = choose|i: int| 0 <= i < a1.len() && a1[i] == x;
                assert(a.contains(x) && a[i + 1] == x);
                assert(coord_lt(a[0], a[i + 1]));
                let j = choose|j: int| 0 <= j < b.len() && b[j] == x;
                assert(j != 0);
                assert(b1[j - 1] == x);
            }
            if b1.contains(x) {
                let i = choose|i: int| 0 <= i < b1.len() && b1[i] == x;
                assert(b.contains(x) && b[i + 1] == x);
                assert(coord_lt(b[0], b[i + 1]));
                let j = choose|j: int| 0 <= j < a.len() && a[j] == x;
                assert(j != 0);
                assert(a1[j - 1] == x);
            }
        }
        lemma_sorted_same_elements(a1, b1);
        assert forall|i: int| 0 <= i < a.len() implies a[i] == b[i] by {
            if i > 0 {
                assert(a[i] == a1[i - 1] && b[i] == b1[i - 1]);
            }
        }
        assert(a =~= b);
    }
}

/// The normal form of a shape under a symmetry is unique.
pub proof fn lemma_flip_unique(r1: Seq<Coord>, r2: Seq<Coord>, t: Symmetry, s: Seq<Coord>)
    requires
        is_flip_of(r1, t, s),
        is_flip_of(r2, t, s),
    ensures
        r1 == r2,
{
    assert forall|x: Coord| r1.contains(x) <==> r2.contains(x) by {
        if r1.contains(x) {
            let j = choose|j: int| 0 <= j < r1.len() && r1[j] == x;
            assert(comes_from(t, s, r1[j]));
            let k = choose|k: int| 0 <= k < s.len() && moved(t, s, k) == as_int(x);
            assert(lands_in(r2, moved(t, s, k)));
            let i = choose|i: int| 0 <= i < r2.len() && as_int(r2[i]) == moved(t, s, k);
            assert(r2[i] == x);
        }
        if r2.contains(x) {
            let j = choose|j: int| 0 <= j < r2.len() && r2[j] == x;
            assert(comes_from(t, s, r2[j]));
            let k = choose|k: int| 0 <= k < s.len() && moved(t, s, k) == as_int(x);
            assert(lands_in(r1, moved(t, s, k)));
            let i = choose|i: int| 0 <= i < r1.len() && as_int(r1[i]) == moved(t, s, k);
            assert(r1[i] == x);
        }
    }
    lemma_sorted_same_elements(r1, r2);
}

/// `i` is the first catalog entry that is the normal form of `s` under `t`.
pub open spec fn first_flip_index(shapes: Seq<Seq<Coord>>, t: Symmetry, s: Seq<Coord>, i: int) -> bool {
    &&& 0 <= i < shapes.len()
    &&& is_flip_of(shapes[i], t, s)
    &&& forall|j: int| 0 <= j < i ==> !is_flip_of(#[trigger] shapes[j], t, s)
}

/// The coordinates of each shape of a catalog.
pub open spec fn shapes_of(catalog: Seq<Polyomino>) -> Seq<Seq<Coord>> {
    catalog.map_values(|p: Polyomino| p.cells())
}

/// No catalog entry is the normal form of `s` under `t`.
pub open spec fn no_flip_in(shapes: Seq<Seq<Coord>>, t: Symmetry, s: Seq<Coord>) -> bool {
    forall|j: int| 0 <= j < shapes.len() ==> !is_flip_of(#[trigger] shapes[j], t, s)
}

/// `table` gives, for each symmetry index, the first catalog entry equal to the
/// shape `s` flipped by that symmetry.
pub open spec fn exact_table(shapes: Seq<Seq<Coord>>, s: Seq<Coord>, table: Seq<usize>) -> bool {
    &&& table.len() == 8
    &&& forall|k: int| 0 <= k < 8 ==> first_flip_index(shapes, symmetry_at(k), s, #[trigger] table[k] as int)
}

/// Shapes that may stand in a catalog, no two alike, in shape order.
pub open spec fn catalog_shapes(catalog: Seq<Polyomino>) -> bool {
    &&& forall|i: int| 0 <= i < catalog.len() ==> #[trigger] shape_coords(catalog[i].cells())
        && bounded(catalog[i].cells(), 6) && in_region_all(catalog[i].cells())
    &&& forall|i: int, j: int| 0 <= i < j < catalog.len() ==> #[trigger] catalog[i].cells() != #[trigger] catalog[j].cells()
    &&& forall|i: int, j: int|
        0 <= i < j < catalog.len() ==> shape_order(#[trigger] catalog[i].cells(), #[trigger] catalog[j].cells())
            == Ordering::Less
}

/// A catalog: its shapes, each with its exact transform table, where the
/// identity leaves every shape at its own index.
pub open spec fn catalog_wf(catalog: Seq<Polyomino>) -> bool {
    &&& catalog_shapes(catalog)
    &&& forall|i: int| 0 <= i < catalog.len() ==> #[trigger] exact_table(shapes_of(catalog), catalog[i].cells(), catalog[i].symmetries@)
    &&& forall|i: int| 0 <= i < catalog.len() ==> #[trigger] catalog[i].symmetries@[0] == i
}

pub open spec fn sizes_at_most(catalog: Seq<Polyomino>, n: int) -> bool {
    forall|i: int| 0 <= i < catalog.len() ==> #[trigger] catalog[i].cells().len() <= n
}

pub open spec fn lands_in(r: Seq<Coord>, p: (int, int)) -> bool {
    exists|j: int| 0 <= j < r.len() && as_int(#[trigger] r[j]) == p
}

proof fn lemma_top_left_unique(a: (int, int), t: Symmetry, s: Seq<Coord>)
    requires
        is_top_left(a, t, s),
    ensures
        top_left(t, s) == a,
{
    let b = top_left(t, s);
    assert(is_top_left(b, t, s));
    let ka = choose|k: int| 0 <= k < s.len() && flipped(t, s, k) == a;
    let kb = choose|k: int| 0 <= k < s.len() && flipped(t, s, k) == b;
    assert(reads_before_or_at(a, flipped(t, s, kb)));
    assert(reads_before_or_at(b, flipped(t, s, ka)));
}

fn flip_coord(t: Symmetry, c: Coord) -> (r: Coord)
    requires
        -127 <= c.0,
        -127 <= c.1,
    ensures
        as_int(r) == apply_coord(t, as_int(c)),
{
    let mut x = c.0;
    let mut y = c.1;
    if t.horizontal {
        x = -x;
    }
    if t.vertical {
        y = -y;
    }
    if t.diagonal {
        (y, x)
    } else {
        (x, y)
    }
}

/// The `d`-th axis neighbour of `c`: left, right, up, down.
pub open spec fn neighbor(c: Coord, d: int) -> (int, int) {
    if d == 0 {
        (c.0 - 1, c.1 as int)
    } else if d == 1 {
        (c.0 + 1, c.1 as int)
    } else if d == 2 {
        (c.0 as int, c.1 - 1)
    } else {
        (c.0 as int, c.1 + 1)
    }
}

/// The half plane that generation grows into: rows below the origin's, and the
/// origin's row from the origin rightwards.
pub open spec fn in_growth_region(c: (int, int)) -> bool {
    c.1 >= 0 && !(c.1 == 0 && c.0 < 0)
}

/// Every coordinate lies in the growth region.
pub open spec fn in_region_all(s: Seq<Coord>) -> bool {
    forall|k: int| 0 <= k < s.len() ==> #[trigger] in_growth_region(as_int(s[k]))
}

pub open spec fn touches(p: Seq<Coord>, c: Coord) -> bool {
    exists|k: int, d: int| 0 <= k < p.len() && 0 <= d < 4 && neighbor(p[k], d) == as_int(c)
}

pub open spec fn covered(r: Seq<Coord>, p: Seq<Coord>, c: (int, int)) -> bool {
    lands_in(r, c) || lands_in(p, c)
}

proof fn lemma_lands_in_push(s: Seq<Coord>, c: Coord)
    ensures
        forall|x: (int, int)| lands_in(s, x) ==> #[trigger] lands_in(s.push(c), x),
{
    assert forall|x: (int, int)| lands_in(s, x) implies #[trigger] lands_in(s.push(c), x) by {
        let j = choose|j: int| 0 <= j < s.len() && as_int(s[j]) == x;
        assert(s.push(c)[j] == s[j]);
    }
}

fn neighbor_of(c: Coord, d: usize) -> (r: Coord)
    requires
        d < 4,
        -127 <= c.0 <= 126,
        -127 <= c.1 <= 126,
    ensures
        as_int(r) == neighbor(c, d as int),
{
    if d == 0 {
        (c.0 - 1, c.1)
    } else if d == 1 {
        (c.0 + 1, c.1)
    } else if d == 2 {
        (c.0, c.1 - 1)
    } else {
        (c.0, c.1 + 1)
    }
}

fn contains_coord(v: &[Coord], c: Coord) -> (r: bool)
    ensures
        r == v@.contains(c),
{
    let mut i: usize = 0;
    while i < v.len()
        invariant
            i <= v@.len(),
            forall|k: int| 0 <= k < i ==> v@[k] != c,
        decreases v@.len() - i,
    {
        if v[i].0 == c.0 && v[i].1 == c.1 {
            assert(v@[i as int] == c);
            return true;
        }
        i = i + 1;
    }
    false
}

/// The coordinates next to the shape, not in it, within the growth region.
pub fn adjacent_coords(polyomino: &[Coord]) -> (r: Vec<Coord>)
    requires
        bounded(polyomino@, 126),
    ensures
        no_dups(r@),
        forall|j: int|
            0 <= j < r@.len() ==> {
                &&& !polyomino@.contains(#[trigger] r@[j])
                &&& touches(polyomino@, r@[j])
                &&& in_growth_region(as_int(r@[j]))
            },
        forall|k: int, d: int|
            0 <= k < polyomino@.len() && 0 <= d < 4 && in_growth_region(neighbor(polyomino@[k], d))
                ==> covered(r@, polyomino@, #[trigger] neighbor(polyomino@[k], d)),
{
    let mut ret: Vec<Coord> = Vec::new();
    let mut k: usize = 0;
    while k < polyomino.len()
        invariant
            bounded(polyomino@, 126),
            k <= polyomino@.len(),
            no_dups(ret@),
            forall|j: int|
                0 <= j < ret@.len() ==> {
                    &&& !polyomino@.contains(#[trigger] ret@[j])
                    &&& touches(polyomino@, ret@[j])
                    &&& in_growth_region(as_int(ret@[j]))
                },
            forall|kk: int, d: int|
                0 <= kk < k && 0 <= d < 4 && in_growth_region(neighbor(polyomino@[kk], d))
                    ==> covered(ret@, polyomino@, #[trigger] neighbor(polyomino@[kk], d)),
        decreases polyomino@.len() - k,
    {
        let c = polyomino[k];
        let mut d: usize = 0;
        while d < 4
            invariant
                bounded(polyomino@, 126),
                k < polyomino@.len(),
                c == polyomino@[k as int],
                d <= 4,
                no_dups(ret@),
                forall|j: int|
                    0 <= j < ret@.len() ==> {
                        &&& !polyomino@.contains(#[trigger] ret@[j])
                        &&& touches(polyomino@, ret@[j])
                        &&& in_growth_region(as_int(ret@[j]))
                    },
                forall|kk: int, dd: int|
                    0 <= kk < k && 0 <= dd < 4 && in_growth_region(neighbor(polyomino@[kk], dd))
                        ==> covered(ret@, polyomino@, #[trigger] neighbor(polyomino@[kk], dd)),
                forall|dd: int|
                    0 <= dd < d && in_growth_region(neighbor(polyomino@[k as int], dd))
                        ==> covered(ret@, polyomino@, #[trigger] neighbor(polyomino@[k as int], dd)),
            decreases 4 - d,
        {
            let n = neighbor_of(c, d);
            let ghost before = ret@;
            if n.1 >= 0 && !(n.1 == 0 && n.0 < 0) {
                let in_shape = contains_coord(polyomino, n);
                let seen = contains_coord(ret.as_slice(), n);
                if in_shape {
                    proof {
                        let j = choose|j: int| 0 <= j < polyomino@.len() && polyomino@[j] == n;
                        assert(as_int(polyomino@[j]) == neighbor(polyomino@[k as int], d as int));
                        assert(lands_in(polyomino@, as_int(n)));
                    }
                } else if seen {
                    proof {
                        let j = choose|j: int| 0 <= j < ret@.len() && ret@[j] == n;
                        assert(as_int(ret@[j]) == neighbor(polyomino@[k as int], d as int));
                        assert(lands_in(ret@, as_int(n)));
                    }
                } else {
                    ret.push(n);
                    proof {
                        lemma_lands_in_push(before, n);
                        assert(ret@ == before.push(n));
                        assert(ret@[before.len() as int] == n);
                        assert(lands_in(ret@, as_int(n)));
                        assert(neighbor(polyomino@[k as int], d as int) == as_int(n));
                        assert(touches(polyomino@, n));
                        assert forall|j: int| 0 <= j < before.len() implies #[trigger] ret@[j] == before[j] by {}
                    }
                }
            }
            d = d + 1;
        }
        k = k + 1;
    }
    ret
}

/// Two coordinate sequences of one length that compare equal are the same.
pub proof fn lemma_lex_equal(a: Seq<Coord>, b: Seq<Coord>)
    requires
        a.len() == b.len(),
        lex_order(a, b) == Ordering::Equal,
    ensures
        a == b,
    decreases a.len(),
{
    if a.len() > 0 {
        if a[0] == b[0] {
            lemma_lex_equal(a.drop_first(), b.drop_first());
            assert forall|i: int| 0 <= i < a.len() implies a[i] == b[i] by {
                if i > 0 {
                    assert(a[i] == a.drop_first()[i - 1]);
                    assert(b[i] == b.drop_first()[i - 1]);
                }
            }
        }
    }
    assert(a =~= b);
}

pub proof fn lemma_lex_reflexive(a: Seq<Coord>)
    ensures
        lex_order(a, a) == Ordering::Equal,
    decreases a.len(),
{
    if a.len() > 0 {
        lemma_lex_reflexive(a.drop_first());
    }
}

pub proof fn lemma_lex_antisymmetric(a: Seq<Coord>, b: Seq<Coord>)
    ensures
        (lex_order(a, b) == Ordering::Greater) == (lex_order(b, a) == Ordering::Less),
    decreases a.len(),
{
    if a.len() > 0 && b.len() > 0 && a[0] == b[0] {
        lemma_lex_antisymmetric(a.drop_first(), b.drop_first());
    }
}

pub proof fn lemma_lex_transitive(a: Seq<Coord>, b: Seq<Coord>, c: Seq<Coord>)
    requires
        a.len() == b.len() == c.len(),
        lex_order(a, b) == Ordering::Less,
        lex_order(b, c) != Ordering::Greater,
    ensures
        lex_order(a, c) == Ordering::Less,
    decreases a.len(),
{
    if lex_order(b, c) == Ordering::Equal {
        lemma_lex_equal(b, c);
    } else if a[0] == b[0] && b[0] == c[0] {
        lemma_lex_transitive(a.drop_first(), b.drop_first(), c.drop_first());
    }
}

pub proof fn lemma_shape_order_equal(a: Seq<Coord>, b: Seq<Coord>)
    requires
        shape_order(a, b) == Ordering::Equal,
    ensures
        a == b,
{
    lemma_lex_equal(a, b);
}

pub proof fn lemma_shape_order_antisymmetric(a: Seq<Coord>, b: Seq<Coord>)
    ensures
        (shape_order(a, b) == Ordering::Greater) == (shape_order(b, a) == Ordering::Less),
{
    lemma_lex_antisymmetric(a, b);
}

pub proof fn lemma_shape_order_transitive(a: Seq<Coord>, b: Seq<Coord>, c: Seq<Coord>)
    requires
        shape_order(a, b) == Ordering::Less,
        shape_order(b, c) != Ordering::Greater,
    ensures
        shape_order(a, c) == Ordering::Less,
{
    if shape_order(b, c) == Ordering::Equal {
        lemma_shape_order_equal(b, c);
    } else if a.len() == b.len() && b.len() == c.len() {
        lemma_lex_transitive(a, b, c);
    }
}

pub open spec fn max_x(s: Seq<Coord>) -> int
    decreases s.len(),
{
    if s.len() == 0 {
        -128
    } else if max_x(s.drop_last()) >= s.last().0 {
        max_x(s.drop_last())
    } else {
        s.last().0 as int
    }
}

pub open spec fn max_y(s: Seq<Coord>) -> int
    decreases s.len(),
{
    if s.len() == 0 {
        -128
    } else if max_y(s.drop_last()) >= s.last().1 {
        max_y(s.drop_last())
    } else {
        s.last().1 as int
    }
}

pub open spec fn min_x(s: Seq<Coord>) -> int
    decreases s.len(),
{
    if s.len() == 0 {
        127
    } else if min_x(s.drop_last()) <= s.last().0 {
        min_x(s.drop_last())
    } else {
        s.last().0 as int
    }
}

/// The character drawn at (x, y): `@` for the origin, `#` for another cell of
/// the shape, a space elsewhere.
pub open spec fn glyph(s: Seq<Coord>, x: int, y: int) -> char {
    if s.contains((x as i8, y as i8)) {
        if x == 0 && y == 0 {
            '@'
        } else {
            '#'
        }
    } else {
        ' '
    }
}

/// Row `y` of the drawing from column `lo`, `n` characters long.
pub open spec fn shape_row(s: Seq<Coord>, y: int, lo: int, n: int) -> Seq<char>
    decreases n,
{
    if n <= 0 {
        Seq::empty()
    } else {
        shape_row(s, y, lo, n - 1).push(glyph(s, lo + n - 1, y))
    }
}

/// The first `m` rows of the drawing over columns `lo` to `hi`, each ending in a line break.
pub open spec fn shape_rows(s: Seq<Coord>, lo: int, hi: int, m: int) -> Seq<char>
    decreases m,
{
    if m <= 0 {
        Seq::empty()
    } else {
        (shape_rows(s, lo, hi, m - 1) + shape_row(s, m - 1, lo, hi - lo + 1)).push('\n')
    }
}

/// A shape: up to four distinct coordinates, sorted, holding the origin, and
/// its transform table once the shape stands in a catalog.
#[derive(Debug)]
pub struct Polyomino {
    pub coords: tinyvec::ArrayVec<[Coord; 4]>,
    pub symmetries: Vec<usize>,
}

#[verifier::external_type_specification]
#[verifier::external_body]
#[verifier::reject_recursive_types(A)]
pub struct ExArrayVec<A>(tinyvec::ArrayVec<A>);

/// The coordinates an `ArrayVec` of four coordinates holds, in order.
pub uninterp spec fn coord_items(v: tinyvec::ArrayVec<[(i8, i8); 4]>) -> Seq<(i8, i8)>;

/// Relies on `ArrayVec::from_iter`, which pushes the items in order and
/// panics only beyond the capacity of four.
#[verifier::external_body]
fn coords_from_slice(s: &[Coord]) -> (r: tinyvec::ArrayVec<[Coord; 4]>)
    requires
        s@.len() <= 4,
    ensures
        coord_items(r) == s@,
{
    tinyvec::ArrayVec::from_iter(s.iter().copied())
}

/// Relies on `ArrayVec::as_slice`: the items held, in order, never more than
/// the capacity of four.
#[verifier::external_body]
fn coords_as_slice(v: &tinyvec::ArrayVec<[Coord; 4]>) -> (r: &[Coord])
    ensures
        r@ == coord_items(*v),
        r@.len() <= 4,
{
    v.as_slice()
}

/// Coordinates that make a shape: at most four, strictly sorted, with the origin.
pub open spec fn shape_coords(s: Seq<Coord>) -> bool {
    &&& s.len() <= 4
    &&& strictly_sorted(s)
    &&& s.contains((0i8, 0i8))
}

proof fn lemma_push_contains(s: Seq<Coord>, c: Coord)
    ensures
        forall|x: Coord| #[trigger] s.push(c).contains(x) <==> (s.contains(x) || x == c),
{
    let t = s.push(c);
    assert forall|x: Coord| #[trigger] t.contains(x) <==> (s.contains(x) || x == c) by {
        if t.contains(x) {
            let k = choose|k: int| 0 <= k < t.len() && t[k] == x;
            if k < s.len() {
                assert(s[k] == x);
            }
        }
        if s.contains(x) {
            let k = choose|k: int| 0 <= k < s.len() && s[k] == x;
            assert(t[k] == x);
        }
        if x == c {
            assert(t[s.len() as int] == x);
        }
    }
}

fn coord_less(a: &Coord, b: &Coord) -> (r: bool)
    ensures
        r == coord_lt(*a, *b),
{
    a.0 < b.0 || (a.0 == b.0 && a.1 < b.1)
}

/// Inserts `c` into a strictly sorted vector that does not hold it, keeping it sorted.
fn insert_sorted(v: &mut Vec<Coord>, c: Coord)
    requires
        strictly_sorted(old(v)@),
        !old(v)@.contains(c),
    ensures
        strictly_sorted(final(v)@),
        final(v)@.len() == old(v)@.len() + 1,
        forall|x: Coord| #[trigger] final(v)@.contains(x) <==> (old(v)@.contains(x) || x == c),
{
    let mut pos: usize = 0;
    while pos < v.len()
        invariant
            pos <= v@.len(),
            forall|k: int| 0 <= k < pos ==> coord_lt(#[trigger] v@[k], c),
        ensures
            pos <= v@.len(),
            forall|k: int| 0 <= k < pos ==> coord_lt(#[trigger] v@[k], c),
            pos < v@.len() ==> !coord_lt(v@[pos as int], c),
        decreases v@.len() - pos,
    {
        if !coord_less(&v[pos], &c) {
            break;
        }
        pos = pos + 1;
    }
    let ghost s = v@;
    proof {
        lemma_insert_contains_any(s, pos as int, c);
        assert forall|k: int| pos <= k < s.len() implies coord_lt(c, #[trigger] s[k]) by {
            assert(s[k] != c);
            assert(!coord_lt(s[pos as int], c));
            if k > pos {
                assert(coord_lt(s[pos as int], s[k]));
            }
        }
    }
    v.insert(pos, c);
    proof {
        let t = v@;
        assert forall|i: int, j: int| 0 <= i < j < t.len() implies coord_lt(
            #[trigger] t[i],
            #[trigger] t[j],
        ) by {
            if j < pos {
                assert(t[i] == s[i] && t[j] == s[j]);
            } else if j == pos {
                assert(t[i] == s[i]);
            } else if i < pos {
                assert(t[i] == s[i] && t[j] == s[j - 1]);
                assert(coord_lt(s[i], c));
            } else if i == pos {
                assert(t[j] == s[j - 1]);
            } else {
                assert(t[i] == s[i - 1] && t[j] == s[j - 1]);
            }
        }
    }
}

impl Polyomino {
    /// The shape's coordinates.
    pub open spec fn cells(&self) -> Seq<Coord> {
        coord_items(self.coords)
    }

    /// Compares two coordinates by x, then by y.
    pub fn coord_sort(first: &Coord, second: &Coord) -> (r: Ordering)
        ensures
            r == coord_order(*first, *second),
    {
        let (x1, y1) = *first;
        let (x2, y2) = *second;
        if x1 < x2 {
            Ordering::Less
        } else if x1 > x2 {
            Ordering::Greater
        } else if y1 < y2 {
            Ordering::Less
        } else if y1 > y2 {
            Ordering::Greater
        } else {
            Ordering::Equal
        }
    }

    /// The shape with these coordinates, sorted; it has no transform table yet.
    pub fn new(coords: &[Coord]) -> (r: Polyomino)
        requires
            coords@.len() <= 4,
            coords@.contains((0i8, 0i8)),
            no_dups(coords@),
        ensures
            shape_coords(r.cells()),
            r.cells().len() == coords@.len(),
            forall|c: Coord| #[trigger] r.cells().contains(c) <==> coords@.contains(c),
            forall|b: int| bounded(coords@, b) ==> #[trigger] bounded(r.cells(), b),
            in_region_all(coords@) ==> in_region_all(r.cells()),
            r.symmetries@.len() == 0,
    {
        let mut sorted: Vec<Coord> = Vec::new();
        let mut i: usize = 0;
        while i < coords.len()
            invariant
                i <= coords@.len(),
                sorted@.len() == i,
                strictly_sorted(sorted@),
                no_dups(coords@),
                forall|c: Coord| #[trigger]
                    sorted@.contains(c) <==> coords@.subrange(0, i as int).contains(c),
            decreases coords@.len() - i,
        {
            let c = coords[i];
            proof {
                let pre = coords@.subrange(0, i as int);
                if sorted@.contains(c) {
                    let k = choose|k: int| 0 <= k < pre.len() && pre[k] == c;
                    assert(coords@[k] == coords@[i as int]);
                }
                assert(coords@.subrange(0, i + 1) =~= pre.push(c));
                lemma_push_contains(pre, c);
            }
            insert_sorted(&mut sorted, c);
            i = i + 1;
        }
        assert(coords@.subrange(0, coords@.len() as int) =~= coords@);
        assert forall|b: int| bounded(coords@, b) implies #[trigger] bounded(sorted@, b) by {
            assert forall|k: int| 0 <= k < sorted@.len() implies -b <= #[trigger] sorted@[k].0 <= b
                && -b <= sorted@[k].1 <= b by {
                assert(sorted@.contains(sorted@[k]));
                assert(coords@.contains(sorted@[k]));
                let j = choose|j: int| 0 <= j < coords@.len() && coords@[j] == sorted@[k];
                assert(-b <= coords@[j].0 <= b && -b <= coords@[j].1 <= b);
            }
        }
        assert(in_region_all(coords@) ==> in_region_all(sorted@)) by {
            if in_region_all(coords@) {
                assert forall|k: int| 0 <= k < sorted@.len() implies #[trigger] in_growth_region(as_int(sorted@[k])) by {
                    assert(sorted@.contains(sorted@[k]));
                    assert(coords@.contains(sorted@[k]));
                    let j = choose|j: int| 0 <= j < coords@.len() && coords@[j] == sorted@[k];
                    assert(in_growth_region(as_int(coords@[j])));
                }
            }
        }
        Polyomino { coords: coords_from_slice(sorted.as_slice()), symmetries: Vec::new() }
    }

    /// Flips the shape by `transform`, moves its top-left coordinate (in reading
    /// order) to the origin and sorts the coordinates again.
    pub fn apply_flips(&mut self, transform: Symmetry)
        requires
            shape_coords(old(self).cells()),
            bounded(old(self).cells(), 63),
        ensures
            is_flip_of(final(self).cells(), transform, old(self).cells()),
            shape_coords(final(self).cells()),
            final(self).symmetries@ == old(self).symmetries@,
    {
        let ghost s = self.cells();
        let n = self.coords().len();
        let mut flips: Vec<Coord> = Vec::new();
        let mut i: usize = 0;
        while i < n
            invariant
                n == s.len() == self.cells().len(),
                s == self.cells(),
                bounded(s, 63),
                i <= n,
                flips@.len() == i,
                forall|k: int| 0 <= k < i ==> as_int(#[trigger] flips@[k]) == flipped(transform, s, k),
            decreases n - i,
        {
            flips.push(flip_coord(transform, self.coords()[i]));
            i = i + 1;
        }
        // The first flipped coordinate in reading order.
        let mut best: Coord = (127i8, 127i8);
        let mut best_at: usize = 0;
        let mut j: usize = 0;
        while j < n
            invariant
                n == s.len() == flips@.len(),
                0 < n,
                bounded(s, 63),
                forall|k: int| 0 <= k < n ==> as_int(#[trigger] flips@[k]) == flipped(transform, s, k),
                j <= n,
                j == 0 ==> best == (127i8, 127i8),
                j > 0 ==> best_at < j && best == flips@[best_at as int],
                forall|k: int|
                    0 <= k < j ==> reads_before_or_at(as_int(best), #[trigger] as_int(flips@[k])),
            decreases n - j,
        {
            let (x, y) = flips[j];
            if y < best.1 || (y == best.1 && x < best.0) {
                best = (x, y);
                best_at = j;
            }
            j = j + 1;
        }
        proof {
            assert(flipped(transform, s, best_at as int) == as_int(best));
            assert forall|k: int| 0 <= k < s.len() implies reads_before_or_at(
                as_int(best),
                #[trigger] flipped(transform, s, k),
            ) by {
                assert(as_int(flips@[k]) == flipped(transform, s, k));
            }
            lemma_top_left_unique(as_int(best), transform, s);
        }
        let mut moved_coords: Vec<Coord> = Vec::new();
        let mut m: usize = 0;
        while m < n
            invariant
                n == s.len() == flips@.len(),
                shape_coords(s),
                bounded(s, 63),
                top_left(transform, s) == as_int(best),
                -63 <= best.0 <= 63,
                -63 <= best.1 <= 63,
                forall|k: int| 0 <= k < n ==> as_int(#[trigger] flips@[k]) == flipped(transform, s, k),
                m <= n,
                moved_coords@.len() == m,
                forall|k: int| 0 <= k < m ==> as_int(#[trigger] moved_coords@[k]) == moved(transform, s, k),
            decreases n - m,
        {
            let (x, y) = flips[m];
            moved_coords.push((x - best.0, y - best.1));
            m = m + 1;
        }
        proof {
            assert(moved_coords@[best_at as int] == (0i8, 0i8));
            assert forall|a: int, b: int| 0 <= a < b < moved_coords@.len() implies #[trigger] moved_coords@[a]
                != #[trigger] moved_coords@[b] by {
                assert(s[a] != s[b]);
                assert(coord_lt(s[a], s[b]));
            }
        }
        let sorted = Polyomino::new(moved_coords.as_slice());
        proof {
            assert forall|j: int| 0 <= j < sorted.cells().len() implies comes_from(
                transform,
                s,
                #[trigger] sorted.cells()[j],
            ) by {
                assert(sorted.cells().contains(sorted.cells()[j]));
                assert(moved_coords@.contains(sorted.cells()[j]));
                let k = choose|k: int| 0 <= k < moved_coords@.len() && moved_coords@[k] == sorted.cells()[j];
                assert(as_int(moved_coords@[k]) == moved(transform, s, k));
            }
            assert forall|k: int| 0 <= k < s.len() implies lands_in(
                sorted.cells(),
                #[trigger] moved(transform, s, k),
            ) by {
                assert(moved_coords@.contains(moved_coords@[k]));
                assert(sorted.cells().contains(moved_coords@[k]));
            }
        }
        self.coords = sorted.coords;
    }

    /// The transform table of this shape against `all`: for each symmetry index,
    /// the first entry of `all` equal to the shape flipped by that symmetry, or
    /// `None` where some flip has no entry.
    pub fn compute_transforms(&self, all: &[Polyomino]) -> (r: Option<Vec<usize>>)
        requires
            shape_coords(self.cells()),
            bounded(self.cells(), 63),
        ensures
            match r {
                Some(v) => exact_table(shapes_of(all@), self.cells(), v@),
                None => exists|k: int, f: Seq<Coord>|
                    0 <= k < 8 && #[trigger] is_flip_of(f, symmetry_at(k), self.cells()) && !shapes_of(all@).contains(f)
                        && no_flip_in(shapes_of(all@), symmetry_at(k), self.cells()),
            },
    {
        let mut indices: Vec<usize> = Vec::new();
        let mut k: usize = 0;
        while k < 8
            invariant
                shape_coords(self.cells()),
                bounded(self.cells(), 63),
                k <= 8,
                indices@.len() == k,
                forall|i: int| 0 <= i < k ==> first_flip_index(shapes_of(all@), symmetry_at(i), self.cells(), #[trigger] indices@[i] as int),
            decreases 8 - k,
        {
            let sym = Symmetry::from_index(k);
            let mut poly = self.duplicate();
            poly.apply_flips(sym);
            let mut j: usize = 0;
            let mut found: bool = false;
            while j < all.len()
                invariant
                    is_flip_of(poly.cells(), sym, self.cells()),
                    j <= all@.len(),
                    forall|i: int| 0 <= i < j ==> !is_flip_of(#[trigger] shapes_of(all@)[i], sym, self.cells()),
                    found ==> j < all@.len() && all@[j as int].cells() == poly.cells(),
                ensures
                    is_flip_of(poly.cells(), sym, self.cells()),
                    j <= all@.len(),
                    forall|i: int| 0 <= i < j ==> !is_flip_of(#[trigger] shapes_of(all@)[i], sym, self.cells()),
                    found ==> j < all@.len() && all@[j as int].cells() == poly.cells(),
                    !found ==> j == all@.len(),
                decreases all@.len() - j + (if found { 0int } else { 1int }),
            {
                if all[j].same_shape(&poly) {
                    found = true;
                    break;
                }
                proof {
                    assert(shapes_of(all@)[j as int] == all@[j as int].cells());
                    if is_flip_of(all@[j as int].cells(), sym, self.cells()) {
                        lemma_flip_unique(all@[j as int].cells(), poly.cells(), sym, self.cells());
                    }
                }
                j = j + 1;
            }
            if !found {
                assert(no_flip_in(shapes_of(all@), symmetry_at(k as int), self.cells()));
                proof {
                    if shapes_of(all@).contains(poly.cells()) {
                        let m = choose|m: int| 0 <= m < shapes_of(all@).len() && shapes_of(all@)[m] == poly.cells();
                        assert(!is_flip_of(shapes_of(all@)[m], sym, self.cells()));
                    }
                }
                return None;
            }
            proof {
                assert(shapes_of(all@)[j as int] == all@[j as int].cells());
            }
            indices.push(j);
            k = k + 1;
        }
        Some(indices)
    }

    /// The catalog entry that this shape becomes under `symmetry`, by its table.
    pub fn transform<'a>(&self, symmetry: Symmetry, catalog: &'a [Polyomino]) -> (r: &'a Polyomino)
        requires
            self.symmetries@.len() == 8,
            forall|k: int| 0 <= k < 8 ==> #[trigger] self.symmetries@[k] < catalog@.len(),
        ensures
            *r == catalog@[self.symmetries@[index_of(symmetry) as int] as int],
    {
        &catalog[self.symmetries[symmetry.into_index()]]
    }

    /// The shape drawn row by row from row 0 to its lowest row, over the
    /// columns it spans.
    pub fn to_string(&self) -> (r: String)
        ensures
            r@ == shape_rows(self.cells(), min_x(self.cells()), max_x(self.cells()), max_y(self.cells()) + 1),
    {
        let mut hi_x: i8 = -128;
        let mut hi_y: i8 = -128;
        let mut lo_x: i8 = 127;
        let mut i: usize = 0;
        while i < self.coords().len()
            invariant
                i <= self.cells().len(),
                hi_x == max_x(self.cells().take(i as int)),
                hi_y == max_y(self.cells().take(i as int)),
                lo_x == min_x(self.cells().take(i as int)),
            decreases self.cells().len() - i,
        {
            let (x, y) = self.coords()[i];
            assert(self.cells().take(i + 1).drop_last() =~= self.cells().take(i as int));
            if x > hi_x {
                hi_x = x;
            }
            if y > hi_y {
                hi_y = y;
            }
            if x < lo_x {
                lo_x = x;
            }
            i = i + 1;
        }
        assert(self.cells().take(self.cells().len() as int) =~= self.cells());
        let ghost s = self.cells();
        let mut ret = String::new();
        let mut y: i16 = 0;
        while y <= hi_y as i16
            invariant
                s == self.cells(),
                hi_x == max_x(s),
                hi_y == max_y(s),
                lo_x == min_x(s),
                0 <= y <= 128,
                y <= hi_y + 1 || y == 0,
                ret@ == shape_rows(s, lo_x as int, hi_x as int, y as int),
            decreases hi_y + 1 - y,
        {
            let ghost before = ret@;
            let mut x: i16 = lo_x as i16;
            while x <= hi_x as i16
                invariant
                    s == self.cells(),
                    0 <= y <= hi_y,
                    lo_x as int <= x <= hi_x + 1 || x == lo_x,
                    -128 <= x <= 128,
                    ret@ == before + shape_row(s, y as int, lo_x as int, x - lo_x),
                decreases hi_x + 1 - x,
            {
                let c = (x as i8, y as i8);
                if contains_coord(self.coords(), c) {
                    if x == 0 && y == 0 {
                        push_char(&mut ret, '@');
                    } else {
                        push_char(&mut ret, '#');
                    }
                } else {
                    push_char(&mut ret, ' ');
                }
                assert(ret@ =~= before + shape_row(s, y as int, lo_x as int, x + 1 - lo_x));
                x = x + 1;
            }
            assert(before + shape_row(s, y as int, lo_x as int, hi_x - lo_x + 1) =~= before + shape_row(s, y as int, lo_x as int, x - lo_x)) by {
                if hi_x < lo_x {
                    assert(x == lo_x);
                } else {
                    assert(x == hi_x + 1);
                }
            }
            push_char(&mut ret, '\n');
            assert(ret@ =~= shape_rows(s, lo_x as int, hi_x as int, y + 1));
            y = y + 1;
        }
        proof {
            if hi_y < 0 {
                assert(y == 0);
            } else {
                assert(y == hi_y + 1);
            }
        }
        ret
    }

    pub fn size(&self) -> (r: u8)
        ensures
            r == self.cells().len(),
    {
        self.coords().len() as u8
    }

    pub fn coords(&self) -> (r: &[Coord])
        ensures
            r@ == self.cells(),
            r@.len() <= 4,
    {
        coords_as_slice(&self.coords)
    }

    /// A copy of the shape, transform table included.
    pub fn duplicate(&self) -> (r: Polyomino)
        ensures
            r.cells() == self.cells(),
            r.symmetries@ == self.symmetries@,
    {
        let coords = coords_from_slice(self.coords());
        let mut symmetries: Vec<usize> = Vec::new();
        let mut j: usize = 0;
        while j < self.symmetries.len()
            invariant
                j <= self.symmetries@.len(),
                symmetries@ == self.symmetries@.subrange(0, j as int),
            decreases self.symmetries@.len() - j,
        {
            symmetries.push(self.symmetries[j]);
            j = j + 1;
            assert(symmetries@ =~= self.symmetries@.subrange(0, j as int));
        }
        assert(symmetries@ =~= self.symmetries@);
        Polyomino { coords, symmetries }
    }

    /// Compares two shapes: shorter ones first, then by their sorted coordinates.
    pub fn shape_cmp(&self, other: &Polyomino) -> (r: Ordering)
        ensures
            r == shape_order(self.cells(), other.cells()),
    {
        let n = self.coords().len();
        if n > other.coords().len() {
            return Ordering::Greater;
        } else if n < other.coords().len() {
            return Ordering::Less;
        }
        let mut i: usize = 0;
        assert(self.cells().subrange(0, n as int) =~= self.cells());
        assert(other.cells().subrange(0, n as int) =~= other.cells());
        while i < n
            invariant
                n == self.cells().len() == other.cells().len(),
                i <= n,
                lex_order(self.cells().subrange(i as int, n as int), other.cells().subrange(i as int, n as int))
                    == lex_order(self.cells(), other.cells()),
            decreases n - i,
        {
            let ghost a = self.cells().subrange(i as int, n as int);
            let ghost b = other.cells().subrange(i as int, n as int);
            assert(a.drop_first() =~= self.cells().subrange(i + 1, n as int));
            assert(b.drop_first() =~= other.cells().subrange(i + 1, n as int));
            let o = Self::coord_sort(&self.coords()[i], &other.coords()[i]);
            match o {
                Ordering::Equal => {},
                _ => {
                    return o;
                },
            }
            i = i + 1;
        }
        assert(self.cells().subrange(0, n as int) =~= self.cells());
        assert(other.cells().subrange(0, n as int) =~= other.cells());
        Ordering::Equal
    }

    pub fn same_shape(&self, other: &Polyomino) -> (r: bool)
        ensures
            r == (self.cells() == other.cells()),
    {
        if self.coords().len() != other.coords().len() {
            return false;
        }
        let mut i: usize = 0;
        while i < self.coords().len()
            invariant
                self.cells().len() == other.cells().len(),
                i <= self.cells().len(),
                forall|k: int| 0 <= k < i ==> self.cells()[k] == other.cells()[k],
            decreases self.cells().len() - i,
        {
            if self.coords()[i].0 != other.coords()[i].0 || self.coords()[i].1 != other.coords()[i].1 {
                return false;
            }
            i = i + 1;
        }
        assert(self.cells() =~= other.cells());
        true
    }
}

impl Clone for Polyomino {
    fn clone(&self) -> (r: Polyomino)
        ensures
            r.cells() == self.cells(),
            r.symmetries@ == self.symmetries@,
    {
        self.duplicate()
    }
}

impl PartialEq for Polyomino {
    /// Shapes are equal when their coordinates are; the transform table is a cache.
    fn eq(&self, other: &Polyomino) -> (r: bool) {
        self.same_shape(other)
    }
}

impl vstd::std_specs::cmp::PartialEqSpecImpl for Polyomino {
    open spec fn obeys_eq_spec() -> bool {
        true
    }

    open spec fn eq_spec(&self, other: &Polyomino) -> bool {
        self.cells() == other.cells()
    }
}

impl Eq for Polyomino {

}

impl PartialOrd for Polyomino {
    fn partial_cmp(&self, other: &Polyomino) -> (r: Option<Ordering>) {
        Some(self.shape_cmp(other))
    }
}

impl vstd::std_specs::cmp::PartialOrdSpecImpl for Polyomino {
    open spec fn obeys_partial_cmp_spec() -> bool {
        true
    }

    open spec fn partial_cmp_spec(&self, other: &Polyomino) -> Option<Ordering> {
        Some(shape_order(self.cells(), other.cells()))
    }
}

proof fn lemma_bounded_mono(s: Seq<Coord>, a: int, b: int)
    requires
        bounded(s, a),
        a <= b,
    ensures
        bounded(s, b),
{
}

/// A shape whose origin is its first cell in reading order is its own normal
/// form under the identity.
pub proof fn lemma_identity_flip(s: Seq<Coord>)
    requires
        shape_coords(s),
        in_region_all(s),
    ensures
        is_flip_of(s, symmetry_at(0), s),
{
    let t = symmetry_at(0);
    let o = choose|k: int| 0 <= k < s.len() && s[k] == (0i8, 0i8);
    assert(flipped(t, s, o) == (0int, 0int));
    assert forall|k: int| 0 <= k < s.len() implies reads_before_or_at((0int, 0int), #[trigger] flipped(t, s, k)) by {
        assert(in_growth_region(as_int(s[k])));
    }
    lemma_top_left_unique((0int, 0int), t, s);
    assert forall|k: int| 0 <= k < s.len() implies lands_in(s, #[trigger] moved(t, s, k)) by {
        assert(as_int(s[k]) == moved(t, s, k));
    }
    assert forall|j: int| 0 <= j < s.len() implies comes_from(t, s, #[trigger] s[j]) by {
        assert(moved(t, s, j) == as_int(s[j]));
    }
}

/// In a catalog of distinct shapes from the growth region, the identity entry
/// of a shape's exact table is the shape's own index.
pub proof fn lemma_identity_index(catalog: Seq<Polyomino>, i: int, table: Seq<usize>)
    requires
        catalog_shapes(catalog),
        0 <= i < catalog.len(),
        exact_table(shapes_of(catalog), catalog[i].cells(), table),
    ensures
        table[0] == i,
{
    let s = catalog[i].cells();
    let shapes = shapes_of(catalog);
    assert(shape_coords(catalog[i].cells()));
    lemma_identity_flip(s);
    assert(first_flip_index(shapes, symmetry_at(0), s, table[0] as int));
    let j = table[0] as int;
    lemma_flip_unique(shapes[j], s, symmetry_at(0), s);
    assert(shapes[j] == catalog[j].cells());
    if j < i {
        assert(catalog[j].cells() != catalog[i].cells());
    } else if j > i {
        assert(shapes[i] == s);
        assert(!is_flip_of(shapes[i], symmetry_at(0), s));
    }
}

/// The identity transform leaves every catalog shape where it is.
pub proof fn lemma_transform_identity(catalog: Seq<Polyomino>, i: int)
    requires
        catalog_wf(catalog),
        0 <= i < catalog.len(),
    ensures
        catalog[i].symmetries@[index_of(crate::symmetry::identity()) as int] == i,
        catalog[catalog[i].symmetries@[index_of(crate::symmetry::identity()) as int] as int] == catalog[i],
{
    assert(catalog[i].symmetries@[0] == i);
}

proof fn lemma_top_left_exists(t: Symmetry, s: Seq<Coord>)
    requires
        s.len() > 0,
    ensures
        is_top_left(top_left(t, s), t, s),
    decreases s.len(),
{
    let n = s.len() as int;
    if n == 1 {
        let w = flipped(t, s, 0);
        assert(is_top_left(w, t, s));
    } else {
        let s0 = s.drop_last();
        lemma_top_left_exists(t, s0);
        let m = top_left(t, s0);
        let l = flipped(t, s, n - 1);
        assert forall|k: int| 0 <= k < n - 1 implies #[trigger] flipped(t, s, k) == flipped(t, s0, k) by {
            assert(s[k] == s0[k]);
        }
        let k0 = choose|k: int| 0 <= k < s0.len() && flipped(t, s0, k) == m;
        assert(flipped(t, s, k0) == m);
        if reads_before_or_at(m, l) {
            assert(is_top_left(m, t, s));
        } else {
            assert(is_top_left(l, t, s)) by {
                assert forall|k: int| 0 <= k < n implies reads_before_or_at(l, #[trigger] flipped(t, s, k)) by {
                    if k < n - 1 {
                        assert(reads_before_or_at(m, flipped(t, s0, k)));
                    }
                }
            }
        }
    }
}

proof fn lemma_apply_shift(t: Symmetry, p: (int, int), q: (int, int))
    ensures
        apply_coord(t, (p.0 + q.0, p.1 + q.1)) == (apply_coord(t, p).0 + apply_coord(t, q).0, apply_coord(t, p).1
            + apply_coord(t, q).1),
{
}

/// The `k`-th coordinate of `s` under `c` is where the matching coordinate of
/// `r1` lands under `b`, shifted by the image of `a`'s top-left under `b`.
proof fn lemma_compose_point(s: Seq<Coord>, r1: Seq<Coord>, a: Symmetry, b: Symmetry, c: Symmetry, k: int) -> (j: int)
    requires
        0 <= k < s.len(),
        is_flip_of(r1, a, s),
        forall|p: (int, int)| #[trigger] apply_coord(c, p) == apply_coord(b, apply_coord(a, p)),
    ensures
        0 <= j < r1.len(),
        as_int(r1[j]) == moved(a, s, k),
        flipped(c, s, k) == (flipped(b, r1, j).0 + apply_coord(b, top_left(a, s)).0, flipped(b, r1, j).1
            + apply_coord(b, top_left(a, s)).1),
{
    assert(lands_in(r1, moved(a, s, k)));
    let j = choose|j: int| 0 <= j < r1.len() && as_int(r1[j]) == moved(a, s, k);
    let ta = top_left(a, s);
    let fa = apply_coord(a, as_int(s[k]));
    assert(fa == (as_int(r1[j]).0 + ta.0, as_int(r1[j]).1 + ta.1));
    lemma_apply_shift(b, as_int(r1[j]), ta);
    assert(apply_coord(c, as_int(s[k])) == apply_coord(b, fa));
    j
}

proof fn lemma_compose_top_left(s: Seq<Coord>, r1: Seq<Coord>, a: Symmetry, b: Symmetry, c: Symmetry)
    requires
        s.len() > 0,
        is_flip_of(r1, a, s),
        forall|p: (int, int)| #[trigger] apply_coord(c, p) == apply_coord(b, apply_coord(a, p)),
    ensures
        top_left(c, s) == (apply_coord(b, top_left(a, s)).0 + top_left(b, r1).0, apply_coord(b, top_left(a, s)).1
            + top_left(b, r1).1),
{
    lemma_top_left_exists(b, r1);
    let tb = top_left(b, r1);
    let ba = apply_coord(b, top_left(a, s));
    let d = (ba.0 + tb.0, ba.1 + tb.1);
    let j0 = choose|j: int| 0 <= j < r1.len() && flipped(b, r1, j) == tb;
    assert(comes_from(a, s, r1[j0]));
    let k0 = choose|k: int| 0 <= k < s.len() && moved(a, s, k) == as_int(r1[j0]);
    let j1 = lemma_compose_point(s, r1, a, b, c, k0);
    assert(r1[j1] == r1[j0]);
    assert(flipped(c, s, k0) == d);
    assert forall|k: int| 0 <= k < s.len() implies reads_before_or_at(d, #[trigger] flipped(c, s, k)) by {
        let j = lemma_compose_point(s, r1, a, b, c, k);
        assert(reads_before_or_at(tb, flipped(b, r1, j)));
    }
    lemma_top_left_unique(d, c, s);
}

/// Flipping the normal form of `s` under `a` by `b` gives the normal form of
/// `s` under the symmetry `c` that does `a`, then `b`.
pub proof fn lemma_flip_compose(s: Seq<Coord>, r1: Seq<Coord>, r2: Seq<Coord>, a: Symmetry, b: Symmetry, c: Symmetry)
    requires
        s.len() > 0,
        is_flip_of(r1, a, s),
        is_flip_of(r2, b, r1),
        forall|p: (int, int)| #[trigger] apply_coord(c, p) == apply_coord(b, apply_coord(a, p)),
    ensures
        is_flip_of(r2, c, s),
{
    lemma_compose_top_left(s, r1, a, b, c);
    assert forall|k: int| 0 <= k < s.len() implies lands_in(r2, #[trigger] moved(c, s, k)) by {
        let j = lemma_compose_point(s, r1, a, b, c, k);
        assert(moved(c, s, k) == moved(b, r1, j));
        assert(lands_in(r2, moved(b, r1, j)));
    }
    assert forall|m: int| 0 <= m < r2.len() implies comes_from(c, s, #[trigger] r2[m]) by {
        assert(comes_from(b, r1, r2[m]));
        let j = choose|j: int| 0 <= j < r1.len() && moved(b, r1, j) == as_int(r2[m]);
        assert(comes_from(a, s, r1[j]));
        let k = choose|k: int| 0 <= k < s.len() && moved(a, s, k) == as_int(r1[j]);
        let j2 = lemma_compose_point(s, r1, a, b, c, k);
        assert(r1[j2] == r1[j]);
        assert(moved(c, s, k) == moved(b, r1, j2));
    }
}

proof fn lemma_table_entry(catalog: Seq<Polyomino>, i: int, t: Symmetry) -> (j: int)
    requires
        catalog_wf(catalog),
        0 <= i < catalog.len(),
    ensures
        j == catalog[i].symmetries@[index_of(t) as int],
        0 <= j < catalog.len(),
        is_flip_of(catalog[j].cells(), t, catalog[i].cells()),
        forall|m: int| 0 <= m < j ==> !is_flip_of(#[trigger] shapes_of(catalog)[m], t, catalog[i].cells()),
{
    crate::symmetry::lemma_symmetry_at_index(t);
    assert(exact_table(shapes_of(catalog), catalog[i].cells(), catalog[i].symmetries@));
    let j = catalog[i].symmetries@[index_of(t) as int] as int;
    assert(first_flip_index(shapes_of(catalog), symmetry_at(index_of(t) as int), catalog[i].cells(), j));
    assert(shapes_of(catalog)[j] == catalog[j].cells());
    j
}

/// Looking a shape up in the table under `a`, then looking the result up under
/// `b`, lands on the entry the shape's own table gives for the symmetry `c`
/// that does `a`, then `b`.
pub proof fn lemma_transform_compose(catalog: Seq<Polyomino>, i: int, a: Symmetry, b: Symmetry, c: Symmetry)
    requires
        catalog_wf(catalog),
        0 <= i < catalog.len(),
        forall|p: (int, int)| #[trigger] apply_coord(c, p) == apply_coord(b, apply_coord(a, p)),
    ensures
        catalog[catalog[i].symmetries@[index_of(a) as int] as int].symmetries@[index_of(b) as int]
            == catalog[i].symmetries@[index_of(c) as int],
{
    let ia = lemma_table_entry(catalog, i, a);
    let ib = lemma_table_entry(catalog, ia, b);
    let ic = lemma_table_entry(catalog, i, c);
    let s = catalog[i].cells();
    assert(shape_coords(catalog[i].cells()));
    assert(s.contains((0i8, 0i8)));
    lemma_flip_compose(s, catalog[ia].cells(), catalog[ib].cells(), a, b, c);
    lemma_flip_unique(catalog[ic].cells(), catalog[ib].cells(), c, s);
    if ic < ib {
        assert(shape_coords(catalog[ic].cells()));
        assert(catalog[ic].cells() != catalog[ib].cells());
    } else if ic > ib {
        assert(shapes_of(catalog)[ib] == catalog[ib].cells());
    }
}

/// A normal form lies in the growth region, within twice the bound of the shape.
pub proof fn lemma_flip_props(r: Seq<Coord>, t: Symmetry, s: Seq<Coord>, b: int)
    requires
        s.len() > 0,
        is_flip_of(r, t, s),
        bounded(s, b),
    ensures
        bounded(r, 2 * b),
        in_region_all(r),
{
    lemma_top_left_exists(t, s);
    let a = top_left(t, s);
    let ka = choose|k: int| 0 <= k < s.len() && flipped(t, s, k) == a;
    assert forall|j: int| 0 <= j < r.len() implies -2 * b <= #[trigger] r[j].0 <= 2 * b && -2 * b <= r[j].1 <= 2 * b
        && in_growth_region(as_int(r[j])) by {
        assert(comes_from(t, s, r[j]));
        let k = choose|k: int| 0 <= k < s.len() && moved(t, s, k) == as_int(r[j]);
        assert(reads_before_or_at(a, flipped(t, s, k)));
        assert(-b <= s[k].0 <= b && -b <= s[k].1 <= b);
        assert(-b <= s[ka].0 <= b && -b <= s[ka].1 <= b);
    }
}

fn copy_coords(v: &[Coord]) -> (r: Vec<Coord>)
    ensures
        r@ == v@,
{
    let mut r: Vec<Coord> = Vec::new();
    let mut i: usize = 0;
    while i < v.len()
        invariant
            i <= v@.len(),
            r@ == v@.subrange(0, i as int),
        decreases v@.len() - i,
    {
        r.push(v[i]);
        i = i + 1;
        assert(r@ =~= v@.subrange(0, i as int));
    }
    assert(r@ =~= v@);
    r
}

proof fn lemma_insert_any<T>(s: Seq<T>, pos: int, c: T)
    requires
        0 <= pos <= s.len(),
    ensures
        forall|j: int| 0 <= j < pos ==> s.insert(pos, c)[j] == s[j],
        s.insert(pos, c)[pos] == c,
        forall|j: int| pos < j <= s.len() ==> s.insert(pos, c)[j] == s[j - 1],
{
}

/// Adds a shape to a catalog at its place in shape order, unless an equal
/// shape is already there.
fn insert_shape(catalog: &mut Vec<Polyomino>, p: Polyomino)
    requires
        catalog_shapes(old(catalog)@),
        shape_coords(p.cells()),
        bounded(p.cells(), 6),
        in_region_all(p.cells()),
    ensures
        catalog_shapes(final(catalog)@),
        forall|x: Seq<Coord>| #[trigger] shapes_of(final(catalog)@).contains(x)
            <==> (shapes_of(old(catalog)@).contains(x) || x == p.cells()),
{
    let ghost before = shapes_of(catalog@);
    let mut i: usize = 0;
    while i < catalog.len()
        invariant
            catalog@ == old(catalog)@,
            catalog_shapes(catalog@),
            before == shapes_of(old(catalog)@),
            i <= catalog@.len(),
            forall|j: int| 0 <= j < i ==> #[trigger] catalog@[j].cells() != p.cells(),
        decreases catalog@.len() - i,
    {
        if catalog[i].same_shape(&p) {
            proof {
                assert(before[i as int] == p.cells());
                assert(before.contains(p.cells()));
            }
            return;
        }
        i = i + 1;
    }
    proof {
        assert forall|x: Seq<Coord>| #[trigger] before.contains(x) implies x != p.cells() by {
            let j = choose|j: int| 0 <= j < before.len() && before[j] == x;
            assert(before[j] == catalog@[j].cells());
        }
    }
    let mut pos: usize = 0;
    while pos < catalog.len()
        invariant
            catalog@ == old(catalog)@,
            before == shapes_of(old(catalog)@),
            forall|j: int| 0 <= j < catalog@.len() ==> #[trigger] catalog@[j].cells() != p.cells(),
            pos <= catalog@.len(),
            forall|j: int| 0 <= j < pos ==> shape_order(p.cells(), #[trigger] catalog@[j].cells()) == Ordering::Greater,
        ensures
            pos <= catalog@.len(),
            forall|j: int| 0 <= j < pos ==> shape_order(p.cells(), #[trigger] catalog@[j].cells()) == Ordering::Greater,
            pos < catalog@.len() ==> shape_order(p.cells(), catalog@[pos as int].cells()) != Ordering::Greater,
        decreases catalog@.len() - pos,
    {
        match p.shape_cmp(&catalog[pos]) {
            Ordering::Greater => {},
            _ => {
                break;
            },
        }
        pos = pos + 1;
    }
    let ghost old_cat = catalog@;
    let ghost q = p.cells();
    let ghost pv = p;
    catalog.insert(pos, p);
    proof {
        let c = catalog@;
        lemma_insert_any(old_cat, pos as int, pv);
        assert(c == old_cat.insert(pos as int, pv));
        assert(c[pos as int] == pv);
        assert(shapes_of(c) =~= before.insert(pos as int, q));
        lemma_insert_contains_any(before, pos as int, q);
        assert forall|a: int| 0 <= a < pos implies shape_order(#[trigger] old_cat[a].cells(), q) == Ordering::Less by {
            lemma_shape_order_antisymmetric(q, old_cat[a].cells());
        }
        if pos < old_cat.len() {
            let nxt = old_cat[pos as int].cells();
            assert(nxt != q);
            if shape_order(q, nxt) == Ordering::Equal {
                lemma_shape_order_equal(q, nxt);
            }
            assert forall|a: int| pos <= a < old_cat.len() implies shape_order(q, #[trigger] old_cat[a].cells())
                == Ordering::Less by {
                if a > pos {
                    lemma_shape_order_transitive(q, nxt, old_cat[a].cells());
                }
            }
        }
        assert forall|a: int, b: int| 0 <= a < b < c.len() implies shape_order(
            #[trigger] c[a].cells(),
            #[trigger] c[b].cells(),
        ) == Ordering::Less by {
            if a < pos && b < pos {
                assert(c[a] == old_cat[a] && c[b] == old_cat[b]);
            } else if a < pos && b == pos {
                assert(c[a] == old_cat[a]);
            } else if a < pos {
                assert(c[a] == old_cat[a] && c[b] == old_cat[b - 1]);
            } else if a == pos {
                assert(c[b] == old_cat[b - 1]);
            } else {
                assert(c[a] == old_cat[a - 1] && c[b] == old_cat[b - 1]);
            }
        }
        assert forall|a: int, b: int| 0 <= a < b < c.len() implies #[trigger] c[a].cells() != #[trigger] c[b].cells() by {
            if a < pos && b < pos {
                assert(c[a] == old_cat[a] && c[b] == old_cat[b]);
            } else if a < pos && b == pos {
                assert(c[a] == old_cat[a]);
            } else if a < pos {
                assert(c[a] == old_cat[a] && c[b] == old_cat[b - 1]);
            } else if a == pos {
                assert(c[b] == old_cat[b - 1]);
            } else {
                assert(c[a] == old_cat[a - 1] && c[b] == old_cat[b - 1]);
            }
        }
        assert forall|a: int| 0 <= a < c.len() implies #[trigger] shape_coords(c[a].cells()) && bounded(c[a].cells(), 6)
            && in_region_all(c[a].cells()) by {
            if a < pos {
                assert(c[a] == old_cat[a]);
                assert(shape_coords(old_cat[a].cells()));
                assert(bounded(old_cat[a].cells(), 6));
                assert(in_region_all(old_cat[a].cells()));
            } else if a > pos {
                assert(c[a] == old_cat[a - 1]);
                assert(shape_coords(old_cat[a - 1].cells()));
                assert(bounded(old_cat[a - 1].cells(), 6));
                assert(in_region_all(old_cat[a - 1].cells()));
            } else {
                assert(c[a].cells() == q);
                assert(shape_coords(q));
                assert(bounded(q, 6));
                assert(in_region_all(q));
            }
        }
    }
}

proof fn lemma_insert_contains_any<T>(s: Seq<T>, pos: int, c: T)
    requires
        0 <= pos <= s.len(),
    ensures
        forall|x: T| #[trigger] s.insert(pos, c).contains(x) <==> (s.contains(x) || x == c),
{
    let t = s.insert(pos, c);
    assert forall|x: T| #[trigger] t.contains(x) <==> (s.contains(x) || x == c) by {
        if t.contains(x) {
            let k = choose|k: int| 0 <= k < t.len() && t[k] == x;
            if k < pos {
                assert(s[k] == x);
            } else if k > pos {
                assert(s[k - 1] == x);
            }
        }
        if s.contains(x) {
            let k = choose|k: int| 0 <= k < s.len() && s[k] == x;
            if k < pos {
                assert(t[k] == x);
            } else {
                assert(t[k + 1] == x);
            }
        }
        if x == c {
            assert(t[pos] == x);
        }
    }
}

/// Adding the cells `cs` to `t` one at a time, each lands in the growth
/// region, next to the cells so far, and on a cell not yet taken.
pub open spec fn valid_growth(t: Seq<Coord>, cs: Seq<Coord>) -> bool {
    forall|i: int|
        0 <= i < cs.len() ==> {
            &&& in_growth_region(as_int(#[trigger] cs[i]))
            &&& touches(t + cs.take(i), cs[i])
            &&& !(t + cs.take(i)).contains(cs[i])
        }
}

/// Adding `steps` cells to `t` that way can give the cells `target`.
pub open spec fn grows_to(t: Seq<Coord>, target: Set<Coord>, steps: nat) -> bool {
    exists|cs: Seq<Coord>| cs.len() == steps && valid_growth(t, cs) && #[trigger] (t + cs).to_set() == target
}

proof fn lemma_grows_first_step(t: Seq<Coord>, target: Set<Coord>, steps: nat) -> (c: Coord)
    requires
        steps >= 1,
        grows_to(t, target, steps),
    ensures
        in_growth_region(as_int(c)),
        touches(t, c),
        !t.contains(c),
        grows_to(t.push(c), target, (steps - 1) as nat),
{
    let cs = choose|cs: Seq<Coord>| cs.len() == steps && valid_growth(t, cs) && #[trigger] (t + cs).to_set() == target;
    let c = cs[0];
    assert(t + cs.take(0) =~= t);
    let rest = cs.drop_first();
    assert(t.push(c) + rest =~= t + cs);
    assert forall|i: int| 0 <= i < rest.len() implies {
        &&& in_growth_region(as_int(#[trigger] rest[i]))
        &&& touches(t.push(c) + rest.take(i), rest[i])
        &&& !(t.push(c) + rest.take(i)).contains(rest[i])
    } by {
        assert(rest[i] == cs[i + 1]);
        assert(t.push(c) + rest.take(i) =~= t + cs.take(i + 1));
    }
    assert((t.push(c) + rest).to_set() == target);
    c
}

proof fn lemma_grows_zero(t: Seq<Coord>, target: Set<Coord>)
    requires
        grows_to(t, target, 0),
    ensures
        t.to_set() == target,
{
    let cs = choose|cs: Seq<Coord>| cs.len() == 0 && valid_growth(t, cs) && #[trigger] (t + cs).to_set() == target;
    assert(t + cs =~= t);
}

/// The cells of `s` grow from the origin.
pub open spec fn is_grown(s: Seq<Coord>) -> bool {
    exists|steps: nat| #[trigger] grows_to(seq![(0i8, 0i8)], s.to_set(), steps)
}

/// Every shape of the catalog grows from the origin and lies within 3 of it.
pub open spec fn all_grown(catalog: Seq<Polyomino>) -> bool {
    forall|i: int| 0 <= i < catalog.len() ==> #[trigger] is_grown(catalog[i].cells()) && bounded(catalog[i].cells(), 3)
}

proof fn lemma_all_grown_kept(a: Seq<Polyomino>, b: Seq<Polyomino>, p: Seq<Coord>)
    requires
        all_grown(a),
        is_grown(p),
        bounded(p, 3),
        forall|x: Seq<Coord>| #[trigger] shapes_of(b).contains(x) ==> (shapes_of(a).contains(x) || x == p),
    ensures
        all_grown(b),
{
    assert forall|i: int| 0 <= i < b.len() implies #[trigger] is_grown(b[i].cells()) && bounded(b[i].cells(), 3) by {
        assert(shapes_of(b)[i] == b[i].cells());
        assert(shapes_of(b).contains(b[i].cells()));
        if b[i].cells() != p {
            let j = choose|j: int| 0 <= j < shapes_of(a).len() && shapes_of(a)[j] == b[i].cells();
            assert(a[j].cells() == shapes_of(a)[j]);
            assert(is_grown(a[j].cells()));
        }
    }
}

/// Some shape of the catalog has the cells `target`.
pub open spec fn holds_cells(catalog: Seq<Polyomino>, target: Set<Coord>) -> bool {
    exists|i: int| 0 <= i < catalog.len() && #[trigger] catalog[i].cells().to_set() == target
}

proof fn lemma_holds_cells_kept(a: Seq<Polyomino>, b: Seq<Polyomino>, target: Set<Coord>)
    requires
        holds_cells(a, target),
        forall|x: Seq<Coord>| #[trigger] shapes_of(a).contains(x) ==> shapes_of(b).contains(x),
    ensures
        holds_cells(b, target),
{
    let i = choose|i: int| 0 <= i < a.len() && #[trigger] a[i].cells().to_set() == target;
    assert(shapes_of(a)[i] == a[i].cells());
    assert(shapes_of(a).contains(a[i].cells()));
    let j = choose|j: int| 0 <= j < shapes_of(b).len() && shapes_of(b)[j] == a[i].cells();
    assert(b[j].cells() == shapes_of(b)[j]);
}

/// Adds to the catalog every shape that grows from `shape` one adjacent cell at
/// a time, up to `max_size` cells.
fn grow(shape: &Vec<Coord>, max_size: usize, catalog: &mut Vec<Polyomino>)
    requires
        1 <= shape@.len() < max_size <= 4,
        no_dups(shape@),
        shape@.contains((0i8, 0i8)),
        bounded(shape@, shape@.len() - 1),
        in_region_all(shape@),
        catalog_shapes(old(catalog)@),
        sizes_at_most(old(catalog)@, max_size as int),
        exists|cs: Seq<Coord>| valid_growth(seq![(0i8, 0i8)], cs) && #[trigger] (seq![(0i8, 0i8)] + cs) == shape@,
        all_grown(old(catalog)@),
    ensures
        catalog_shapes(final(catalog)@),
        sizes_at_most(final(catalog)@, max_size as int),
        all_grown(final(catalog)@),
        forall|x: Seq<Coord>| #[trigger] shapes_of(old(catalog)@).contains(x) ==> shapes_of(final(catalog)@).contains(x),
        forall|target: Set<Coord>, steps: nat|
            1 <= steps <= max_size - shape@.len() && #[trigger] grows_to(shape@, target, steps) ==> holds_cells(
                final(catalog)@,
                target,
            ),
    decreases max_size - shape@.len(),
{
    let adj = adjacent_coords(shape.as_slice());
    let mut i: usize = 0;
    while i < adj.len()
        invariant
            1 <= shape@.len() < max_size <= 4,
            no_dups(shape@),
            shape@.contains((0i8, 0i8)),
            bounded(shape@, shape@.len() - 1),
            in_region_all(shape@),
            catalog_shapes(catalog@),
            sizes_at_most(catalog@, max_size as int),
            exists|cs: Seq<Coord>| valid_growth(seq![(0i8, 0i8)], cs) && #[trigger] (seq![(0i8, 0i8)] + cs) == shape@,
            all_grown(catalog@),
            i <= adj@.len(),
            forall|j: int|
                0 <= j < adj@.len() ==> {
                    &&& !shape@.contains(#[trigger] adj@[j])
                    &&& touches(shape@, adj@[j])
                    &&& in_growth_region(as_int(adj@[j]))
                },
            forall|kk: int, d: int|
                0 <= kk < shape@.len() && 0 <= d < 4 && in_growth_region(neighbor(shape@[kk], d)) ==> covered(
                    adj@,
                    shape@,
                    #[trigger] neighbor(shape@[kk], d),
                ),
            forall|x: Seq<Coord>| #[trigger] shapes_of(old(catalog)@).contains(x) ==> shapes_of(catalog@).contains(x),
            forall|target: Set<Coord>, steps: nat, j: int|
                0 <= j < i && 1 <= steps <= max_size - shape@.len() && #[trigger] grows_to(
                    shape@.push(adj@[j]),
                    target,
                    (steps - 1) as nat,
                ) ==> holds_cells(catalog@, target),
        decreases adj@.len() - i,
    {
        let c = adj[i];
        let ghost before = catalog@;
        let mut bigger = copy_coords(shape.as_slice());
        bigger.push(c);
        proof {
            let n = shape@.len();
            assert(touches(shape@, c));
            let (k, d) = choose|k: int, d: int| 0 <= k < shape@.len() && 0 <= d < 4 && neighbor(shape@[k], d) == as_int(c);
            assert(-(n as int) <= c.0 <= n && -(n as int) <= c.1 <= n);
            assert forall|a: int, b: int| 0 <= a < b < bigger@.len() implies #[trigger] bigger@[a] != #[trigger] bigger@[b] by {
                if b == n {
                    assert(shape@.contains(bigger@[a]) || a == n);
                    assert(bigger@[a] == shape@[a]);
                } else {
                    assert(bigger@[a] == shape@[a] && bigger@[b] == shape@[b]);
                }
            }
            let o = choose|k: int| 0 <= k < shape@.len() && shape@[k] == (0i8, 0i8);
            assert(bigger@[o] == (0i8, 0i8));
            assert forall|a: int| 0 <= a < bigger@.len() implies -(n as int) <= #[trigger] bigger@[a].0 <= n
                && -(n as int) <= bigger@[a].1 <= n by {
                if a < n {
                    assert(bigger@[a] == shape@[a]);
                }
            }
            assert forall|a: int| 0 <= a < bigger@.len() implies #[trigger] in_growth_region(as_int(bigger@[a])) by {
                if a < n {
                    assert(bigger@[a] == shape@[a]);
                }
            }
        }
        let poly = Polyomino::new(bigger.as_slice());
        proof {
            let base = seq![(0i8, 0i8)];
            let cs = choose|cs: Seq<Coord>| valid_growth(base, cs) && #[trigger] (base + cs) == shape@;
            let cs2 = cs.push(c);
            assert(base + cs2 =~= bigger@);
            assert forall|k: int| 0 <= k < cs2.len() implies {
                &&& in_growth_region(as_int(#[trigger] cs2[k]))
                &&& touches(base + cs2.take(k), cs2[k])
                &&& !(base + cs2.take(k)).contains(cs2[k])
            } by {
                if k < cs.len() {
                    assert(cs2[k] == cs[k]);
                    assert(cs2.take(k) =~= cs.take(k));
                } else {
                    assert(cs2.take(k) =~= cs);
                }
            }
            assert(valid_growth(base, cs2));
            assert(poly.cells().to_set() =~= bigger@.to_set());
            assert(grows_to(base, poly.cells().to_set(), cs2.len() as nat));
            assert(is_grown(poly.cells()));
        }
        let ghost pc = poly.cells();
        proof {
            lemma_bounded_mono(pc, shape@.len() as int, 6);
            lemma_bounded_mono(pc, shape@.len() as int, 3);
        }
        insert_shape(catalog, poly);
        proof {
            lemma_all_grown_kept(before, catalog@, pc);
        }
        proof {
            let ss = shapes_of(catalog@);
            assert forall|j: int| 0 <= j < catalog@.len() implies #[trigger] catalog@[j].cells().len() <= max_size by {
                assert(ss[j] == catalog@[j].cells());
                assert(ss.contains(ss[j]));
            }
        }
        proof {
            assert(bigger@ == shape@.push(c));
            assert(shapes_of(catalog@).contains(poly.cells()));
            let j = choose|j: int| 0 <= j < shapes_of(catalog@).len() && shapes_of(catalog@)[j] == poly.cells();
            assert(catalog@[j].cells() == poly.cells());
            assert(poly.cells().to_set() =~= bigger@.to_set());
            assert(holds_cells(catalog@, bigger@.to_set()));
        }
        let ghost after_insert = catalog@;
        proof {
            let base = seq![(0i8, 0i8)];
            let cs = choose|cs: Seq<Coord>| valid_growth(base, cs) && #[trigger] (base + cs) == shape@;
            let cs2 = cs.push(c);
            assert(base + cs2 =~= bigger@);
            assert forall|k: int| 0 <= k < cs2.len() implies {
                &&& in_growth_region(as_int(#[trigger] cs2[k]))
                &&& touches(base + cs2.take(k), cs2[k])
                &&& !(base + cs2.take(k)).contains(cs2[k])
            } by {
                if k < cs.len() {
                    assert(cs2[k] == cs[k]);
                    assert(cs2.take(k) =~= cs.take(k));
                } else {
                    assert(cs2.take(k) =~= cs);
                }
            }
        }
        if bigger.len() < max_size {
            grow(&bigger, max_size, catalog);
        }
        proof {
            assert forall|x: Seq<Coord>| #[trigger] shapes_of(old(catalog)@).contains(x) implies shapes_of(catalog@).contains(
                x,
            ) by {
                assert(shapes_of(before).contains(x));
                assert(shapes_of(after_insert).contains(x));
            }
            assert forall|target: Set<Coord>, steps: nat, j: int|
                0 <= j < i + 1 && 1 <= steps <= max_size - shape@.len() && #[trigger] grows_to(
                    shape@.push(adj@[j]),
                    target,
                    (steps - 1) as nat,
                ) implies holds_cells(catalog@, target) by {
                if j < i {
                    assert(holds_cells(before, target));
                    assert forall|x: Seq<Coord>| #[trigger] shapes_of(before).contains(x) implies shapes_of(catalog@).contains(x) by {
                        assert(shapes_of(after_insert).contains(x));
                    }
                    lemma_holds_cells_kept(before, catalog@, target);
                } else if steps == 1 {
                    lemma_grows_zero(bigger@, target);
                    assert(target == bigger@.to_set());
                    lemma_holds_cells_kept(after_insert, catalog@, target);
                } else {
                    assert(grows_to(bigger@, target, (steps - 1) as nat));
                }
            }
        }
        i = i + 1;
    }
    proof {
        assert forall|target: Set<Coord>, steps: nat|
            1 <= steps <= max_size - shape@.len() && #[trigger] grows_to(shape@, target, steps) implies holds_cells(
                catalog@,
                target,
            ) by {
            let c = lemma_grows_first_step(shape@, target, steps);
            let (k, d) = choose|k: int, d: int| 0 <= k < shape@.len() && 0 <= d < 4 && neighbor(shape@[k], d) == as_int(c);
            assert(covered(adj@, shape@, neighbor(shape@[k], d)));
            if lands_in(shape@, as_int(c)) {
                let m = choose|m: int| 0 <= m < shape@.len() && as_int(shape@[m]) == as_int(c);
                assert(shape@[m].0 == c.0 && shape@[m].1 == c.1);
                assert(shape@[m] == c);
            }
            let j = choose|j: int| 0 <= j < adj@.len() && as_int(adj@[j]) == as_int(c);
            assert(adj@[j].0 == c.0 && adj@[j].1 == c.1);
            assert(adj@[j] == c);
        }
    }
}

/// Some shape of the catalog is the normal form of `s` under `t`.
pub open spec fn flip_held(catalog: Seq<Polyomino>, t: Symmetry, s: Seq<Coord>) -> bool {
    exists|j: int| 0 <= j < catalog.len() && #[trigger] is_flip_of(catalog[j].cells(), t, s)
}

/// Every shape of `catalog` is the normal form of a shape of `grown` under
/// some symmetry.
pub open spec fn flips_of(catalog: Seq<Polyomino>, grown: Seq<Polyomino>) -> bool {
    forall|m: int| 0 <= m < catalog.len() ==> #[trigger] flip_of_one(catalog[m].cells(), grown)
}

/// `r` is the normal form of a shape of `grown` under some symmetry.
pub open spec fn flip_of_one(r: Seq<Coord>, grown: Seq<Polyomino>) -> bool {
    exists|i: int, k: int| 0 <= i < grown.len() && 0 <= k < 8 && #[trigger] is_flip_of(r, symmetry_at(k), grown[i].cells())
}

/// `r` is the normal form under some symmetry of a shape grown from the origin.
pub open spec fn flip_of_grown(r: Seq<Coord>) -> bool {
    exists|s: Seq<Coord>, k: int| is_grown(s) && shape_coords(s) && 0 <= k < 8 && #[trigger] is_flip_of(r, symmetry_at(k), s)
}

proof fn lemma_flip_held_kept(a: Seq<Polyomino>, b: Seq<Polyomino>, t: Symmetry, s: Seq<Coord>)
    requires
        flip_held(a, t, s),
        forall|x: Seq<Coord>| #[trigger] shapes_of(a).contains(x) ==> shapes_of(b).contains(x),
    ensures
        flip_held(b, t, s),
{
    let j = choose|j: int| 0 <= j < a.len() && #[trigger] is_flip_of(a[j].cells(), t, s);
    assert(shapes_of(a)[j] == a[j].cells());
    assert(shapes_of(a).contains(a[j].cells()));
    let m = choose|m: int| 0 <= m < shapes_of(b).len() && shapes_of(b)[m] == a[j].cells();
    assert(b[m].cells() == shapes_of(b)[m]);
}

/// The shapes of `grown` with every normal form of each under the eight
/// symmetries, in shape order and without repeats.
fn close_under_flips(grown: &Vec<Polyomino>) -> (r: Vec<Polyomino>)
    requires
        catalog_shapes(grown@),
        all_grown(grown@),
    ensures
        catalog_shapes(r@),
        flips_of(r@, grown@),
        forall|i: int, k: int|
            0 <= i < grown@.len() && 0 <= k < 8 ==> #[trigger] flip_held(r@, symmetry_at(k), grown@[i].cells()),
{
    let mut closed: Vec<Polyomino> = Vec::new();
    let mut i: usize = 0;
    while i < grown.len()
        invariant
            catalog_shapes(grown@),
            all_grown(grown@),
            i <= grown@.len(),
            catalog_shapes(closed@),
            flips_of(closed@, grown@),
            forall|ii: int, k: int|
                0 <= ii < i && 0 <= k < 8 ==> #[trigger] flip_held(closed@, symmetry_at(k), grown@[ii].cells()),
        decreases grown@.len() - i,
    {
        let mut k: usize = 0;
        while k < 8
            invariant
                catalog_shapes(grown@),
                all_grown(grown@),
                i < grown@.len(),
                k <= 8,
                catalog_shapes(closed@),
                flips_of(closed@, grown@),
                forall|ii: int, kk: int|
                    0 <= ii < i && 0 <= kk < 8 ==> #[trigger] flip_held(closed@, symmetry_at(kk), grown@[ii].cells()),
                forall|kk: int| 0 <= kk < k ==> #[trigger] flip_held(closed@, symmetry_at(kk), grown@[i as int].cells()),
            decreases 8 - k,
        {
            let g = &grown[i];
            let ghost gs = g.cells();
            proof {
                assert(shape_coords(grown@[i as int].cells()));
                assert(is_grown(grown@[i as int].cells()) && bounded(grown@[i as int].cells(), 3));
                lemma_bounded_mono(gs, 3, 63);
            }
            let sym = Symmetry::from_index(k);
            let mut p = g.duplicate();
            p.apply_flips(sym);
            proof {
                assert(gs.contains((0i8, 0i8)));
                lemma_flip_props(p.cells(), sym, gs, 3);
                assert(p.cells().len() == gs.len());
            }
            let ghost pc = p.cells();
            let ghost before = closed@;
            insert_shape(&mut closed, p);
            proof {
                assert(shapes_of(closed@).contains(pc));
                let m = choose|m: int| 0 <= m < shapes_of(closed@).len() && shapes_of(closed@)[m] == pc;
                assert(closed@[m].cells() == pc);
                assert(flip_held(closed@, sym, gs));
                assert forall|ii: int, kk: int|
                    0 <= ii < grown@.len() && 0 <= kk < 8 && (ii < i || (ii == i && kk < k)) implies #[trigger] flip_held(
                    closed@,
                    symmetry_at(kk),
                    grown@[ii].cells(),
                ) by {
                    lemma_flip_held_kept(before, closed@, symmetry_at(kk), grown@[ii].cells());
                }
                assert forall|m2: int| 0 <= m2 < closed@.len() implies #[trigger] flip_of_one(closed@[m2].cells(), grown@) by {
                    assert(shapes_of(closed@)[m2] == closed@[m2].cells());
                    assert(shapes_of(closed@).contains(closed@[m2].cells()));
                    if closed@[m2].cells() == pc {
                        assert(is_flip_of(closed@[m2].cells(), symmetry_at(k as int), grown@[i as int].cells()));
                    } else {
                        let j = choose|j: int| 0 <= j < shapes_of(before).len() && shapes_of(before)[j] == closed@[m2].cells();
                        assert(before[j].cells() == shapes_of(before)[j]);
                        assert(flip_of_one(before[j].cells(), grown@));
                    }
                }
            }
            k = k + 1;
        }
        i = i + 1;
    }
    closed
}

/// A shape of a catalog closed under flips always finds each of its flips in it.
proof fn lemma_closed_flip_found(
    closed: Seq<Polyomino>,
    grown: Seq<Polyomino>,
    m: int,
    k: int,
    f: Seq<Coord>,
)
    requires
        catalog_shapes(grown),
        flips_of(closed, grown),
        forall|i: int, kk: int|
            0 <= i < grown.len() && 0 <= kk < 8 ==> #[trigger] flip_held(closed, symmetry_at(kk), grown[i].cells()),
        0 <= m < closed.len(),
        0 <= k < 8,
        is_flip_of(f, symmetry_at(k), closed[m].cells()),
    ensures
        shapes_of(closed).contains(f),
{
    assert(flip_of_one(closed[m].cells(), grown));
    let (i, ka) = choose|i: int, ka: int|
        0 <= i < grown.len() && 0 <= ka < 8 && #[trigger] is_flip_of(closed[m].cells(), symmetry_at(ka), grown[i].cells());
    let g = grown[i].cells();
    assert(shape_coords(grown[i].cells()));
    assert(g.contains((0i8, 0i8)));
    let a = symmetry_at(ka);
    let b = symmetry_at(k);
    let c = compose(a, b);
    lemma_compose(a, b);
    lemma_flip_compose(g, closed[m].cells(), f, a, b, c);
    lemma_symmetry_at_index(c);
    let kc = index_of(c) as int;
    assert(flip_held(closed, symmetry_at(kc), g));
    let j = choose|j: int| 0 <= j < closed.len() && #[trigger] is_flip_of(closed[j].cells(), symmetry_at(kc), g);
    lemma_flip_unique(closed[j].cells(), f, c, g);
    assert(shapes_of(closed)[j] == f);
}

/// The catalog of all shapes of 1 up to `max_size` cells that grow from the
/// origin, with their normal forms under every symmetry, in shape order, each
/// with its transform table.
#[verifier::rlimit(40)]
pub fn generate_all_polyominos(max_size: usize) -> (r: Vec<Polyomino>)
    requires
        max_size <= 4,
    ensures
        catalog_wf(r@),
        sizes_at_most(r@, if max_size == 0 { 1 } else { max_size as int }),
        forall|target: Set<Coord>, steps: nat|
            steps < max_size && #[trigger] grows_to(seq![(0i8, 0i8)], target, steps) ==> holds_cells(r@, target),
        forall|m: int| 0 <= m < r@.len() ==> #[trigger] flip_of_grown(r@[m].cells()),
{
    let mut catalog: Vec<Polyomino> = Vec::new();
    let base: Vec<Coord> = vec![(0i8, 0i8)];
    proof {
        assert(base@.contains((0i8, 0i8))) by {
            assert(base@[0] == (0i8, 0i8));
        }
        assert(in_region_all(base@)) by {
            assert(base@[0] == (0i8, 0i8));
        }
    }
    let unit = Polyomino::new(base.as_slice());
    catalog.push(unit);
    let ghost start = catalog@;
    proof {
        assert(base@ == seq![(0i8, 0i8)]);
        assert(catalog@[0].cells().to_set() =~= base@.to_set()) by {
            assert forall|x: Coord| catalog@[0].cells().to_set().contains(x) <==> base@.to_set().contains(x) by {
                assert(catalog@[0].cells().contains(x) <==> base@.contains(x));
            }
        }
        assert(holds_cells(catalog@, base@.to_set()));
        let none = Seq::<Coord>::empty();
        assert(seq![(0i8, 0i8)] + none =~= base@);
        assert(valid_growth(seq![(0i8, 0i8)], none));
        assert(grows_to(seq![(0i8, 0i8)], catalog@[0].cells().to_set(), 0));
        assert(is_grown(catalog@[0].cells()));
        assert(bounded(base@, 0));
        assert(bounded(catalog@[0].cells(), 0));
        lemma_bounded_mono(catalog@[0].cells(), 0, 3);
        assert(all_grown(catalog@));
    }
    if max_size > 1 {
        grow(&base, max_size, &mut catalog);
    }
    proof {
        assert forall|target: Set<Coord>, steps: nat|
            steps < max_size && #[trigger] grows_to(seq![(0i8, 0i8)], target, steps) implies holds_cells(catalog@, target) by {
            if steps == 0 {
                lemma_grows_zero(base@, target);
                lemma_holds_cells_kept(start, catalog@, target);
            }
        }
    }
    let closed = close_under_flips(&catalog);
    let mut out: Vec<Polyomino> = Vec::new();
    let mut i: usize = 0;
    while i < closed.len()
        invariant
            catalog_shapes(catalog@),
            catalog_shapes(closed@),
            flips_of(closed@, catalog@),
            forall|ii: int, kk: int|
                0 <= ii < catalog@.len() && 0 <= kk < 8 ==> #[trigger] flip_held(closed@, symmetry_at(kk), catalog@[ii].cells()),
            i <= closed@.len(),
            out@.len() == i,
            forall|j: int| 0 <= j < i ==> #[trigger] out@[j].cells() == closed@[j].cells(),
            forall|j: int| 0 <= j < i ==> #[trigger] exact_table(shapes_of(closed@), out@[j].cells(), out@[j].symmetries@),
            forall|j: int| 0 <= j < i ==> #[trigger] out@[j].symmetries@[0] == j,
        decreases closed@.len() - i,
    {
        proof {
            assert(shape_coords(closed@[i as int].cells()));
            lemma_bounded_mono(closed@[i as int].cells(), 6, 63);
        }
        match closed[i].compute_transforms(closed.as_slice()) {
            None => {
                proof {
                    let (k, f) = choose|k: int, f: Seq<Coord>|
                        0 <= k < 8 && #[trigger] is_flip_of(f, symmetry_at(k), closed@[i as int].cells())
                            && !shapes_of(closed@).contains(f) && no_flip_in(shapes_of(closed@), symmetry_at(k), closed@[i as int].cells());
                    lemma_closed_flip_found(closed@, catalog@, i as int, k, f);
                    // Every flip of a shape of the closed catalog is in it.
                    assert(false);
                }
                return out;
            },
            Some(table) => {
                proof {
                    lemma_identity_index(closed@, i as int, table@);
                }
                let mut p = closed[i].duplicate();
                p.symmetries = table;
                out.push(p);
            },
        }
        i = i + 1;
    }
    proof {
        assert(shapes_of(out@) =~= shapes_of(closed@));
        assert forall|target: Set<Coord>, steps: nat|
            steps < max_size && #[trigger] grows_to(seq![(0i8, 0i8)], target, steps) implies holds_cells(out@, target) by {
            let gi = choose|gi: int| 0 <= gi < catalog@.len() && #[trigger] catalog@[gi].cells().to_set() == target;
            let g = catalog@[gi].cells();
            assert(shape_coords(catalog@[gi].cells()));
            lemma_identity_flip(g);
            assert(flip_held(closed@, symmetry_at(0), g));
            let j = choose|j: int| 0 <= j < closed@.len() && #[trigger] is_flip_of(closed@[j].cells(), symmetry_at(0), g);
            lemma_flip_unique(closed@[j].cells(), g, symmetry_at(0), g);
            assert(out@[j].cells() == closed@[j].cells());
        }
        assert forall|m: int| 0 <= m < out@.len() implies #[trigger] flip_of_grown(out@[m].cells()) by {
            assert(out@[m].cells() == closed@[m].cells());
            assert(flip_of_one(closed@[m].cells(), catalog@));
            let (gi, k) = choose|gi: int, k: int|
                0 <= gi < catalog@.len() && 0 <= k < 8 && #[trigger] is_flip_of(closed@[m].cells(), symmetry_at(k), catalog@[gi].cells());
            assert(is_grown(catalog@[gi].cells()) && bounded(catalog@[gi].cells(), 3));
            assert(shape_coords(catalog@[gi].cells()));
        }
        assert forall|a: int| 0 <= a < out@.len() implies #[trigger] shape_coords(out@[a].cells())
            && bounded(out@[a].cells(), 6) && in_region_all(out@[a].cells()) by {
            assert(out@[a].cells() == closed@[a].cells());
            assert(shape_coords(closed@[a].cells()));
        }
        assert forall|a: int, b: int| 0 <= a < b < out@.len() implies #[trigger] out@[a].cells()
            != #[trigger] out@[b].cells() by {
            assert(out@[a].cells() == closed@[a].cells());
            assert(out@[b].cells() == closed@[b].cells());
        }
        assert forall|a: int, b: int| 0 <= a < b < out@.len() implies shape_order(
            #[trigger] out@[a].cells(),
            #[trigger] out@[b].cells(),
        ) == Ordering::Less by {
            assert(out@[a].cells() == closed@[a].cells());
            assert(out@[b].cells() == closed@[b].cells());
        }
        assert(catalog_shapes(out@));
        assert forall|a: int| 0 <= a < out@.len() implies #[trigger] exact_table(
            shapes_of(out@),
            out@[a].cells(),
            out@[a].symmetries@,
        ) by {
            assert(exact_table(shapes_of(closed@), out@[a].cells(), out@[a].symmetries@));
        }
        assert forall|a: int| 0 <= a < out@.len() implies #[trigger] out@[a].cells().len() <= (if max_size
            == 0 {
            1
        } else {
            max_size as int
        }) by {
            assert(out@[a].cells() == closed@[a].cells());
            assert(flip_of_one(closed@[a].cells(), catalog@));
            let (gi, k) = choose|gi: int, k: int|
                0 <= gi < catalog@.len() && 0 <= k < 8 && #[trigger] is_flip_of(closed@[a].cells(), symmetry_at(k), catalog@[gi].cells());
            assert(catalog@[gi].cells().len() <= (if max_size == 0 { 1 } else { max_size as int }));
        }
        assert(catalog_wf(out@));
    }
    out
}

} // verus!
