use vstd::prelude::*;
use std::cmp::Ordering;
use crate::board::{
    Board,
    Solution,
    tables_of,
    canonical_of_some_tiling,
    same_state,
    is_empty_board,
    is_canonical_form,
    lemma_canonical_same_state,
};
use crate::polyominos::{Coord, Polyomino, catalog_wf, exact_table, shapes_of, shape_coords};

verus! {

/// How many pieces of one or two cells a search may place, by default.
pub const MAX_ONES_OR_TWOS: u8 = 1;

/// How many pieces of three cells a search may place, by default.
pub const MAX_THREES: u8 = 2;

/// A board with counts of the small pieces placed on it and the budgets those
/// counts must stay within.
#[derive(Debug, Clone)]
pub struct RestrictedBoard {
    pub inner: Board,
    pub one_or_two_sized_count: u8,
    pub three_sized_count: u8,
    pub max_ones_or_twos: u8,
    pub max_threes: u8,
}

pub open spec fn is_tiny(n: int) -> bool {
    n == 1 || n == 2
}

pub open spec fn is_three(n: int) -> bool {
    n == 3
}

impl RestrictedBoard {
    pub open spec fn wf(&self) -> bool {
        &&& self.inner.wf()
        &&& self.one_or_two_sized_count <= self.max_ones_or_twos
        &&& self.three_sized_count <= self.max_threes
    }

    /// The budget leaves room for one more piece of `n` cells.
    pub open spec fn budget_allows(&self, n: int) -> bool {
        &&& !(is_tiny(n) && self.one_or_two_sized_count >= self.max_ones_or_twos)
        &&& !(is_three(n) && self.three_sized_count >= self.max_threes)
    }

    /// An empty board with the default budgets.
    pub fn new(width: usize, height: usize) -> (r: RestrictedBoard)
        requires
            width <= 127,
            height <= 127,
        ensures
            r.wf(),
            r.inner.width == width,
            r.inner.height == height,
            r.inner.polyominos@.len() == 0,
            forall|i: int| 0 <= i < r.inner.cells@.len() ==> #[trigger] r.inner.cells@[i] is None,
            r.one_or_two_sized_count == 0,
            r.three_sized_count == 0,
            r.max_ones_or_twos == MAX_ONES_OR_TWOS,
            r.max_threes == MAX_THREES,
    {
        Self::with_budget(width, height, MAX_ONES_OR_TWOS, MAX_THREES)
    }

    /// An empty board with the given budgets.
    pub fn with_budget(width: usize, height: usize, max_ones_or_twos: u8, max_threes: u8) -> (r: RestrictedBoard)
        requires
            width <= 127,
            height <= 127,
        ensures
            r.wf(),
            r.inner.width == width,
            r.inner.height == height,
            r.inner.polyominos@.len() == 0,
            forall|i: int| 0 <= i < r.inner.cells@.len() ==> #[trigger] r.inner.cells@[i] is None,
            r.one_or_two_sized_count == 0,
            r.three_sized_count == 0,
            r.max_ones_or_twos == max_ones_or_twos,
            r.max_threes == max_threes,
    {
        RestrictedBoard {
            inner: Board::new(width, height),
            one_or_two_sized_count: 0,
            three_sized_count: 0,
            max_ones_or_twos,
            max_threes,
        }
    }

    /// A copy with `poly` placed at the first empty cell, if the budget allows
    /// a piece of its size and it fits there; the count of its size class goes up by one.
    pub fn add_clone(&self, poly: &Polyomino) -> (r: Option<RestrictedBoard>)
        requires
            self.wf(),
            shape_coords(poly.cells()),
        ensures
            r is Some <==> self.budget_allows(poly.cells().len() as int) && self.inner.can_place(poly.cells()),
            r matches Some(n) ==> {
                &&& n.wf()
                &&& self.inner.placed(&n.inner, poly)
                &&& n.one_or_two_sized_count == self.one_or_two_sized_count + if is_tiny(
                    poly.cells().len() as int,
                ) {
                    1int
                } else {
                    0int
                }
                &&& n.three_sized_count == self.three_sized_count + if is_three(poly.cells().len() as int) {
                    1int
                } else {
                    0int
                }
                &&& n.max_ones_or_twos == self.max_ones_or_twos
                &&& n.max_threes == self.max_threes
            },
    {
        let size = poly.size();
        let is_tiny = size == 1 || size == 2;
        let is_three = size == 3;
        if is_tiny && self.one_or_two_sized_count >= self.max_ones_or_twos {
            return None;
        } else if is_three && self.three_sized_count >= self.max_threes {
            return None;
        }
        match self.inner.add_clone(poly) {
            None => None,
            Some(inner) => {
                let mut one_or_two_sized_count = self.one_or_two_sized_count;
                let mut three_sized_count = self.three_sized_count;
                if is_tiny {
                    one_or_two_sized_count = one_or_two_sized_count + 1;
                } else if is_three {
                    three_sized_count = three_sized_count + 1;
                }
                Some(
                    RestrictedBoard {
                        inner,
                        one_or_two_sized_count,
                        three_sized_count,
                        max_ones_or_twos: self.max_ones_or_twos,
                        max_threes: self.max_threes,
                    },
                )
            },
        }
    }

    pub fn board(&self) -> (r: &Board)
        ensures
            r == &self.inner,
    {
        &self.inner
    }
}

/// `next` is `s` with `p` placed at the first empty cell within the budget.
pub open spec fn budget_step(s: RestrictedBoard, p: Polyomino, next: RestrictedBoard) -> bool {
    &&& s.budget_allows(p.cells().len() as int)
    &&& s.inner.can_place(p.cells())
    &&& s.inner.placed(&next.inner, &p)
    &&& next.wf()
    &&& next.one_or_two_sized_count == s.one_or_two_sized_count + if is_tiny(p.cells().len() as int) {
        1int
    } else {
        0int
    }
    &&& next.three_sized_count == s.three_sized_count + if is_three(p.cells().len() as int) {
        1int
    } else {
        0int
    }
    &&& next.max_ones_or_twos == s.max_ones_or_twos
    &&& next.max_threes == s.max_threes
}

/// Within `fuel` budgeted placements of catalog shapes, `s` grows into a full
/// board in the state of `b`.
pub open spec fn reaches(s: RestrictedBoard, b: Board, catalog: Seq<Polyomino>, fuel: nat) -> bool
    decreases fuel,
{
    fuel > 0 && exists|k: int, n: RestrictedBoard|
        0 <= k < catalog.len() && #[trigger] budget_step(s, catalog[k], n) && if n.inner.is_full_spec() {
            same_state(n.inner, b)
        } else {
            reaches(n, b, catalog, (fuel - 1) as nat)
        }
}

/// `reaches` through a first placement of one of the first `m` catalog shapes.
pub open spec fn reaches_through_first(s: RestrictedBoard, b: Board, catalog: Seq<Polyomino>, fuel: nat, m: int) -> bool {
    fuel > 0 && exists|k: int, n: RestrictedBoard|
        0 <= k < m && k < catalog.len() && #[trigger] budget_step(s, catalog[k], n) && if n.inner.is_full_spec() {
            same_state(n.inner, b)
        } else {
            reaches(n, b, catalog, (fuel - 1) as nat)
        }
}

pub open spec fn same_search_state(a: RestrictedBoard, b: RestrictedBoard) -> bool {
    &&& same_state(a.inner, b.inner)
    &&& a.one_or_two_sized_count == b.one_or_two_sized_count
    &&& a.three_sized_count == b.three_sized_count
    &&& a.max_ones_or_twos == b.max_ones_or_twos
    &&& a.max_threes == b.max_threes
}

proof fn lemma_step_same(s1: RestrictedBoard, s2: RestrictedBoard, p: Polyomino, n: RestrictedBoard)
    requires
        s1.wf(),
        s2.wf(),
        same_search_state(s1, s2),
        budget_step(s1, p, n),
    ensures
        budget_step(s2, p, n),
{
    crate::board::lemma_same_state_first_open(s1.inner, s2.inner);
    assert(shapes_of(s1.inner.polyominos@).len() == shapes_of(s2.inner.polyominos@).len());
    let f = s1.inner.first_open();
    assert forall|i: int| 0 <= i < s2.inner.cells@.len() implies #[trigger] n.inner.cells@[i] == if s2.inner.covers(
        p.cells(),
        f.0,
        f.1,
        i,
    ) {
        Some(s2.inner.polyominos@.len() as usize)
    } else {
        s2.inner.cells@[i]
    } by {
        assert(s1.inner.covers(p.cells(), f.0, f.1, i) == s2.inner.covers(p.cells(), f.0, f.1, i));
    }
}

proof fn lemma_reaches_same(s1: RestrictedBoard, s2: RestrictedBoard, b: Board, catalog: Seq<Polyomino>, fuel: nat)
    requires
        s1.wf(),
        s2.wf(),
        same_search_state(s1, s2),
        reaches(s1, b, catalog, fuel),
    ensures
        reaches(s2, b, catalog, fuel),
{
    let (k, n) = choose|k: int, n: RestrictedBoard|
        0 <= k < catalog.len() && #[trigger] budget_step(s1, catalog[k], n) && if n.inner.is_full_spec() {
            same_state(n.inner, b)
        } else {
            reaches(n, b, catalog, (fuel - 1) as nat)
        };
    lemma_step_same(s1, s2, catalog[k], n);
}

proof fn lemma_step_deterministic(s: RestrictedBoard, p: Polyomino, n1: RestrictedBoard, n2: RestrictedBoard)
    requires
        s.wf(),
        budget_step(s, p, n1),
        budget_step(s, p, n2),
    ensures
        same_search_state(n1, n2),
{
    assert(same_state(s.inner, s.inner));
    crate::board::lemma_placed_deterministic(s.inner, s.inner, p, n1.inner, n2.inner);
}

/// `s` is the empty `w` by `h` board with nothing placed and the given budgets.
pub open spec fn is_start(s: RestrictedBoard, w: int, h: int, max_ones_or_twos: int, max_threes: int) -> bool {
    &&& s.wf()
    &&& is_empty_board(s.inner, w, h)
    &&& s.one_or_two_sized_count == 0
    &&& s.three_sized_count == 0
    &&& s.max_ones_or_twos == max_ones_or_twos
    &&& s.max_threes == max_threes
}

proof fn lemma_starts_same(s1: RestrictedBoard, s2: RestrictedBoard, w: int, h: int, m1: int, m3: int)
    requires
        is_start(s1, w, h, m1, m3),
        is_start(s2, w, h, m1, m3),
    ensures
        same_search_state(s1, s2),
        same_search_state(s2, s1),
{
    assert(s1.inner.cells@ =~= s2.inner.cells@) by {
        assert forall|i: int| 0 <= i < s1.inner.cells@.len() implies s1.inner.cells@[i] == s2.inner.cells@[i] by {
            assert(s1.inner.cells@[i] is None);
            assert(s2.inner.cells@[i] is None);
        }
    }
    assert(shapes_of(s1.inner.polyominos@) =~= shapes_of(s2.inner.polyominos@));
    assert(tables_of(s1.inner.polyominos@) =~= tables_of(s2.inner.polyominos@));
}

/// No two solutions of `found` are alike.
pub open spec fn distinct_solutions(found: Seq<Solution>) -> bool {
    forall|i: int, j: int| 0 <= i < j < found.len() ==> #[trigger] found[i].shapes() != #[trigger] found[j].shapes()
}

/// Adds `s` to a collection of distinct solutions unless one alike is there;
/// says whether it was added.
pub fn insert_solution(found: &mut Vec<Solution>, s: Solution) -> (r: bool)
    requires
        distinct_solutions(old(found)@),
    ensures
        distinct_solutions(final(found)@),
        r == !(exists|i: int| 0 <= i < old(found)@.len() && #[trigger] old(found)@[i].shapes() == s.shapes()),
        r ==> final(found)@ == old(found)@.push(s),
        !r ==> final(found)@ == old(found)@,
{
    let mut i: usize = 0;
    while i < found.len()
        invariant
            found@ == old(found)@,
            distinct_solutions(found@),
            i <= found@.len(),
            forall|k: int| 0 <= k < i ==> #[trigger] found@[k].shapes() != s.shapes(),
        decreases found@.len() - i,
    {
        let same = match found[i].solution_cmp(&s) {
            Ordering::Equal => true,
            _ => false,
        };
        if same {
            proof {
                crate::board::lemma_solution_order_equal(found@[i as int].shapes(), s.shapes());
            }
            return false;
        }
        proof {
            if found@[i as int].shapes() == s.shapes() {
                crate::board::lemma_pieces_lex_reflexive(s.shapes());
            }
        }
        i = i + 1;
    }
    found.push(s);
    proof {
        assert forall|a: int, b: int| 0 <= a < b < found@.len() implies #[trigger] found@[a].shapes()
            != #[trigger] found@[b].shapes() by {
            if b == found@.len() - 1 {
                assert(found@[b] == s);
            }
        }
    }
    true
}

proof fn lemma_tables_fit_after(state: &Board, next: &Board, p: &Polyomino, n: int)
    requires
        state.tables_fit(n),
        tables_of(next.polyominos@) == tables_of(state.polyominos@).push(p.symmetries@),
        p.symmetries@.len() == 8,
        forall|k: int| 0 <= k < 8 ==> #[trigger] p.symmetries@[k] < n,
    ensures
        next.tables_fit(n),
{
    assert forall|i: int| 0 <= i < next.polyominos@.len() implies (#[trigger] next.polyominos@[i]).symmetries@.len()
        == 8 && forall|k: int| 0 <= k < 8 ==> #[trigger] next.polyominos@[i].symmetries@[k] < n by {
        assert(tables_of(next.polyominos@).len() == next.polyominos@.len());
        assert(tables_of(next.polyominos@)[i] == next.polyominos@[i].symmetries@);
        if i < state.polyominos@.len() {
            assert(tables_of(state.polyominos@)[i] == state.polyominos@[i].symmetries@);
        }
    }
}

proof fn lemma_catalog_entry_table(catalog: Seq<Polyomino>, i: int)
    requires
        catalog_wf(catalog),
        0 <= i < catalog.len(),
    ensures
        catalog[i].symmetries@.len() == 8,
        forall|k: int| 0 <= k < 8 ==> #[trigger] catalog[i].symmetries@[k] < catalog.len(),
        shape_coords(catalog[i].cells()),
{
    assert(exact_table(shapes_of(catalog), catalog[i].cells(), catalog[i].symmetries@));
    assert forall|k: int| 0 <= k < 8 implies #[trigger] catalog[i].symmetries@[k] < catalog.len() by {
        assert(crate::polyominos::first_flip_index(
            shapes_of(catalog),
            crate::symmetry::symmetry_at(k),
            catalog[i].cells(),
            catalog[i].symmetries@[k] as int,
        ));
    }
}

/// `b` is a full board that `s` grows into.
pub open spec fn grows_into(s: RestrictedBoard, b: Board, catalog: Seq<Polyomino>) -> bool {
    exists|fuel: nat| reaches(s, b, catalog, fuel)
}

/// `out[lo..]` holds a board in the state of every full board that `s` grows
/// into through a first placement of one of the first `m` catalog shapes.
pub open spec fn covers_first(s: RestrictedBoard, catalog: Seq<Polyomino>, m: int, out: Seq<Board>, lo: int) -> bool {
    forall|b: Board, fuel: nat|
        #[trigger] reaches_through_first(s, b, catalog, fuel, m) ==> exists|j: int|
            lo <= j < out.len() && same_state(#[trigger] out[j], b)
}

/// `out[lo..]` holds a board in the state of every full board that `s` grows into.
pub open spec fn covers_all(s: RestrictedBoard, catalog: Seq<Polyomino>, out: Seq<Board>, lo: int) -> bool {
    forall|b: Board, fuel: nat|
        #[trigger] reaches(s, b, catalog, fuel) ==> exists|j: int| lo <= j < out.len() && same_state(#[trigger] out[j], b)
}

proof fn lemma_cover_skip(s: RestrictedBoard, catalog: Seq<Polyomino>, i: int, out: Seq<Board>, lo: int)
    requires
        0 <= i < catalog.len(),
        !(s.budget_allows(catalog[i].cells().len() as int) && s.inner.can_place(catalog[i].cells())),
        covers_first(s, catalog, i, out, lo),
    ensures
        covers_first(s, catalog, i + 1, out, lo),
{
    assert forall|b: Board, fuel: nat| #[trigger] reaches_through_first(s, b, catalog, fuel, i + 1) implies exists|j: int|
        lo <= j < out.len() && same_state(#[trigger] out[j], b) by {
        let (k, n) = choose|k: int, n: RestrictedBoard|
            0 <= k < i + 1 && k < catalog.len() && #[trigger] budget_step(s, catalog[k], n) && if n.inner.is_full_spec() {
                same_state(n.inner, b)
            } else {
                reaches(n, b, catalog, (fuel - 1) as nat)
            };
        assert(k != i);
        assert(reaches_through_first(s, b, catalog, fuel, i));
    }
}

proof fn lemma_cover_step(
    s: RestrictedBoard,
    catalog: Seq<Polyomino>,
    i: int,
    next: RestrictedBoard,
    before: Seq<Board>,
    after: Seq<Board>,
    lo: int,
)
    requires
        s.wf(),
        0 <= i < catalog.len(),
        budget_step(s, catalog[i], next),
        covers_first(s, catalog, i, before, lo),
        0 <= lo <= before.len(),
        before.len() <= after.len(),
        forall|j: int| 0 <= j < before.len() ==> #[trigger] after[j] == before[j],
        next.inner.is_full_spec() ==> before.len() < after.len() && after[before.len() as int] == next.inner,
        !next.inner.is_full_spec() ==> covers_all(next, catalog, after, before.len() as int),
    ensures
        covers_first(s, catalog, i + 1, after, lo),
{
    assert forall|b: Board, fuel: nat| #[trigger] reaches_through_first(s, b, catalog, fuel, i + 1) implies exists|j: int|
        lo <= j < after.len() && same_state(#[trigger] after[j], b) by {
        let (k, n) = choose|k: int, n: RestrictedBoard|
            0 <= k < i + 1 && k < catalog.len() && #[trigger] budget_step(s, catalog[k], n) && if n.inner.is_full_spec() {
                same_state(n.inner, b)
            } else {
                reaches(n, b, catalog, (fuel - 1) as nat)
            };
        if k == i {
            lemma_step_deterministic(s, catalog[k], n, next);
            if next.inner.is_full_spec() {
                assert(n.inner.is_full_spec());
                assert(same_state(after[before.len() as int], b));
            } else {
                assert(!n.inner.is_full_spec());
                lemma_reaches_same(n, next, b, catalog, (fuel - 1) as nat);
                assert(reaches(next, b, catalog, (fuel - 1) as nat));
                let j = choose|j: int| before.len() <= j < after.len() && same_state(#[trigger] after[j], b);
                assert(lo <= j);
            }
        } else {
            assert(reaches_through_first(s, b, catalog, fuel, i));
            let j = choose|j: int| lo <= j < before.len() && same_state(#[trigger] before[j], b);
            assert(after[j] == before[j]);
        }
    }
}

proof fn lemma_grows_through(s: RestrictedBoard, catalog: Seq<Polyomino>, i: int, next: RestrictedBoard, b: Board)
    requires
        0 <= i < catalog.len(),
        budget_step(s, catalog[i], next),
        next.inner.is_full_spec() ==> b == next.inner,
        !next.inner.is_full_spec() ==> grows_into(next, b, catalog),
    ensures
        grows_into(s, b, catalog),
{
    if next.inner.is_full_spec() {
        assert(same_state(next.inner, b));
        assert(reaches(s, b, catalog, 1));
    } else {
        let f = choose|f: nat| reaches(next, b, catalog, f);
        assert(reaches(s, b, catalog, f + 1));
    }
}

/// Every full board that grows from `state` by placing catalog shapes, in
/// catalog order, at the first empty cell within the budget, appended to `out`:
/// each appended board is one `state` grows into, and every board `state`
/// grows into has its state among them.
pub fn collect_tilings(state: &RestrictedBoard, catalog: &[Polyomino], out: &mut Vec<Board>)
    requires
        state.wf(),
        !state.inner.is_full_spec(),
        catalog_wf(catalog@),
        state.inner.tables_fit(catalog@.len() as int),
    ensures
        final(out)@.len() >= old(out)@.len(),
        forall|i: int| 0 <= i < old(out)@.len() ==> #[trigger] final(out)@[i] == old(out)@[i],
        forall|i: int|
            old(out)@.len() <= i < final(out)@.len() ==> (#[trigger] final(out)@[i]).wf() && final(out)@[i].is_full_spec()
                && final(out)@[i].tables_fit(catalog@.len() as int) && final(out)@[i].width == state.inner.width
                && final(out)@[i].height == state.inner.height,
        forall|i: int| old(out)@.len() <= i < final(out)@.len() ==> grows_into(*state, #[trigger] final(out)@[i], catalog@),
        covers_all(*state, catalog@, final(out)@, old(out)@.len() as int),
    decreases state.inner.open_rank(),
{
    let mut i: usize = 0;
    while i < catalog.len()
        invariant
            state.wf(),
            !state.inner.is_full_spec(),
            catalog_wf(catalog@),
            state.inner.tables_fit(catalog@.len() as int),
            i <= catalog@.len(),
            out@.len() >= old(out)@.len(),
            forall|k: int| 0 <= k < old(out)@.len() ==> #[trigger] out@[k] == old(out)@[k],
            forall|k: int|
                old(out)@.len() <= k < out@.len() ==> (#[trigger] out@[k]).wf() && out@[k].is_full_spec()
                    && out@[k].tables_fit(catalog@.len() as int) && out@[k].width == state.inner.width
                    && out@[k].height == state.inner.height,
            forall|k: int| old(out)@.len() <= k < out@.len() ==> grows_into(*state, #[trigger] out@[k], catalog@),
            covers_first(*state, catalog@, i as int, out@, old(out)@.len() as int),
        decreases catalog@.len() - i,
    {
        proof {
            lemma_catalog_entry_table(catalog@, i as int);
        }
        let ghost before = out@;
        match state.add_clone(&catalog[i]) {
            None => {
                proof {
                    lemma_cover_skip(*state, catalog@, i as int, out@, old(out)@.len() as int);
                }
            },
            Some(next) => {
                proof {
                    lemma_tables_fit_after(&state.inner, &next.inner, &catalog@[i as int], catalog@.len() as int);
                    assert(budget_step(*state, catalog@[i as int], next));
                }
                if next.inner.is_full() {
                    let ghost full = next.inner;
                    out.push(next.inner);
                    proof {
                        assert(out@[before.len() as int] == full);
                        lemma_grows_through(*state, catalog@, i as int, next, full);
                    }
                } else {
                    proof {
                        state.inner.lemma_placement_advances(&next.inner, &catalog@[i as int]);
                    }
                    collect_tilings(&next, catalog, out);
                    proof {
                        assert forall|k: int| old(out)@.len() <= k < out@.len() implies grows_into(
                            *state,
                            #[trigger] out@[k],
                            catalog@,
                        ) by {
                            if k < before.len() {
                                assert(out@[k] == before[k]);
                            } else {
                                lemma_grows_through(*state, catalog@, i as int, next, out@[k]);
                            }
                        }
                    }
                }
                proof {
                    lemma_cover_step(*state, catalog@, i as int, next, before, out@, old(out)@.len() as int);
                }
            },
        }
        i = i + 1;
    }
    proof {
        assert forall|b: Board, fuel: nat| #[trigger] reaches(*state, b, catalog@, fuel) implies exists|j: int|
            old(out)@.len() <= j < out@.len() && same_state(#[trigger] out@[j], b) by {
            assert(reaches_through_first(*state, b, catalog@, fuel, catalog@.len() as int));
        }
    }
}

/// `f` is the canonical form of a full board that `s` grows into.
pub open spec fn form_of_growth(s: RestrictedBoard, catalog: Seq<Polyomino>, f: Seq<Seq<Coord>>) -> bool {
    exists|b: Board| grows_into(s, b, catalog) && #[trigger] is_canonical_form(b, catalog, f)
}

/// `found` holds the canonical form of every full board that `s` grows into
/// through a first placement of one of the first `m` catalog shapes.
pub open spec fn forms_cover_first(s: RestrictedBoard, catalog: Seq<Polyomino>, m: int, found: Seq<Solution>) -> bool {
    forall|b: Board, fuel: nat|
        #[trigger] reaches_through_first(s, b, catalog, fuel, m) ==> exists|j: int|
            0 <= j < found.len() && #[trigger] is_canonical_form(b, catalog, found[j].shapes())
}

/// `found` holds the canonical form of every full board that `s` grows into.
pub open spec fn forms_cover_all(s: RestrictedBoard, catalog: Seq<Polyomino>, found: Seq<Solution>) -> bool {
    forall|b: Board, fuel: nat|
        #[trigger] reaches(s, b, catalog, fuel) ==> exists|j: int|
            0 <= j < found.len() && #[trigger] is_canonical_form(b, catalog, found[j].shapes())
}

proof fn lemma_forms_skip(s: RestrictedBoard, catalog: Seq<Polyomino>, i: int, found: Seq<Solution>)
    requires
        0 <= i < catalog.len(),
        !(s.budget_allows(catalog[i].cells().len() as int) && s.inner.can_place(catalog[i].cells())),
        forms_cover_first(s, catalog, i, found),
    ensures
        forms_cover_first(s, catalog, i + 1, found),
{
    assert forall|b: Board, fuel: nat| #[trigger] reaches_through_first(s, b, catalog, fuel, i + 1) implies exists|j: int|
        0 <= j < found.len() && #[trigger] is_canonical_form(b, catalog, found[j].shapes()) by {
        let (k, n) = choose|k: int, n: RestrictedBoard|
            0 <= k < i + 1 && k < catalog.len() && #[trigger] budget_step(s, catalog[k], n) && if n.inner.is_full_spec() {
                same_state(n.inner, b)
            } else {
                reaches(n, b, catalog, (fuel - 1) as nat)
            };
        assert(k != i);
        assert(reaches_through_first(s, b, catalog, fuel, i));
    }
}

proof fn lemma_forms_step(
    s: RestrictedBoard,
    catalog: Seq<Polyomino>,
    i: int,
    next: RestrictedBoard,
    before: Seq<Solution>,
    after: Seq<Solution>,
)
    requires
        s.wf(),
        0 <= i < catalog.len(),
        budget_step(s, catalog[i], next),
        forms_cover_first(s, catalog, i, before),
        before.len() <= after.len(),
        forall|j: int| 0 <= j < before.len() ==> #[trigger] after[j] == before[j],
        next.inner.is_full_spec() ==> exists|j: int|
            0 <= j < after.len() && #[trigger] is_canonical_form(next.inner, catalog, after[j].shapes()),
        !next.inner.is_full_spec() ==> forms_cover_all(next, catalog, after),
    ensures
        forms_cover_first(s, catalog, i + 1, after),
{
    assert forall|b: Board, fuel: nat| #[trigger] reaches_through_first(s, b, catalog, fuel, i + 1) implies exists|j: int|
        0 <= j < after.len() && #[trigger] is_canonical_form(b, catalog, after[j].shapes()) by {
        let (k, n) = choose|k: int, n: RestrictedBoard|
            0 <= k < i + 1 && k < catalog.len() && #[trigger] budget_step(s, catalog[k], n) && if n.inner.is_full_spec() {
                same_state(n.inner, b)
            } else {
                reaches(n, b, catalog, (fuel - 1) as nat)
            };
        if k == i {
            lemma_step_deterministic(s, catalog[k], n, next);
            if next.inner.is_full_spec() {
                assert(n.inner.is_full_spec());
                let j = choose|j: int| 0 <= j < after.len() && #[trigger] is_canonical_form(next.inner, catalog, after[j].shapes());
                lemma_canonical_same_state(next.inner, b, catalog, after[j].shapes());
            } else {
                assert(!n.inner.is_full_spec());
                lemma_reaches_same(n, next, b, catalog, (fuel - 1) as nat);
                assert(reaches(next, b, catalog, (fuel - 1) as nat));
            }
        } else {
            assert(reaches_through_first(s, b, catalog, fuel, i));
            let j = choose|j: int| 0 <= j < before.len() && #[trigger] is_canonical_form(b, catalog, before[j].shapes());
            assert(after[j] == before[j]);
        }
    }
}

/// Adds to `found` the canonical form of every full board that grows from
/// `state`, as `collect_tilings` finds them, keeping `found` free of duplicates:
/// each added solution is the canonical form of a board `state` grows into,
/// and afterwards `found` holds the canonical form of every such board.
/// `report` hears the number of distinct forms each time a new one is added.
pub fn collect_canonical_forms<F: Fn(usize)>(
    state: &RestrictedBoard,
    catalog: &[Polyomino],
    found: &mut Vec<Solution>,
    report: &F,
)
    requires
        forall|n: usize| #[trigger] report.requires((n,)),
        state.wf(),
        !state.inner.is_full_spec(),
        catalog_wf(catalog@),
        state.inner.tables_fit(catalog@.len() as int),
        distinct_solutions(old(found)@),
    ensures
        distinct_solutions(final(found)@),
        final(found)@.len() >= old(found)@.len(),
        forall|i: int| 0 <= i < old(found)@.len() ==> #[trigger] final(found)@[i] == old(found)@[i],
        forall|i: int|
            old(found)@.len() <= i < final(found)@.len() ==> canonical_of_some_tiling(
                (#[trigger] final(found)@[i]).shapes(),
                state.inner.width as int,
                state.inner.height as int,
                catalog@,
            ) && form_of_growth(*state, catalog@, final(found)@[i].shapes()),
        forms_cover_all(*state, catalog@, final(found)@),
    decreases state.inner.open_rank(),
{
    let mut i: usize = 0;
    while i < catalog.len()
        invariant
            forall|n: usize| #[trigger] report.requires((n,)),
            state.wf(),
            !state.inner.is_full_spec(),
            catalog_wf(catalog@),
            state.inner.tables_fit(catalog@.len() as int),
            i <= catalog@.len(),
            distinct_solutions(found@),
            found@.len() >= old(found)@.len(),
            forall|k: int| 0 <= k < old(found)@.len() ==> #[trigger] found@[k] == old(found)@[k],
            forall|k: int|
                old(found)@.len() <= k < found@.len() ==> canonical_of_some_tiling(
                    (#[trigger] found@[k]).shapes(),
                    state.inner.width as int,
                    state.inner.height as int,
                    catalog@,
                ) && form_of_growth(*state, catalog@, found@[k].shapes()),
            forms_cover_first(*state, catalog@, i as int, found@),
        decreases catalog@.len() - i,
    {
        proof {
            lemma_catalog_entry_table(catalog@, i as int);
        }
        let ghost before = found@;
        match state.add_clone(&catalog[i]) {
            None => {
                proof {
                    lemma_forms_skip(*state, catalog@, i as int, found@);
                }
            },
            Some(next) => {
                proof {
                    lemma_tables_fit_after(&state.inner, &next.inner, &catalog@[i as int], catalog@.len() as int);
                    assert(budget_step(*state, catalog@[i as int], next));
                }
                if next.inner.is_full() {
                    let form = next.inner.cannonical_form(catalog);
                    let ghost f = form.shapes();
                    proof {
                        assert(canonical_of_some_tiling(f, state.inner.width as int, state.inner.height as int, catalog@));
                        lemma_grows_through(*state, catalog@, i as int, next, next.inner);
                        assert(form_of_growth(*state, catalog@, f));
                    }
                    let added = insert_solution(found, form);
                    if added {
                        report(found.len());
                    }
                    proof {
                        if added {
                            assert(found@[before.len() as int].shapes() == f);
                            assert(is_canonical_form(next.inner, catalog@, found@[before.len() as int].shapes()));
                        } else {
                            let j = choose|j: int| 0 <= j < before.len() && #[trigger] before[j].shapes() == f;
                            assert(is_canonical_form(next.inner, catalog@, found@[j].shapes()));
                        }
                    }
                } else {
                    proof {
                        state.inner.lemma_placement_advances(&next.inner, &catalog@[i as int]);
                    }
                    collect_canonical_forms(&next, catalog, found, report);
                    proof {
                        assert forall|k: int| old(found)@.len() <= k < found@.len() implies canonical_of_some_tiling(
                            (#[trigger] found@[k]).shapes(),
                            state.inner.width as int,
                            state.inner.height as int,
                            catalog@,
                        ) && form_of_growth(*state, catalog@, found@[k].shapes()) by {
                            if k < before.len() {
                                assert(found@[k] == before[k]);
                            } else {
                                let b = choose|b: Board| grows_into(next, b, catalog@) && #[trigger] is_canonical_form(
                                    b,
                                    catalog@,
                                    found@[k].shapes(),
                                );
                                lemma_grows_through(*state, catalog@, i as int, next, b);
                            }
                        }
                    }
                }
                proof {
                    lemma_forms_step(*state, catalog@, i as int, next, before, found@);
                }
            },
        }
        i = i + 1;
    }
    proof {
        assert forall|b: Board, fuel: nat| #[trigger] reaches(*state, b, catalog@, fuel) implies exists|j: int|
            0 <= j < found@.len() && #[trigger] is_canonical_form(b, catalog@, found@[j].shapes()) by {
            assert(reaches_through_first(*state, b, catalog@, fuel, catalog@.len() as int));
        }
    }
}

/// The distinct canonical forms of the tilings of a `width` by `height` board
/// with the catalog's shapes, within the given budgets: each is the canonical
/// form of a full board the empty board grows into, and every such board has
/// its canonical form among them. `report` hears the number of distinct
/// forms found so far each time it grows.
pub fn distinct_tilings_reporting<F: Fn(usize)>(
    width: usize,
    height: usize,
    catalog: &[Polyomino],
    max_ones_or_twos: u8,
    max_threes: u8,
    report: &F,
) -> (r: Vec<Solution>)
    requires
        forall|n: usize| #[trigger] report.requires((n,)),
        width <= 127,
        height <= 127,
        catalog_wf(catalog@),
    ensures
        distinct_solutions(r@),
        forall|i: int|
            0 <= i < r@.len() ==> canonical_of_some_tiling((#[trigger] r@[i]).shapes(), width as int, height as int, catalog@),
        forall|s: RestrictedBoard|
            #[trigger] is_start(s, width as int, height as int, max_ones_or_twos as int, max_threes as int)
                ==> forms_cover_all(s, catalog@, r@) && forall|i: int|
                0 <= i < r@.len() ==> form_of_growth(s, catalog@, (#[trigger] r@[i]).shapes()),
        width == 0 || height == 0 ==> r@.len() == 0,
{
    let start = RestrictedBoard::with_budget(width, height, max_ones_or_twos, max_threes);
    let mut found: Vec<Solution> = Vec::new();
    if !start.inner.is_full() {
        proof {
            if width == 0 || height == 0 {
                assert(width * height == 0) by (nonlinear_arith)
                    requires
                        width == 0 || height == 0,
                {
                }
            }
        }
        collect_canonical_forms(&start, catalog, &mut found, report);
    } else {
        proof {
            if width != 0 && height != 0 {
                assert(width * height > 0) by (nonlinear_arith)
                    requires
                        width > 0,
                        height > 0,
                {
                }
                assert(start.inner.cells@[0] is None);
            }
        }
    }
    proof {
        assert(is_start(start, width as int, height as int, max_ones_or_twos as int, max_threes as int));
        assert forall|s: RestrictedBoard|
            #[trigger] is_start(s, width as int, height as int, max_ones_or_twos as int, max_threes as int)
                implies forms_cover_all(s, catalog@, found@) && forall|i: int|
                0 <= i < found@.len() ==> form_of_growth(s, catalog@, (#[trigger] found@[i]).shapes()) by {
            lemma_starts_same(start, s, width as int, height as int, max_ones_or_twos as int, max_threes as int);
            assert forall|b: Board, fuel: nat| #[trigger] reaches(s, b, catalog@, fuel) implies exists|j: int|
                0 <= j < found@.len() && #[trigger] is_canonical_form(b, catalog@, found@[j].shapes()) by {
                lemma_reaches_same(s, start, b, catalog@, fuel);
                if start.inner.is_full_spec() {
                    let (k, n) = choose|k: int, n: RestrictedBoard|
                        0 <= k < catalog@.len() && #[trigger] budget_step(start, catalog@[k], n) && if n.inner.is_full_spec() {
                            same_state(n.inner, b)
                        } else {
                            reaches(n, b, catalog@, (fuel - 1) as nat)
                        };
                }
            }
            assert forall|i: int| 0 <= i < found@.len() implies form_of_growth(s, catalog@, (#[trigger] found@[i]).shapes()) by {
                let b = choose|b: Board| grows_into(start, b, catalog@) && #[trigger] is_canonical_form(
                    b,
                    catalog@,
                    found@[i].shapes(),
                );
                let f = choose|f: nat| reaches(start, b, catalog@, f);
                lemma_reaches_same(start, s, b, catalog@, f);
                assert(grows_into(s, b, catalog@));
            }
        }
    }
    found
}

/// The distinct canonical forms of the tilings of a `width` by `height` board
/// with the catalog's shapes, within the given budgets: each is the canonical
/// form of a full board the empty board grows into, and every such board has
/// its canonical form among them.
pub fn distinct_tilings(
    width: usize,
    height: usize,
    catalog: &[Polyomino],
    max_ones_or_twos: u8,
    max_threes: u8,
) -> (r: Vec<Solution>)
    requires
        width <= 127,
        height <= 127,
        catalog_wf(catalog@),
    ensures
        distinct_solutions(r@),
        forall|i: int|
            0 <= i < r@.len() ==> canonical_of_some_tiling((#[trigger] r@[i]).shapes(), width as int, height as int, catalog@),
        forall|s: RestrictedBoard|
            #[trigger] is_start(s, width as int, height as int, max_ones_or_twos as int, max_threes as int)
                ==> forms_cover_all(s, catalog@, r@) && forall|i: int|
                0 <= i < r@.len() ==> form_of_growth(s, catalog@, (#[trigger] r@[i]).shapes()),
        width == 0 || height == 0 ==> r@.len() == 0,
{
    let silent = |_count: usize| {};
    distinct_tilings_reporting(width, height, catalog, max_ones_or_twos, max_threes, &silent)
}

/// Every tiling of a `width` by `height` board with the catalog's shapes,
/// within the given budgets, as full boards: each is one that the empty board
/// grows into, and every full board it grows into is there in the same state.
pub fn all_tilings(width: usize, height: usize, catalog: &[Polyomino], max_ones_or_twos: u8, max_threes: u8) -> (r: Vec<
    Board,
>)
    requires
        width <= 127,
        height <= 127,
        catalog_wf(catalog@),
    ensures
        forall|i: int|
            0 <= i < r@.len() ==> (#[trigger] r@[i]).wf() && r@[i].is_full_spec() && r@[i].width == width
                && r@[i].height == height,
        forall|s: RestrictedBoard|
            #[trigger] is_start(s, width as int, height as int, max_ones_or_twos as int, max_threes as int) ==> covers_all(
                s,
                catalog@,
                r@,
                0,
            ) && forall|i: int| 0 <= i < r@.len() ==> grows_into(s, #[trigger] r@[i], catalog@),
{
    let start = RestrictedBoard::with_budget(width, height, max_ones_or_twos, max_threes);
    let mut out: Vec<Board> = Vec::new();
    if !start.inner.is_full() {
        proof {
            assert(start.inner.tables_fit(catalog@.len() as int));
        }
        collect_tilings(&start, catalog, &mut out);
    }
    proof {
        assert(is_start(start, width as int, height as int, max_ones_or_twos as int, max_threes as int));
        assert forall|s: RestrictedBoard|
            #[trigger] is_start(s, width as int, height as int, max_ones_or_twos as int, max_threes as int) implies covers_all(
                s,
                catalog@,
                out@,
                0,
            ) && forall|i: int| 0 <= i < out@.len() ==> grows_into(s, #[trigger] out@[i], catalog@) by {
            lemma_starts_same(start, s, width as int, height as int, max_ones_or_twos as int, max_threes as int);
            assert forall|b: Board, fuel: nat| #[trigger] reaches(s, b, catalog@, fuel) implies exists|j: int|
                0 <= j < out@.len() && same_state(#[trigger] out@[j], b) by {
                lemma_reaches_same(s, start, b, catalog@, fuel);
                if start.inner.is_full_spec() {
                    let (k, n) = choose|k: int, n: RestrictedBoard|
                        0 <= k < catalog@.len() && #[trigger] budget_step(start, catalog@[k], n) && if n.inner.is_full_spec() {
                            same_state(n.inner, b)
                        } else {
                            reaches(n, b, catalog@, (fuel - 1) as nat)
                        };
                }
            }
            assert forall|i: int| 0 <= i < out@.len() implies grows_into(s, #[trigger] out@[i], catalog@) by {
                assert(grows_into(start, out@[i], catalog@));
                let f = choose|f: nat| reaches(start, out@[i], catalog@, f);
                lemma_reaches_same(start, s, out@[i], catalog@, f);
            }
        }
    }
    out
}

} // verus!
