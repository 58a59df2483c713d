//! The non-domination region of a candidate edge and a potential dominator
//! vertex: the set of grades at which the vertex fails to dominate the edge,
//! encoded as a union of vertical and horizontal stripes.

use vstd::prelude::*;

use crate::edges::FilteredEdge;
use crate::removal::adjacency::{
    closed_edge_map, closed_nb_map, entry_list_of, AdjacencyMatrix,
};
use crate::removal::full::stripes::{covers, has_endpoint_leq, stripe_covers, Stripe, Stripes};
use crate::OneCriticalGrade;

verus! {

/// A pair of grades `(p, q)` fed to [`add_pair`]: the grade at which a
/// member of the edge neighbourhood arrives, and the grade at which the
/// dominator acquires it.
pub type Pair = (OneCriticalGrade, OneCriticalGrade);

/// The grade at which the dominator with neighbourhood `bm` acquires the
/// neighbour `a` arriving at `al`: the join of the two arrival grades, or
/// the greatest grade when the dominator never acquires `a`.
pub open spec fn pair_target(
    al: OneCriticalGrade,
    bm: Map<usize, OneCriticalGrade>,
    a: usize,
) -> OneCriticalGrade {
    if bm.dom().contains(a) {
        al.spec_join(bm[a])
    } else {
        OneCriticalGrade(u64::MAX, u64::MAX)
    }
}

/// Whether the neighbourhood entry `p` contributes the vertical stripe `st`
/// against a dominator with neighbourhood `bm`.
pub open spec fn entry_emits_vert(
    p: (usize, OneCriticalGrade),
    bm: Map<usize, OneCriticalGrade>,
    st: Stripe,
) -> bool {
    let q = pair_target(p.1, bm, p.0);
    p.1.0 != q.0 && st == ((p.1.0, q.0), p.1.1)
}

/// Whether the neighbourhood entry `p` contributes the horizontal stripe
/// `st` against a dominator with neighbourhood `bm`.
pub open spec fn entry_emits_horiz(
    p: (usize, OneCriticalGrade),
    bm: Map<usize, OneCriticalGrade>,
    st: Stripe,
) -> bool {
    let q = pair_target(p.1, bm, p.0);
    p.1.1 != q.1 && st == ((p.1.1, q.1), p.1.0)
}

/// Whether some member of the edge neighbourhood `am` contributes the
/// vertical stripe `st` against a dominator with neighbourhood `bm`.
#[verifier::opaque]
pub open spec fn region_vertical(
    am: Map<usize, OneCriticalGrade>,
    bm: Map<usize, OneCriticalGrade>,
    st: Stripe,
) -> bool {
    exists|a: usize| #[trigger] am.dom().contains(a) && entry_emits_vert((a, am[a]), bm, st)
}

/// Whether some member of the edge neighbourhood `am` contributes the
/// horizontal stripe `st` against a dominator with neighbourhood `bm`.
#[verifier::opaque]
pub open spec fn region_horizontal(
    am: Map<usize, OneCriticalGrade>,
    bm: Map<usize, OneCriticalGrade>,
    st: Stripe,
) -> bool {
    exists|a: usize| #[trigger] am.dom().contains(a) && entry_emits_horiz((a, am[a]), bm, st)
}

/// Pushing onto a sequence adds exactly one member.
proof fn lemma_push_contains<A>(s: Seq<A>, x: A)
    ensures
        forall|p: A| #[trigger] s.push(x).contains(p) <==> (s.contains(p) || p == x),
{
    assert forall|p: A| #[trigger] s.push(x).contains(p) implies (s.contains(p) || p == x) by {
        let t = choose|t: int| 0 <= t < s.push(x).len() && s.push(x)[t] == p;
        if t < s.len() {
            assert(s[t] == p);
        }
    }
    assert forall|p: A| (s.contains(p) || p == x) implies #[trigger] s.push(x).contains(p) by {
        if p == x {
            assert(s.push(x)[s.len() as int] == p);
        } else {
            let t = choose|t: int| 0 <= t < s.len() && s[t] == p;
            assert(s.push(x)[t] == p);
        }
    }
}

/// Turns the pair `(p, q)` into its stripes: a vertical stripe where the
/// first coordinates differ, and a horizontal stripe where the second
/// coordinates differ.
pub fn add_pair(
    vertical_stripes: &mut Vec<Stripe>,
    horizontal_stripes: &mut Vec<Stripe>,
    pair: Pair,
)
    ensures
        final(vertical_stripes)@ == if pair.0.0 != pair.1.0 {
            old(vertical_stripes)@.push(((pair.0.0, pair.1.0), pair.0.1))
        } else {
            old(vertical_stripes)@
        },
        final(horizontal_stripes)@ == if pair.0.1 != pair.1.1 {
            old(horizontal_stripes)@.push(((pair.0.1, pair.1.1), pair.0.0))
        } else {
            old(horizontal_stripes)@
        },
{
    let (p, q) = pair;
    if p.0 != q.0 {
        vertical_stripes.push(((p.0, q.0), p.1));
    }
    if p.1 != q.1 {
        horizontal_stripes.push(((p.1, q.1), p.0));
    }
}

/// The union of two stripe families: the grades at which a vertex fails to
/// dominate an edge.
pub struct NonDominationRegion {
    vertical_stripes: Stripes,
    horizontal_stripes: Stripes,
}

impl View for NonDominationRegion {
    type V = (Seq<Stripe>, Seq<Stripe>);

    closed spec fn view(&self) -> (Seq<Stripe>, Seq<Stripe>) {
        (self.vertical_stripes@, self.horizontal_stripes@)
    }
}

/// The answer of a [`Stripes`] query: whether some stripe covers the point,
/// with the arrangement's own behaviour on the greatest ordinate, where it
/// also answers true wherever some endpoint lies at or below the abscissa.
pub open spec fn stripes_answer(stripes: Seq<Stripe>, p: (u64, u64)) -> bool {
    covers(stripes, p) || (p.1 == u64::MAX && has_endpoint_leq(stripes, p.0))
}

/// The answer of a region query at the grade `g`: the vertical family is
/// asked about `(g.0, g.1)`, the horizontal family about `(g.1, g.0)`.
pub open spec fn region_answer(
    vert: Seq<Stripe>,
    horiz: Seq<Stripe>,
    g: OneCriticalGrade,
) -> bool {
    stripes_answer(vert, (g.0, g.1)) || stripes_answer(horiz, (g.1, g.0))
}

impl NonDominationRegion {
    /// The representation invariant of the two stripe arrangements.
    pub closed spec fn wf(self) -> bool {
        self.vertical_stripes.wf() && self.horizontal_stripes.wf()
    }

    /// A region made of the given vertical and horizontal stripes.
    pub fn new(vertical_stripes: Vec<Stripe>, horizontal_stripes: Vec<Stripe>) -> (r: Self)
        ensures
            r.wf(),
            r@ == (vertical_stripes@, horizontal_stripes@),
    {
        Self {
            vertical_stripes: Stripes::new(vertical_stripes),
            horizontal_stripes: Stripes::new(horizontal_stripes),
        }
    }

    /// Returns whether the region has no stripes at all: the signal that the
    /// vertex dominates the edge at every grade.
    pub fn is_empty(&self) -> (r: bool)
        requires
            self.wf(),
        ensures
            r == (self@.0.len() == 0 && self@.1.len() == 0),
    {
        self.vertical_stripes.is_empty() && self.horizontal_stripes.is_empty()
    }

    /// Returns whether the grade lies in the region.
    pub fn contains_point(&self, grade: OneCriticalGrade) -> (r: bool)
        requires
            self.wf(),
        ensures
            r == region_answer(self@.0, self@.1, grade),
    {
        let vertical_point = (grade.0, grade.1);
        let horizontal_point = (grade.1, grade.0);
        self.vertical_stripes.contains_point(vertical_point)
            || self.horizontal_stripes.contains_point(horizontal_point)
    }
}


/// Whether the region of `am` against `bm` holds no stripe at all: the
/// dominator acquires every member of the edge neighbourhood the moment it
/// arrives.
#[verifier::opaque]
pub open spec fn region_empty(
    am: Map<usize, OneCriticalGrade>,
    bm: Map<usize, OneCriticalGrade>,
) -> bool {
    &&& !(exists|st: Stripe| #[trigger] region_vertical(am, bm, st))
    &&& !(exists|st: Stripe| #[trigger] region_horizontal(am, bm, st))
}

/// The answer of a region query, stated over the contributing entries
/// themselves rather than over a stripe list.
#[verifier::opaque]
pub open spec fn region_grade_answer(
    am: Map<usize, OneCriticalGrade>,
    bm: Map<usize, OneCriticalGrade>,
    g: OneCriticalGrade,
) -> bool {
    ||| exists|st: Stripe| #[trigger] region_vertical(am, bm, st) && stripe_covers(st, (g.0, g.1))
    ||| (g.1 == u64::MAX && exists|st: Stripe|
        #[trigger] region_vertical(am, bm, st) && (st.0.0 <= g.0 || st.0.1 <= g.0))
    ||| exists|st: Stripe| #[trigger] region_horizontal(am, bm, st) && stripe_covers(st, (g.1, g.0))
    ||| (g.0 == u64::MAX && exists|st: Stripe|
        #[trigger] region_horizontal(am, bm, st) && (st.0.0 <= g.1 || st.0.1 <= g.1))
}

/// Whether `reg` holds exactly the stripes of the region of `am` against
/// `bm`.
#[verifier::opaque]
pub open spec fn region_matches(
    reg: NonDominationRegion,
    am: Map<usize, OneCriticalGrade>,
    bm: Map<usize, OneCriticalGrade>,
) -> bool {
    &&& reg.wf()
    &&& forall|st: Stripe| #[trigger] reg@.0.contains(st) <==> region_vertical(am, bm, st)
    &&& forall|st: Stripe| #[trigger] reg@.1.contains(st) <==> region_horizontal(am, bm, st)
}

/// On a region that matches `am` against `bm`, the stripe-list queries
/// answer exactly the entry-level queries.
pub proof fn lemma_region_query_equiv(
    reg: NonDominationRegion,
    am: Map<usize, OneCriticalGrade>,
    bm: Map<usize, OneCriticalGrade>,
    g: OneCriticalGrade,
)
    requires
        region_matches(reg, am, bm),
    ensures
        region_answer(reg@.0, reg@.1, g) == region_grade_answer(am, bm, g),
        (reg@.0.len() == 0 && reg@.1.len() == 0) == region_empty(am, bm),
{
    reveal(region_matches);
    reveal(region_grade_answer);
    reveal(region_empty);
    let vs = reg@.0;
    let hs = reg@.1;
    if covers(vs, (g.0, g.1)) {
        let i = choose|i: int| 0 <= i < vs.len() && stripe_covers(#[trigger] vs[i], (g.0, g.1));
        assert(vs.contains(vs[i]));
        assert(region_vertical(am, bm, vs[i]) && stripe_covers(vs[i], (g.0, g.1)));
    }
    if covers(hs, (g.1, g.0)) {
        let i = choose|i: int| 0 <= i < hs.len() && stripe_covers(#[trigger] hs[i], (g.1, g.0));
        assert(hs.contains(hs[i]));
        assert(region_horizontal(am, bm, hs[i]) && stripe_covers(hs[i], (g.1, g.0)));
    }
    if has_endpoint_leq(vs, g.0) {
        let i = choose|i: int|
            0 <= i < vs.len() && ((#[trigger] vs[i]).0.0 <= g.0 || vs[i].0.1 <= g.0);
        assert(vs.contains(vs[i]));
        assert(region_vertical(am, bm, vs[i]) && (vs[i].0.0 <= g.0 || vs[i].0.1 <= g.0));
    }
    if has_endpoint_leq(hs, g.1) {
        let i = choose|i: int|
            0 <= i < hs.len() && ((#[trigger] hs[i]).0.0 <= g.1 || hs[i].0.1 <= g.1);
        assert(hs.contains(hs[i]));
        assert(region_horizontal(am, bm, hs[i]) && (hs[i].0.0 <= g.1 || hs[i].0.1 <= g.1));
    }
    if exists|st: Stripe| #[trigger] region_vertical(am, bm, st) && stripe_covers(st, (g.0, g.1)) {
        let st = choose|st: Stripe|
            #[trigger] region_vertical(am, bm, st) && stripe_covers(st, (g.0, g.1));
        assert(vs.contains(st));
    }
    if exists|st: Stripe| #[trigger] region_horizontal(am, bm, st) && stripe_covers(
        st,
        (g.1, g.0),
    ) {
        let st = choose|st: Stripe|
            #[trigger] region_horizontal(am, bm, st) && stripe_covers(st, (g.1, g.0));
        assert(hs.contains(st));
    }
    if exists|st: Stripe| #[trigger] region_vertical(am, bm, st) && (st.0.0 <= g.0 || st.0.1
        <= g.0) {
        let st = choose|st: Stripe|
            #[trigger] region_vertical(am, bm, st) && (st.0.0 <= g.0 || st.0.1 <= g.0);
        assert(vs.contains(st));
    }
    if exists|st: Stripe| #[trigger] region_horizontal(am, bm, st) && (st.0.0 <= g.1 || st.0.1
        <= g.1) {
        let st = choose|st: Stripe|
            #[trigger] region_horizontal(am, bm, st) && (st.0.0 <= g.1 || st.0.1 <= g.1);
        assert(hs.contains(st));
    }
    if vs.len() > 0 {
        assert(vs.contains(vs[0]));
        assert(region_vertical(am, bm, vs[0]));
    }
    if hs.len() > 0 {
        assert(hs.contains(hs[0]));
        assert(region_horizontal(am, bm, hs[0]));
    }
    if exists|st: Stripe| #[trigger] region_vertical(am, bm, st) {
        let st = choose|st: Stripe| #[trigger] region_vertical(am, bm, st);
        assert(vs.contains(st));
    }
    if exists|st: Stripe| #[trigger] region_horizontal(am, bm, st) {
        let st = choose|st: Stripe| #[trigger] region_horizontal(am, bm, st);
        assert(hs.contains(st));
    }
}

/// Builds the non-domination region of the edge `edge` against the common
/// neighbour `v`, whose joined grade is `value_v`: one pair per member of
/// the closed edge neighbourhood, with the grade at which `v` acquires that
/// member, or the greatest grade when it never does.
#[verifier::loop_isolation(false)]
pub fn calculate_non_domination_region(
    adjacency_matrix: &AdjacencyMatrix,
    edge: &FilteredEdge,
    v: usize,
    value_v: OneCriticalGrade,
) -> (r: NonDominationRegion)
    requires
        adjacency_matrix.wf(),
        edge.edge.0 != edge.edge.1,
        edge.edge.0 < adjacency_matrix@.len(),
        edge.edge.1 < adjacency_matrix@.len(),
        v < adjacency_matrix@.len(),
    ensures
        region_matches(
            r,
            closed_edge_map(adjacency_matrix@, *edge),
            closed_nb_map(adjacency_matrix@, v, value_v.spec_join(edge.grade)),
        ),
{
    let ghost am = closed_edge_map(adjacency_matrix@, *edge);
    let ghost bm = closed_nb_map(adjacency_matrix@, v, value_v.spec_join(edge.grade));
    let mut vertical_stripes: Vec<Stripe> = Vec::new();
    let mut horizontal_stripes: Vec<Stripe> = Vec::new();

    let edge_neighs = adjacency_matrix.closed_neighbours_edge(edge);
    let v_neighs = adjacency_matrix.closed_neighbours(v, value_v.join(&edge.grade));
    let n = edge_neighs.len();
    let m = v_neighs.len();
    let mut i: usize = 0;
    let mut j: usize = 0;
    while i < n
        invariant
            i <= n,
            j <= m,
            n == edge_neighs@.len(),
            m == v_neighs@.len(),
            entry_list_of(edge_neighs@, am),
            entry_list_of(v_neighs@, bm),
            forall|j2: int|
                0 <= j2 < j && i < n ==> (#[trigger] v_neighs@[j2]).0 < edge_neighs@[i as int].0,
            forall|st: Stripe|
                #[trigger] vertical_stripes@.contains(st) <==> exists|t: int|
                    0 <= t < i && entry_emits_vert(#[trigger] edge_neighs@[t], bm, st),
            forall|st: Stripe|
                #[trigger] horizontal_stripes@.contains(st) <==> exists|t: int|
                    0 <= t < i && entry_emits_horiz(#[trigger] edge_neighs@[t], bm, st),
        decreases n - i + m - j,
    {
        let (a, value_a) = edge_neighs[i];
        let ghost vs_old = vertical_stripes@;
        let ghost hs_old = horizontal_stripes@;
        if j < m && v_neighs[j].0 < a {
            j = j + 1;
            proof {
                assert forall|j2: int| 0 <= j2 < j && i < n implies (#[trigger] v_neighs@[j2]).0
                    < edge_neighs@[i as int].0 by {}
            }
        } else {
            let ghost q = pair_target(value_a, bm, a);
            if j < m && v_neighs[j].0 == a {
                let (_, value_b) = v_neighs[j];
                proof {
                    assert(bm.contains_pair(v_neighs@[j as int].0, v_neighs@[j as int].1));
                    assert(q == value_a.spec_join(value_b));
                }
                add_pair(
                    &mut vertical_stripes,
                    &mut horizontal_stripes,
                    (value_a, value_a.join(&value_b)),
                );
            } else {
                proof {
                    if bm.dom().contains(a) {
                        let j2 = choose|j2: int|
                            0 <= j2 < v_neighs@.len() && (#[trigger] v_neighs@[j2]).0 == a;
                        if j2 < j {
                            assert(v_neighs@[j2].0 < edge_neighs@[i as int].0);
                        } else {
                            if j < m {
                                assert(v_neighs@[j as int].0 <= v_neighs@[j2].0);
                            }
                        }
                        assert(false);
                    }
                    assert(q == OneCriticalGrade(u64::MAX, u64::MAX));
                }
                add_pair(
                    &mut vertical_stripes,
                    &mut horizontal_stripes,
                    (value_a, OneCriticalGrade::max_value()),
                );
            }
            i = i + 1;
            proof {
                assert(edge_neighs@[i - 1] == (a, value_a));
                if value_a.0 != q.0 {
                    lemma_push_contains(vs_old, ((value_a.0, q.0), value_a.1));
                }
                if value_a.1 != q.1 {
                    lemma_push_contains(hs_old, ((value_a.1, q.1), value_a.0));
                }
                assert forall|st: Stripe| #[trigger] vertical_stripes@.contains(st) implies exists|
                    t: int,
                |
                    0 <= t < i && entry_emits_vert(#[trigger] edge_neighs@[t], bm, st) by {
                    if vs_old.contains(st) {
                        let t0 = choose|t: int|
                            0 <= t < i - 1 && entry_emits_vert(#[trigger] edge_neighs@[t], bm, st);
                        assert(entry_emits_vert(edge_neighs@[t0], bm, st));
                    } else {
                        assert(entry_emits_vert(edge_neighs@[i - 1], bm, st));
                    }
                }
                assert forall|st: Stripe|
                    (exists|t: int|
                        0 <= t < i && entry_emits_vert(
                            #[trigger] edge_neighs@[t],
                            bm,
                            st,
                        )) implies #[trigger] vertical_stripes@.contains(st) by {
                    let t0 = choose|t: int|
                        0 <= t < i && entry_emits_vert(#[trigger] edge_neighs@[t], bm, st);
                    if t0 < i - 1 {
                        assert(vs_old.contains(st));
                    } else {
                        assert(entry_emits_vert((a, value_a), bm, st));
                    }
                }
                assert forall|st: Stripe| #[trigger] horizontal_stripes@.contains(st) implies
                    exists|t: int|
                    0 <= t < i && entry_emits_horiz(#[trigger] edge_neighs@[t], bm, st) by {
                    if hs_old.contains(st) {
                        let t0 = choose|t: int|
                            0 <= t < i - 1 && entry_emits_horiz(#[trigger] edge_neighs@[t], bm, st);
                        assert(entry_emits_horiz(edge_neighs@[t0], bm, st));
                    } else {
                        assert(entry_emits_horiz(edge_neighs@[i - 1], bm, st));
                    }
                }
                assert forall|st: Stripe|
                    (exists|t: int|
                        0 <= t < i && entry_emits_horiz(
                            #[trigger] edge_neighs@[t],
                            bm,
                            st,
                        )) implies #[trigger] horizontal_stripes@.contains(st) by {
                    let t0 = choose|t: int|
                        0 <= t < i && entry_emits_horiz(#[trigger] edge_neighs@[t], bm, st);
                    if t0 < i - 1 {
                        assert(hs_old.contains(st));
                    } else {
                        assert(entry_emits_horiz((a, value_a), bm, st));
                    }
                }
            }
        }
    }
    proof {
        reveal(region_matches);
        reveal(region_vertical);
        reveal(region_horizontal);
        assert forall|st: Stripe|
            #[trigger] vertical_stripes@.contains(st) <==> region_vertical(am, bm, st) by {
            if vertical_stripes@.contains(st) {
                let t0 = choose|t: int|
                    0 <= t < n && entry_emits_vert(#[trigger] edge_neighs@[t], bm, st);
                assert(am.contains_pair(edge_neighs@[t0].0, edge_neighs@[t0].1));
            }
            if region_vertical(am, bm, st) {
                let a2 = choose|a2: usize|
                    #[trigger] am.dom().contains(a2) && entry_emits_vert((a2, am[a2]), bm, st);
                let t0 = choose|t: int|
                    0 <= t < edge_neighs@.len() && (#[trigger] edge_neighs@[t]).0 == a2;
                assert(am.contains_pair(edge_neighs@[t0].0, edge_neighs@[t0].1));
                assert(entry_emits_vert(edge_neighs@[t0], bm, st));
            }
        }
        assert forall|st: Stripe|
            #[trigger] horizontal_stripes@.contains(st) <==> region_horizontal(am, bm, st) by {
            if horizontal_stripes@.contains(st) {
                let t0 = choose|t: int|
                    0 <= t < n && entry_emits_horiz(#[trigger] edge_neighs@[t], bm, st);
                assert(am.contains_pair(edge_neighs@[t0].0, edge_neighs@[t0].1));
            }
            if region_horizontal(am, bm, st) {
                let a2 = choose|a2: usize|
                    #[trigger] am.dom().contains(a2) && entry_emits_horiz((a2, am[a2]), bm, st);
                let t0 = choose|t: int|
                    0 <= t < edge_neighs@.len() && (#[trigger] edge_neighs@[t]).0 == a2;
                assert(am.contains_pair(edge_neighs@[t0].0, edge_neighs@[t0].1));
                assert(entry_emits_horiz(edge_neighs@[t0], bm, st));
            }
        }
    }
    let region = NonDominationRegion::new(vertical_stripes, horizontal_stripes);
    region
}

} // verus!
