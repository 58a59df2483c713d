//! Edges, edge lists, and associated functions.

use vstd::multiset::Multiset;
use vstd::prelude::*;
use vstd::seq_lib::lemma_multiset_commutative;

use crate::io_utils::{dec_rep, push_u64_decimal, read_values, ParseError};
use crate::OneCriticalGrade;

verus! {

/// Edge that is not filtered: an unordered pair of distinct vertices.
/// The endpoints are kept in the order they were given; equality of the
/// unordered pair is through [`BareEdge::minmax`].
#[derive(Debug, Clone, Copy, PartialEq, Eq, Structural, Hash)]
pub struct BareEdge(pub usize, pub usize);

impl BareEdge {
    /// The greatest endpoint, spec-level.
    pub open spec fn spec_max(self) -> usize {
        if self.0 >= self.1 {
            self.0
        } else {
            self.1
        }
    }

    /// The least endpoint, spec-level.
    pub open spec fn spec_min(self) -> usize {
        if self.0 <= self.1 {
            self.0
        } else {
            self.1
        }
    }

    /// The least and the greatest endpoint, spec-level.
    pub open spec fn spec_minmax(self) -> (usize, usize) {
        (self.spec_min(), self.spec_max())
    }

    /// The greatest endpoint.
    pub fn max(&self) -> (r: usize)
        ensures
            r == self.spec_max(),
    {
        if self.0 >= self.1 {
            self.0
        } else {
            self.1
        }
    }

    /// The least endpoint.
    pub fn min(&self) -> (r: usize)
        ensures
            r == self.spec_min(),
    {
        if self.0 <= self.1 {
            self.0
        } else {
            self.1
        }
    }

    /// Return a pair whose first element is the least endpoint, and the
    /// second the greatest endpoint.
    pub fn minmax(&self) -> (r: (usize, usize))
        ensures
            r == self.spec_minmax(),
    {
        (self.min(), self.max())
    }

    /// Lexicographic strict order on the least and greatest endpoint,
    /// spec-level: the order used to break ties between filtered edges.
    pub open spec fn lt(self, other: Self) -> bool {
        self.spec_min() < other.spec_min() || (self.spec_min() == other.spec_min()
            && self.spec_max() < other.spec_max())
    }

    /// Equality of the unordered endpoint pairs, spec-level.
    pub open spec fn same_pair(self, other: Self) -> bool {
        self.spec_minmax() == other.spec_minmax()
    }
}

/// An edge with its associated critical grade.
#[derive(Debug, Clone, Copy, PartialEq, Eq, Structural, Hash)]
pub struct FilteredEdge {
    /// The critical grade of this edge.
    pub grade: OneCriticalGrade,
    /// The endpoints of this edge.
    pub edge: BareEdge,
}

impl FilteredEdge {
    /// Lexicographic strict order on filtered edges, spec-level: compare the
    /// grades lexicographically, and break ties by the unordered endpoints.
    pub open spec fn lex_lt(self, other: Self) -> bool {
        self.grade.lex_lt(other.grade) || (self.grade == other.grade && self.edge.lt(other.edge))
    }

    /// Colexicographic strict order on filtered edges, spec-level: compare
    /// the grades colexicographically, and break ties by the unordered
    /// endpoints.
    pub open spec fn colex_lt(self, other: Self) -> bool {
        self.grade.colex_lt(other.grade) || (self.grade == other.grade && self.edge.lt(
            other.edge,
        ))
    }

    /// Whether this edge is valid in a graph on `n` vertices: not a
    /// self-loop, and both endpoints below `n`.
    pub open spec fn valid(self, n: usize) -> bool {
        self.edge.0 != self.edge.1 && self.edge.0 < n && self.edge.1 < n
    }

    fn lex_lt_exec(&self, other: &Self) -> (r: bool)
        ensures
            r == self.lex_lt(*other),
    {
        if self.grade.0 != other.grade.0 {
            self.grade.0 < other.grade.0
        } else if self.grade.1 != other.grade.1 {
            self.grade.1 < other.grade.1
        } else {
            let (a_min, a_max) = self.edge.minmax();
            let (b_min, b_max) = other.edge.minmax();
            a_min < b_min || (a_min == b_min && a_max < b_max)
        }
    }

    fn colex_lt_exec(&self, other: &Self) -> (r: bool)
        ensures
            r == self.colex_lt(*other),
    {
        if self.grade.1 != other.grade.1 {
            self.grade.1 < other.grade.1
        } else if self.grade.0 != other.grade.0 {
            self.grade.0 < other.grade.0
        } else {
            let (a_min, a_max) = self.edge.minmax();
            let (b_min, b_max) = other.edge.minmax();
            a_min < b_min || (a_min == b_min && a_max < b_max)
        }
    }
}

/// The four total preorders in which an edge list can be sorted.
#[derive(Debug, Clone, Copy)]
pub enum SortKind {
    Lex,
    RevLex,
    Colex,
    RevColex,
}

/// The strict part of the sort order named by `kind`.
pub open spec fn edge_lt(kind: SortKind, a: FilteredEdge, b: FilteredEdge) -> bool {
    match kind {
        SortKind::Lex => a.lex_lt(b),
        SortKind::RevLex => b.lex_lt(a),
        SortKind::Colex => a.colex_lt(b),
        SortKind::RevColex => b.colex_lt(a),
    }
}

/// The (non-strict) sort order named by `kind`: `a` may stand before `b`.
pub open spec fn edge_le(kind: SortKind, a: FilteredEdge, b: FilteredEdge) -> bool {
    !edge_lt(kind, b, a)
}

/// Whether `s` is sorted in the order named by `kind`.
pub open spec fn sorted_edges(kind: SortKind, s: Seq<FilteredEdge>) -> bool {
    forall|i: int, j: int| 0 <= i < j < s.len() ==> edge_le(kind, s[i], s[j])
}

fn edge_lt_exec(kind: SortKind, a: &FilteredEdge, b: &FilteredEdge) -> (r: bool)
    ensures
        r == edge_lt(kind, *a, *b),
{
    match kind {
        SortKind::Lex => a.lex_lt_exec(b),
        SortKind::RevLex => b.lex_lt_exec(a),
        SortKind::Colex => a.colex_lt_exec(b),
        SortKind::RevColex => b.colex_lt_exec(a),
    }
}

/// Inserting an element anywhere in a sequence inserts it in the multiset of
/// the sequence's elements.
pub proof fn lemma_insert_to_multiset<A>(s: Seq<A>, i: int, x: A)
    requires
        0 <= i <= s.len(),
    ensures
        s.insert(i, x).to_multiset() =~= s.to_multiset().insert(x),
{
    let l = s.subrange(0, i);
    let r = s.subrange(i, s.len() as int);
    assert(s =~= l + r);
    assert(s.insert(i, x) =~= l + seq![x] + r);
    lemma_multiset_commutative(l, r);
    lemma_multiset_commutative(l + seq![x], r);
    lemma_multiset_commutative(l, seq![x]);
    assert(seq![x] =~= Seq::<A>::empty().push(x));
    Seq::<A>::empty().to_multiset_ensures();
    assert(seq![x].to_multiset() =~= Multiset::<A>::empty().insert(x));
}

/// Insertion sort of an edge vector in the order named by `kind`.
fn sort_edge_vec(input: &Vec<FilteredEdge>, kind: SortKind) -> (r: Vec<FilteredEdge>)
    ensures
        sorted_edges(kind, r@),
        r@.to_multiset() == input@.to_multiset(),
{
    let mut r: Vec<FilteredEdge> = Vec::new();
    proof {
        input@.to_multiset_ensures();
        r@.to_multiset_ensures();
        assert(input@.subrange(0, 0) =~= Seq::<FilteredEdge>::empty());
        assert(r@.to_multiset() =~= input@.subrange(0, 0).to_multiset());
    }
    let n = input.len();
    for i in 0..n
        invariant
            n == input@.len(),
            sorted_edges(kind, r@),
            r@.to_multiset() == input@.subrange(0, i as int).to_multiset(),
    {
        let e = input[i];
        let mut pos: usize = 0;
        while pos < r.len() && !edge_lt_exec(kind, &e, &r[pos])
            invariant
                0 <= pos <= r@.len(),
                forall|k: int| 0 <= k < pos ==> !edge_lt(kind, e, r@[k]),
            decreases r@.len() - pos,
        {
            pos = pos + 1;
        }
        let ghost old_r = r@;
        r.insert(pos, e);
        proof {
            lemma_insert_to_multiset(old_r, pos as int, e);
            assert(input@.subrange(0, i + 1) =~= input@.subrange(0, i as int).push(e));
            input@.subrange(0, i as int).to_multiset_ensures();
            assert(input@.subrange(0, i + 1).to_multiset() =~= input@.subrange(
                0,
                i as int,
            ).to_multiset().insert(e));
            assert forall|a: int, b: int| 0 <= a < b < r@.len() implies edge_le(
                kind,
                r@[a],
                r@[b],
            ) by {
                if b < pos {
                    assert(edge_le(kind, old_r[a], old_r[b]));
                } else if a > pos {
                    assert(edge_le(kind, old_r[a - 1], old_r[b - 1]));
                } else if a < pos && b == pos {
                    assert(!edge_lt(kind, e, old_r[a]));
                } else if a == pos && b > pos {
                    if pos < old_r.len() {
                        assert(edge_lt(kind, e, old_r[pos as int]));
                        assert(edge_le(kind, old_r[pos as int], old_r[b - 1]));
                    }
                } else if a < pos && b > pos {
                    assert(edge_le(kind, old_r[a], old_r[b - 1]));
                }
            }
        }
    }
    proof {
        assert(input@.subrange(0, n as int) =~= input@);
    }
    r
}


/// Whether no two distinct edges of `s` compare equal in the order named by
/// `kind`: ties can only come from one edge written twice.
pub open spec fn tie_free(kind: SortKind, s: Seq<FilteredEdge>) -> bool {
    forall|i: int, j: int|
        0 <= i < s.len() && 0 <= j < s.len() && edge_le(kind, #[trigger] s[i], #[trigger] s[j])
            && edge_le(kind, s[j], s[i]) ==> s[i] == s[j]
}

/// Two edge sequences sorted in the same order and holding the same
/// multiset of edges are equal, provided no two distinct edges of theirs
/// compare equal. Together with the removal drivers' contracts, which pin
/// their result to a function of the sorted sequence, this says that a
/// reverse-lexicographic reduction depends only on the multiset of input
/// edges, not on their initial order.
pub proof fn lemma_sorted_edges_unique(kind: SortKind, x: Seq<FilteredEdge>, y: Seq<FilteredEdge>)
    requires
        sorted_edges(kind, x),
        sorted_edges(kind, y),
        tie_free(kind, x),
        x.to_multiset() == y.to_multiset(),
    ensures
        x == y,
    decreases x.len(),
{
    x.to_multiset_ensures();
    y.to_multiset_ensures();
    if x.len() == 0 {
        assert(y.len() == 0);
        assert(x =~= y);
    } else {
        assert(x.to_multiset().count(x[0]) > 0);
        assert(y.contains(x[0]));
        assert(y.to_multiset().count(y[0]) > 0);
        assert(x.contains(y[0]));
        let i = choose|i: int| 0 <= i < x.len() && x[i] == y[0];
        let j = choose|j: int| 0 <= j < y.len() && y[j] == x[0];
        assert(edge_le(kind, x[0], x[i]) || i == 0);
        assert(edge_le(kind, y[0], y[j]) || j == 0);
        assert(x[0] == y[0]) by {
            if i != 0 && j != 0 {
                assert(edge_le(kind, x[0], y[0]));
                assert(edge_le(kind, y[0], x[0]));
            }
        }
        let xr = x.drop_first();
        let yr = y.drop_first();
        assert(xr.to_multiset() =~= x.to_multiset().remove(x[0])) by {
            assert(xr =~= x.remove(0));
        }
        assert(yr.to_multiset() =~= y.to_multiset().remove(y[0])) by {
            assert(yr =~= y.remove(0));
        }
        assert(sorted_edges(kind, xr)) by {
            assert forall|a: int, b: int| 0 <= a < b < xr.len() implies edge_le(
                kind,
                xr[a],
                xr[b],
            ) by {
                assert(edge_le(kind, x[a + 1], x[b + 1]));
            }
        }
        assert(sorted_edges(kind, yr)) by {
            assert forall|a: int, b: int| 0 <= a < b < yr.len() implies edge_le(
                kind,
                yr[a],
                yr[b],
            ) by {
                assert(edge_le(kind, y[a + 1], y[b + 1]));
            }
        }
        assert(tie_free(kind, xr)) by {
            assert forall|a: int, b: int|
                0 <= a < xr.len() && 0 <= b < xr.len() && edge_le(kind, #[trigger] xr[a], #[trigger] xr[b])
                    && edge_le(kind, xr[b], xr[a]) implies xr[a] == xr[b] by {
                assert(x[a + 1] == xr[a] && x[b + 1] == xr[b]);
            }
        }
        lemma_sorted_edges_unique(kind, xr, yr);
        assert(x =~= seq![x[0]] + xr);
        assert(y =~= seq![y[0]] + yr);
        assert(x =~= y);
    }
}

/// A graph represented as a list of edges, whose vertices are in the range
/// `0..n_vertices`. No self-loops are allowed.
#[derive(Debug)]
pub struct EdgeList {
    /// Total number of vertices.
    pub n_vertices: usize,
    /// The edges of the graph.
    pub edges: Vec<FilteredEdge>,
}

impl View for EdgeList {
    type V = Seq<FilteredEdge>;

    open spec fn view(&self) -> Seq<FilteredEdge> {
        self.edges@
    }
}

impl Clone for EdgeList {
    fn clone(&self) -> (r: Self)
        ensures
            r@ == self@,
            r.n_vertices == self.n_vertices,
    {
        let mut edges: Vec<FilteredEdge> = Vec::new();
        let n = self.edges.len();
        for i in 0..n
            invariant
                n == self.edges@.len(),
                edges@ == self.edges@.subrange(0, i as int),
        {
            edges.push(self.edges[i]);
            proof {
                assert(edges@ =~= self.edges@.subrange(0, i + 1));
            }
        }
        proof {
            assert(self.edges@.subrange(0, n as int) =~= self.edges@);
        }
        EdgeList { n_vertices: self.n_vertices, edges }
    }
}

/// The number of endpoints equal to `u` over the edges of `s`: the degree of
/// the vertex `u` in the graph listed by `s`.
pub open spec fn degree_in(s: Seq<FilteredEdge>, u: usize) -> nat
    decreases s.len(),
{
    if s.len() == 0 {
        0
    } else {
        degree_in(s.drop_last(), u) + (if s.last().edge.0 == u {
            1nat
        } else {
            0nat
        }) + (if s.last().edge.1 == u {
            1nat
        } else {
            0nat
        })
    }
}

proof fn lemma_degree_in_bound(s: Seq<FilteredEdge>, u: usize)
    ensures
        degree_in(s, u) <= 2 * s.len(),
    decreases s.len(),
{
    if s.len() > 0 {
        lemma_degree_in_bound(s.drop_last(), u);
    }
}

impl EdgeList {
    /// Whether every listed edge is valid for the stated number of vertices.
    pub open spec fn wf(self) -> bool {
        forall|i: int| 0 <= i < self@.len() ==> (#[trigger] self@[i]).valid(self.n_vertices)
    }

    /// New empty edge list.
    pub fn new(n_vertices: usize) -> (r: Self)
        ensures
            r@ == Seq::<FilteredEdge>::empty(),
            r.n_vertices == n_vertices,
            r.wf(),
    {
        Self { n_vertices, edges: Vec::new() }
    }

    /// Returns the underlying edges.
    pub fn edges(&self) -> (r: &Vec<FilteredEdge>)
        ensures
            r@ == self@,
    {
        &self.edges
    }


    /// Returns a mutable reference to the underlying edges.
    pub fn edges_mut(&mut self) -> (r: &mut Vec<FilteredEdge>)
        ensures
            *r == old(self).edges,
            final(self).edges == *final(r),
            final(self).n_vertices == old(self).n_vertices,
    {
        &mut self.edges
    }

    /// Returns the number of edges.
    pub fn len(&self) -> (r: usize)
        ensures
            r == self@.len(),
    {
        self.edges.len()
    }

    /// Returns whether there are no edges.
    pub fn is_empty(&self) -> (r: bool)
        ensures
            r == (self@.len() == 0),
    {
        self.edges.len() == 0
    }

    /// The greatest endpoint of the listed edges, plus one; zero when there
    /// are no edges.
    pub open spec fn spec_count_vertices(s: Seq<FilteredEdge>) -> nat
        decreases s.len(),
    {
        if s.len() == 0 {
            0
        } else {
            let rest = Self::spec_count_vertices(s.drop_last());
            let m = s.last().edge.spec_max() + 1;
            if rest >= m {
                rest
            } else {
                m as nat
            }
        }
    }

    fn count_vertices(edges: &Vec<FilteredEdge>) -> (r: usize)
        requires
            forall|i: int| 0 <= i < edges@.len() ==> (#[trigger] edges@[i]).edge.spec_max()
                < usize::MAX,
        ensures
            r == Self::spec_count_vertices(edges@),
    {
        let mut n_vertices: usize = 0;
        let len = edges.len();
        for i in 0..len
            invariant
                len == edges@.len(),
                forall|k: int| 0 <= k < edges@.len() ==> (#[trigger] edges@[k]).edge.spec_max()
                    < usize::MAX,
                n_vertices == Self::spec_count_vertices(edges@.subrange(0, i as int)),
        {
            let m = edges[i].edge.max();
            if m + 1 > n_vertices {
                n_vertices = m + 1;
            }
            proof {
                assert(edges@.subrange(0, i + 1).drop_last() =~= edges@.subrange(0, i as int));
            }
        }
        proof {
            assert(edges@.subrange(0, len as int) =~= edges@);
        }
        n_vertices
    }

    /// Collects all the edges from the given vector, deducing the number of
    /// vertices from the greatest endpoint.
    pub fn from_iterator(edges: Vec<FilteredEdge>) -> (r: Self)
        requires
            forall|i: int| 0 <= i < edges@.len() ==> (#[trigger] edges@[i]).edge.0
                != edges@[i].edge.1,
            forall|i: int| 0 <= i < edges@.len() ==> (#[trigger] edges@[i]).edge.spec_max()
                < usize::MAX,
        ensures
            r@ == edges@,
            r.n_vertices == Self::spec_count_vertices(edges@),
            r.wf(),
    {
        let n_vertices = Self::count_vertices(&edges);
        proof {
            assert forall|i: int| 0 <= i < edges@.len() implies (#[trigger] edges@[i]).valid(
                Self::spec_count_vertices(edges@) as usize,
            ) by {
                Self::lemma_count_vertices_covers(edges@, i);
            }
        }
        Self { n_vertices, edges }
    }

    proof fn lemma_count_vertices_covers(s: Seq<FilteredEdge>, i: int)
        requires
            0 <= i < s.len(),
        ensures
            s[i].edge.0 < Self::spec_count_vertices(s),
            s[i].edge.1 < Self::spec_count_vertices(s),
            Self::spec_count_vertices(s) <= usize::MAX || s[i].edge.spec_max() + 1
                <= Self::spec_count_vertices(s),
        decreases s.len(),
    {
        if i == s.len() - 1 {
        } else {
            Self::lemma_count_vertices_covers(s.drop_last(), i);
        }
    }

    /// Returns the number of vertices.
    pub fn number_of_vertices(&self) -> (r: usize)
        ensures
            r == self.n_vertices,
    {
        self.n_vertices
    }

    /// Adds an edge to the graph, widening the number of vertices if needed.
    /// The edge must not be a self-loop.
    pub fn add_edge(&mut self, e: FilteredEdge)
        requires
            e.edge.0 != e.edge.1,
            e.edge.spec_max() < usize::MAX,
        ensures
            final(self)@ == old(self)@.push(e),
            final(self).n_vertices == if old(self).n_vertices >= e.edge.spec_max() + 1 {
                old(self).n_vertices as int
            } else {
                e.edge.spec_max() + 1
            },
            old(self).wf() ==> final(self).wf(),
    {
        let greatest_vertex = e.edge.max();
        if greatest_vertex + 1 > self.n_vertices {
            self.n_vertices = greatest_vertex + 1;
        }
        self.edges.push(e);
        proof {
            if old(self).wf() {
                assert forall|i: int| 0 <= i < self@.len() implies (#[trigger] self@[i]).valid(
                    self.n_vertices,
                ) by {
                    if i < old(self)@.len() {
                        assert(old(self)@[i].valid(old(self).n_vertices));
                    } else {
                        assert(self@[i] == e);
                    }
                }
            }
        }
    }

    /// Returns a count of the degree of each vertex.
    pub fn degrees(&self) -> (r: Vec<usize>)
        requires
            self.wf(),
            self@.len() * 2 <= usize::MAX,
        ensures
            r@.len() == self.n_vertices,
            forall|u: int| 0 <= u < self.n_vertices ==> r@[u] == degree_in(
                self@,
                u as usize,
            ),
    {
        let n = self.n_vertices;
        let mut degree_count: Vec<usize> = Vec::new();
        let mut v: usize = 0;
        while v < n
            invariant
                degree_count@.len() == v <= n,
                forall|u: int| 0 <= u < v ==> degree_count@[u] == 0,
            decreases n - v,
        {
            degree_count.push(0);
            v = v + 1;
        }
        let len = self.edges.len();
        proof {
            assert forall|u: int| 0 <= u < n implies degree_count@[u] == degree_in(
                self@.subrange(0, 0),
                u as usize,
            ) by {
                assert(self@.subrange(0, 0) =~= Seq::<FilteredEdge>::empty());
            }
        }
        for i in 0..len
            invariant
                len == self@.len(),
                self@.len() * 2 <= usize::MAX,
                n == self.n_vertices,
                self.wf(),
                degree_count@.len() == n,
                forall|u: int| 0 <= u < n ==> degree_count@[u] == degree_in(
                    self@.subrange(0, i as int),
                    u as usize,
                ),
        {
            let e = self.edges[i];
            assert(self@[i as int].valid(self.n_vertices));
            proof {
                assert forall|u: int| 0 <= u < n implies #[trigger] degree_in(
                    self@.subrange(0, i as int),
                    u as usize,
                ) <= 2 * i by {
                    lemma_degree_in_bound(self@.subrange(0, i as int), u as usize);
                }
            }
            let du = degree_count[e.edge.0];
            degree_count.set(e.edge.0, du + 1);
            let dv = degree_count[e.edge.1];
            degree_count.set(e.edge.1, dv + 1);
            proof {
                assert(self@.subrange(0, i + 1).drop_last() =~= self@.subrange(0, i as int));
                assert(self@.subrange(0, i + 1).last() == self@[i as int]);
            }
        }
        proof {
            assert(self@.subrange(0, len as int) =~= self@);
        }
        degree_count
    }

    /// Returns the maximum degree of a vertex in the edge list, and zero when
    /// there are no vertices.
    pub fn maximum_degree(&self) -> (r: usize)
        requires
            self.wf(),
            self@.len() * 2 <= usize::MAX,
        ensures
            self.n_vertices == 0 ==> r == 0,
            forall|u: int| 0 <= u < self.n_vertices ==> #[trigger] degree_in(self@, u as usize) <= r,
            self.n_vertices > 0 ==> exists|u: int| 0 <= u < self.n_vertices && #[trigger] degree_in(
                self@,
                u as usize,
            ) == r,
    {
        let degrees = self.degrees();
        let mut best: usize = 0;
        let n = degrees.len();
        for u in 0..n
            invariant
                n == degrees@.len(),
                n == self.n_vertices,
                forall|k: int| 0 <= k < self.n_vertices ==> degrees@[k] == degree_in(
                    self@,
                    k as usize,
                ),
                u == 0 ==> best == 0,
                forall|k: int| 0 <= k < u ==> degrees@[k] <= best,
                u > 0 ==> exists|k: int| 0 <= k < u && degrees@[k] == best,
        {
            if degrees[u] > best || u == 0 {
                best = degrees[u];
            }
        }
        proof {
            assert forall|k: int| 0 <= k < self.n_vertices implies #[trigger] degree_in(
                self@,
                k as usize,
            ) <= best by {
                assert(degrees@[k] <= best);
            }
        }
        best
    }

    /// Sort the filtered edges lexicographically in increasing order.
    pub fn sort_lexicographically(&mut self)
        ensures
            sorted_edges(SortKind::Lex, final(self)@),
            final(self)@.to_multiset() == old(self)@.to_multiset(),
            final(self).n_vertices == old(self).n_vertices,
            old(self).wf() ==> final(self).wf(),
    {
        let sorted = sort_edge_vec(&self.edges, SortKind::Lex);
        self.edges = sorted;
        proof {
            self.lemma_same_multiset_keeps_wf(*old(self));
        }
    }

    /// Reverse sort the filtered edges lexicographically.
    pub fn sort_reverse_lexicographically(&mut self)
        ensures
            sorted_edges(SortKind::RevLex, final(self)@),
            final(self)@.to_multiset() == old(self)@.to_multiset(),
            final(self).n_vertices == old(self).n_vertices,
            old(self).wf() ==> final(self).wf(),
    {
        let sorted = sort_edge_vec(&self.edges, SortKind::RevLex);
        self.edges = sorted;
        proof {
            self.lemma_same_multiset_keeps_wf(*old(self));
        }
    }

    /// Sort the filtered edges colexicographically in increasing order.
    pub fn sort_colexicographically(&mut self)
        ensures
            sorted_edges(SortKind::Colex, final(self)@),
            final(self)@.to_multiset() == old(self)@.to_multiset(),
            final(self).n_vertices == old(self).n_vertices,
            old(self).wf() ==> final(self).wf(),
    {
        let sorted = sort_edge_vec(&self.edges, SortKind::Colex);
        self.edges = sorted;
        proof {
            self.lemma_same_multiset_keeps_wf(*old(self));
        }
    }

    /// Reverse sort the filtered edges colexicographically.
    pub fn sort_reverse_colexicographically(&mut self)
        ensures
            sorted_edges(SortKind::RevColex, final(self)@),
            final(self)@.to_multiset() == old(self)@.to_multiset(),
            final(self).n_vertices == old(self).n_vertices,
            old(self).wf() ==> final(self).wf(),
    {
        let sorted = sort_edge_vec(&self.edges, SortKind::RevColex);
        self.edges = sorted;
        proof {
            self.lemma_same_multiset_keeps_wf(*old(self));
        }
    }

    /// Put a random order on the edges. The multiset of edges is unchanged;
    /// nothing is promised of the order that comes out.
    pub fn shuffle(&mut self)
        ensures
            final(self)@.to_multiset() == old(self)@.to_multiset(),
            final(self).n_vertices == old(self).n_vertices,
            old(self).wf() ==> final(self).wf(),
    {
        shuffle_edge_vec(&mut self.edges);
        proof {
            self.lemma_same_multiset_keeps_wf(*old(self));
        }
    }

    /// A list with the same edge multiset and the same vertex count as a
    /// well-formed list is well-formed.
    proof fn lemma_same_multiset_keeps_wf(self, other: EdgeList)
        requires
            self@.to_multiset() == other@.to_multiset(),
            self.n_vertices == other.n_vertices,
        ensures
            other.wf() ==> self.wf(),
    {
        self@.to_multiset_ensures();
        other@.to_multiset_ensures();
        if other.wf() {
            assert forall|i: int| 0 <= i < self@.len() implies (#[trigger] self@[i]).valid(
                self.n_vertices,
            ) by {
                assert(self@.contains(self@[i]));
                assert(self@.to_multiset().count(self@[i]) > 0);
                assert(other@.contains(self@[i]));
                let j = choose|j: int| 0 <= j < other@.len() && other@[j] == self@[i];
                assert(other@[j].valid(other.n_vertices));
            }
        }
    }
}


/// Sets the first grade coordinate of every edge to zero: forgets the
/// density component of a density-filtered edge list.
pub fn forget_densities(edge_list: &mut EdgeList)
    ensures
        final(edge_list).n_vertices == old(edge_list).n_vertices,
        final(edge_list)@.len() == old(edge_list)@.len(),
        forall|i: int|
            0 <= i < old(edge_list)@.len() ==> #[trigger] final(edge_list)@[i] == (FilteredEdge {
                grade: OneCriticalGrade(0, old(edge_list)@[i].grade.1),
                edge: old(edge_list)@[i].edge,
            }),
        old(edge_list).wf() ==> final(edge_list).wf(),
{
    let n = edge_list.edges.len();
    for i in 0..n
        invariant
            n == edge_list.edges@.len(),
            edge_list.n_vertices == old(edge_list).n_vertices,
            forall|k: int|
                0 <= k < i ==> #[trigger] edge_list.edges@[k] == (FilteredEdge {
                    grade: OneCriticalGrade(0, old(edge_list)@[k].grade.1),
                    edge: old(edge_list)@[k].edge,
                }),
            forall|k: int| i <= k < n ==> #[trigger] edge_list.edges@[k] == old(edge_list)@[k],
    {
        let e = edge_list.edges[i];
        edge_list.edges.set(
            i,
            FilteredEdge { grade: OneCriticalGrade(0, e.grade.1), edge: e.edge },
        );
    }
    proof {
        if old(edge_list).wf() {
            assert forall|i: int| 0 <= i < edge_list@.len() implies (
            #[trigger] edge_list@[i]).valid(edge_list.n_vertices) by {
                assert(old(edge_list)@[i].valid(old(edge_list).n_vertices));
            }
        }
    }
}

/// Sets both grade coordinates of every edge to zero.
pub fn zero_grades(edge_list: &mut EdgeList)
    ensures
        final(edge_list).n_vertices == old(edge_list).n_vertices,
        final(edge_list)@.len() == old(edge_list)@.len(),
        forall|i: int|
            0 <= i < old(edge_list)@.len() ==> #[trigger] final(edge_list)@[i] == (FilteredEdge {
                grade: OneCriticalGrade(0, 0),
                edge: old(edge_list)@[i].edge,
            }),
        old(edge_list).wf() ==> final(edge_list).wf(),
{
    let n = edge_list.edges.len();
    for i in 0..n
        invariant
            n == edge_list.edges@.len(),
            edge_list.n_vertices == old(edge_list).n_vertices,
            forall|k: int|
                0 <= k < i ==> #[trigger] edge_list.edges@[k] == (FilteredEdge {
                    grade: OneCriticalGrade(0, 0),
                    edge: old(edge_list)@[k].edge,
                }),
            forall|k: int| i <= k < n ==> #[trigger] edge_list.edges@[k] == old(edge_list)@[k],
    {
        let e = edge_list.edges[i];
        edge_list.edges.set(i, FilteredEdge { grade: OneCriticalGrade(0, 0), edge: e.edge });
    }
    proof {
        if old(edge_list).wf() {
            assert forall|i: int| 0 <= i < edge_list@.len() implies (
            #[trigger] edge_list@[i]).valid(edge_list.n_vertices) by {
                assert(old(edge_list)@[i].valid(old(edge_list).n_vertices));
            }
        }
    }
}


/// The text line of one edge: its endpoints and its two grade coordinates,
/// separated by spaces.
pub open spec fn edge_line_bytes(e: FilteredEdge) -> Seq<u8> {
    dec_rep(e.edge.0 as nat) + seq![32u8] + dec_rep(e.edge.1 as nat) + seq![32u8] + dec_rep(
        e.grade.0 as nat,
    ) + seq![32u8] + dec_rep(e.grade.1 as nat) + seq![10u8]
}

/// The text lines of the first `i` edges of `s`.
pub open spec fn edge_lines_bytes(s: Seq<FilteredEdge>, i: int) -> Seq<u8>
    decreases i,
{
    if i <= 0 {
        Seq::empty()
    } else {
        edge_lines_bytes(s, i - 1) + edge_line_bytes(s[i - 1])
    }
}

/// The edge-list text document: a count line when asked for, then one line
/// per edge.
pub open spec fn edge_list_bytes(s: Seq<FilteredEdge>, with_count: bool) -> Seq<u8> {
    (if with_count {
        dec_rep(s.len()) + seq![10u8]
    } else {
        Seq::<u8>::empty()
    }) + edge_lines_bytes(s, s.len() as int)
}

/// Writes an edge list in its text form: when `with_count` is set, a first
/// line with the number of edges, then a line `u v g0 g1` for each edge.
#[verifier::loop_isolation(false)]
#[verifier::rlimit(60)]
#[verifier::spinoff_prover]
pub fn write_edge_list(edge_list: &EdgeList, with_count: bool) -> (r: Vec<u8>)
    ensures
        r@ == edge_list_bytes(edge_list@, with_count),
{
    let mut w: Vec<u8> = Vec::new();
    if with_count {
        push_u64_decimal(&mut w, edge_list.len() as u64);
        w.push(10);
    }
    let ghost head = w@;
    proof {
        assert(w@ =~= head + edge_lines_bytes(edge_list@, 0));
    }
    let m = edge_list.len();
    for i in 0..m
        invariant
            w@ == head + edge_lines_bytes(edge_list@, i as int),
    {
        let e = edge_list.edges[i];
        push_u64_decimal(&mut w, e.edge.0 as u64);
        w.push(32);
        push_u64_decimal(&mut w, e.edge.1 as u64);
        w.push(32);
        push_u64_decimal(&mut w, e.grade.0);
        w.push(32);
        push_u64_decimal(&mut w, e.grade.1);
        w.push(10);
        proof {
            assert(w@ =~= head + edge_lines_bytes(edge_list@, i + 1));
        }
    }
    proof {
        assert(w@ =~= edge_list_bytes(edge_list@, with_count));
    }
    w
}


/// Why a text edge list could not be read.
#[derive(Debug, Clone, Copy, PartialEq, Eq, Structural)]
pub enum EdgeReadError {
    /// A value could not be read.
    Parse(ParseError),
    /// The number of values fits neither an edge list with a count line nor
    /// one without.
    WrongShape,
    /// An edge is a self-loop, or an endpoint does not fit a vertex index.
    InvalidEdge,
}

/// Whether the four values at `i` make a valid edge: two distinct
/// endpoints that fit a vertex index, and a grade.
pub open spec fn quad_ok(vals: Seq<u64>, i: int) -> bool {
    vals[i] != vals[i + 1] && vals[i] < usize::MAX as u64 && vals[i + 1] < usize::MAX as u64
}

/// The edge made of the four values at `i`: the two endpoints, then the two
/// grade coordinates.
pub open spec fn quad_edge(vals: Seq<u64>, i: int) -> FilteredEdge {
    FilteredEdge {
        grade: OneCriticalGrade(vals[i + 2], vals[i + 3]),
        edge: BareEdge(vals[i] as usize, vals[i + 1] as usize),
    }
}

/// The edges read out of the values from position `i` on, four values at a
/// time, or the first invalid edge met.
pub open spec fn decode_edges(vals: Seq<u64>, i: int) -> Result<Seq<FilteredEdge>, EdgeReadError>
    decreases vals.len() - i,
{
    if i < 0 || i + 4 > vals.len() {
        Ok(Seq::empty())
    } else if !quad_ok(vals, i) {
        Err(EdgeReadError::InvalidEdge)
    } else {
        match decode_edges(vals, i + 4) {
            Err(e) => Err(e),
            Ok(rest) => Ok(seq![quad_edge(vals, i)] + rest),
        }
    }
}

/// The edges read out of a whole value list: four values per edge, with the
/// count line, when its value fits the number of value quadruples after it,
/// read off first.
pub open spec fn decoded_edges(vals: Seq<u64>) -> Result<Seq<FilteredEdge>, EdgeReadError> {
    if vals.len() % 4 == 0 {
        decode_edges(vals, 0)
    } else if vals.len() % 4 == 1 && vals[0] == ((vals.len() - 1) / 4) as u64 {
        decode_edges(vals.skip(1), 0)
    } else {
        Err(EdgeReadError::WrongShape)
    }
}

/// Reads an edge list from its text form: whitespace-separated decimal
/// values, four per edge, with or without a leading line holding the number
/// of edges.
#[verifier::loop_isolation(false)]
#[verifier::rlimit(60)]
#[verifier::spinoff_prover]
pub fn read_edge_list(bytes: &Vec<u8>) -> (r: Result<EdgeList, EdgeReadError>)
    ensures
        match read_values(bytes@, 0) {
            Err(e) => r == Result::<EdgeList, EdgeReadError>::Err(EdgeReadError::Parse(e)),
            Ok(vals) => match decoded_edges(vals) {
                Err(e2) => r == Result::<EdgeList, EdgeReadError>::Err(e2),
                Ok(es) => r is Ok && r.unwrap()@ == es && r.unwrap().wf() && r.unwrap().n_vertices
                    == EdgeList::spec_count_vertices(es),
            },
        },
{
    let values = match crate::io_utils::read_u64_values(bytes) {
        Err(e) => {
            return Err(EdgeReadError::Parse(e));
        },
        Ok(v) => v,
    };
    let len = values.len();
    let rem = len % 4;
    let offset: usize = if rem == 0 {
        0
    } else if rem == 1 && values[0] == ((len - 1) / 4) as u64 {
        1
    } else {
        return Err(EdgeReadError::WrongShape);
    };
    let ghost body = values@.skip(offset as int);
    let nq = (len - offset) / 4;
    let mut edges: Vec<FilteredEdge> = Vec::new();
    proof {
        assert(4 * nq == len - offset);
        assert(body.len() == len - offset);
    }
    for i in 0..nq
        invariant
            edges@.len() == i,
            forall|t: int|
                0 <= t < edges@.len() ==> (#[trigger] edges@[t]).edge.0 != edges@[t].edge.1
                    && edges@[t].edge.0 < usize::MAX && edges@[t].edge.1 < usize::MAX,
            ({
                match decode_edges(body, 4 * i as int) {
                    Ok(rest) => decode_edges(body, 0) == Result::<
                        Seq<FilteredEdge>,
                        EdgeReadError,
                    >::Ok(edges@ + rest),
                    Err(e) => decode_edges(body, 0) == Result::<
                        Seq<FilteredEdge>,
                        EdgeReadError,
                    >::Err(e),
                }
            }),
    {
        let base = offset + 4 * i;
        proof {
            assert(4 * i + 4 <= 4 * nq);
            assert(body[4 * i as int] == values@[base as int]);
            assert(body[4 * i + 1] == values@[base + 1]);
            assert(body[4 * i + 2] == values@[base + 2]);
            assert(body[4 * i + 3] == values@[base + 3]);
        }
        let u = values[base];
        let v = values[base + 1];
        let g0 = values[base + 2];
        let g1 = values[base + 3];
        if u == v || u >= usize::MAX as u64 || v >= usize::MAX as u64 {
            proof {
                assert(!quad_ok(body, 4 * i as int));
                assert(4 * i + 4 <= 4 * nq);
                assert(decode_edges(body, 4 * i as int) == Result::<
                    Seq<FilteredEdge>,
                    EdgeReadError,
                >::Err(EdgeReadError::InvalidEdge));
                if offset == 0 {
                    assert(body =~= values@);
                }
                assert(decoded_edges(values@) == Result::<Seq<FilteredEdge>, EdgeReadError>::Err(
                    EdgeReadError::InvalidEdge,
                ));
            }
            return Err(EdgeReadError::InvalidEdge);
        }
        let ghost edges_old = edges@;
        edges.push(
            FilteredEdge { grade: OneCriticalGrade(g0, g1), edge: BareEdge(u as usize, v as usize) },
        );
        proof {
            assert(quad_ok(body, 4 * i as int));
            assert(edges@[edges@.len() - 1] == quad_edge(body, 4 * i as int));
            match decode_edges(body, 4 * i + 4) {
                Ok(rest2) => {
                    assert(decode_edges(body, 4 * i as int) == Result::<
                        Seq<FilteredEdge>,
                        EdgeReadError,
                    >::Ok(seq![quad_edge(body, 4 * i as int)] + rest2));
                    assert(edges_old + (seq![quad_edge(body, 4 * i as int)] + rest2) =~= edges@
                        + rest2);
                },
                Err(e2) => {},
            }
        }
    }
    proof {
        assert(decode_edges(body, 4 * nq as int) == Result::<Seq<FilteredEdge>, EdgeReadError>::Ok(
            Seq::empty(),
        ));
        assert(edges@ + Seq::<FilteredEdge>::empty() =~= edges@);
        assert(decoded_edges(values@) == Result::<Seq<FilteredEdge>, EdgeReadError>::Ok(edges@))
            by {
            if offset == 0 {
                assert(body =~= values@);
            }
        }
        assert forall|t: int| 0 <= t < edges@.len() implies (#[trigger] edges@[t]).edge.spec_max()
            < usize::MAX by {}
    }
    let el = EdgeList::from_iterator(edges);
    Ok(el)
}

/// Relies on rand's `SliceRandom::shuffle`: it permutes the slice in place,
/// so the multiset of elements is unchanged.
#[verifier::external_body]
fn shuffle_edge_vec(edges: &mut Vec<FilteredEdge>)
    ensures
        final(edges)@.to_multiset() == old(edges)@.to_multiset(),
{
    rand::seq::SliceRandom::shuffle(edges.as_mut_slice(), &mut rand::rng())
}

} // verus!
