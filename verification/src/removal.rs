//! Algorithms to remove edges from a bifiltered graph while maintaining the
//! topological properties of its clique complex.
//!
//! The two main functions are:
//! - [`remove_filtration_dominated`], which removes filtration-dominated
//!   edges, and
//! - [`remove_strongly_filtration_dominated`], which removes strongly
//!   filtration-dominated edges.

use vstd::prelude::*;

pub mod adjacency;
pub mod full;
pub mod naive;
pub mod strong;
pub mod utils;

pub use full::{remove_filtration_dominated, remove_filtration_dominated_timed};
pub use strong::{
    remove_strongly_filtration_dominated, remove_strongly_filtration_dominated_timed,
};

verus! {

/// The order in which we process the edges, and possibly remove them.
#[derive(Debug, Clone, Copy)]
pub enum EdgeOrder {
    /// Go through the edges in reverse lexicographic order.
    /// This is usually the fastest.
    ReverseLexicographic,
    /// Go through the edges in the order they currently have in the edge
    /// list.
    Maintain,
}

#[verifier::external_type_specification]
#[verifier::external_body]
pub struct ExInstant(std::time::Instant);

/// Relies on std's `Instant::now` for a reading of a monotonic clock.
#[verifier::external_body]
pub(crate) fn clock_now() -> std::time::Instant {
    std::time::Instant::now()
}

/// Relies on std's `Instant::elapsed`. The time elapsed since `start`, in
/// nanoseconds, saturated at `u64::MAX`; nothing is promised of the value
/// that comes back.
#[verifier::external_body]
pub(crate) fn elapsed_nanos(start: &std::time::Instant) -> u64 {
    u64::try_from(start.elapsed().as_nanos()).unwrap_or(u64::MAX)
}


/// A named sort order on an edge list, for choosing the order in which the
/// removal goes through the edges.
#[derive(Debug, Clone, Copy)]
pub enum Order {
    ReverseLexicographic,
    ReverseColexicographic,
    ForwardLexicographic,
    ForwardColexicographic,
    Random,
}

impl Order {
    /// Puts the named order on the given edge list.
    pub fn apply(&self, edges: &mut crate::edges::EdgeList)
        ensures
            final(edges).n_vertices == old(edges).n_vertices,
            final(edges)@.to_multiset() == old(edges)@.to_multiset(),
            old(edges).wf() ==> final(edges).wf(),
            (*self is ForwardLexicographic) ==> crate::edges::sorted_edges(
                crate::edges::SortKind::Lex,
                final(edges)@,
            ),
            (*self is ReverseLexicographic) ==> crate::edges::sorted_edges(
                crate::edges::SortKind::RevLex,
                final(edges)@,
            ),
            (*self is ForwardColexicographic) ==> crate::edges::sorted_edges(
                crate::edges::SortKind::Colex,
                final(edges)@,
            ),
            (*self is ReverseColexicographic) ==> crate::edges::sorted_edges(
                crate::edges::SortKind::RevColex,
                final(edges)@,
            ),
    {
        match self {
            Order::ReverseLexicographic => edges.sort_reverse_lexicographically(),
            Order::ReverseColexicographic => edges.sort_reverse_colexicographically(),
            Order::ForwardLexicographic => edges.sort_lexicographically(),
            Order::ForwardColexicographic => edges.sort_colexicographically(),
            Order::Random => edges.shuffle(),
        }
    }

    /// A short name for the order.
    pub fn to_static_str(self) -> (r: &'static str)
        ensures
            (self is ReverseLexicographic) ==> r@ == "RevLex"@,
            (self is ReverseColexicographic) ==> r@ == "RevColex"@,
            (self is ForwardLexicographic) ==> r@ == "Lex"@,
            (self is ForwardColexicographic) ==> r@ == "Colex"@,
            (self is Random) ==> r@ == "Rand"@,
    {
        match self {
            Order::ReverseLexicographic => "RevLex",
            Order::ReverseColexicographic => "RevColex",
            Order::ForwardLexicographic => "Lex",
            Order::ForwardColexicographic => "Colex",
            Order::Random => "Rand",
        }
    }
}

/// The model transition of [`adjacency::AdjacencyMatrix::add_edge`]: both
/// endpoints learn of each other at the edge's grade.
pub open spec fn adj_insert_edge(
    a: Seq<Map<usize, crate::OneCriticalGrade>>,
    e: crate::edges::FilteredEdge,
) -> Seq<Map<usize, crate::OneCriticalGrade>> {
    a.update(e.edge.0 as int, a[e.edge.0 as int].insert(e.edge.1, e.grade)).update(
        e.edge.1 as int,
        a[e.edge.1 as int].insert(e.edge.0, e.grade),
    )
}

/// The model transition of [`adjacency::AdjacencyMatrix::delete_edge`]: both
/// endpoints forget each other.
pub open spec fn adj_remove_edge(
    a: Seq<Map<usize, crate::OneCriticalGrade>>,
    e: crate::edges::FilteredEdge,
) -> Seq<Map<usize, crate::OneCriticalGrade>> {
    a.update(e.edge.0 as int, a[e.edge.0 as int].remove(e.edge.1)).update(
        e.edge.1 as int,
        a[e.edge.1 as int].remove(e.edge.0),
    )
}

/// The adjacency index of the first `i` edges of `edges`, on `n` vertices.
pub open spec fn build_adj_from(
    n: nat,
    edges: Seq<crate::edges::FilteredEdge>,
    i: int,
) -> Seq<Map<usize, crate::OneCriticalGrade>>
    decreases i,
{
    if i <= 0 {
        Seq::new(n, |t: int| Map::empty())
    } else {
        adj_insert_edge(build_adj_from(n, edges, i - 1), edges[i - 1])
    }
}

/// The adjacency index of all of `edges`, on `n` vertices.
pub open spec fn build_adj(n: nat, edges: Seq<crate::edges::FilteredEdge>) -> Seq<
    Map<usize, crate::OneCriticalGrade>,
> {
    build_adj_from(n, edges, edges.len() as int)
}

/// The removal loop, from the edge at position `i` on, over the adjacency
/// state `a`: an edge for which `dominated` holds is deleted from the state
/// and not emitted; every other edge survives.
pub open spec fn reduce_from(
    dominated: spec_fn(Seq<Map<usize, crate::OneCriticalGrade>>, crate::edges::FilteredEdge) -> bool,
    a: Seq<Map<usize, crate::OneCriticalGrade>>,
    edges: Seq<crate::edges::FilteredEdge>,
    i: int,
) -> Seq<crate::edges::FilteredEdge>
    decreases edges.len() - i,
{
    if i < 0 || i >= edges.len() {
        Seq::empty()
    } else if dominated(a, edges[i]) {
        reduce_from(dominated, adj_remove_edge(a, edges[i]), edges, i + 1)
    } else {
        seq![edges[i]] + reduce_from(dominated, a, edges, i + 1)
    }
}

/// Whatever the domination predicate, the removal loop emits a subset of the
/// edges it goes through.
pub proof fn lemma_reduce_from_subset(
    dominated: spec_fn(Seq<Map<usize, crate::OneCriticalGrade>>, crate::edges::FilteredEdge) -> bool,
    a: Seq<Map<usize, crate::OneCriticalGrade>>,
    edges: Seq<crate::edges::FilteredEdge>,
    i: int,
)
    requires
        0 <= i <= edges.len(),
    ensures
        reduce_from(dominated, a, edges, i).to_multiset().subset_of(
            edges.subrange(i, edges.len() as int).to_multiset(),
        ),
    decreases edges.len() - i,
{
    let rest = edges.subrange(i, edges.len() as int);
    rest.to_multiset_ensures();
    if i >= edges.len() {
        reduce_from(dominated, a, edges, i).to_multiset_ensures();
    } else {
        let tail = edges.subrange(i + 1, edges.len() as int);
        assert(rest =~= seq![edges[i]] + tail);
        vstd::seq_lib::lemma_multiset_commutative(seq![edges[i]], tail);
        if dominated(a, edges[i]) {
            lemma_reduce_from_subset(dominated, adj_remove_edge(a, edges[i]), edges, i + 1);
        } else {
            lemma_reduce_from_subset(dominated, a, edges, i + 1);
            vstd::seq_lib::lemma_multiset_commutative(
                seq![edges[i]],
                reduce_from(dominated, a, edges, i + 1),
            );
        }
    }
}

} // verus!
