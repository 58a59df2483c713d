//! Removal of strongly filtration-dominated edges: edges with a single
//! common neighbour whose closed neighbourhood contains the closed
//! neighbourhood of the edge at every grade.

use vstd::prelude::*;

use crate::edges::{EdgeList, FilteredEdge};
use crate::removal::adjacency::{
    closed_edge_map, closed_nb_map, common_map, entry_list_of, gr_sorted, AdjacencyMatrix,
};
use crate::removal::{
    adj_remove_edge, build_adj, build_adj_from, clock_now, elapsed_nanos, reduce_from,
    lemma_reduce_from_subset, EdgeOrder,
};
use crate::OneCriticalGrade;

verus! {

/// Grade-aware containment of neighbourhood maps: every member of `l` is a
/// member of `r` that arrived no later.
pub open spec fn nbhd_subset(
    l: Map<usize, OneCriticalGrade>,
    r: Map<usize, OneCriticalGrade>,
) -> bool {
    forall|a: usize|
        #[trigger] l.dom().contains(a) ==> r.dom().contains(a) && r[a].spec_lte(l[a])
}

/// Whether some entry of `right` has the vertex of `p` and a grade below
/// the grade of `p`.
pub open spec fn covered(p: (usize, OneCriticalGrade), right: Seq<(usize, OneCriticalGrade)>) -> bool {
    exists|j: int|
        0 <= j < right.len() && (#[trigger] right[j]).0 == p.0 && right[j].1.spec_lte(p.1)
}

/// Grade-aware containment of sorted neighbour lists: every entry of `left`
/// has an entry of `right` with the same vertex and a grade below it.
pub open spec fn subset_seq(
    left: Seq<(usize, OneCriticalGrade)>,
    right: Seq<(usize, OneCriticalGrade)>,
) -> bool {
    forall|i: int| 0 <= i < left.len() ==> covered(#[trigger] left[i], right)
}

/// On entry lists of the maps `lm` and `rm`, the list containment is the map
/// containment.
proof fn lemma_subset_seq_map(
    ls: Seq<(usize, OneCriticalGrade)>,
    rs: Seq<(usize, OneCriticalGrade)>,
    lm: Map<usize, OneCriticalGrade>,
    rm: Map<usize, OneCriticalGrade>,
)
    requires
        entry_list_of(ls, lm),
        entry_list_of(rs, rm),
    ensures
        subset_seq(ls, rs) == nbhd_subset(lm, rm),
{
    if subset_seq(ls, rs) {
        assert forall|a: usize| #[trigger] lm.dom().contains(a) implies rm.dom().contains(a)
            && rm[a].spec_lte(lm[a]) by {
            let i = choose|i: int| 0 <= i < ls.len() && (#[trigger] ls[i]).0 == a;
            assert(lm.contains_pair(ls[i].0, ls[i].1));
            assert(covered(ls[i], rs));
            let j = choose|j: int|
                0 <= j < rs.len() && (#[trigger] rs[j]).0 == ls[i].0 && rs[j].1.spec_lte(ls[i].1);
            assert(rm.contains_pair(rs[j].0, rs[j].1));
        }
    }
    if nbhd_subset(lm, rm) {
        assert forall|i: int| 0 <= i < ls.len() implies covered(#[trigger] ls[i], rs) by {
            assert(lm.contains_pair(ls[i].0, ls[i].1));
            let a = ls[i].0;
            assert(rm.dom().contains(a) && rm[a].spec_lte(lm[a]));
            let j = choose|j: int| 0 <= j < rs.len() && (#[trigger] rs[j]).0 == a;
            assert(rm.contains_pair(rs[j].0, rs[j].1));
            assert(rs[j].1 == rm[a]);
            assert(rs[j].0 == ls[i].0 && rs[j].1.spec_lte(ls[i].1));
        }
    }
}

/// Checks the grade-aware containment of two neighbour lists sorted by
/// vertex, walking both in lock-step.
#[verifier::loop_isolation(false)]
pub fn is_subset(left: &Vec<(usize, OneCriticalGrade)>, right: &Vec<(usize, OneCriticalGrade)>) -> (r:
    bool)
    requires
        gr_sorted(left@),
        gr_sorted(right@),
    ensures
        r == subset_seq(left@, right@),
{
    let nl = left.len();
    let nr = right.len();
    let mut i: usize = 0;
    let mut j: usize = 0;
    while i < nl
        invariant
            nl == left@.len(),
            nr == right@.len(),
            gr_sorted(left@),
            gr_sorted(right@),
            i <= nl,
            j <= nr,
            forall|i2: int| 0 <= i2 < i ==> covered(#[trigger] left@[i2], right@),
            forall|j2: int| 0 <= j2 < j && i < nl ==> (#[trigger] right@[j2]).0 < left@[i as int].0,
        decreases nl - i,
    {
        let (a, value_a) = left[i];
        while j < nr && right[j].0 < a
            invariant
                nr == right@.len(),
                nl == left@.len(),
                i < nl,
                a == left@[i as int].0,
                gr_sorted(right@),
                j <= nr,
                forall|j2: int| 0 <= j2 < j ==> (#[trigger] right@[j2]).0 < left@[i as int].0,
            decreases nr - j,
        {
            j = j + 1;
        }
        if j == nr || right[j].0 != a {
            proof {
                assert forall|j2: int|
                    0 <= j2 < right@.len() implies !((#[trigger] right@[j2]).0 == a && right@[
                    j2
                ].1.spec_lte(left@[i as int].1)) by {
                    if j2 >= j {
                        assert(right@[j as int].0 <= right@[j2].0);
                    }
                }
                assert(!covered(left@[i as int], right@));
            }
            return false;
        }
        let (_, value_b) = right[j];
        if !value_b.lte(&value_a) {
            proof {
                assert forall|j2: int|
                    0 <= j2 < right@.len() implies !((#[trigger] right@[j2]).0 == a && right@[
                    j2
                ].1.spec_lte(left@[i as int].1)) by {
                    if j2 > j {
                        assert(right@[j as int].0 < right@[j2].0);
                    }
                }
                assert(!covered(left@[i as int], right@));
            }
            return false;
        }
        proof {
            assert(right@[j as int].0 == left@[i as int].0 && right@[j as int].1.spec_lte(
                left@[i as int].1,
            ));
            assert(covered(left@[i as int], right@));
        }
        i = i + 1;
        j = j + 1;
        proof {
            if i < nl {
                assert forall|j2: int| 0 <= j2 < j implies (#[trigger] right@[j2]).0 < left@[
                    i as int
                ].0 by {
                    assert(right@[j2].0 <= right@[j - 1].0);
                    assert(left@[i - 1].0 < left@[i as int].0);
                }
            }
        }
    }
    true
}

/// Whether some common neighbour of the endpoints of `e` strongly dominates
/// `e`: at every grade, the closed neighbourhood of the edge is contained in
/// the closed neighbourhood of that neighbour.
pub open spec fn strongly_dominated(
    a: Seq<Map<usize, OneCriticalGrade>>,
    e: FilteredEdge,
) -> bool {
    exists|w: usize|
        #[trigger] common_map(a, e.edge.0, e.edge.1).dom().contains(w) && nbhd_subset(
            closed_edge_map(a, e),
            closed_nb_map(a, w, common_map(a, e.edge.0, e.edge.1)[w].spec_join(e.grade)),
        )
}

/// Checks whether `edge` is strongly filtration-dominated in the graph held
/// by `adjacency_matrix`.
#[verifier::loop_isolation(false)]
pub fn is_strongly_filtration_dominated(
    adjacency_matrix: &AdjacencyMatrix,
    edge: &FilteredEdge,
) -> (r: bool)
    requires
        adjacency_matrix.wf(),
        edge.edge.0 != edge.edge.1,
        edge.edge.0 < adjacency_matrix@.len(),
        edge.edge.1 < adjacency_matrix@.len(),
    ensures
        r == strongly_dominated(adjacency_matrix@, *edge),
{
    let ghost a = adjacency_matrix@;
    let ghost cm = common_map(a, edge.edge.0, edge.edge.1);
    let cn = adjacency_matrix.common_neighbours(edge);
    let n = cn.len();
    for idx in 0..n
        invariant
            n == cn@.len(),
            a == adjacency_matrix@,
            cm == common_map(a, edge.edge.0, edge.edge.1),
            adjacency_matrix.wf(),
            edge.edge.0 != edge.edge.1,
            edge.edge.0 < a.len(),
            edge.edge.1 < a.len(),
            entry_list_of(cn@, cm),
            forall|t: int|
                0 <= t < idx ==> !nbhd_subset(
                    closed_edge_map(a, *edge),
                    closed_nb_map(
                        a,
                        (#[trigger] cn@[t]).0,
                        cn@[t].1.spec_join(edge.grade),
                    ),
                ),
    {
        let (v, value_v) = cn[idx];
        proof {
            assert(cm.contains_pair(cn@[idx as int].0, cn@[idx as int].1));
            assert(a[edge.edge.0 as int].dom().contains(v));
            adjacency_matrix.lemma_wf_symmetric();
            assert(v < a.len());
        }
        let edge_neighs = adjacency_matrix.closed_neighbours_edge(edge);
        let v_neighs = adjacency_matrix.closed_neighbours(v, value_v.join(&edge.grade));
        if is_subset(&edge_neighs, &v_neighs) {
            proof {
                lemma_subset_seq_map(
                    edge_neighs@,
                    v_neighs@,
                    closed_edge_map(a, *edge),
                    closed_nb_map(a, v, value_v.spec_join(edge.grade)),
                );
                assert(cm.dom().contains(v) && cm[v] == value_v);
            }
            return true;
        }
        proof {
            lemma_subset_seq_map(
                edge_neighs@,
                v_neighs@,
                closed_edge_map(a, *edge),
                closed_nb_map(a, v, value_v.spec_join(edge.grade)),
            );
        }
    }
    proof {
        if strongly_dominated(a, *edge) {
            let w = choose|w: usize|
                #[trigger] cm.dom().contains(w) && nbhd_subset(
                    closed_edge_map(a, *edge),
                    closed_nb_map(a, w, cm[w].spec_join(edge.grade)),
                );
            let t = choose|t: int| 0 <= t < cn@.len() && (#[trigger] cn@[t]).0 == w;
            assert(cm.contains_pair(cn@[t].0, cn@[t].1));
            assert(cn@[t].1 == cm[w]);
            assert(false);
        }
    }
    false
}

/// The survivors of the strong removal loop from position `i` on.
pub open spec fn strong_reduce_from(
    a: Seq<Map<usize, OneCriticalGrade>>,
    edges: Seq<FilteredEdge>,
    i: int,
) -> Seq<FilteredEdge> {
    reduce_from(|a2, e| strongly_dominated(a2, e), a, edges, i)
}


/// As [`remove_strongly_filtration_dominated`]. The checks on the common
/// neighbours of each edge may be run in parallel, since they only read the
/// adjacency index; this implementation runs them in order, which gives the
/// same result.
pub fn remove_strongly_filtration_dominated_multithread(
    edge_list: &mut EdgeList,
    order: EdgeOrder,
) -> (r: EdgeList)
    requires
        old(edge_list).wf(),
    ensures
        final(edge_list).wf(),
        final(edge_list).n_vertices == old(edge_list).n_vertices,
        final(edge_list)@.to_multiset() == old(edge_list)@.to_multiset(),
        r.wf(),
        r.n_vertices == old(edge_list).n_vertices,
        r@ == strong_reduce_from(
            build_adj(old(edge_list).n_vertices as nat, final(edge_list)@),
            final(edge_list)@,
            0,
        ),
        r@.to_multiset().subset_of(final(edge_list)@.to_multiset()),
{
    remove_strongly_filtration_dominated_timed(edge_list, order, None)
}

/// As [`crate::removal::remove_filtration_dominated`], but instead of
/// filtration-dominated edges this function checks for strongly
/// filtration-dominated edges.
pub fn remove_strongly_filtration_dominated(
    edge_list: &mut EdgeList,
    order: EdgeOrder,
) -> (r: EdgeList)
    requires
        old(edge_list).wf(),
    ensures
        final(edge_list).wf(),
        final(edge_list).n_vertices == old(edge_list).n_vertices,
        final(edge_list)@.to_multiset() == old(edge_list)@.to_multiset(),
        (order is ReverseLexicographic) ==> crate::edges::sorted_edges(
            crate::edges::SortKind::RevLex,
            final(edge_list)@,
        ),
        (order is Maintain) ==> final(edge_list)@ == old(edge_list)@,
        r.wf(),
        r.n_vertices == old(edge_list).n_vertices,
        r@ == strong_reduce_from(
            build_adj(old(edge_list).n_vertices as nat, final(edge_list)@),
            final(edge_list)@,
            0,
        ),
        r@.to_multiset().subset_of(final(edge_list)@.to_multiset()),
{
    remove_strongly_filtration_dominated_timed(edge_list, order, None)
}

/// As [`remove_strongly_filtration_dominated`], but if we take more than
/// `max_time` nanoseconds then execution stops and a clone of the (possibly
/// re-sorted) input list is returned. If `max_time` is `None` then no
/// timeout is applied.
#[verifier::loop_isolation(false)]
pub fn remove_strongly_filtration_dominated_timed(
    edge_list: &mut EdgeList,
    order: EdgeOrder,
    max_time: Option<u64>,
) -> (r: EdgeList)
    requires
        old(edge_list).wf(),
    ensures
        final(edge_list).wf(),
        final(edge_list).n_vertices == old(edge_list).n_vertices,
        final(edge_list)@.to_multiset() == old(edge_list)@.to_multiset(),
        (order is ReverseLexicographic) ==> crate::edges::sorted_edges(
            crate::edges::SortKind::RevLex,
            final(edge_list)@,
        ),
        (order is Maintain) ==> final(edge_list)@ == old(edge_list)@,
        r.wf(),
        r.n_vertices == old(edge_list).n_vertices,
        r@ == strong_reduce_from(
            build_adj(old(edge_list).n_vertices as nat, final(edge_list)@),
            final(edge_list)@,
            0,
        ) || (max_time is Some && r@ == final(edge_list)@),
        max_time is None ==> r@ == strong_reduce_from(
            build_adj(old(edge_list).n_vertices as nat, final(edge_list)@),
            final(edge_list)@,
            0,
        ),
        r@.to_multiset().subset_of(final(edge_list)@.to_multiset()),
{
    match order {
        EdgeOrder::ReverseLexicographic => {
            edge_list.sort_reverse_lexicographically();
        },
        EdgeOrder::Maintain => {},
    }
    let ghost es = edge_list@;
    let n = edge_list.number_of_vertices();
    let m = edge_list.len();
    let ghost dom_pred = |a2: Seq<Map<usize, OneCriticalGrade>>, e: FilteredEdge|
        strongly_dominated(a2, e);

    let mut adjacency_matrix = AdjacencyMatrix::new(n);
    for i in 0..m
        invariant
            adjacency_matrix.wf(),
            adjacency_matrix@ == build_adj_from(n as nat, es, i as int),
            adjacency_matrix@.len() == n,
    {
        let e = edge_list.edges()[i];
        adjacency_matrix.add_edge(e);
    }
    proof {
        assert(adjacency_matrix@ == build_adj(n as nat, es));
    }

    let mut remaining_edges: Vec<FilteredEdge> = Vec::new();
    let start = clock_now();
    let ghost a0 = adjacency_matrix@;
    for i in 0..m
        invariant
            adjacency_matrix.wf(),
            adjacency_matrix@.len() == n,
            remaining_edges@ + reduce_from(dom_pred, adjacency_matrix@, es, i as int)
                == reduce_from(dom_pred, a0, es, 0),
            forall|t: int|
                0 <= t < remaining_edges@.len() ==> (#[trigger] remaining_edges@[t]).valid(n),
    {
        if let Some(bound) = max_time {
            if elapsed_nanos(&start) > bound {
                let c = edge_list.clone();
                return c;
            }
        }
        let e = edge_list.edges()[i];
        let ghost a_cur = adjacency_matrix@;
        let ghost rem_old = remaining_edges@;
        if is_strongly_filtration_dominated(&adjacency_matrix, &e) {
            adjacency_matrix.delete_edge(&e);
            proof {
                assert(adjacency_matrix@ == adj_remove_edge(a_cur, e));
                assert(reduce_from(dom_pred, a_cur, es, i as int) == reduce_from(
                    dom_pred,
                    adjacency_matrix@,
                    es,
                    i + 1,
                ));
            }
        } else {
            remaining_edges.push(e);
            proof {
                assert(reduce_from(dom_pred, a_cur, es, i as int) == seq![e] + reduce_from(
                    dom_pred,
                    a_cur,
                    es,
                    i + 1,
                ));
                assert(remaining_edges@ + reduce_from(dom_pred, a_cur, es, i + 1) =~= rem_old + (
                seq![e] + reduce_from(dom_pred, a_cur, es, i + 1)));
            }
        }
    }
    proof {
        assert(reduce_from(dom_pred, adjacency_matrix@, es, m as int) =~= Seq::<
            FilteredEdge,
        >::empty());
        assert(remaining_edges@ + Seq::<FilteredEdge>::empty() =~= remaining_edges@);
        lemma_reduce_from_subset(dom_pred, a0, es, 0);
        assert(es.subrange(0, es.len() as int) =~= es);
    }
    EdgeList { n_vertices: n, edges: remaining_edges }
}

} // verus!
