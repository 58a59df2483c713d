//! A naive removal of filtration-dominated edges: at every test grade, look
//! directly for a common neighbour whose neighbourhood at that grade holds
//! the edge's neighbourhood at that grade.

use vstd::prelude::*;

use crate::edges::{EdgeList, FilteredEdge};
use crate::removal::adjacency::{
    closed_nb_map, common_map, entry_list_of, gr_sorted, AdjacencyMatrix,
};
use crate::removal::full::{compute_domination_times, test_grades};
use crate::removal::{
    adj_remove_edge, build_adj, build_adj_from, clock_now, elapsed_nanos, lemma_reduce_from_subset,
    reduce_from, EdgeOrder,
};
use crate::OneCriticalGrade;

verus! {

/// Whether the common neighbour `w` dominates `e` at the grade `t`: every
/// common neighbour of `e` arrived by `t` is a neighbour of `w` arrived by
/// `t`.
#[verifier::opaque]
pub open spec fn naive_dominated_at_by(
    a: Seq<Map<usize, OneCriticalGrade>>,
    e: FilteredEdge,
    t: OneCriticalGrade,
    w: usize,
) -> bool {
    forall|v: usize|
        #[trigger] common_map(a, e.edge.0, e.edge.1).dom().contains(v) && common_map(
            a,
            e.edge.0,
            e.edge.1,
        )[v].spec_lte(t) ==> closed_nb_map(a, w, t).dom().contains(v) && closed_nb_map(
            a,
            w,
            t,
        )[v].spec_lte(t)
}

/// Whether some common neighbour of `e` arrived by `t` dominates `e` at the
/// grade `t`.
#[verifier::opaque]
pub open spec fn naive_dominated_at(
    a: Seq<Map<usize, OneCriticalGrade>>,
    e: FilteredEdge,
    t: OneCriticalGrade,
) -> bool {
    exists|w: usize|
        #[trigger] common_map(a, e.edge.0, e.edge.1).dom().contains(w) && common_map(
            a,
            e.edge.0,
            e.edge.1,
        )[w].spec_lte(t) && naive_dominated_at_by(a, e, t, w)
}

/// Whether `e` is dominated at every one of its test grades.
#[verifier::opaque]
pub open spec fn naive_dominated(a: Seq<Map<usize, OneCriticalGrade>>, e: FilteredEdge) -> bool {
    forall|t: OneCriticalGrade|
        #[trigger] test_grades(a, e).contains(t) ==> naive_dominated_at(a, e, t)
}

/// Keeps the entries of a sorted neighbour list whose grade is at or below
/// `t`.
pub(crate) fn filter_lte(list: &Vec<(usize, OneCriticalGrade)>, t: &OneCriticalGrade) -> (r: Vec<
    (usize, OneCriticalGrade),
>)
    requires
        gr_sorted(list@),
    ensures
        gr_sorted(r@),
        forall|x: int|
            0 <= x < r@.len() ==> list@.contains(#[trigger] r@[x]) && r@[x].1.spec_lte(*t),
        forall|k: int|
            0 <= k < list@.len() && (#[trigger] list@[k]).1.spec_lte(*t) ==> r@.contains(
                list@[k],
            ),
{
    let mut r: Vec<(usize, OneCriticalGrade)> = Vec::new();
    let n = list.len();
    let mut i: usize = 0;
    while i < n
        invariant
            n == list@.len(),
            gr_sorted(list@),
            i <= n,
            gr_sorted(r@),
            forall|x: int|
                0 <= x < r@.len() && i < n ==> (#[trigger] r@[x]).0 < list@[i as int].0,
            forall|x: int|
                0 <= x < r@.len() ==> list@.contains(#[trigger] r@[x]) && r@[x].1.spec_lte(*t),
            forall|k: int|
                0 <= k < i && (#[trigger] list@[k]).1.spec_lte(*t) ==> r@.contains(list@[k]),
        decreases n - i,
    {
        let (v, g) = list[i];
        let ghost r_old = r@;
        if g.lte(t) {
            r.push((v, g));
            proof {
                assert(list@.contains(list@[i as int])) by {
                    assert(list@[i as int] == list@[i as int]);
                }
                assert forall|k: int|
                    0 <= k < i + 1 && (#[trigger] list@[k]).1.spec_lte(*t) implies r@.contains(
                    list@[k],
                ) by {
                    if k < i {
                        let x = choose|x: int| 0 <= x < r_old.len() && r_old[x] == list@[k];
                        assert(r@[x] == list@[k]);
                    } else {
                        assert(r@[r@.len() - 1] == list@[k]);
                    }
                }
            }
        }
        i = i + 1;
        proof {
            assert forall|x: int| 0 <= x < r@.len() && i < n implies (#[trigger] r@[x]).0 < list@[
                i as int
            ].0 by {
                if x < r_old.len() {
                    assert(r_old[x].0 < list@[i - 1].0 || r_old[x].0 < list@[i as int].0);
                    assert(list@[i - 1].0 < list@[i as int].0);
                } else {
                    assert(r@[x] == (v, g));
                    assert(list@[i - 1].0 < list@[i as int].0);
                }
            }
        }
    }
    r
}

/// Whether some entry of `right` has the vertex of `p`.
pub open spec fn key_covered(
    p: (usize, OneCriticalGrade),
    right: Seq<(usize, OneCriticalGrade)>,
) -> bool {
    exists|j: int| 0 <= j < right.len() && (#[trigger] right[j]).0 == p.0
}

/// Whether every vertex listed by `left` is listed by `right`.
pub open spec fn keys_subset_seq(
    left: Seq<(usize, OneCriticalGrade)>,
    right: Seq<(usize, OneCriticalGrade)>,
) -> bool {
    forall|i: int| 0 <= i < left.len() ==> key_covered(#[trigger] left[i], right)
}

/// Checks whether every vertex of `left` appears in `right`, walking both
/// sorted lists in lock-step.
#[verifier::loop_isolation(false)]
fn keys_subset(left: &Vec<(usize, OneCriticalGrade)>, right: &Vec<(usize, OneCriticalGrade)>) -> (r:
    bool)
    requires
        gr_sorted(left@),
        gr_sorted(right@),
    ensures
        r == keys_subset_seq(left@, right@),
{
    let nl = left.len();
    let nr = right.len();
    let mut i: usize = 0;
    let mut j: usize = 0;
    while i < nl
        invariant
            i <= nl,
            j <= nr,
            forall|i2: int| 0 <= i2 < i ==> key_covered(#[trigger] left@[i2], right@),
            forall|j2: int| 0 <= j2 < j && i < nl ==> (#[trigger] right@[j2]).0 < left@[i as int].0,
        decreases nl - i,
    {
        let (a, _) = left[i];
        while j < nr && right[j].0 < a
            invariant
                i < nl,
                a == left@[i as int].0,
                j <= nr,
                forall|j2: int| 0 <= j2 < j ==> (#[trigger] right@[j2]).0 < left@[i as int].0,
            decreases nr - j,
        {
            j = j + 1;
        }
        if j == nr || right[j].0 != a {
            proof {
                assert forall|j2: int| 0 <= j2 < right@.len() implies (#[trigger] right@[j2]).0
                    != a by {
                    if j2 >= j {
                        assert(right@[j as int].0 <= right@[j2].0);
                    }
                }
                assert(!key_covered(left@[i as int], right@));
            }
            return false;
        }
        proof {
            assert(right@[j as int].0 == left@[i as int].0);
            assert(key_covered(left@[i as int], right@));
        }
        i = i + 1;
        proof {
            if i < nl {
                assert forall|j2: int| 0 <= j2 < j implies (#[trigger] right@[j2]).0 < left@[
                    i as int
                ].0 by {
                    assert(right@[j2].0 <= right@[j as int].0);
                    assert(left@[i - 1].0 < left@[i as int].0);
                }
            }
        }
    }
    true
}

/// Checks whether the common neighbour `neigh_vertex` dominates `edge` at
/// the grade `critical_value`.
#[verifier::loop_isolation(false)]
#[verifier::rlimit(60)]
#[verifier::spinoff_prover]
fn is_dominated_at_time_by(
    adjacency_matrix: &AdjacencyMatrix,
    edge: &FilteredEdge,
    critical_value: &OneCriticalGrade,
    neigh_vertex: usize,
) -> (r: bool)
    requires
        adjacency_matrix.wf(),
        edge.edge.0 != edge.edge.1,
        edge.edge.0 < adjacency_matrix@.len(),
        edge.edge.1 < adjacency_matrix@.len(),
        neigh_vertex < adjacency_matrix@.len(),
    ensures
        r == naive_dominated_at_by(adjacency_matrix@, *edge, *critical_value, neigh_vertex),
{
    let ghost a = adjacency_matrix@;
    let ghost cm = common_map(a, edge.edge.0, edge.edge.1);
    let ghost nbm = closed_nb_map(a, neigh_vertex, *critical_value);
    let other_all = adjacency_matrix.closed_neighbours(neigh_vertex, *critical_value);
    let other_neighs = filter_lte(&other_all, critical_value);
    let cn = adjacency_matrix.common_neighbours(edge);
    let applicable_neighs = filter_lte(&cn, critical_value);
    let r = keys_subset(&applicable_neighs, &other_neighs);
    proof {
        reveal(naive_dominated_at_by);
        let t = *critical_value;
        if r {
            assert forall|v: usize|
                #[trigger] cm.dom().contains(v) && cm[v].spec_lte(t) implies nbm.dom().contains(
                v,
            ) && nbm[v].spec_lte(t) by {
                let k = choose|k: int| 0 <= k < cn@.len() && (#[trigger] cn@[k]).0 == v;
                assert(cm.contains_pair(cn@[k].0, cn@[k].1));
                assert(applicable_neighs@.contains(cn@[k]));
                let x = choose|x: int|
                    0 <= x < applicable_neighs@.len() && applicable_neighs@[x] == cn@[k];
                assert(key_covered(applicable_neighs@[x], other_neighs@));
                let j = choose|j: int|
                    0 <= j < other_neighs@.len() && (#[trigger] other_neighs@[j]).0
                        == applicable_neighs@[x].0;
                assert(other_all@.contains(other_neighs@[j]));
                let y = choose|y: int|
                    0 <= y < other_all@.len() && other_all@[y] == other_neighs@[j];
                assert(nbm.contains_pair(other_all@[y].0, other_all@[y].1));
            }
        } else {
            let i = choose|i: int|
                0 <= i < applicable_neighs@.len() && !key_covered(
                    #[trigger] applicable_neighs@[i],
                    other_neighs@,
                );
            let p = applicable_neighs@[i];
            assert(cn@.contains(p));
            let k = choose|k: int| 0 <= k < cn@.len() && cn@[k] == p;
            assert(cm.contains_pair(cn@[k].0, cn@[k].1));
            assert(cm.dom().contains(p.0) && cm[p.0].spec_lte(t));
            if nbm.dom().contains(p.0) && nbm[p.0].spec_lte(t) {
                let y = choose|y: int| 0 <= y < other_all@.len() && (#[trigger] other_all@[y]).0
                    == p.0;
                assert(nbm.contains_pair(other_all@[y].0, other_all@[y].1));
                assert(other_all@[y].1.spec_lte(t));
                assert(other_neighs@.contains(other_all@[y]));
                let j = choose|j: int|
                    0 <= j < other_neighs@.len() && other_neighs@[j] == other_all@[y];
                assert(key_covered(p, other_neighs@));
                assert(false);
            }
        }
    }
    r
}

/// Checks whether some common neighbour of `edge` dominates it at the grade
/// `critical_value`.
#[verifier::loop_isolation(false)]
#[verifier::rlimit(60)]
#[verifier::spinoff_prover]
pub(crate) fn is_dominated_at_time(
    adjacency_matrix: &AdjacencyMatrix,
    edge: &FilteredEdge,
    critical_value: &OneCriticalGrade,
) -> (r: bool)
    requires
        adjacency_matrix.wf(),
        edge.edge.0 != edge.edge.1,
        edge.edge.0 < adjacency_matrix@.len(),
        edge.edge.1 < adjacency_matrix@.len(),
    ensures
        r == naive_dominated_at(adjacency_matrix@, *edge, *critical_value),
{
    let ghost a = adjacency_matrix@;
    let ghost cm = common_map(a, edge.edge.0, edge.edge.1);
    let ghost t = *critical_value;
    let cn = adjacency_matrix.common_neighbours(edge);
    let n = cn.len();
    for idx in 0..n
        invariant
            n == cn@.len(),
            entry_list_of(cn@, cm),
            forall|k: int|
                0 <= k < idx ==> !((#[trigger] cn@[k]).1.spec_lte(t) && naive_dominated_at_by(
                    a,
                    *edge,
                    t,
                    cn@[k].0,
                )),
    {
        let (w, value_w) = cn[idx];
        proof {
            assert(cm.contains_pair(cn@[idx as int].0, cn@[idx as int].1));
            assert(a[edge.edge.0 as int].dom().contains(w));
            adjacency_matrix.lemma_wf_symmetric();
            assert(w < a.len());
        }
        if value_w.lte(critical_value) {
            if is_dominated_at_time_by(adjacency_matrix, edge, critical_value, w) {
                proof {
                    reveal(naive_dominated_at);
                    assert(cm.dom().contains(w) && cm[w].spec_lte(t) && naive_dominated_at_by(
                        a,
                        *edge,
                        t,
                        w,
                    ));
                }
                return true;
            }
        }
    }
    proof {
        reveal(naive_dominated_at);
        if naive_dominated_at(a, *edge, t) {
            let w = choose|w: usize|
                #[trigger] cm.dom().contains(w) && cm[w].spec_lte(t) && naive_dominated_at_by(
                    a,
                    *edge,
                    t,
                    w,
                );
            let k = choose|k: int| 0 <= k < cn@.len() && (#[trigger] cn@[k]).0 == w;
            assert(cm.contains_pair(cn@[k].0, cn@[k].1));
            assert(cn@[k].1 == cm[w]);
            assert(false);
        }
    }
    false
}

/// Checks whether `edge` is dominated at every one of its test grades.
#[verifier::loop_isolation(false)]
#[verifier::rlimit(60)]
#[verifier::spinoff_prover]
fn is_dominated_naive(adjacency_matrix: &AdjacencyMatrix, edge: &FilteredEdge) -> (r: bool)
    requires
        adjacency_matrix.wf(),
        edge.edge.0 != edge.edge.1,
        edge.edge.0 < adjacency_matrix@.len(),
        edge.edge.1 < adjacency_matrix@.len(),
    ensures
        r == naive_dominated(adjacency_matrix@, *edge),
{
    let ghost a = adjacency_matrix@;
    let cn = adjacency_matrix.common_neighbours(edge);
    let domination_times = compute_domination_times(edge, &cn, Ghost(a));
    let ghost dt = domination_times@;
    let n = domination_times.len();
    for k in 0..n
        invariant
            n == dt.len(),
            dt == domination_times@,
            forall|k2: int| 0 <= k2 < k ==> naive_dominated_at(a, *edge, #[trigger] dt[k2]),
    {
        let critical_value = domination_times[k];
        if !is_dominated_at_time(adjacency_matrix, edge, &critical_value) {
            proof {
                reveal(naive_dominated);
                assert(test_grades(a, *edge).contains(dt[k as int]));
            }
            return false;
        }
    }
    proof {
        reveal(naive_dominated);
        assert forall|t: OneCriticalGrade| #[trigger] test_grades(a, *edge).contains(t) implies
            naive_dominated_at(a, *edge, t) by {
            let k0 = choose|k0: int| 0 <= k0 < dt.len() && dt[k0] == t;
            assert(naive_dominated_at(a, *edge, dt[k0]));
        }
    }
    true
}

/// The survivors of the naive removal loop from position `i` on.
pub open spec fn naive_reduce_from(
    a: Seq<Map<usize, OneCriticalGrade>>,
    edges: Seq<FilteredEdge>,
    i: int,
) -> Seq<FilteredEdge> {
    reduce_from(|a2, e| naive_dominated(a2, e), a, edges, i)
}

/// As [`edge_collapse_naive`], but if we take more than `max_time`
/// nanoseconds then execution stops and a clone of the (possibly re-sorted)
/// input list is returned. If `max_time` is `None` then no timeout is
/// applied.
#[verifier::loop_isolation(false)]
#[verifier::rlimit(60)]
#[verifier::spinoff_prover]
pub fn edge_collapse_naive_timed(
    edge_list: &mut EdgeList,
    order: EdgeOrder,
    max_time: Option<u64>,
) -> (r: EdgeList)
    requires
        old(edge_list).wf(),
    ensures
        final(edge_list).wf(),
        final(edge_list).n_vertices == old(edge_list).n_vertices,
        final(edge_list)@.to_multiset() == old(edge_list)@.to_multiset(),
        (order is ReverseLexicographic) ==> crate::edges::sorted_edges(
            crate::edges::SortKind::RevLex,
            final(edge_list)@,
        ),
        (order is Maintain) ==> final(edge_list)@ == old(edge_list)@,
        r.wf(),
        r.n_vertices == old(edge_list).n_vertices,
        r@ == naive_reduce_from(
            build_adj(old(edge_list).n_vertices as nat, final(edge_list)@),
            final(edge_list)@,
            0,
        ) || (max_time is Some && r@ == final(edge_list)@),
        max_time is None ==> r@ == naive_reduce_from(
            build_adj(old(edge_list).n_vertices as nat, final(edge_list)@),
            final(edge_list)@,
            0,
        ),
        r@.to_multiset().subset_of(final(edge_list)@.to_multiset()),
{
    match order {
        EdgeOrder::ReverseLexicographic => {
            edge_list.sort_reverse_lexicographically();
        },
        EdgeOrder::Maintain => {},
    }
    let ghost es = edge_list@;
    let n = edge_list.number_of_vertices();
    let m = edge_list.len();
    let ghost dom_pred = |a2: Seq<Map<usize, OneCriticalGrade>>, e: FilteredEdge|
        naive_dominated(a2, e);

    let mut adjacency_matrix = AdjacencyMatrix::new(n);
    for i in 0..m
        invariant
            adjacency_matrix.wf(),
            adjacency_matrix@ == build_adj_from(n as nat, es, i as int),
            adjacency_matrix@.len() == n,
    {
        let e = edge_list.edges()[i];
        adjacency_matrix.add_edge(e);
    }
    proof {
        assert(adjacency_matrix@ == build_adj(n as nat, es));
    }

    let mut critical_edges: Vec<FilteredEdge> = Vec::new();
    let start = clock_now();
    let ghost a0 = adjacency_matrix@;
    for i in 0..m
        invariant
            adjacency_matrix.wf(),
            adjacency_matrix@.len() == n,
            critical_edges@ + reduce_from(dom_pred, adjacency_matrix@, es, i as int)
                == reduce_from(dom_pred, a0, es, 0),
            forall|t: int|
                0 <= t < critical_edges@.len() ==> (#[trigger] critical_edges@[t]).valid(n),
    {
        if let Some(bound) = max_time {
            if elapsed_nanos(&start) > bound {
                let c = edge_list.clone();
                return c;
            }
        }
        let e = edge_list.edges()[i];
        let ghost a_cur = adjacency_matrix@;
        let ghost rem_old = critical_edges@;
        if is_dominated_naive(&adjacency_matrix, &e) {
            adjacency_matrix.delete_edge(&e);
            proof {
                assert(adjacency_matrix@ == adj_remove_edge(a_cur, e));
                assert(reduce_from(dom_pred, a_cur, es, i as int) == reduce_from(
                    dom_pred,
                    adjacency_matrix@,
                    es,
                    i + 1,
                ));
            }
        } else {
            critical_edges.push(e);
            proof {
                assert(reduce_from(dom_pred, a_cur, es, i as int) == seq![e] + reduce_from(
                    dom_pred,
                    a_cur,
                    es,
                    i + 1,
                ));
                assert(critical_edges@ + reduce_from(dom_pred, a_cur, es, i + 1) =~= rem_old + (
                seq![e] + reduce_from(dom_pred, a_cur, es, i + 1)));
            }
        }
    }
    proof {
        assert(reduce_from(dom_pred, adjacency_matrix@, es, m as int) =~= Seq::<
            FilteredEdge,
        >::empty());
        assert(critical_edges@ + Seq::<FilteredEdge>::empty() =~= critical_edges@);
        lemma_reduce_from_subset(dom_pred, a0, es, 0);
        assert(es.subrange(0, es.len() as int) =~= es);
    }
    EdgeList { n_vertices: n, edges: critical_edges }
}

/// Goes through the edge list in the given order and removes every edge
/// that is dominated at each of its test grades, checking each grade
/// directly.
pub fn edge_collapse_naive(edge_list: &mut EdgeList, order: EdgeOrder) -> (r: EdgeList)
    requires
        old(edge_list).wf(),
    ensures
        final(edge_list).wf(),
        final(edge_list).n_vertices == old(edge_list).n_vertices,
        final(edge_list)@.to_multiset() == old(edge_list)@.to_multiset(),
        r.wf(),
        r.n_vertices == old(edge_list).n_vertices,
        r@ == naive_reduce_from(
            build_adj(old(edge_list).n_vertices as nat, final(edge_list)@),
            final(edge_list)@,
            0,
        ),
        r@.to_multiset().subset_of(final(edge_list)@.to_multiset()),
{
    edge_collapse_naive_timed(edge_list, order, None)
}

} // verus!
