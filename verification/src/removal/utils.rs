//! Utilities to study bifiltered graphs.

use vstd::prelude::*;

use crate::edges::{EdgeList, FilteredEdge};
use crate::removal::adjacency::{common_map, AdjacencyMatrix};
use crate::removal::naive::{filter_lte, is_dominated_at_time, naive_dominated_at};
use crate::removal::{build_adj, build_adj_from};
use crate::OneCriticalGrade;

verus! {

/// Whether the edge `e` has no common neighbour arrived by its own grade:
/// its edge neighbourhood is empty the moment it appears.
#[verifier::opaque]
pub open spec fn isolated_at_grade(a: Seq<Map<usize, OneCriticalGrade>>, e: FilteredEdge) -> bool {
    forall|v: usize|
        #[trigger] common_map(a, e.edge.0, e.edge.1).dom().contains(v) ==> !common_map(
            a,
            e.edge.0,
            e.edge.1,
        )[v].spec_lte(e.grade)
}

/// The number of edges among the first `i` of `s` that are isolated at
/// their own grade in the graph `a`.
pub open spec fn isolated_count(
    a: Seq<Map<usize, OneCriticalGrade>>,
    s: Seq<FilteredEdge>,
    i: int,
) -> nat
    decreases i,
{
    if i <= 0 {
        0
    } else {
        isolated_count(a, s, i - 1) + if isolated_at_grade(a, s[i - 1]) {
            1nat
        } else {
            0nat
        }
    }
}

/// The number of edges among the first `i` of `s` that are dominated at
/// their own grade in the graph `a`.
pub open spec fn dominated_at_grade_count(
    a: Seq<Map<usize, OneCriticalGrade>>,
    s: Seq<FilteredEdge>,
    i: int,
) -> nat
    decreases i,
{
    if i <= 0 {
        0
    } else {
        dominated_at_grade_count(a, s, i - 1) + if naive_dominated_at(a, s[i - 1], s[i - 1].grade) {
            1nat
        } else {
            0nat
        }
    }
}

/// Given an edge list, returns a tuple that contains the number of edges
/// that are isolated (that is, they have an empty edge neighbourhood) at
/// their critical grade, and the number of edges dominated at their
/// critical grade.
#[verifier::loop_isolation(false)]
#[verifier::rlimit(60)]
#[verifier::spinoff_prover]
pub fn count_isolated_edges(edge_list: &EdgeList) -> (r: (usize, usize))
    requires
        edge_list.wf(),
    ensures
        r.0 == isolated_count(
            build_adj(edge_list.n_vertices as nat, edge_list@),
            edge_list@,
            edge_list@.len() as int,
        ),
        r.1 == dominated_at_grade_count(
            build_adj(edge_list.n_vertices as nat, edge_list@),
            edge_list@,
            edge_list@.len() as int,
        ),
{
    let ghost es = edge_list@;
    let n = edge_list.number_of_vertices();
    let m = edge_list.len();
    let mut isolated_edges: usize = 0;
    let mut dominated_when_appear: usize = 0;

    let mut adjacency_matrix = AdjacencyMatrix::new(n);
    for i in 0..m
        invariant
            adjacency_matrix.wf(),
            adjacency_matrix@ == build_adj_from(n as nat, es, i as int),
            adjacency_matrix@.len() == n,
    {
        let e = edge_list.edges()[i];
        adjacency_matrix.add_edge(e);
    }
    let ghost a = adjacency_matrix@;
    proof {
        assert(a == build_adj(n as nat, es));
    }

    for i in 0..m
        invariant
            adjacency_matrix.wf(),
            a == adjacency_matrix@,
            adjacency_matrix@.len() == n,
            isolated_edges == isolated_count(a, es, i as int),
            dominated_when_appear == dominated_at_grade_count(a, es, i as int),
            isolated_edges <= i,
            dominated_when_appear <= i,
    {
        let e = edge_list.edges()[i];
        let ghost cm = common_map(a, e.edge.0, e.edge.1);
        let cn = adjacency_matrix.common_neighbours(&e);
        let applicable = filter_lte(&cn, &e.grade);
        if applicable.len() == 0 {
            // Edge has an empty neighbourhood.
            isolated_edges = isolated_edges + 1;
            proof {
                reveal(isolated_at_grade);
                assert forall|v: usize| #[trigger] cm.dom().contains(v) implies !cm[v].spec_lte(
                    e.grade,
                ) by {
                    if cm[v].spec_lte(e.grade) {
                        let k = choose|k: int| 0 <= k < cn@.len() && (#[trigger] cn@[k]).0 == v;
                        assert(cm.contains_pair(cn@[k].0, cn@[k].1));
                        assert(cn@[k].1.spec_lte(e.grade));
                        assert(applicable@.contains(cn@[k]));
                        assert(false);
                    }
                }
            }
        } else {
            proof {
                reveal(isolated_at_grade);
                let p = applicable@[0];
                assert(applicable@.contains(p)) by {
                    assert(applicable@[0] == p);
                }
                assert(cn@.contains(p) && p.1.spec_lte(e.grade));
                let k = choose|k: int| 0 <= k < cn@.len() && cn@[k] == p;
                assert(cm.contains_pair(cn@[k].0, cn@[k].1));
                assert(!isolated_at_grade(a, e));
            }
        }
        if is_dominated_at_time(&adjacency_matrix, &e, &e.grade) {
            dominated_when_appear = dominated_when_appear + 1;
        }
    }
    (isolated_edges, dominated_when_appear)
}

} // verus!
