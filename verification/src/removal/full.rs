//! Removal of filtration-dominated edges: edges that are dominated at every
//! critical grade, possibly by a different common neighbour at different
//! grades.

use vstd::prelude::*;

pub mod regions;
pub mod stripes;

use crate::edges::{EdgeList, FilteredEdge};
use crate::removal::adjacency::{
    closed_edge_map, closed_nb_map, common_map, entry_list_of, AdjacencyMatrix,
};
use crate::removal::full::regions::{
    calculate_non_domination_region, lemma_region_query_equiv, region_empty, region_grade_answer,
    region_matches, NonDominationRegion,
};
use crate::removal::{
    adj_remove_edge, build_adj, build_adj_from, clock_now, elapsed_nanos, lemma_reduce_from_subset,
    reduce_from, EdgeOrder,
};
use crate::OneCriticalGrade;

verus! {

/// The closed neighbourhood of the common neighbour `w`, at its joined
/// grade further joined with the grade of `e`: the neighbourhood against
/// which `w`'s domination of `e` is tested.
#[verifier::opaque]
pub open spec fn dominator_nbhd(
    a: Seq<Map<usize, OneCriticalGrade>>,
    e: FilteredEdge,
    w: usize,
) -> Map<usize, OneCriticalGrade> {
    closed_nb_map(a, w, common_map(a, e.edge.0, e.edge.1)[w].spec_join(e.grade))
}

/// The first-domination grades of `e`: its own grade, and its joins with
/// the arrival grades of its common neighbours.
#[verifier::opaque]
pub open spec fn first_domination_grades(
    a: Seq<Map<usize, OneCriticalGrade>>,
    e: FilteredEdge,
) -> Set<OneCriticalGrade> {
    Set::new(
        |t: OneCriticalGrade|
            t == e.grade || exists|w: usize|
                #[trigger] common_map(a, e.edge.0, e.edge.1).dom().contains(w) && t
                    == e.grade.spec_join(common_map(a, e.edge.0, e.edge.1)[w]),
    )
}

/// The test grades of `e`: the join-closure of its first-domination grades.
#[verifier::opaque]
pub open spec fn test_grades(
    a: Seq<Map<usize, OneCriticalGrade>>,
    e: FilteredEdge,
) -> Set<OneCriticalGrade> {
    Set::new(
        |t: OneCriticalGrade|
            exists|t1: OneCriticalGrade, t2: OneCriticalGrade|
                #[trigger] first_domination_grades(a, e).contains(t1)
                    && #[trigger] first_domination_grades(a, e).contains(t2) && t == t1.spec_join(
                    t2,
                ),
    )
}

/// Whether some common neighbour of `e` acquires the whole edge
/// neighbourhood the moment it arrives: its non-domination region is empty.
#[verifier::opaque]
pub open spec fn dominated_by_empty_region(
    a: Seq<Map<usize, OneCriticalGrade>>,
    e: FilteredEdge,
) -> bool {
    exists|w: usize|
        #[trigger] common_map(a, e.edge.0, e.edge.1).dom().contains(w) && region_empty(
            closed_edge_map(a, e),
            dominator_nbhd(a, e, w),
        )
}

/// Whether at every test grade of `e` some common neighbour's
/// non-domination region leaves the grade out.
#[verifier::opaque]
pub open spec fn dominated_at_every_grade(
    a: Seq<Map<usize, OneCriticalGrade>>,
    e: FilteredEdge,
) -> bool {
    forall|t: OneCriticalGrade|
        #[trigger] test_grades(a, e).contains(t) ==> exists|w: usize|
            #[trigger] common_map(a, e.edge.0, e.edge.1).dom().contains(w)
                && !region_grade_answer(closed_edge_map(a, e), dominator_nbhd(a, e, w), t)
}

/// Whether every common neighbour's non-domination region holds the grade
/// `t`: no common neighbour dominates `e` there.
#[verifier::opaque]
pub open spec fn all_regions_hold(
    a: Seq<Map<usize, OneCriticalGrade>>,
    e: FilteredEdge,
    t: OneCriticalGrade,
) -> bool {
    forall|w: usize|
        #[trigger] common_map(a, e.edge.0, e.edge.1).dom().contains(w) ==> region_grade_answer(
            closed_edge_map(a, e),
            dominator_nbhd(a, e, w),
            t,
        )
}

/// Whether no common neighbour's non-domination region is empty.
#[verifier::opaque]
pub open spec fn no_region_is_empty(
    a: Seq<Map<usize, OneCriticalGrade>>,
    e: FilteredEdge,
) -> bool {
    forall|w: usize|
        #[trigger] common_map(a, e.edge.0, e.edge.1).dom().contains(w) ==> !region_empty(
            closed_edge_map(a, e),
            dominator_nbhd(a, e, w),
        )
}

/// Whether `regions` lists, entry by entry, the non-domination regions of
/// the common neighbours listed by `cn`.
#[verifier::opaque]
pub open spec fn regions_match_all(
    regions: Seq<NonDominationRegion>,
    cn: Seq<(usize, OneCriticalGrade)>,
    a: Seq<Map<usize, OneCriticalGrade>>,
    e: FilteredEdge,
) -> bool {
    &&& regions.len() == cn.len()
    &&& forall|t: int|
        0 <= t < cn.len() ==> region_matches(
            #[trigger] regions[t],
            closed_edge_map(a, e),
            dominator_nbhd(a, e, cn[t].0),
        )
}

/// Whether `e` is filtration-dominated in the graph `a`: some common
/// neighbour acquires the whole edge neighbourhood the moment it arrives,
/// or at every test grade some common neighbour's non-domination region
/// leaves the grade out.
pub open spec fn filtration_dominated(
    a: Seq<Map<usize, OneCriticalGrade>>,
    e: FilteredEdge,
) -> bool {
    dominated_by_empty_region(a, e) || dominated_at_every_grade(a, e)
}

/// Computes the test grades of `edge`: the join-closure of its
/// first-domination grades, possibly with repetitions.
#[verifier::loop_isolation(false)]
#[verifier::rlimit(60)]
#[verifier::spinoff_prover]
pub(crate) fn compute_domination_times(
    edge: &FilteredEdge,
    cn: &Vec<(usize, OneCriticalGrade)>,
    Ghost(a): Ghost<Seq<Map<usize, OneCriticalGrade>>>,
) -> (dt: Vec<OneCriticalGrade>)
    requires
        entry_list_of(cn@, common_map(a, edge.edge.0, edge.edge.1)),
    ensures
        forall|k: int|
            0 <= k < dt@.len() ==> test_grades(a, *edge).contains(#[trigger] dt@[k]),
        forall|t: OneCriticalGrade|
            #[trigger] test_grades(a, *edge).contains(t) ==> exists|k: int|
                0 <= k < dt@.len() && dt@[k] == t,
{
    let ghost cm = common_map(a, edge.edge.0, edge.edge.1);
    let n_neighbours = cn.len();
    let mut first_domination_times: Vec<OneCriticalGrade> = Vec::new();
    first_domination_times.push(edge.grade);
    proof {
        reveal(first_domination_grades);
        assert(first_domination_grades(a, *edge).contains(edge.grade));
    }
    for idx in 0..n_neighbours
        invariant
            first_domination_times@.len() == idx + 1,
            first_domination_times@[0] == edge.grade,
            forall|t: int|
                0 <= t < idx ==> #[trigger] first_domination_times@[t + 1]
                    == edge.grade.spec_join(cn@[t].1),
            forall|t: int|
                0 <= t < first_domination_times@.len()
                    ==> first_domination_grades(a, *edge).contains(
                    #[trigger] first_domination_times@[t],
                ),
    {
        let (_, neigh_value) = cn[idx];
        first_domination_times.push(edge.grade.join(&neigh_value));
        proof {
            reveal(first_domination_grades);
            assert(cm.contains_pair(cn@[idx as int].0, cn@[idx as int].1));
            assert(first_domination_grades(a, *edge).contains(
                edge.grade.spec_join(cn@[idx as int].1),
            ));
        }
    }
    let ghost ft = first_domination_times@;
    proof {
        reveal(first_domination_grades);
        // Every first-domination grade appears in the vector.
        assert forall|t: OneCriticalGrade|
            #[trigger] first_domination_grades(a, *edge).contains(t) implies exists|k: int|
            0 <= k < ft.len() && ft[k] == t by {
            if t == edge.grade {
                assert(ft[0] == t);
            } else {
                let w = choose|w: usize|
                    #[trigger] cm.dom().contains(w) && t == edge.grade.spec_join(cm[w]);
                let t0 = choose|t0: int| 0 <= t0 < cn@.len() && (#[trigger] cn@[t0]).0 == w;
                assert(cm.contains_pair(cn@[t0].0, cn@[t0].1));
                assert(ft[t0 + 1] == t);
            }
        }
    }

    // The join of every pair of first-domination grades; the ghost map
    // remembers at which position each pair's join was put.
    let nf = first_domination_times.len();
    let mut domination_times: Vec<OneCriticalGrade> = Vec::new();
    let ghost mut wit: Map<(int, int), int> = Map::empty();
    for i in 0..nf
        invariant
            nf == ft.len(),
            ft == first_domination_times@,
            forall|k: int|
                0 <= k < domination_times@.len() ==> test_grades(a, *edge).contains(
                    #[trigger] domination_times@[k],
                ),
            forall|i2: int, j2: int|
                0 <= i2 < i && 0 <= j2 < nf ==> 0 <= #[trigger] wit[(i2, j2)]
                    < domination_times@.len() && domination_times@[wit[(i2, j2)]] == ft[
                    i2
                ].spec_join(ft[j2]),
    {
        for j in 0..nf
            invariant
                nf == ft.len(),
                ft == first_domination_times@,
                forall|k: int|
                    0 <= k < domination_times@.len() ==> test_grades(a, *edge).contains(
                        #[trigger] domination_times@[k],
                    ),
                forall|i2: int, j2: int|
                    0 <= i2 < i && 0 <= j2 < nf ==> 0 <= #[trigger] wit[(i2, j2)]
                        < domination_times@.len() && domination_times@[wit[(i2, j2)]] == ft[
                        i2
                    ].spec_join(ft[j2]),
                forall|j2: int|
                    0 <= j2 < j ==> 0 <= #[trigger] wit[(i as int, j2)] < domination_times@.len()
                        && domination_times@[wit[(i as int, j2)]] == ft[i as int].spec_join(
                        ft[j2],
                    ),
        {
            let time = first_domination_times[i];
            let other_time = first_domination_times[j];
            let ghost klen = domination_times@.len() as int;
            domination_times.push(time.join(&other_time));
            proof {
                reveal(test_grades);
                assert(test_grades(a, *edge).contains(ft[i as int].spec_join(ft[j as int])));
                wit = wit.insert((i as int, j as int), klen);
                assert(domination_times@[klen] == ft[i as int].spec_join(ft[j as int]));
            }
        }
    }
    let ghost dt = domination_times@;
    proof {
        reveal(test_grades);
        // Every test grade appears in the vector.
        assert forall|t: OneCriticalGrade| #[trigger] test_grades(a, *edge).contains(t) implies
            exists|k: int| 0 <= k < dt.len() && dt[k] == t by {
            let (t1, t2) = choose|t1: OneCriticalGrade, t2: OneCriticalGrade|
                #[trigger] first_domination_grades(a, *edge).contains(t1)
                    && #[trigger] first_domination_grades(a, *edge).contains(t2) && t
                    == t1.spec_join(t2);
            let i2 = choose|k: int| 0 <= k < ft.len() && ft[k] == t1;
            let j2 = choose|k: int| 0 <= k < ft.len() && ft[k] == t2;
            let k0 = wit[(i2, j2)];
            assert(dt[k0] == t);
        }
    }
    domination_times
}

/// Looks for a common neighbour whose non-domination region leaves the
/// grade out: one that dominates the edge at that grade.
#[verifier::loop_isolation(false)]
#[verifier::rlimit(60)]
#[verifier::spinoff_prover]
fn find_uncontaining_region(
    non_domination_regions: &Vec<NonDominationRegion>,
    cn: &Vec<(usize, OneCriticalGrade)>,
    edge: &FilteredEdge,
    grade: OneCriticalGrade,
    Ghost(a): Ghost<Seq<Map<usize, OneCriticalGrade>>>,
) -> (r: Option<usize>)
    requires
        entry_list_of(cn@, common_map(a, edge.edge.0, edge.edge.1)),
        regions_match_all(non_domination_regions@, cn@, a, *edge),
    ensures
        match r {
            Some(t) => t < cn@.len() && common_map(a, edge.edge.0, edge.edge.1).dom().contains(
                cn@[t as int].0,
            ) && !region_grade_answer(
                closed_edge_map(a, *edge),
                dominator_nbhd(a, *edge, cn@[t as int].0),
                grade,
            ),
            None => all_regions_hold(a, *edge, grade),
        },
{
    proof {
        reveal(regions_match_all);
    }
    let ghost cm = common_map(a, edge.edge.0, edge.edge.1);
    let ghost am = closed_edge_map(a, *edge);
    let nr = non_domination_regions.len();
    let mut t: usize = 0;
    while t < nr
        invariant
            0 <= t <= nr,
            forall|t2: int|
                0 <= t2 < t ==> region_grade_answer(
                    am,
                    dominator_nbhd(a, *edge, (#[trigger] cn@[t2]).0),
                    grade,
                ),
        decreases nr - t,
    {
        let region = &non_domination_regions[t];
        proof {
            reveal(region_matches);
            lemma_region_query_equiv(
                non_domination_regions@[t as int],
                am,
                dominator_nbhd(a, *edge, cn@[t as int].0),
                grade,
            );
            assert(cm.contains_pair(cn@[t as int].0, cn@[t as int].1));
        }
        if !region.contains_point(grade) {
            proof {
                assert(cm.dom().contains(cn@[t as int].0));
            }
            return Some(t);
        }
        t = t + 1;
    }
    proof {
        reveal(all_regions_hold);
        assert forall|w: usize| #[trigger] cm.dom().contains(w) implies region_grade_answer(
            am,
            dominator_nbhd(a, *edge, w),
            grade,
        ) by {
            let t2 = choose|t2: int| 0 <= t2 < cn@.len() && (#[trigger] cn@[t2]).0 == w;
            assert(region_grade_answer(am, dominator_nbhd(a, *edge, cn@[t2].0), grade));
        }
    }
    None
}

/// An empty non-domination region of a common neighbour proves domination.
#[verifier::spinoff_prover]
proof fn lemma_dominated_from_empty_region(
    a: Seq<Map<usize, OneCriticalGrade>>,
    e: FilteredEdge,
    w: usize,
)
    requires
        common_map(a, e.edge.0, e.edge.1).dom().contains(w),
        region_empty(closed_edge_map(a, e), dominator_nbhd(a, e, w)),
    ensures
        filtration_dominated(a, e),
{
    reveal(dominated_by_empty_region);
}

/// A grade list that reaches every test grade, each with a common neighbour
/// whose region leaves it out, proves domination. The sequence `ws` names
/// the dominating neighbour of each grade.
#[verifier::spinoff_prover]
proof fn lemma_dominated_from_grades(
    a: Seq<Map<usize, OneCriticalGrade>>,
    e: FilteredEdge,
    dt: Seq<OneCriticalGrade>,
    ws: Seq<usize>,
)
    requires
        ws.len() == dt.len(),
        forall|t: OneCriticalGrade|
            #[trigger] test_grades(a, e).contains(t) ==> exists|k: int|
                0 <= k < dt.len() && dt[k] == t,
        forall|k: int|
            0 <= k < dt.len() ==> common_map(a, e.edge.0, e.edge.1).dom().contains(
                #[trigger] ws[k],
            ) && !region_grade_answer(
                closed_edge_map(a, e),
                dominator_nbhd(a, e, ws[k]),
                dt[k],
            ),
    ensures
        filtration_dominated(a, e),
{
    reveal(dominated_at_every_grade);
    let cm = common_map(a, e.edge.0, e.edge.1);
    let am = closed_edge_map(a, e);
    assert forall|t: OneCriticalGrade| #[trigger] test_grades(a, e).contains(t) implies exists|
        w: usize,
    |
        #[trigger] cm.dom().contains(w) && !region_grade_answer(
            am,
            dominator_nbhd(a, e, w),
            t,
        ) by {
        let k0 = choose|k: int| 0 <= k < dt.len() && dt[k] == t;
        assert(cm.dom().contains(ws[k0]) && !region_grade_answer(
            am,
            dominator_nbhd(a, e, ws[k0]),
            t,
        ));
    }
}

/// A test grade that every common neighbour's region holds refutes
/// domination, when no region is empty.
#[verifier::spinoff_prover]
proof fn lemma_not_dominated_from_grade(
    a: Seq<Map<usize, OneCriticalGrade>>,
    e: FilteredEdge,
    t: OneCriticalGrade,
)
    requires
        test_grades(a, e).contains(t),
        all_regions_hold(a, e, t),
        no_region_is_empty(a, e),
    ensures
        !filtration_dominated(a, e),
{
    reveal(all_regions_hold);
    reveal(no_region_is_empty);
    let cm = common_map(a, e.edge.0, e.edge.1);
    let am = closed_edge_map(a, e);
    assert(!dominated_by_empty_region(a, e)) by {
        reveal(dominated_by_empty_region);
        if dominated_by_empty_region(a, e) {
            let w0 = choose|w: usize|
                #[trigger] cm.dom().contains(w) && region_empty(am, dominator_nbhd(a, e, w));
            assert(false);
        }
    }
    assert(!dominated_at_every_grade(a, e)) by {
        reveal(dominated_at_every_grade);
        if dominated_at_every_grade(a, e) {
            let w = choose|w: usize|
                #[trigger] cm.dom().contains(w) && !region_grade_answer(
                    am,
                    dominator_nbhd(a, e, w),
                    t,
                );
            assert(false);
        }
    }
}

/// Builds the non-domination region of every common neighbour of `edge`.
/// Returns `None` as soon as one of the regions is empty: that neighbour
/// dominates the edge at every grade.
#[verifier::loop_isolation(false)]
#[verifier::rlimit(60)]
#[verifier::spinoff_prover]
fn build_regions(
    adjacency_matrix: &AdjacencyMatrix,
    edge: &FilteredEdge,
    cn: &Vec<(usize, OneCriticalGrade)>,
) -> (r: Option<Vec<NonDominationRegion>>)
    requires
        adjacency_matrix.wf(),
        edge.edge.0 != edge.edge.1,
        edge.edge.0 < adjacency_matrix@.len(),
        edge.edge.1 < adjacency_matrix@.len(),
        entry_list_of(cn@, common_map(adjacency_matrix@, edge.edge.0, edge.edge.1)),
    ensures
        match r {
            Some(regions) => regions_match_all(regions@, cn@, adjacency_matrix@, *edge)
                && no_region_is_empty(adjacency_matrix@, *edge),
            None => filtration_dominated(adjacency_matrix@, *edge),
        },
{
    let ghost a = adjacency_matrix@;
    let ghost cm = common_map(a, edge.edge.0, edge.edge.1);
    let ghost am = closed_edge_map(a, *edge);
    let n_neighbours = cn.len();
    let mut non_domination_regions: Vec<NonDominationRegion> = Vec::new();
    for idx in 0..n_neighbours
        invariant
            non_domination_regions@.len() == idx,
            forall|t: int|
                0 <= t < idx ==> region_matches(
                    #[trigger] non_domination_regions@[t],
                    am,
                    dominator_nbhd(a, *edge, cn@[t].0),
                ),
            forall|t: int|
                0 <= t < idx ==> !region_empty(am, dominator_nbhd(a, *edge, (#[trigger] cn@[t]).0)),
    {
        let (v, value_v) = cn[idx];
        proof {
            assert(cm.contains_pair(cn@[idx as int].0, cn@[idx as int].1));
            assert(a[edge.edge.0 as int].dom().contains(v));
            adjacency_matrix.lemma_wf_symmetric();
            assert(v < a.len());
        }
        let non_domination_region = calculate_non_domination_region(
            adjacency_matrix,
            edge,
            v,
            value_v,
        );
        proof {
            reveal(region_matches);
            reveal(dominator_nbhd);
            assert(cm[v] == value_v);
            lemma_region_query_equiv(
                non_domination_region,
                am,
                dominator_nbhd(a, *edge, v),
                edge.grade,
            );
        }
        if non_domination_region.is_empty() {
            // The vertex v strongly dominates the edge.
            proof {
                assert(cm.dom().contains(v) && region_empty(am, dominator_nbhd(a, *edge, v)));
                lemma_dominated_from_empty_region(a, *edge, v);
            }
            return None;
        }
        non_domination_regions.push(non_domination_region);
    }
    proof {
        reveal(no_region_is_empty);
        assert forall|w: usize| #[trigger] cm.dom().contains(w) implies !region_empty(
            am,
            dominator_nbhd(a, *edge, w),
        ) by {
            let t = choose|t: int| 0 <= t < cn@.len() && (#[trigger] cn@[t]).0 == w;
            assert(!region_empty(am, dominator_nbhd(a, *edge, cn@[t].0)));
        }
        reveal(regions_match_all);
    }
    Some(non_domination_regions)
}

/// Looks for a test grade that every region holds: a grade at which no
/// common neighbour dominates the edge. When there is none, also names a
/// dominating neighbour for each grade.
#[verifier::loop_isolation(false)]
#[verifier::rlimit(60)]
#[verifier::spinoff_prover]
fn find_fully_covered_grade(
    non_domination_regions: &Vec<NonDominationRegion>,
    cn: &Vec<(usize, OneCriticalGrade)>,
    edge: &FilteredEdge,
    domination_times: &Vec<OneCriticalGrade>,
    Ghost(a): Ghost<Seq<Map<usize, OneCriticalGrade>>>,
) -> (r: (Option<usize>, Ghost<Seq<usize>>))
    requires
        entry_list_of(cn@, common_map(a, edge.edge.0, edge.edge.1)),
        regions_match_all(non_domination_regions@, cn@, a, *edge),
    ensures
        match r.0 {
            Some(k) => k < domination_times@.len() && all_regions_hold(
                a,
                *edge,
                domination_times@[k as int],
            ),
            None => r.1@.len() == domination_times@.len() && forall|k: int|
                0 <= k < domination_times@.len() ==> common_map(
                    a,
                    edge.edge.0,
                    edge.edge.1,
                ).dom().contains(#[trigger] r.1@[k]) && !region_grade_answer(
                    closed_edge_map(a, *edge),
                    dominator_nbhd(a, *edge, r.1@[k]),
                    domination_times@[k],
                ),
        },
{
    let ghost cm = common_map(a, edge.edge.0, edge.edge.1);
    let ghost am = closed_edge_map(a, *edge);
    let ghost dt = domination_times@;
    let ghost mut ws = Seq::<usize>::empty();
    let ndt = domination_times.len();
    for k in 0..ndt
        invariant
            ndt == dt.len(),
            dt == domination_times@,
            ws.len() == k,
            forall|k2: int|
                0 <= k2 < k ==> cm.dom().contains(#[trigger] ws[k2]) && !region_grade_answer(
                    am,
                    dominator_nbhd(a, *edge, ws[k2]),
                    dt[k2],
                ),
    {
        let grade = domination_times[k];
        match find_uncontaining_region(non_domination_regions, cn, edge, grade, Ghost(a)) {
            None => {
                return (Some(k), Ghost(ws));
            },
            Some(t) => {
                proof {
                    ws = ws.push(cn@[t as int].0);
                }
            },
        }
    }
    (None, Ghost(ws))
}

/// Checks whether `edge` is filtration-dominated in the graph held by
/// `adjacency_matrix`.
#[verifier::rlimit(20)]
#[verifier::spinoff_prover]
pub fn is_filtration_dominated(
    adjacency_matrix: &AdjacencyMatrix,
    edge: &FilteredEdge,
) -> (r: bool)
    requires
        adjacency_matrix.wf(),
        edge.edge.0 != edge.edge.1,
        edge.edge.0 < adjacency_matrix@.len(),
        edge.edge.1 < adjacency_matrix@.len(),
    ensures
        r == filtration_dominated(adjacency_matrix@, *edge),
{
    let ghost a = adjacency_matrix@;
    let cn = adjacency_matrix.common_neighbours(edge);

    // Compute regions of non-domination for every vertex in the edge
    // neighbourhood; an empty region proves domination outright.
    let non_domination_regions = match build_regions(adjacency_matrix, edge, &cn) {
        Some(regions) => regions,
        None => {
            return true;
        },
    };

    // Compute all critical grades, where we need to check for domination,
    // and look for one that no common neighbour covers.
    let domination_times = compute_domination_times(edge, &cn, Ghost(a));
    let (uncovered, ws) = find_fully_covered_grade(
        &non_domination_regions,
        &cn,
        edge,
        &domination_times,
        Ghost(a),
    );
    match uncovered {
        Some(k) => {
            proof {
                lemma_not_dominated_from_grade(a, *edge, domination_times@[k as int]);
            }
            false
        },
        None => {
            proof {
                lemma_dominated_from_grades(a, *edge, domination_times@, ws@);
            }
            true
        },
    }
}

/// The survivors of the full removal loop from position `i` on.
pub open spec fn full_reduce_from(
    a: Seq<Map<usize, OneCriticalGrade>>,
    edges: Seq<FilteredEdge>,
    i: int,
) -> Seq<FilteredEdge> {
    reduce_from(|a2, e| filtration_dominated(a2, e), a, edges, i)
}

/// Go through the given edge list, and check each edge for
/// filtration-domination; the dominated ones are removed. The order in
/// which we go through the edges is the given one. Returns a reduced edge
/// list.
#[verifier::spinoff_prover]
pub fn remove_filtration_dominated(edge_list: &mut EdgeList, order: EdgeOrder) -> (r: EdgeList)
    requires
        old(edge_list).wf(),
    ensures
        final(edge_list).wf(),
        final(edge_list).n_vertices == old(edge_list).n_vertices,
        final(edge_list)@.to_multiset() == old(edge_list)@.to_multiset(),
        (order is ReverseLexicographic) ==> crate::edges::sorted_edges(
            crate::edges::SortKind::RevLex,
            final(edge_list)@,
        ),
        (order is Maintain) ==> final(edge_list)@ == old(edge_list)@,
        r.wf(),
        r.n_vertices == old(edge_list).n_vertices,
        r@ == full_reduce_from(
            build_adj(old(edge_list).n_vertices as nat, final(edge_list)@),
            final(edge_list)@,
            0,
        ),
        r@.to_multiset().subset_of(final(edge_list)@.to_multiset()),
{
    remove_filtration_dominated_timed(edge_list, order, None)
}

/// As [`remove_filtration_dominated`], but if we take more than `max_time`
/// nanoseconds then execution stops and a clone of the (possibly re-sorted)
/// input list is returned. If `max_time` is `None` then no timeout is
/// applied.
#[verifier::loop_isolation(false)]
#[verifier::rlimit(60)]
#[verifier::spinoff_prover]
pub fn remove_filtration_dominated_timed(
    edge_list: &mut EdgeList,
    order: EdgeOrder,
    max_time: Option<u64>,
) -> (r: EdgeList)
    requires
        old(edge_list).wf(),
    ensures
        final(edge_list).wf(),
        final(edge_list).n_vertices == old(edge_list).n_vertices,
        final(edge_list)@.to_multiset() == old(edge_list)@.to_multiset(),
        (order is ReverseLexicographic) ==> crate::edges::sorted_edges(
            crate::edges::SortKind::RevLex,
            final(edge_list)@,
        ),
        (order is Maintain) ==> final(edge_list)@ == old(edge_list)@,
        r.wf(),
        r.n_vertices == old(edge_list).n_vertices,
        r@ == full_reduce_from(
            build_adj(old(edge_list).n_vertices as nat, final(edge_list)@),
            final(edge_list)@,
            0,
        ) || (max_time is Some && r@ == final(edge_list)@),
        max_time is None ==> r@ == full_reduce_from(
            build_adj(old(edge_list).n_vertices as nat, final(edge_list)@),
            final(edge_list)@,
            0,
        ),
        r@.to_multiset().subset_of(final(edge_list)@.to_multiset()),
{
    match order {
        EdgeOrder::ReverseLexicographic => {
            edge_list.sort_reverse_lexicographically();
        },
        EdgeOrder::Maintain => {},
    }
    let ghost es = edge_list@;
    let n = edge_list.number_of_vertices();
    let m = edge_list.len();
    let ghost dom_pred = |a2: Seq<Map<usize, OneCriticalGrade>>, e: FilteredEdge|
        filtration_dominated(a2, e);

    let mut adjacency_matrix = AdjacencyMatrix::new(n);
    for i in 0..m
        invariant
            adjacency_matrix.wf(),
            adjacency_matrix@ == build_adj_from(n as nat, es, i as int),
            adjacency_matrix@.len() == n,
    {
        let e = edge_list.edges()[i];
        adjacency_matrix.add_edge(e);
    }
    proof {
        assert(adjacency_matrix@ == build_adj(n as nat, es));
    }

    let mut remaining_edges: Vec<FilteredEdge> = Vec::new();
    let start = clock_now();
    let ghost a0 = adjacency_matrix@;
    for i in 0..m
        invariant
            adjacency_matrix.wf(),
            adjacency_matrix@.len() == n,
            remaining_edges@ + reduce_from(dom_pred, adjacency_matrix@, es, i as int)
                == reduce_from(dom_pred, a0, es, 0),
            forall|t: int|
                0 <= t < remaining_edges@.len() ==> (#[trigger] remaining_edges@[t]).valid(n),
    {
        if let Some(bound) = max_time {
            if elapsed_nanos(&start) > bound {
                let c = edge_list.clone();
                return c;
            }
        }
        let e = edge_list.edges()[i];
        let ghost a_cur = adjacency_matrix@;
        let ghost rem_old = remaining_edges@;
        if is_filtration_dominated(&adjacency_matrix, &e) {
            adjacency_matrix.delete_edge(&e);
            proof {
                assert(adjacency_matrix@ == adj_remove_edge(a_cur, e));
                assert(reduce_from(dom_pred, a_cur, es, i as int) == reduce_from(
                    dom_pred,
                    adjacency_matrix@,
                    es,
                    i + 1,
                ));
            }
        } else {
            remaining_edges.push(e);
            proof {
                assert(reduce_from(dom_pred, a_cur, es, i as int) == seq![e] + reduce_from(
                    dom_pred,
                    a_cur,
                    es,
                    i + 1,
                ));
                assert(remaining_edges@ + reduce_from(dom_pred, a_cur, es, i + 1) =~= rem_old + (
                seq![e] + reduce_from(dom_pred, a_cur, es, i + 1)));
            }
        }
    }
    proof {
        assert(reduce_from(dom_pred, adjacency_matrix@, es, m as int) =~= Seq::<
            FilteredEdge,
        >::empty());
        assert(remaining_edges@ + Seq::<FilteredEdge>::empty() =~= remaining_edges@);
        lemma_reduce_from_subset(dom_pred, a0, es, 0);
        assert(es.subrange(0, es.len() as int) =~= es);
    }
    EdgeList { n_vertices: n, edges: remaining_edges }
}

} // verus!
