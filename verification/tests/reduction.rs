use filtration_domination::edges::{BareEdge, EdgeList, FilteredEdge};
use filtration_domination::removal::full::remove_filtration_dominated;
use filtration_domination::removal::naive::edge_collapse_naive;
use filtration_domination::removal::utils::count_isolated_edges;
use filtration_domination::removal::strong::{remove_strongly_filtration_dominated, remove_strongly_filtration_dominated_timed};
use filtration_domination::removal::EdgeOrder;
use filtration_domination::OneCriticalGrade;

fn fe(u: usize, v: usize, g0: u64, g1: u64) -> FilteredEdge {
    FilteredEdge {
        grade: OneCriticalGrade(g0, g1),
        edge: BareEdge(u, v),
    }
}

#[test]
fn triangle_strong_reduction() {
    // A triangle at a single grade: one edge is strongly dominated by the
    // opposite vertex.
    let mut edges = EdgeList::from_iterator(vec![
        fe(0, 1, 0, 0),
        fe(0, 2, 0, 0),
        fe(1, 2, 0, 0),
    ]);
    let remaining = remove_strongly_filtration_dominated(&mut edges, EdgeOrder::ReverseLexicographic);
    assert_eq!(remaining.len(), 2);
    assert_eq!(remaining.number_of_vertices(), 3);
}

#[test]
fn square_with_diagonal_strong_reduction() {
    // A square with one diagonal: in reverse lexicographic order the edges
    // {2, 3} and then {1, 2} are strongly dominated by vertex 0, and the
    // remaining edges form a star on vertex 0.
    let mut edges = EdgeList::from_iterator(vec![
        fe(0, 1, 0, 0),
        fe(1, 2, 0, 0),
        fe(2, 3, 0, 0),
        fe(3, 0, 0, 0),
        fe(0, 2, 0, 0),
    ]);
    let remaining = remove_strongly_filtration_dominated(&mut edges, EdgeOrder::ReverseLexicographic);
    assert_eq!(remaining.len(), 3);
    assert_eq!(remaining.number_of_vertices(), 4);
}

#[test]
fn timeout_returns_input() {
    let mut edges = EdgeList::new(0);
    for u in 0..30usize {
        for v in (u + 1)..30usize {
            edges.add_edge(fe(u, v, (u + v) as u64, (u * v) as u64));
        }
    }
    let n = edges.len();
    let remaining = remove_strongly_filtration_dominated_timed(
        &mut edges,
        EdgeOrder::ReverseLexicographic,
        Some(0),
    );
    // With a zero budget the driver commits no reduction: the (re-sorted)
    // input comes back unchanged.
    assert_eq!(remaining.len(), n);
    assert_eq!(remaining.edges(), edges.edges());
}

#[test]
fn triangle_full_reduction() {
    // The full test removes an edge of the triangle through the empty-region
    // shortcut, as the strong test does.
    let mut edges = EdgeList::from_iterator(vec![
        fe(0, 1, 0, 0),
        fe(0, 2, 0, 0),
        fe(1, 2, 0, 0),
    ]);
    let remaining = remove_filtration_dominated(&mut edges, EdgeOrder::ReverseLexicographic);
    assert_eq!(remaining.len(), 2);
    assert_eq!(remaining.number_of_vertices(), 3);
}

#[test]
fn full_graph_reductions() {
    // On a complete graph with mixed grades, the full test removes at least
    // as many edges as the strong test, and both reductions are idempotent.
    let mut seed: u64 = 7;
    let mut all_edges: Vec<FilteredEdge> = Vec::new();
    for u in 0..7usize {
        for v in (u + 1)..7usize {
            seed = seed.wrapping_mul(6364136223846793005).wrapping_add(1442695040888963407);
            let g0 = seed >> 58;
            seed = seed.wrapping_mul(6364136223846793005).wrapping_add(1442695040888963407);
            let g1 = seed >> 58;
            all_edges.push(fe(u, v, g0, g1));
        }
    }

    let mut for_strong = EdgeList::from_iterator(all_edges.clone());
    let strong_remaining =
        remove_strongly_filtration_dominated(&mut for_strong, EdgeOrder::ReverseLexicographic);

    let mut for_full = EdgeList::from_iterator(all_edges);
    let full_remaining = remove_filtration_dominated(&mut for_full, EdgeOrder::ReverseLexicographic);

    assert!(full_remaining.len() <= strong_remaining.len());

    let mut strong_again = strong_remaining.clone();
    let strong_twice =
        remove_strongly_filtration_dominated(&mut strong_again, EdgeOrder::ReverseLexicographic);
    assert_eq!(strong_twice.edges(), strong_remaining.edges());

    let mut full_again = full_remaining.clone();
    let full_twice = remove_filtration_dominated(&mut full_again, EdgeOrder::ReverseLexicographic);
    assert_eq!(full_twice.edges(), full_remaining.edges());
}

#[test]
fn triangle_naive_reduction() {
    let mut edges = EdgeList::from_iterator(vec![
        fe(0, 1, 0, 0),
        fe(0, 2, 0, 0),
        fe(1, 2, 0, 0),
    ]);
    let remaining = edge_collapse_naive(&mut edges, EdgeOrder::ReverseLexicographic);
    assert_eq!(remaining.len(), 2);
    assert_eq!(remaining.number_of_vertices(), 3);
}

#[test]
fn naive_agrees_with_full() {
    // The naive per-grade check and the region-based check remove the same
    // edges.
    let mut seed: u64 = 3;
    let mut all_edges: Vec<FilteredEdge> = Vec::new();
    for u in 0..7usize {
        for v in (u + 1)..7usize {
            seed = seed.wrapping_mul(6364136223846793005).wrapping_add(1442695040888963407);
            let g0 = seed >> 58;
            seed = seed.wrapping_mul(6364136223846793005).wrapping_add(1442695040888963407);
            let g1 = seed >> 58;
            all_edges.push(fe(u, v, g0, g1));
        }
    }
    let mut for_naive = EdgeList::from_iterator(all_edges.clone());
    let naive_remaining = edge_collapse_naive(&mut for_naive, EdgeOrder::ReverseLexicographic);
    let mut for_full = EdgeList::from_iterator(all_edges);
    let full_remaining = remove_filtration_dominated(&mut for_full, EdgeOrder::ReverseLexicographic);
    assert_eq!(naive_remaining.edges(), full_remaining.edges());
}

#[test]
fn count_isolated_edges_triangle() {
    // In a full triangle at one grade no edge is isolated, and every edge is
    // dominated the moment it appears.
    let edges = EdgeList::from_iterator(vec![
        fe(0, 1, 0, 0),
        fe(0, 2, 0, 0),
        fe(1, 2, 0, 0),
    ]);
    let (isolated, dominated) = count_isolated_edges(&edges);
    assert_eq!(isolated, 0);
    assert_eq!(dominated, 3);
}

#[test]
fn count_isolated_edges_late_neighbour() {
    // The edge {0, 1} appears before its only common neighbour does, so it
    // is isolated at its own grade and not dominated there.
    let edges = EdgeList::from_iterator(vec![
        fe(0, 1, 0, 0),
        fe(0, 2, 1, 1),
        fe(1, 2, 1, 1),
    ]);
    let (isolated, dominated) = count_isolated_edges(&edges);
    assert_eq!(isolated, 1);
    assert_eq!(dominated, 2);
}
