use filtration_domination::edges::{BareEdge, FilteredEdge};
use filtration_domination::removal::adjacency::AdjacencyMatrix;
use filtration_domination::removal::full::is_filtration_dominated;
use filtration_domination::removal::full::regions::{add_pair, NonDominationRegion};
use filtration_domination::removal::strong::{is_strongly_filtration_dominated, is_subset};
use filtration_domination::OneCriticalGrade;

fn fe(u: usize, v: usize, g0: u64, g1: u64) -> FilteredEdge {
    FilteredEdge {
        grade: OneCriticalGrade(g0, g1),
        edge: BareEdge(u, v),
    }
}

#[test]
fn add_pair_happy_case() {
    let mut vertical_stripes = Vec::new();
    let mut horizontal_stripes = Vec::new();
    add_pair(
        &mut vertical_stripes,
        &mut horizontal_stripes,
        (OneCriticalGrade(1, 1), OneCriticalGrade(3, 4)),
    );
    assert_eq!(vertical_stripes, vec![((1, 3), 1)]);
    assert_eq!(horizontal_stripes, vec![((1, 4), 1)]);

    let regions = NonDominationRegion::new(vertical_stripes, horizontal_stripes);

    assert!(regions.contains_point(OneCriticalGrade(1, 1)));
    assert!(regions.contains_point(OneCriticalGrade(2, 1)));
    assert!(regions.contains_point(OneCriticalGrade(1, 2)));
    assert!(regions.contains_point(OneCriticalGrade(2, 2)));
    assert!(regions.contains_point(OneCriticalGrade(3, 2)));
    assert!(regions.contains_point(OneCriticalGrade(3, 3)));
    assert!(!regions.contains_point(OneCriticalGrade(3, 4)));
    assert!(!regions.contains_point(OneCriticalGrade(3, 5)));
    assert!(!regions.contains_point(OneCriticalGrade(4, 4)));
    assert!(!regions.contains_point(OneCriticalGrade(10, 10)));
}

#[test]
fn add_pair_empty_case() {
    let mut vertical_stripes = Vec::new();
    let mut horizontal_stripes = Vec::new();
    add_pair(
        &mut vertical_stripes,
        &mut horizontal_stripes,
        (OneCriticalGrade(1, 1), OneCriticalGrade(1, 1)),
    );
    assert!(vertical_stripes.is_empty());
    assert!(horizontal_stripes.is_empty());

    let regions = NonDominationRegion::new(vertical_stripes, horizontal_stripes);
    assert!(!regions.contains_point(OneCriticalGrade(0, 0)));
}

#[test]
fn is_subset_happy_case() {
    let a = vec![
        (0, OneCriticalGrade(2, 1)),
        (10, OneCriticalGrade(2, 3)),
        (20, OneCriticalGrade(4, 5)),
        (30, OneCriticalGrade(3, 4)),
    ];

    let b = vec![
        (0, OneCriticalGrade(2, 1)),
        (1, OneCriticalGrade(2, 1)),
        (2, OneCriticalGrade(2, 1)),
        (10, OneCriticalGrade(1, 1)),
        (15, OneCriticalGrade(2, 3)),
        (16, OneCriticalGrade(2, 3)),
        (20, OneCriticalGrade(3, 5)),
        (24, OneCriticalGrade(4, 5)),
        (30, OneCriticalGrade(3, 2)),
    ];

    assert!(is_subset(&a, &b));
}

#[test]
fn is_not_subset() {
    let a = vec![(0, OneCriticalGrade(2, 1)), (30, OneCriticalGrade(3, 4))];

    let b = vec![
        (0, OneCriticalGrade(2, 1)),
        (1, OneCriticalGrade(2, 1)),
        (2, OneCriticalGrade(2, 1)),
        (10, OneCriticalGrade(1, 1)),
        (15, OneCriticalGrade(2, 3)),
        (16, OneCriticalGrade(2, 3)),
        (20, OneCriticalGrade(3, 5)),
        (24, OneCriticalGrade(4, 5)),
        // The value of 30 is too high.
        (30, OneCriticalGrade(3, 5)),
    ];

    assert!(!is_subset(&a, &b));
}

#[test]
fn closed_edge_neighbours_happy_case() {
    let mut adj = AdjacencyMatrix::new(3);
    let query_edge = fe(0, 1, 2, 2);
    adj.add_edge(query_edge);
    adj.add_edge(fe(0, 2, 1, 2));
    adj.add_edge(fe(1, 2, 2, 3));
    let neighs = adj.closed_neighbours_edge(&query_edge);
    assert_eq!(
        neighs,
        vec![
            (0, OneCriticalGrade(2, 2)),
            (1, OneCriticalGrade(2, 2)),
            (2, OneCriticalGrade(2, 3)),
        ]
    );
}

#[test]
fn closed_edge_neighbours_many() {
    let mut adj = AdjacencyMatrix::new(6);
    let query_edge = fe(0, 1, 2, 2);
    adj.add_edge(query_edge);

    // Add vertex 2 as an edge neighbour.
    adj.add_edge(fe(0, 2, 1, 2));
    adj.add_edge(fe(1, 2, 2, 3));

    // Add vertex 3 as an edge neighbour.
    adj.add_edge(fe(0, 3, 4, 5));
    adj.add_edge(fe(1, 3, 5, 4));

    // Add vertex 4 as an edge neighbour.
    adj.add_edge(fe(0, 4, 1, 1));
    adj.add_edge(fe(1, 4, 0, 0));

    // Vertex 5 is NOT an edge neighbour.
    adj.add_edge(fe(1, 5, 0, 0));

    let neighs = adj.closed_neighbours_edge(&query_edge);
    assert_eq!(
        neighs,
        vec![
            (0, OneCriticalGrade(2, 2)),
            (1, OneCriticalGrade(2, 2)),
            (2, OneCriticalGrade(2, 3)),
            (3, OneCriticalGrade(5, 5)),
            (4, OneCriticalGrade(2, 2)),
        ]
    );
}

#[test]
fn closed_neighbours_many() {
    let mut adj = AdjacencyMatrix::new(6);
    adj.add_edge(fe(0, 1, 2, 2));

    // Connect vertex 2 to 0 and 1.
    adj.add_edge(fe(0, 2, 1, 2));
    adj.add_edge(fe(1, 2, 2, 3));

    // Connect vertex 3 to 0 and 1.
    adj.add_edge(fe(0, 3, 4, 5));
    adj.add_edge(fe(1, 3, 5, 4));

    // Connect vertex 4 to 0 and 1.
    adj.add_edge(fe(0, 4, 1, 1));
    adj.add_edge(fe(1, 4, 0, 0));

    // Connect vertex 5 only to 0.
    adj.add_edge(fe(0, 5, 0, 0));

    let neighs = adj.closed_neighbours(1, OneCriticalGrade(10, 10));
    assert_eq!(
        neighs,
        vec![
            (0, OneCriticalGrade(2, 2)),
            (1, OneCriticalGrade(10, 10)),
            (2, OneCriticalGrade(2, 3)),
            (3, OneCriticalGrade(5, 4)),
            (4, OneCriticalGrade(0, 0)),
        ]
    );
}

#[test]
fn strongly_filtration_dominated_happy_case() {
    let mut adj = AdjacencyMatrix::new(6);
    let query_edge = fe(0, 1, 2, 2);
    adj.add_edge(query_edge);

    // Add 2 to the edge neighborhood at grade [2, 2].
    adj.add_edge(fe(0, 2, 1, 2));
    adj.add_edge(fe(1, 2, 2, 1));

    // Add 3 to the edge neighborhood at grade [4, 4].
    adj.add_edge(fe(0, 3, 4, 3));
    adj.add_edge(fe(1, 3, 3, 4));

    // Connect 2 to 3 when 3 appears.
    adj.add_edge(fe(3, 2, 4, 4));

    assert!(is_strongly_filtration_dominated(&adj, &query_edge));
}

#[test]
fn not_strongly_filtration_dominated() {
    let mut adj = AdjacencyMatrix::new(6);
    let query_edge = fe(0, 1, 2, 2);
    adj.add_edge(query_edge);

    // Add 2 to the edge neighborhood at grade [2, 2].
    adj.add_edge(fe(0, 2, 1, 2));
    adj.add_edge(fe(1, 2, 2, 1));

    // Add 3 to the edge neighborhood at grade [4, 4].
    adj.add_edge(fe(0, 3, 4, 3));
    adj.add_edge(fe(1, 3, 3, 4));

    // Connect 2 to 3 after 3 appears.
    adj.add_edge(fe(3, 2, 5, 5));

    assert!(!is_strongly_filtration_dominated(&adj, &query_edge));
}

#[test]
fn filtration_dominated_but_not_strongly() {
    // The edge {0, 1} appears at (0, 0) with the common neighbours 2 and 3.
    // Vertex 4 arrives at (1, 0) and is never seen by 2; vertex 5 arrives
    // at (0, 1) and is never seen by 3; vertex 6 sees everything, but only
    // from (1, 1) on. No single vertex dominates at every grade, yet at
    // every test grade some vertex does: 2 at (0, 0) and (0, 1), 3 at
    // (1, 0), and 6 at (1, 1).
    let mut adj = AdjacencyMatrix::new(7);
    let query_edge = fe(0, 1, 0, 0);
    adj.add_edge(query_edge);

    adj.add_edge(fe(0, 2, 0, 0));
    adj.add_edge(fe(1, 2, 0, 0));
    adj.add_edge(fe(0, 3, 0, 0));
    adj.add_edge(fe(1, 3, 0, 0));
    adj.add_edge(fe(2, 3, 0, 0));

    adj.add_edge(fe(0, 4, 1, 0));
    adj.add_edge(fe(1, 4, 1, 0));
    adj.add_edge(fe(3, 4, 1, 0));

    adj.add_edge(fe(0, 5, 0, 1));
    adj.add_edge(fe(1, 5, 0, 1));
    adj.add_edge(fe(2, 5, 0, 1));

    adj.add_edge(fe(0, 6, 1, 1));
    adj.add_edge(fe(1, 6, 1, 1));
    adj.add_edge(fe(2, 6, 1, 1));
    adj.add_edge(fe(3, 6, 1, 1));
    adj.add_edge(fe(4, 6, 1, 1));
    adj.add_edge(fe(5, 6, 1, 1));

    assert!(!is_strongly_filtration_dominated(&adj, &query_edge));
    assert!(is_filtration_dominated(&adj, &query_edge));
}
