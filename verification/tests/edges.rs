use filtration_domination::edges::{
    read_edge_list, write_edge_list, BareEdge, EdgeList, EdgeReadError, FilteredEdge,
};
use filtration_domination::io_utils::ParseError;
use filtration_domination::OneCriticalGrade;

fn sorting_test_dataset() -> EdgeList {
    EdgeList::from_iterator(vec![
        FilteredEdge {
            grade: OneCriticalGrade(1, 1),
            edge: BareEdge(0, 1),
        },
        FilteredEdge {
            grade: OneCriticalGrade(2, 2),
            edge: BareEdge(5, 3),
        },
        FilteredEdge {
            grade: OneCriticalGrade(2, 1),
            edge: BareEdge(0, 3),
        },
        FilteredEdge {
            grade: OneCriticalGrade(1, 2),
            edge: BareEdge(2, 1),
        },
    ])
}

fn grades(edges: &EdgeList) -> Vec<OneCriticalGrade> {
    edges.edges().iter().map(|e| e.grade).collect()
}

#[test]
fn edge_list_lexicographic_order() {
    let mut edges = sorting_test_dataset();
    edges.sort_lexicographically();
    let expected_grades = vec![
        OneCriticalGrade(1, 1),
        OneCriticalGrade(1, 2),
        OneCriticalGrade(2, 1),
        OneCriticalGrade(2, 2),
    ];
    assert_eq!(grades(&edges), expected_grades);
}

#[test]
fn edge_list_reverse_lexicographic_order() {
    let mut edges = sorting_test_dataset();
    edges.sort_reverse_lexicographically();
    let expected_grades = vec![
        OneCriticalGrade(2, 2),
        OneCriticalGrade(2, 1),
        OneCriticalGrade(1, 2),
        OneCriticalGrade(1, 1),
    ];
    assert_eq!(grades(&edges), expected_grades);
}

#[test]
fn edge_list_colexicographic_order() {
    let mut edges = sorting_test_dataset();
    edges.sort_colexicographically();
    let expected_grades = vec![
        OneCriticalGrade(1, 1),
        OneCriticalGrade(2, 1),
        OneCriticalGrade(1, 2),
        OneCriticalGrade(2, 2),
    ];
    assert_eq!(grades(&edges), expected_grades);
}

#[test]
fn edge_list_reverse_colexicographic_order() {
    let mut edges = sorting_test_dataset();
    edges.sort_reverse_colexicographically();
    let expected_grades = vec![
        OneCriticalGrade(2, 2),
        OneCriticalGrade(1, 2),
        OneCriticalGrade(2, 1),
        OneCriticalGrade(1, 1),
    ];
    assert_eq!(grades(&edges), expected_grades);
}

#[test]
fn write_edge_list_text() {
    let edges = EdgeList::from_iterator(vec![
        FilteredEdge {
            grade: OneCriticalGrade(0, 12),
            edge: BareEdge(0, 1),
        },
        FilteredEdge {
            grade: OneCriticalGrade(3, 4),
            edge: BareEdge(2, 10),
        },
    ]);
    let with_count = String::from_utf8(write_edge_list(&edges, true)).unwrap();
    assert_eq!(with_count, "2\n0 1 0 12\n2 10 3 4\n");
    let without_count = String::from_utf8(write_edge_list(&edges, false)).unwrap();
    assert_eq!(without_count, "0 1 0 12\n2 10 3 4\n");
}

#[test]
fn read_edge_list_text() {
    let with_count = b"2\n0 1 0 12\n2 10 3 4\n".to_vec();
    let el = read_edge_list(&with_count).unwrap();
    assert_eq!(el.len(), 2);
    assert_eq!(el.number_of_vertices(), 11);
    assert_eq!(el.edges()[0].edge, BareEdge(0, 1));
    assert_eq!(el.edges()[0].grade, OneCriticalGrade(0, 12));
    assert_eq!(el.edges()[1].edge, BareEdge(2, 10));
    assert_eq!(el.edges()[1].grade, OneCriticalGrade(3, 4));

    // The count line may be absent.
    let without_count = b"0 1 0 12\n2 10 3 4\n".to_vec();
    let el2 = read_edge_list(&without_count).unwrap();
    assert_eq!(el2.edges(), el.edges());
}

#[test]
fn read_edge_list_faults() {
    assert_eq!(
        read_edge_list(&b"0 1 0\n".to_vec()).unwrap_err(),
        EdgeReadError::WrongShape
    );
    assert_eq!(
        read_edge_list(&b"3 3 0 0\n".to_vec()).unwrap_err(),
        EdgeReadError::InvalidEdge
    );
    assert_eq!(
        read_edge_list(&b"0 x 0 0\n".to_vec()).unwrap_err(),
        EdgeReadError::Parse(ParseError::InvalidDigit)
    );
    assert!(read_edge_list(&b"".to_vec()).unwrap().is_empty());
}

#[test]
fn edge_list_text_round_trip() {
    let edges = EdgeList::from_iterator(vec![
        FilteredEdge {
            grade: OneCriticalGrade(7, 0),
            edge: BareEdge(5, 3),
        },
        FilteredEdge {
            grade: OneCriticalGrade(1, 2),
            edge: BareEdge(0, 4),
        },
    ]);
    let text = write_edge_list(&edges, true);
    let back = read_edge_list(&text).unwrap();
    assert_eq!(back.edges(), edges.edges());
    let text2 = write_edge_list(&edges, false);
    let back2 = read_edge_list(&text2).unwrap();
    assert_eq!(back2.edges(), edges.edges());
}
