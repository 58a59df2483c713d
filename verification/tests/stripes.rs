use filtration_domination::removal::full::stripes::Stripes;

#[test]
fn stripes_happy_case() {
    let stripes = Stripes::new(vec![((0, 10), 5)]);

    assert!(stripes.contains_point((5, 5)));
    assert!(stripes.contains_point((1, 5)));
    assert!(stripes.contains_point((0, 5)));
    assert!(stripes.contains_point((3, 50)));

    assert!(!stripes.contains_point((5, 4)));
    assert!(!stripes.contains_point((1, 4)));
    assert!(!stripes.contains_point((0, 4)));
    assert!(!stripes.contains_point((10, 5)));
}

#[test]
fn stripes_start_same_time() {
    let stripes = Stripes::new(vec![((0, 1), 1), ((0, 2), 2), ((0, 3), 3), ((0, 4), 4)]);

    assert!(stripes.contains_point((0, 1)));
    assert!(stripes.contains_point((1, 2)));
    assert!(stripes.contains_point((2, 3)));
    assert!(stripes.contains_point((3, 4)));

    assert!(!stripes.contains_point((1, 1)));
    assert!(!stripes.contains_point((2, 2)));
    assert!(!stripes.contains_point((3, 3)));
    assert!(!stripes.contains_point((4, 4)));
}

#[test]
fn stripes_consecutive() {
    let stripes = Stripes::new(vec![((0, 10), 5), ((10, 20), 4)]);

    assert!(stripes.contains_point((5, 5)));
    assert!(stripes.contains_point((1, 5)));
    assert!(stripes.contains_point((0, 5)));
    assert!(stripes.contains_point((3, 50)));
    assert!(stripes.contains_point((10, 5)));
    assert!(stripes.contains_point((10, 4)));

    assert!(!stripes.contains_point((5, 4)));
    assert!(!stripes.contains_point((1, 4)));
    assert!(!stripes.contains_point((0, 4)));
    assert!(!stripes.contains_point((20, 5)));
}

#[test]
fn stripes_overlap() {
    let stripes = Stripes::new(vec![((0, 10), 5), ((5, 10), 4)]);

    assert!(stripes.contains_point((5, 5)));
    assert!(stripes.contains_point((5, 4)));
    assert!(stripes.contains_point((1, 5)));
    assert!(stripes.contains_point((0, 5)));
    assert!(stripes.contains_point((3, 50)));
    assert!(stripes.contains_point((9, 4)));

    assert!(!stripes.contains_point((1, 4)));
    assert!(!stripes.contains_point((4, 4)));
    assert!(!stripes.contains_point((10, 4)));
}
