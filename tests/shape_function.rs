use floorplan::geometry::{ModuleNode, Rectangle};
use floorplan::shape_function::ShapeFunction;

#[test]
fn test_duplicates() {
    let mut sf: ShapeFunction = ShapeFunction::default();
    sf.add(Rectangle::new(1, 1));
    sf.add(Rectangle::new(1, 1));
    sf.add(Rectangle::new(1, 1));
    assert_eq!(sf.points, vec![Rectangle::new(1, 1)]);
}

#[test]
fn test_pareto_points_1() {
    let mut sf: ShapeFunction = ShapeFunction::default();
    sf.add(Rectangle::new(1, 1));
    sf.add(Rectangle::new(2, 1));
    sf.add(Rectangle::new(3, 1));
    assert_eq!(sf.points, vec![Rectangle::new(1, 1)]);
}

#[test]
fn test_pareto_points_2() {
    let mut sf: ShapeFunction = ShapeFunction::default();
    sf.add(Rectangle::new(1, 5));
    sf.add(Rectangle::new(2, 4));
    sf.add(Rectangle::new(3, 3));
    sf.add(Rectangle::new(4, 2));
    sf.add(Rectangle::new(5, 1));

    sf.add(Rectangle::new(2, 5));
    sf.add(Rectangle::new(3, 4));
    sf.add(Rectangle::new(4, 3));
    sf.add(Rectangle::new(5, 2));
    sf.add(Rectangle::new(6, 1));

    sf.add(Rectangle::new(1, 6));
    sf.add(Rectangle::new(2, 5));
    sf.add(Rectangle::new(3, 4));
    sf.add(Rectangle::new(4, 3));
    sf.add(Rectangle::new(5, 2));
    assert_eq!(sf.points, vec![
        Rectangle::new(1, 5),
        Rectangle::new(2, 4),
        Rectangle::new(3, 3),
        Rectangle::new(4, 2),
        Rectangle::new(5, 1),
    ]);
}

#[test]
fn add_replaces_every_dominated_point() {
    let mut sf = ShapeFunction::default();
    sf.add(Rectangle::new(5, 1));
    sf.add(Rectangle::new(4, 2));
    sf.add(Rectangle::new(3, 3));
    sf.add(Rectangle::new(2, 4));
    // fits inside all but the first point
    sf.add(Rectangle::new(2, 2));
    assert_eq!(sf.points, vec![Rectangle::new(5, 1), Rectangle::new(2, 2)]);
}

#[test]
fn add_keeps_no_two_comparable_points() {
    let mut sf = ShapeFunction::default();
    let shapes = [(3, 9), (9, 3), (4, 4), (5, 5), (1, 10), (10, 1), (4, 4), (2, 6), (6, 2), (3, 3)];
    for (w, h) in shapes.iter() {
        sf.add(Rectangle::new(*w, *h));
    }
    for i in 0..sf.points.len() {
        for j in 0..sf.points.len() {
            if i != j {
                let a = sf.points[i];
                let b = sf.points[j];
                assert!(!(a.width <= b.width && a.height <= b.height));
            }
        }
    }
    let mut got: Vec<(u64, u64)> = sf.points.iter().map(|r| (r.width, r.height)).collect();
    got.sort();
    assert_eq!(got, vec![(1, 10), (2, 6), (3, 3), (6, 2), (10, 1)]);
}

#[test]
fn combine_single_points_vertical_and_horizontal() {
    let mut a = ShapeFunction::default();
    a.add(Rectangle::new(4, 6));
    let mut b = ShapeFunction::default();
    b.add(Rectangle::new(4, 4));
    let v = ShapeFunction::combine(&a, &b, ModuleNode::V());
    assert_eq!(v.points, vec![Rectangle::new(8, 6)]);
    let h = ShapeFunction::combine(&a, &b, ModuleNode::H());
    assert_eq!(h.points, vec![Rectangle::new(4, 10)]);
}

#[test]
fn combine_filters_dominated_products() {
    let mut a = ShapeFunction::default();
    a.add(Rectangle::new(4, 6));
    a.add(Rectangle::new(6, 4));
    let mut b = ShapeFunction::default();
    b.add(Rectangle::new(4, 4));
    let v = ShapeFunction::combine(&a, &b, ModuleNode::V());
    // (8,6) and (10,4) are incomparable
    assert_eq!(v.points, vec![Rectangle::new(8, 6), Rectangle::new(10, 4)]);
    let h = ShapeFunction::combine(&a, &b, ModuleNode::H());
    assert_eq!(h.points, vec![Rectangle::new(4, 10), Rectangle::new(6, 8)]);
}

#[test]
fn reconstruct_finds_the_pair() {
    let mut a = ShapeFunction::default();
    a.add(Rectangle::new(4, 6));
    a.add(Rectangle::new(6, 4));
    let mut b = ShapeFunction::default();
    b.add(Rectangle::new(3, 4));
    b.add(Rectangle::new(4, 3));
    let r = ShapeFunction::reconstruct(&a, &b, ModuleNode::V(), &Rectangle::new(10, 4));
    assert_eq!(r, Some((Rectangle::new(6, 4), Rectangle::new(4, 3))));
    let none = ShapeFunction::reconstruct(&a, &b, ModuleNode::V(), &Rectangle::new(11, 4));
    assert_eq!(none, None);
}
