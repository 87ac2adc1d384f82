use mst_gen::{squared_distance, Edge, Point, PointSet};

#[test]
fn new_set_is_empty() {
    let set = PointSet::new();
    assert_eq!(set.len(), 0);
}

#[test]
fn insert_hands_out_sequential_indices() {
    let mut set = PointSet::new();
    assert_eq!(set.insert((4, -2)), 0);
    assert_eq!(set.insert((0, 0)), 1);
    assert_eq!(set.insert((4, -2)), 2);
    assert_eq!(set.len(), 3);
}

#[test]
fn get_returns_what_was_inserted() {
    let mut set = PointSet::new();
    set.insert((7, 9));
    set.insert((-3, 12));
    assert_eq!(set.get(0), (7, 9));
    assert_eq!(set.get(1), (-3, 12));
}

#[test]
fn insert_leaves_earlier_points_alone() {
    let mut set = PointSet::new();
    set.insert((1, 2));
    set.insert((3, 4));
    let before = (set.get(0), set.get(1));
    set.insert((5, 6));
    assert_eq!((set.get(0), set.get(1)), before);
    assert_eq!(set.get(2), (5, 6));
}

#[test]
fn point_carries_its_index() {
    let mut set = PointSet::new();
    set.insert((10, 20));
    set.insert((30, 40));
    assert_eq!(set.point(0), Point { index: 0, x: 10, y: 20 });
    assert_eq!(set.point(1), Point { index: 1, x: 30, y: 40 });
}

#[test]
fn squared_distance_of_a_3_4_5_triangle() {
    assert_eq!(squared_distance((0, 0), (3, 4)), 25);
    assert_eq!(squared_distance((3, 4), (0, 0)), 25);
    assert_eq!(squared_distance((-1, -1), (2, 3)), 25);
}

#[test]
fn squared_distance_to_itself_is_zero() {
    assert_eq!(squared_distance((17, -40), (17, -40)), 0);
}

#[test]
fn squared_distance_across_the_whole_grid() {
    let far = squared_distance((i32::MIN, i32::MIN), (i32::MAX, i32::MAX));
    let side: u128 = (1u128 << 32) - 1;
    assert_eq!(far, 2 * side * side);
    assert_eq!(far, 36893488130239234050u128);
}

#[test]
fn edge_new_measures_the_pair() {
    let mut set = PointSet::new();
    set.insert((0, 0));
    set.insert((6, 8));
    let edge = Edge::new(0, 1, &set);
    assert_eq!(edge, Edge { from: 0, to: 1, weight: 100 });
    assert_eq!((edge.weight as f64).sqrt(), 10.0);
    let back = Edge::new(1, 0, &set);
    assert_eq!(back, Edge { from: 1, to: 0, weight: 100 });
    let own = Edge::new(1, 1, &set);
    assert_eq!(own, Edge { from: 1, to: 1, weight: 0 });
}

#[test]
fn lighter_edge_goes_first() {
    let light = Edge { from: 5, to: 6, weight: 1 };
    let heavy = Edge { from: 0, to: 1, weight: 2 };
    assert!(light.is_before(&heavy));
    assert!(!heavy.is_before(&light));
}

#[test]
fn equal_weights_go_by_index_pair() {
    let a = Edge { from: 0, to: 3, weight: 9 };
    let b = Edge { from: 1, to: 2, weight: 9 };
    let c = Edge { from: 1, to: 4, weight: 9 };
    assert!(a.is_before(&b));
    assert!(b.is_before(&c));
    assert!(a.is_before(&c));
    assert!(!c.is_before(&b));
    assert!(!b.is_before(&a));
}

#[test]
fn no_edge_goes_before_itself() {
    let a = Edge { from: 2, to: 3, weight: 4 };
    assert!(!a.is_before(&a));
}
