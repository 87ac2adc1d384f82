use mst_gen::{squared_distance, Edge, MstBuilder, PointSet};

fn set_of(coordinates: &[(i32, i32)]) -> PointSet {
    let mut set = PointSet::new();
    for c in coordinates {
        set.insert(*c);
    }
    set
}

fn total(edges: &[Edge]) -> u128 {
    edges.iter().map(|e| e.weight).sum()
}

fn length(edges: &[Edge]) -> f64 {
    edges.iter().map(|e| (e.weight as f64).sqrt()).sum()
}

fn root_of(parent: &mut Vec<usize>, v: usize) -> usize {
    let mut at = v;
    while parent[at] != at {
        parent[at] = parent[parent[at]];
        at = parent[at];
    }
    at
}

/// Whether `pairs` are `n - 1` links that join `0..n` without a cycle.
fn is_tree(n: usize, pairs: &[(usize, usize)]) -> bool {
    if n == 0 {
        return pairs.is_empty();
    }
    if pairs.len() != n - 1 {
        return false;
    }
    let mut parent: Vec<usize> = (0..n).collect();
    for &(a, b) in pairs {
        if a >= n || b >= n {
            return false;
        }
        let ra = root_of(&mut parent, a);
        let rb = root_of(&mut parent, b);
        if ra == rb {
            return false;
        }
        parent[ra] = rb;
    }
    true
}

/// The least total squared weight and the least total length over all
/// spanning trees, by trying every choice of `n - 1` pairs.
fn cheapest_by_enumeration(coordinates: &[(i32, i32)]) -> (u128, f64) {
    let n = coordinates.len();
    let mut all = Vec::new();
    for a in 0..n {
        for b in (a + 1)..n {
            all.push((a, b));
        }
    }
    let mut best: Option<u128> = None;
    let mut shortest = f64::INFINITY;
    for mask in 0u32..(1u32 << all.len()) {
        if mask.count_ones() as usize + 1 != n {
            continue;
        }
        let chosen: Vec<(usize, usize)> =
            (0..all.len()).filter(|i| mask & (1 << i) != 0).map(|i| all[i]).collect();
        if !is_tree(n, &chosen) {
            continue;
        }
        let mut sum: u128 = 0;
        let mut len = 0.0f64;
        for &(a, b) in &chosen {
            let d = squared_distance(coordinates[a], coordinates[b]);
            sum += d;
            len += (d as f64).sqrt();
        }
        best = Some(best.map_or(sum, |m| m.min(sum)));
        if len < shortest {
            shortest = len;
        }
    }
    (best.unwrap(), shortest)
}

fn pairs_of(edges: &[Edge]) -> Vec<(usize, usize)> {
    edges.iter().map(|e| (e.from, e.to)).collect()
}

const SAMPLES: [&[(i32, i32)]; 8] = [
    &[(0, 0)],
    &[(0, 0), (10, 0)],
    &[(0, 0), (10, 0), (5, 5)],
    &[(0, 0), (1, 0), (0, 1), (1, 1)],
    &[(3, 3), (3, 3), (3, 3), (3, 3)],
    &[(0, 0), (100, 0), (50, 1), (50, -1), (25, 40)],
    &[(-7, 2), (4, 4), (0, -9), (12, 5), (-3, -3), (8, -1)],
    &[(0, 0), (2, 0), (4, 0), (6, 0), (1, 1), (5, 1)],
];

#[test]
fn no_points_no_edges() {
    let set = PointSet::new();
    assert_eq!(MstBuilder::build(&set), vec![]);
}

#[test]
fn one_point_no_edges() {
    let set = set_of(&[(0, 0)]);
    assert_eq!(MstBuilder::build(&set), vec![]);
}

#[test]
fn two_points_one_edge() {
    let set = set_of(&[(0, 0), (10, 0)]);
    let edges = MstBuilder::build(&set);
    assert_eq!(edges, vec![Edge { from: 0, to: 1, weight: 100 }]);
    assert_eq!((edges[0].weight as f64).sqrt(), 10.0);
}

#[test]
fn three_points_take_the_two_shortest_pairs() {
    let coordinates = [(0, 0), (10, 0), (5, 5)];
    let set = set_of(&coordinates);
    let edges = MstBuilder::build(&set);
    assert_eq!(
        edges,
        vec![Edge { from: 0, to: 2, weight: 50 }, Edge { from: 2, to: 1, weight: 50 }]
    );
    let d01 = 100.0f64.sqrt();
    let d02 = 50.0f64.sqrt();
    let d12 = 50.0f64.sqrt();
    let least = (d01 + d02).min(d01 + d12).min(d02 + d12);
    assert!((length(&edges) - least).abs() < 1e-9);
    assert_eq!(total(&edges), 100);
}

#[test]
fn duplicate_point_is_joined_at_no_cost() {
    let set = set_of(&[(0, 0), (3, 4), (3, 4)]);
    let edges = MstBuilder::build(&set);
    assert_eq!(
        edges,
        vec![Edge { from: 0, to: 1, weight: 25 }, Edge { from: 1, to: 2, weight: 0 }]
    );
    assert_eq!((edges[1].weight as f64).sqrt(), 0.0);
    assert!(is_tree(3, &pairs_of(&edges)));
}

#[test]
fn duplicate_of_the_root_is_joined_first() {
    let set = set_of(&[(5, 5), (9, 9), (5, 5)]);
    let edges = MstBuilder::build(&set);
    assert_eq!(
        edges,
        vec![Edge { from: 0, to: 2, weight: 0 }, Edge { from: 0, to: 1, weight: 32 }]
    );
}

#[test]
fn all_points_in_one_place() {
    let set = set_of(&[(3, 3), (3, 3), (3, 3), (3, 3)]);
    let edges = MstBuilder::build(&set);
    assert_eq!(
        edges,
        vec![
            Edge { from: 0, to: 1, weight: 0 },
            Edge { from: 0, to: 2, weight: 0 },
            Edge { from: 0, to: 3, weight: 0 },
        ]
    );
}

#[test]
fn ties_on_a_square_are_broken_by_index_pair() {
    let set = set_of(&[(0, 0), (1, 0), (0, 1), (1, 1)]);
    let edges = MstBuilder::build(&set);
    assert_eq!(
        edges,
        vec![
            Edge { from: 0, to: 1, weight: 1 },
            Edge { from: 0, to: 2, weight: 1 },
            Edge { from: 1, to: 3, weight: 1 },
        ]
    );
}

#[test]
fn edges_come_in_the_order_they_joined_the_tree() {
    let set = set_of(&[(0, 0), (10, 0), (11, 0), (1, 0)]);
    let edges = MstBuilder::build(&set);
    assert_eq!(
        edges,
        vec![
            Edge { from: 0, to: 3, weight: 1 },
            Edge { from: 3, to: 1, weight: 81 },
            Edge { from: 1, to: 2, weight: 1 },
        ]
    );
}

#[test]
fn result_is_a_spanning_tree() {
    for coordinates in SAMPLES {
        let set = set_of(coordinates);
        let edges = MstBuilder::build(&set);
        assert_eq!(edges.len(), coordinates.len() - 1);
        assert!(is_tree(coordinates.len(), &pairs_of(&edges)));
        for e in &edges {
            assert_ne!(e.from, e.to);
            assert_eq!(e.weight, squared_distance(coordinates[e.from], coordinates[e.to]));
        }
    }
}

#[test]
fn every_edge_leaves_the_tree_grown_so_far() {
    for coordinates in SAMPLES {
        let set = set_of(coordinates);
        let edges = MstBuilder::build(&set);
        let mut inside = vec![false; coordinates.len()];
        inside[0] = true;
        for e in &edges {
            assert!(inside[e.from]);
            assert!(!inside[e.to]);
            inside[e.to] = true;
        }
        assert!(inside.iter().all(|b| *b));
    }
}

#[test]
fn result_is_as_light_as_any_spanning_tree() {
    for coordinates in SAMPLES {
        let set = set_of(coordinates);
        let edges = MstBuilder::build(&set);
        let (least, shortest) = cheapest_by_enumeration(coordinates);
        assert_eq!(total(&edges), least);
        assert!((length(&edges) - shortest).abs() < 1e-9);
    }
}

#[test]
fn building_twice_gives_the_same_edges() {
    for coordinates in SAMPLES {
        let set = set_of(coordinates);
        let first = MstBuilder::build(&set);
        let second = MstBuilder::build(&set);
        assert_eq!(first, second);
        let again = set_of(coordinates);
        assert_eq!(MstBuilder::build(&again), first);
    }
}

#[test]
fn one_more_point_costs_at_most_its_link_to_the_old_tree() {
    let extra = [(0, 0), (7, 7), (-20, 3), (50, 0), (1, 1)];
    for coordinates in SAMPLES {
        for point in extra {
            let mut set = set_of(coordinates);
            let before = MstBuilder::build(&set);
            set.insert(point);
            let after = MstBuilder::build(&set);
            for anchor in 0..coordinates.len() {
                let hang = squared_distance(coordinates[anchor], point);
                assert!(total(&after) <= total(&before) + hang);
            }
        }
    }
}

#[test]
fn rebuilding_after_each_insertion() {
    let mut set = PointSet::new();
    assert_eq!(MstBuilder::build(&set), vec![]);
    set.insert((0, 0));
    assert_eq!(MstBuilder::build(&set), vec![]);
    set.insert((0, 10));
    assert_eq!(MstBuilder::build(&set), vec![Edge { from: 0, to: 1, weight: 100 }]);
    set.insert((0, 4));
    assert_eq!(
        MstBuilder::build(&set),
        vec![Edge { from: 0, to: 2, weight: 16 }, Edge { from: 2, to: 1, weight: 36 }]
    );
}

#[test]
fn far_corners_of_the_grid() {
    let set = set_of(&[(i32::MIN, i32::MIN), (i32::MAX, i32::MAX), (i32::MIN, i32::MAX)]);
    let edges = MstBuilder::build(&set);
    let side: u128 = (1u128 << 32) - 1;
    assert_eq!(
        edges,
        vec![
            Edge { from: 0, to: 2, weight: side * side },
            Edge { from: 2, to: 1, weight: side * side },
        ]
    );
}

#[test]
fn a_larger_set_is_spanned() {
    let mut coordinates = Vec::new();
    let mut state: u64 = 99;
    for _ in 0..60 {
        state = state.wrapping_mul(6364136223846793005).wrapping_add(1442695040888963407);
        let x = ((state >> 33) % 1000) as i32 - 500;
        state = state.wrapping_mul(6364136223846793005).wrapping_add(1442695040888963407);
        let y = ((state >> 33) % 1000) as i32 - 500;
        coordinates.push((x, y));
    }
    let set = set_of(&coordinates);
    let edges = MstBuilder::build(&set);
    assert_eq!(edges.len(), 59);
    assert!(is_tree(60, &pairs_of(&edges)));
    for e in &edges {
        let mut across = u128::MAX;
        let mut inside = vec![false; 60];
        inside[0] = true;
        for earlier in &edges {
            if earlier == e {
                break;
            }
            inside[earlier.to] = true;
        }
        for a in 0..60 {
            for b in 0..60 {
                if inside[a] && !inside[b] {
                    across = across.min(squared_distance(coordinates[a], coordinates[b]));
                }
            }
        }
        assert_eq!(e.weight, across);
    }
}
