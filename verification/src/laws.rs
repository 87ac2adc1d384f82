use crate::graph::{
    acyclic, adjacent, connects, is_closed_trail, is_spanning_tree, is_walk, joins,
    lemma_connects_through_root, lemma_linked_adjacent, lemma_linked_reflexive,
    lemma_linked_in_extension, lemma_linked_symmetric, lemma_linked_transitive,
    lemma_total_keeps, lemma_total_push, lemma_total_remove, lemma_weight_of_joined,
    link_weight, linked, monotone, at_weight, spans, total_cost, total_weight, within, Cost,
};
use crate::geometry::{dist_sq, lemma_dist_sq_symmetric};
use crate::edge::Edge;
use crate::mst::{
    in_tree, is_least_crossing, is_prim_tree, lemma_in_tree_prefix, lemma_weight_sum_is_total,
    links_of, ranks_before, weight_sum, weighted,
};
use vstd::prelude::*;
use vstd::set_lib::{lemma_int_range, lemma_subset_equality, set_int_range};

verus! {

/// A point of the tree stays in it as the tree grows.
pub proof fn lemma_in_tree_grows(links: Seq<(int, int)>, j: int, k: int, v: int)
    requires
        j <= k,
        in_tree(links, j, v),
    ensures
        in_tree(links, k, v),
{
    if v != 0 {
        let at = choose|at: int| 0 <= at < j && (#[trigger] links[at]).1 == v;
        assert(links[at].1 == v);
    }
}

/// Both ends of a link belong to the tree from the step after it.
pub proof fn lemma_link_inside(pts: Seq<(int, int)>, links: Seq<(int, int)>, j: int, k: int)
    requires
        0 <= j < k <= links.len(),
        is_least_crossing(pts, links, j),
    ensures
        in_tree(links, k, links[j].0),
        in_tree(links, k, links[j].1),
{
    lemma_in_tree_grows(links, j, k, links[j].0);
    assert(links[j].1 == links[j].1);
}

/// Every point of the tree grown by the first `m` links is linked to the
/// root, in any graph that starts with those links.
pub proof fn lemma_tree_linked(
    pts: Seq<(int, int)>,
    links: Seq<(int, int)>,
    m: int,
    graph: Seq<(int, int)>,
    v: int,
)
    requires
        0 <= m <= links.len(),
        m <= graph.len(),
        forall|j: int| 0 <= j < m ==> graph[j] == links[j],
        forall|k: int| 0 <= k < m ==> is_least_crossing(pts, links, k),
        in_tree(links, m, v),
    ensures
        linked(graph, 0, v),
    decreases m,
{
    if v == 0 {
        lemma_linked_reflexive(graph, 0);
    } else {
        let j = choose|j: int| 0 <= j < m && (#[trigger] links[j]).1 == v;
        let u = links[j].0;
        assert(is_least_crossing(pts, links, j));
        lemma_tree_linked(pts, links, j, graph, u);
        assert(joins(graph[j], u, v));
        assert(adjacent(graph, u, v));
        lemma_linked_adjacent(graph, u, v);
        lemma_linked_transitive(graph, 0, u, v);
    }
}

/// The indices that belong to the tree grown by the first `k` links.
pub open spec fn tree_set(links: Seq<(int, int)>, k: int) -> Set<int> {
    Set::new(|v: int| in_tree(links, k, v))
}

/// The tree grown by `k` links has `k + 1` points, all of them indices of
/// the point set.
proof fn lemma_tree_size(pts: Seq<(int, int)>, links: Seq<(int, int)>, k: int)
    requires
        pts.len() >= 1,
        0 <= k <= links.len(),
        forall|j: int| 0 <= j < k ==> is_least_crossing(pts, links, j),
    ensures
        tree_set(links, k).finite(),
        tree_set(links, k).len() == k + 1,
        tree_set(links, k).subset_of(set_int_range(0, pts.len() as int)),
    decreases k,
{
    if k == 0 {
        assert(tree_set(links, 0) =~= Set::<int>::empty().insert(0));
    } else {
        lemma_tree_size(pts, links, k - 1);
        let v = links[k - 1].1;
        assert(is_least_crossing(pts, links, k - 1));
        assert forall|x: int| in_tree(links, k, x) <==> (in_tree(links, k - 1, x) || x == v) by {
            if in_tree(links, k, x) && x != 0 {
                let at = choose|at: int| 0 <= at < k && (#[trigger] links[at]).1 == x;
                if at < k - 1 {
                    assert(in_tree(links, k - 1, x));
                }
            }
            if in_tree(links, k - 1, x) {
                lemma_in_tree_grows(links, k - 1, k, x);
            }
            if x == v {
                assert(links[k - 1].1 == x);
            }
        }
        assert(tree_set(links, k) =~= tree_set(links, k - 1).insert(v));
    }
}

/// The finished tree has taken in every point.
pub proof fn lemma_tree_takes_all(pts: Seq<(int, int)>, links: Seq<(int, int)>)
    requires
        is_prim_tree(pts, links),
    ensures
        forall|v: int| 0 <= v < pts.len() ==> in_tree(links, links.len() as int, v),
{
    if pts.len() >= 1 {
        let n = pts.len() as int;
        let all = set_int_range(0, n);
        let tree = tree_set(links, links.len() as int);
        lemma_tree_size(pts, links, links.len() as int);
        lemma_int_range(0, n);
        lemma_subset_equality(tree, all);
        assert forall|v: int| 0 <= v < n implies in_tree(links, links.len() as int, v) by {
            assert(all.contains(v));
            assert(tree.contains(v));
        }
    }
}

/// Every point but the root joins the tree exactly once: some link leads to
/// it, no two links lead to the same point, and none leads to the root.
pub proof fn lemma_each_point_joins_once(pts: Seq<(int, int)>, links: Seq<(int, int)>, v: int)
    requires
        is_prim_tree(pts, links),
        0 <= v < pts.len(),
    ensures
        v != 0 ==> exists|k: int| 0 <= k < links.len() && (#[trigger] links[k]).1 == v,
        forall|j: int, k: int|
            0 <= j < k < links.len() ==> (#[trigger] links[j]).1 != (#[trigger] links[k]).1,
        forall|k: int| 0 <= k < links.len() ==> (#[trigger] links[k]).1 != 0,
{
    lemma_tree_takes_all(pts, links);
    assert(in_tree(links, links.len() as int, v));
    assert forall|j: int, k: int| 0 <= j < k < links.len() implies (#[trigger] links[j]).1 != (
    #[trigger] links[k]).1 by {
        assert(is_least_crossing(pts, links, k));
    }
    assert forall|k: int| 0 <= k < links.len() implies (#[trigger] links[k]).1 != 0 by {
        assert(is_least_crossing(pts, links, k));
    }
}

/// Some step of a trail uses a link that no other step's link comes after.
proof fn lemma_latest_step(steps: Seq<int>, hi: int) -> (p: int)
    requires
        0 < hi <= steps.len(),
    ensures
        0 <= p < hi,
        forall|i: int| 0 <= i < hi ==> steps[i] <= steps[p],
    decreases hi,
{
    if hi == 1 {
        0
    } else {
        let q = lemma_latest_step(steps, hi - 1);
        if steps[hi - 1] > steps[q] {
            hi - 1
        } else {
            q
        }
    }
}

/// No round trip is possible in a tree grown link by link: the latest link
/// of the trip reaches a point that no other link of the trip touches.
proof fn lemma_no_closed_trail(
    pts: Seq<(int, int)>,
    links: Seq<(int, int)>,
    steps: Seq<int>,
    stops: Seq<int>,
)
    requires
        forall|k: int| 0 <= k < links.len() ==> is_least_crossing(pts, links, k),
    ensures
        !is_closed_trail(links, steps, stops),
{
    if is_closed_trail(links, steps, stops) {
        let m = steps.len() as int;
        let p = lemma_latest_step(steps, m);
        let k = steps[p];
        let v = links[k].1;
        assert(is_least_crossing(pts, links, k));
        assert(joins(links[k], stops[p], stops[p + 1]));
        assert(links[k].0 != v);
        if m == 1 {
            assert(stops[0] == stops[1]);
            assert(false);
        } else {
            let q = if stops[p + 1] == v {
                if p + 1 < m {
                    p + 1
                } else {
                    0
                }
            } else {
                if p > 0 {
                    p - 1
                } else {
                    m - 1
                }
            };
            assert(q != p);
            assert(0 <= q < m);
            let j = steps[q];
            assert(joins(links[j], stops[q], stops[q + 1]));
            assert(links[j].0 == v || links[j].1 == v);
            assert(j <= k);
            assert(j != k) by {
                if q < p {
                    assert(steps[q] != steps[p]);
                } else {
                    assert(steps[p] != steps[q]);
                }
            }
            assert(is_least_crossing(pts, links, j));
            lemma_link_inside(pts, links, j, k);
            assert(false);
        }
    }
}

/// What the builder returns joins all points into one tree.
///
/// For a set of `n >= 1` points, a tree grown as [`is_prim_tree`] describes
/// has exactly `n - 1` links, links any two of the `n` indices, and holds no
/// cycle.
pub proof fn lemma_prim_tree_spans(pts: Seq<(int, int)>, links: Seq<(int, int)>)
    requires
        is_prim_tree(pts, links),
        pts.len() >= 1,
    ensures
        is_spanning_tree(links, pts.len()),
{
    let n = pts.len();
    assert(within(links, n)) by {
        assert forall|i: int| 0 <= i < links.len() implies 0 <= (#[trigger] links[i]).0 < n && 0
            <= links[i].1 < n by {
            assert(is_least_crossing(pts, links, i));
        }
    }
    lemma_tree_takes_all(pts, links);
    assert forall|v: int| 0 <= v < n implies #[trigger] linked(links, 0, v) by {
        lemma_tree_linked(pts, links, links.len() as int, links, v);
    }
    lemma_connects_through_root(links, n);
    assert(acyclic(links)) by {
        assert forall|steps: Seq<int>, stops: Seq<int>| !#[trigger] is_closed_trail(
            links,
            steps,
            stops,
        ) by {
            lemma_no_closed_trail(pts, links, steps, stops);
        }
    }
}

/// A point that lies where another point of the tree already lies joins the
/// tree at no cost.
///
/// If link `k` leads to a point at the same position as a point `twin`
/// that the tree has taken in before, then link `k` has weight zero.
pub proof fn lemma_duplicate_joins_free(
    pts: Seq<(int, int)>,
    links: Seq<(int, int)>,
    k: int,
    twin: int,
)
    requires
        is_prim_tree(pts, links),
        0 <= k < links.len(),
        0 <= twin < pts.len(),
        in_tree(links, k, twin),
        pts[twin] == pts[links[k].1],
    ensures
        link_weight(pts, links[k]) == 0,
{
    assert(is_least_crossing(pts, links, k));
    lemma_dist_sq_symmetric(pts[twin], pts[twin]);
    assert(!ranks_before(pts, (twin, links[k].1), links[k]));
}

/// Two trees grown over the same points agree on their first `k` links.
proof fn lemma_same_prefix(pts: Seq<(int, int)>, a: Seq<(int, int)>, b: Seq<(int, int)>, k: int)
    requires
        is_prim_tree(pts, a),
        is_prim_tree(pts, b),
        0 <= k <= a.len(),
    ensures
        forall|j: int| 0 <= j < k ==> a[j] == b[j],
    decreases k,
{
    if k > 0 {
        let m = k - 1;
        lemma_same_prefix(pts, a, b, m);
        assert(is_least_crossing(pts, a, m));
        assert(is_least_crossing(pts, b, m));
        lemma_in_tree_prefix(a, b, m, a[m].0);
        lemma_in_tree_prefix(a, b, m, a[m].1);
        lemma_in_tree_prefix(a, b, m, b[m].0);
        lemma_in_tree_prefix(a, b, m, b[m].1);
        assert(!ranks_before(pts, (a[m].0, a[m].1), b[m]));
        assert(!ranks_before(pts, (b[m].0, b[m].1), a[m]));
        assert(a[m] == b[m]);
    }
}

/// The builder's answer is determined by the points alone.
///
/// Whatever two runs over the same points return, they return the same
/// links in the same order: at every step the link to take is fixed by the
/// trial order, ties included.
pub proof fn lemma_prim_tree_unique(pts: Seq<(int, int)>, a: Seq<(int, int)>, b: Seq<(int, int)>)
    requires
        is_prim_tree(pts, a),
        is_prim_tree(pts, b),
    ensures
        a == b,
{
    lemma_same_prefix(pts, a, b, a.len() as int);
    assert(a =~= b);
}

/// Whatever `graph` joins, `next` joins too, but perhaps for the two points
/// that `spare` joins.
spec fn carries(graph: Seq<(int, int)>, next: Seq<(int, int)>, spare: (int, int)) -> bool {
    forall|x: int, y: int| #[trigger]
        adjacent(graph, x, y) && !joins(spare, x, y) ==> adjacent(next, x, y)
}

/// The first place at which a walk that reaches the tree is inside it.
proof fn lemma_first_inside(links: Seq<(int, int)>, m: int, walk: Seq<int>, hi: int) -> (i: int)
    requires
        0 <= hi < walk.len(),
        in_tree(links, m, walk[hi]),
    ensures
        0 <= i <= hi,
        in_tree(links, m, walk[i]),
        forall|j: int| 0 <= j < i ==> !in_tree(links, m, #[trigger] walk[j]),
    decreases hi,
{
    if exists|j: int| 0 <= j < hi && in_tree(links, m, #[trigger] walk[j]) {
        let j = choose|j: int| 0 <= j < hi && in_tree(links, m, #[trigger] walk[j]);
        lemma_first_inside(links, m, walk, j)
    } else {
        hi
    }
}

/// The part of a walk that stays outside the tree uses no link that touches
/// the tree, so it is still a walk once such a link has been taken out.
proof fn lemma_outside_prefix(
    links: Seq<(int, int)>,
    m: int,
    graph: Seq<(int, int)>,
    next: Seq<(int, int)>,
    spare: (int, int),
    walk: Seq<int>,
    i: int,
)
    requires
        is_walk(graph, walk),
        1 <= i < walk.len(),
        forall|j: int| 0 <= j < i ==> !in_tree(links, m, #[trigger] walk[j]),
        carries(graph, next, spare),
        in_tree(links, m, spare.0) || in_tree(links, m, spare.1),
    ensures
        is_walk(next, walk.take(i)),
        linked(next, walk[0], walk[i - 1]),
{
    let part = walk.take(i);
    assert forall|j: int| 0 <= j < part.len() - 1 implies adjacent(
        next,
        #[trigger] part[j],
        part[j + 1],
    ) by {
        assert(adjacent(graph, walk[j], walk[j + 1]));
        assert(!in_tree(links, m, walk[j]));
        assert(!in_tree(links, m, walk[j + 1]));
        assert(!joins(spare, walk[j], walk[j + 1]));
    }
    assert(is_walk(next, part));
}

/// Putting link `m` of the tree in, and taking one link of the remainder
/// out, keeps every other link in place.
proof fn lemma_swap_carries(links: Seq<(int, int)>, m: int, prior: Seq<(int, int)>, r: int)
    requires
        0 <= m < links.len(),
        0 <= r < prior.len(),
    ensures
        carries(links.take(m) + prior, links.take(m + 1) + prior.remove(r), prior[r]),
        adjacent(links.take(m + 1) + prior.remove(r), links[m].0, links[m].1),
        forall|j: int| 0 <= j <= m ==> (links.take(m + 1) + prior.remove(r))[j] == links[j],
{
    let graph = links.take(m) + prior;
    let next = links.take(m + 1) + prior.remove(r);
    let spare = prior[r];
    assert forall|x: int, y: int| #[trigger]
        adjacent(graph, x, y) && !joins(spare, x, y) implies adjacent(next, x, y) by {
        let at = choose|at: int| 0 <= at < graph.len() && joins(#[trigger] graph[at], x, y);
        if at < m {
            assert(next[at] == graph[at]);
            assert(joins(next[at], x, y));
        } else {
            let from = at - m;
            assert(graph[at] == prior[from]);
            assert(from != r);
            let to = if from < r {
                m + 1 + from
            } else {
                m + from
            };
            assert(next[to] == prior[from]);
            assert(joins(next[to], x, y));
        }
    }
    assert(next[m] == links[m]);
    assert(joins(next[m], links[m].0, links[m].1));
}

/// After the exchange every point still reaches the root: along its old way
/// as far as the tree, or else through the point `b` where the link that was
/// taken out left the tree.
proof fn lemma_reaches_root(
    pts: Seq<(int, int)>,
    links: Seq<(int, int)>,
    m: int,
    graph: Seq<(int, int)>,
    next: Seq<(int, int)>,
    spare: (int, int),
    a: int,
    b: int,
    z: int,
)
    requires
        0 <= m <= links.len(),
        m <= next.len(),
        forall|j: int| 0 <= j < m ==> next[j] == links[j],
        forall|k: int| 0 <= k < m ==> is_least_crossing(pts, links, k),
        carries(graph, next, spare),
        joins(spare, a, b),
        in_tree(links, m, a),
        !in_tree(links, m, b),
        linked(next, 0, b),
        linked(graph, z, 0),
    ensures
        linked(next, 0, z),
{
    let walk = choose|walk: Seq<int>| #[trigger]
        is_walk(graph, walk) && walk.first() == z && walk.last() == 0;
    let i = lemma_first_inside(links, m, walk, walk.len() - 1);
    if i == 0 {
        lemma_tree_linked(pts, links, m, next, z);
    } else {
        lemma_outside_prefix(links, m, graph, next, spare, walk, i);
        let x = walk[i - 1];
        let y = walk[i];
        assert(linked(next, z, x));
        assert(adjacent(graph, x, y));
        if joins(spare, x, y) {
            assert(x == b);
            lemma_linked_symmetric(next, z, b);
            lemma_linked_transitive(next, 0, b, z);
        } else {
            assert(adjacent(next, x, y));
            lemma_linked_adjacent(next, x, y);
            lemma_linked_transitive(next, z, x, y);
            lemma_tree_linked(pts, links, m, next, y);
            lemma_linked_symmetric(next, z, y);
            lemma_linked_transitive(next, 0, y, z);
        }
    }
}

/// Any links that span the points can be turned, one exchange at a time,
/// into links that start with the first `k` links of the tree, without ever
/// gaining weight. Returns what follows those `k` links.
proof fn lemma_exchange(
    cost: Cost,
    pts: Seq<(int, int)>,
    links: Seq<(int, int)>,
    other: Seq<(int, int)>,
    k: int,
) -> (rest: Seq<(int, int)>)
    requires
        monotone(cost),
        is_prim_tree(pts, links),
        pts.len() >= 1,
        spans(other, pts.len()),
        0 <= k <= links.len(),
    ensures
        spans(links.take(k) + rest, pts.len()),
        total_cost(cost, pts, links.take(k)) + total_cost(cost, pts, rest) <= total_cost(
            cost,
            pts,
            other,
        ),
    decreases k,
{
    let n = pts.len();
    if k == 0 {
        assert(links.take(0) + other =~= other);
        other
    } else {
        let m = k - 1;
        let prior = lemma_exchange(cost, pts, links, other, m);
        let graph = links.take(m) + prior;
        let link = links[m];
        let u = link.0;
        let v = link.1;
        assert(is_least_crossing(pts, links, m));
        assert(linked(graph, v, 0));
        let walk = choose|walk: Seq<int>| #[trigger]
            is_walk(graph, walk) && walk.first() == v && walk.last() == 0;
        let i = lemma_first_inside(links, m, walk, walk.len() - 1);
        let b = walk[i - 1];
        let a = walk[i];
        assert(adjacent(graph, b, a));
        let at = choose|at: int| 0 <= at < graph.len() && joins(#[trigger] graph[at], b, a);
        if at < m {
            assert(graph[at] == links[at]);
            assert(is_least_crossing(pts, links, at));
            lemma_link_inside(pts, links, at, m);
            assert(false);
        }
        let r = at - m;
        let spare = prior[r];
        assert(spare == graph[at]);
        let rest = prior.remove(r);
        let next = links.take(k) + rest;

        assert(within(next, n)) by {
            assert forall|j: int| 0 <= j < next.len() implies 0 <= (#[trigger] next[j]).0 < n && 0
                <= next[j].1 < n by {
                if j < k {
                    assert(is_least_crossing(pts, links, j));
                } else {
                    let from = j - k;
                    let back = if from < r {
                        m + from
                    } else {
                        m + from + 1
                    };
                    assert(next[j] == graph[back]);
                }
            }
        }

        assert(total_cost(cost, pts, links.take(k)) + total_cost(cost, pts, rest) <= total_cost(
            cost,
            pts,
            other,
        )) by {
            lemma_total_remove(cost, pts, prior, r);
            assert(links.take(k) =~= links.take(m).push(link));
            lemma_total_push(cost, pts, links.take(m), link);
            lemma_weight_of_joined(pts, spare, a, b);
            assert(0 <= a < n && 0 <= b < n);
            assert(!ranks_before(pts, (a, b), link));
            assert(link_weight(pts, link) <= link_weight(pts, spare));
            assert(cost(link_weight(pts, link)) <= cost(link_weight(pts, spare)));
        }

        assert(connects(next, n)) by {
            lemma_swap_carries(links, m, prior, r);
            lemma_tree_linked(pts, links, m, next, u);
            lemma_linked_adjacent(next, u, v);
            lemma_linked_transitive(next, 0, u, v);
            lemma_outside_prefix(links, m, graph, next, spare, walk, i);
            lemma_linked_transitive(next, 0, v, b);
            assert forall|z: int| 0 <= z < n implies #[trigger] linked(next, 0, z) by {
                assert(linked(graph, z, 0));
                lemma_reaches_root(pts, links, m, graph, next, spare, a, b, z);
            }
            lemma_connects_through_root(next, n);
        }
        rest
    }
}

/// What the builder returns costs no more than any other way of joining
/// the points, however links are charged for, as long as a longer link is
/// never charged less than a shorter one.
///
/// The length of a link, in whatever unit and however rounded, is such a
/// charge on its squared length. So the tree is the shortest by total length
/// as well as by total squared length.
pub proof fn lemma_prim_tree_cheapest(
    cost: Cost,
    pts: Seq<(int, int)>,
    links: Seq<(int, int)>,
    other: Seq<(int, int)>,
)
    requires
        monotone(cost),
        is_prim_tree(pts, links),
        spans(other, pts.len()),
    ensures
        total_cost(cost, pts, links) <= total_cost(cost, pts, other),
{
    if pts.len() >= 1 {
        let rest = lemma_exchange(cost, pts, links, other, links.len() as int);
        assert(links.take(links.len() as int) =~= links);
    }
}

/// What the builder returns weighs no more than any other way of joining
/// the points.
///
/// Whatever links leave no two of the points apart, be they a tree or not,
/// weigh in total at least as much as the tree grown as [`is_prim_tree`]
/// describes.
pub proof fn lemma_prim_tree_minimal(
    pts: Seq<(int, int)>,
    links: Seq<(int, int)>,
    other: Seq<(int, int)>,
)
    requires
        is_prim_tree(pts, links),
        spans(other, pts.len()),
    ensures
        total_weight(pts, links) <= total_weight(pts, other),
{
    lemma_prim_tree_cheapest(at_weight(), pts, links, other);
}

/// Inserting a point and rebuilding never costs more than hanging the new
/// point onto the old tree.
///
/// `before` is the tree over `pts`, `after` the tree once `point` has been
/// inserted; `anchor` is any of the old points. The new tree weighs at most
/// what the old tree weighs together with the link from `anchor` to the new
/// point.
pub proof fn lemma_growth_bounded(
    pts: Seq<(int, int)>,
    point: (int, int),
    before: Seq<(int, int)>,
    after: Seq<(int, int)>,
    anchor: int,
)
    requires
        is_prim_tree(pts, before),
        is_prim_tree(pts.push(point), after),
        0 <= anchor < pts.len(),
    ensures
        total_weight(pts.push(point), after) <= total_weight(pts, before) + dist_sq(
            pts[anchor],
            point,
        ),
{
    let n = pts.len();
    let more = pts.push(point);
    let hang = (anchor, n as int);
    let naive = before.push(hang);
    lemma_prim_tree_spans(pts, before);
    assert(within(naive, n + 1)) by {
        assert forall|i: int| 0 <= i < naive.len() implies 0 <= (#[trigger] naive[i]).0 < n + 1
            && 0 <= naive[i].1 < n + 1 by {
            if i < before.len() {
                assert(naive[i] == before[i]);
            }
        }
    }
    assert forall|v: int| 0 <= v < n + 1 implies #[trigger] linked(naive, 0, v) by {
        if v < n {
            assert(linked(before, 0, v));
            lemma_linked_in_extension(before, naive, 0, v);
        } else {
            assert(linked(before, 0, anchor));
            lemma_linked_in_extension(before, naive, 0, anchor);
            assert(joins(naive[before.len() as int], anchor, v));
            assert(adjacent(naive, anchor, v));
            lemma_linked_adjacent(naive, anchor, v);
            lemma_linked_transitive(naive, 0, anchor, v);
        }
    }
    lemma_connects_through_root(naive, n + 1);
    lemma_prim_tree_minimal(more, after, naive);
    lemma_total_push(at_weight(), more, before, hang);
    lemma_total_keeps(at_weight(), pts, more, before);
}

/// Two runs of the builder over the same points return the same edges in
/// the same order, weights included.
pub proof fn lemma_edges_determined(pts: Seq<(int, int)>, first: Seq<Edge>, second: Seq<Edge>)
    requires
        is_prim_tree(pts, links_of(first)),
        weighted(pts, first),
        is_prim_tree(pts, links_of(second)),
        weighted(pts, second),
    ensures
        first == second,
{
    lemma_prim_tree_unique(pts, links_of(first), links_of(second));
    assert(first.len() == links_of(first).len());
    assert(second.len() == links_of(second).len());
    assert forall|k: int| 0 <= k < first.len() implies first[k] == second[k] by {
        assert(links_of(first)[k] == links_of(second)[k]);
    }
    assert(first =~= second);
}

/// The weights of the edges that the builder returns add up to no more than
/// the total weight of any links that span the points.
pub proof fn lemma_edges_minimal(pts: Seq<(int, int)>, edges: Seq<Edge>, other: Seq<(int, int)>)
    requires
        is_prim_tree(pts, links_of(edges)),
        weighted(pts, edges),
        spans(other, pts.len()),
    ensures
        weight_sum(edges) <= total_weight(pts, other),
{
    lemma_weight_sum_is_total(pts, edges);
    lemma_prim_tree_minimal(pts, links_of(edges), other);
}

/// After one more point is inserted, the edges of the rebuilt tree weigh at
/// most what the edges of the old tree weigh together with the squared
/// distance from the new point to any one of the old points.
pub proof fn lemma_edges_growth_bounded(
    pts: Seq<(int, int)>,
    point: (int, int),
    before: Seq<Edge>,
    after: Seq<Edge>,
    anchor: int,
)
    requires
        is_prim_tree(pts, links_of(before)),
        weighted(pts, before),
        is_prim_tree(pts.push(point), links_of(after)),
        weighted(pts.push(point), after),
        0 <= anchor < pts.len(),
    ensures
        weight_sum(after) <= weight_sum(before) + dist_sq(pts[anchor], point),
{
    lemma_weight_sum_is_total(pts, before);
    lemma_weight_sum_is_total(pts.push(point), after);
    lemma_growth_bounded(pts, point, links_of(before), links_of(after), anchor);
}

} // verus!
