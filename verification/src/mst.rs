use crate::edge::{edge_between, Edge};
use crate::frontier::Frontier;
use crate::geometry::{dist_sq, lemma_dist_sq_bound, lemma_dist_sq_symmetric, on_grid};
use crate::graph::total_weight;
use crate::point_set::PointSet;
use vstd::multiset::Multiset;
use vstd::prelude::*;
use vstd::set_lib::{lemma_int_range, lemma_len_subset, set_int_range};

verus! {

/// The pair of indices that an edge joins, as `(from, to)`.
pub open spec fn link_of(edge: Edge) -> (int, int) {
    (edge.from as int, edge.to as int)
}

/// The pairs of indices that a sequence of edges joins, in the same order.
pub open spec fn links_of(edges: Seq<Edge>) -> Seq<(int, int)> {
    Seq::new(edges.len(), |k: int| link_of(edges[k]))
}

/// Every edge weighs the squared distance between the points it joins.
pub open spec fn weighted(pts: Seq<(int, int)>, edges: Seq<Edge>) -> bool {
    forall|k: int|
        0 <= k < edges.len() ==> (#[trigger] edges[k]).weight == dist_sq(
            pts[edges[k].from as int],
            pts[edges[k].to as int],
        )
}

/// The sum of the weights that the edges carry.
pub open spec fn weight_sum(edges: Seq<Edge>) -> nat
    decreases edges.len(),
{
    if edges.len() == 0 {
        0
    } else {
        weight_sum(edges.drop_last()) + edges.last().weight as nat
    }
}

/// The weights that edges carry add up to the total weight of the links
/// they stand for.
pub proof fn lemma_weight_sum_is_total(pts: Seq<(int, int)>, edges: Seq<Edge>)
    requires
        weighted(pts, edges),
    ensures
        weight_sum(edges) == total_weight(pts, links_of(edges)),
    decreases edges.len(),
{
    if edges.len() > 0 {
        let front = edges.drop_last();
        assert(weighted(pts, front)) by {
            assert forall|k: int| 0 <= k < front.len() implies (#[trigger] front[k]).weight
                == dist_sq(pts[front[k].from as int], pts[front[k].to as int]) by {
                assert(front[k] == edges[k]);
            }
        }
        lemma_weight_sum_is_total(pts, front);
        assert(links_of(edges).drop_last() =~= links_of(front));
        assert(edges.last() == edges[edges.len() - 1]);
    }
}

/// Whether index `v` belongs to the tree grown by the first `k` links: it is
/// the root, index 0, or one of those links leads to it.
pub open spec fn in_tree(links: Seq<(int, int)>, k: int, v: int) -> bool {
    v == 0 || exists|j: int| 0 <= j < k && (#[trigger] links[j]).1 == v
}

/// The order in which pairs of points are tried: the closer pair first, and
/// among pairs at the same distance the one with the smaller `(from, to)`.
pub open spec fn ranks_before(pts: Seq<(int, int)>, a: (int, int), b: (int, int)) -> bool {
    let wa = dist_sq(pts[a.0], pts[a.1]);
    let wb = dist_sq(pts[b.0], pts[b.1]);
    wa < wb || (wa == wb && (a.0 < b.0 || (a.0 == b.0 && a.1 < b.1)))
}

/// Link `k` leaves the tree grown by the links before it, and no other pair
/// that leaves that tree is tried before it.
pub open spec fn is_least_crossing(pts: Seq<(int, int)>, links: Seq<(int, int)>, k: int) -> bool {
    let n = pts.len();
    let link = links[k];
    &&& 0 <= link.0 < n
    &&& 0 <= link.1 < n
    &&& in_tree(links, k, link.0)
    &&& !in_tree(links, k, link.1)
    &&& forall|a: int, b: int|
        0 <= a < n && 0 <= b < n && in_tree(links, k, a) && !in_tree(links, k, b)
            ==> !#[trigger] ranks_before(pts, (a, b), link)
}

/// `links` is the tree that grows from index 0 over `pts` by taking, at
/// every step, the first pair in trial order that leads from the tree to a
/// point outside it, until no point is left outside.
pub open spec fn is_prim_tree(pts: Seq<(int, int)>, links: Seq<(int, int)>) -> bool {
    &&& if pts.len() == 0 {
        links.len() == 0
    } else {
        links.len() + 1 == pts.len()
    }
    &&& forall|k: int| 0 <= k < links.len() ==> is_least_crossing(pts, links, k)
}

/// Membership in the tree grown by the first `k` links depends on those
/// links alone.
pub proof fn lemma_in_tree_prefix(a: Seq<(int, int)>, b: Seq<(int, int)>, k: int, v: int)
    requires
        0 <= k <= a.len(),
        k <= b.len(),
        forall|j: int| 0 <= j < k ==> a[j] == b[j],
    ensures
        in_tree(a, k, v) == in_tree(b, k, v),
{
    if in_tree(a, k, v) && v != 0 {
        let j = choose|j: int| 0 <= j < k && (#[trigger] a[j]).1 == v;
        assert(b[j].1 == v);
    }
    if in_tree(b, k, v) && v != 0 {
        let j = choose|j: int| 0 <= j < k && (#[trigger] b[j]).1 == v;
        assert(a[j].1 == v);
    }
}

/// A link that was a least crossing stays one when further links are
/// appended.
pub proof fn lemma_least_crossing_prefix(
    pts: Seq<(int, int)>,
    a: Seq<(int, int)>,
    b: Seq<(int, int)>,
    k: int,
)
    requires
        0 <= k < a.len(),
        k < b.len(),
        forall|j: int| 0 <= j <= k ==> a[j] == b[j],
        is_least_crossing(pts, a, k),
    ensures
        is_least_crossing(pts, b, k),
{
    let n = pts.len();
    let link = b[k];
    lemma_in_tree_prefix(a, b, k, link.0);
    lemma_in_tree_prefix(a, b, k, link.1);
    assert forall|x: int, y: int|
        0 <= x < n && 0 <= y < n && in_tree(b, k, x) && !in_tree(b, k, y) implies !#[trigger] ranks_before(
        pts,
        (x, y),
        link,
    ) by {
        lemma_in_tree_prefix(a, b, k, x);
        lemma_in_tree_prefix(a, b, k, y);
    }
}

/// The candidate that starts the search: the root joined to itself at no
/// cost.
spec fn seed() -> Edge {
    Edge { from: 0, to: 0, weight: 0 }
}

/// The marks agree with the tree that `links` has grown.
spec fn marks_tree(visited: Seq<bool>, links: Seq<(int, int)>) -> bool {
    forall|v: int|
        0 <= v < visited.len() ==> (#[trigger] visited[v] <==> in_tree(links, links.len() as int, v))
}

/// The set of marked indices.
spec fn marked(visited: Seq<bool>) -> Set<int> {
    Set::new(|v: int| 0 <= v < visited.len() && visited[v])
}

/// Every candidate in the queue starts at a marked point and carries the
/// squared distance between its two points.
spec fn frontier_sound(pts: Seq<(int, int)>, visited: Seq<bool>, queue: Multiset<Edge>) -> bool {
    forall|e: Edge|
        #[trigger] queue.count(e) > 0 ==> {
            &&& e.from < pts.len()
            &&& e.to < pts.len()
            &&& visited[e.from as int]
            &&& e.weight == dist_sq(pts[e.from as int], pts[e.to as int])
        }
}

/// Every pair that leads from a marked point to an unmarked one has its
/// candidate in the queue, but perhaps for pairs that lead from `from` to
/// the points at `upto` and after.
spec fn frontier_complete_but(
    pts: Seq<(int, int)>,
    visited: Seq<bool>,
    queue: Multiset<Edge>,
    from: int,
    upto: int,
) -> bool {
    forall|a: int, b: int|
        0 <= a < pts.len() && 0 <= b < pts.len() && visited[a] && !visited[b] && (a != from || b
            < upto) ==> queue.count(#[trigger] edge_between(pts, a, b)) > 0
}

/// Every pair that leads from a marked point to an unmarked one has its
/// candidate in the queue.
spec fn frontier_complete(pts: Seq<(int, int)>, visited: Seq<bool>, queue: Multiset<Edge>) -> bool {
    forall|a: int, b: int|
        0 <= a < pts.len() && 0 <= b < pts.len() && visited[a] && !visited[b] ==> queue.count(
            #[trigger] edge_between(pts, a, b),
        ) > 0
}

/// All positions lie on the grid.
spec fn all_on_grid(pts: Seq<(int, int)>) -> bool {
    forall|i: int| 0 <= i < pts.len() ==> on_grid(#[trigger] pts[i])
}

/// No more indices are marked than there are marks.
proof fn lemma_marked_bound(visited: Seq<bool>)
    ensures
        marked(visited).finite(),
        marked(visited).len() <= visited.len(),
{
    lemma_int_range(0, visited.len() as int);
    lemma_len_subset(marked(visited), set_int_range(0, visited.len() as int));
}

/// Marking one more index makes the set of marked indices one larger.
proof fn lemma_marked_grows(visited: Seq<bool>, v: int)
    requires
        0 <= v < visited.len(),
        !visited[v],
    ensures
        marked(visited.update(v, true)).finite(),
        marked(visited.update(v, true)).len() == marked(visited).len() + 1,
        marked(visited.update(v, true)).len() <= visited.len(),
{
    lemma_marked_bound(visited);
    lemma_marked_bound(visited.update(v, true));
    assert(marked(visited.update(v, true)) =~= marked(visited).insert(v));
}

/// The candidate that the queue hands out, if it leads to an unmarked
/// point, is the least crossing of the tree grown so far: taking it keeps
/// the edges a tree grown in trial order, and the marks in step with it.
proof fn lemma_take(
    pts: Seq<(int, int)>,
    marks: Seq<bool>,
    links: Seq<(int, int)>,
    waiting: Multiset<Edge>,
    edge: Edge,
)
    requires
        all_on_grid(pts),
        marks.len() == pts.len(),
        marks_tree(marks, links),
        forall|k: int| 0 <= k < links.len() ==> is_least_crossing(pts, links, k),
        frontier_sound(pts, marks, waiting),
        frontier_complete(pts, marks, waiting),
        waiting.count(edge) > 0,
        forall|other: Edge| waiting.contains(other) ==> !other.precedes(edge),
        !marks[edge.to as int],
    ensures
        forall|k: int|
            0 <= k <= links.len() ==> is_least_crossing(pts, links.push(link_of(edge)), k),
        marks_tree(marks.update(edge.to as int, true), links.push(link_of(edge))),
{
    let n = pts.len();
    let k = links.len() as int;
    let grown = links.push(link_of(edge));
    let visited = marks.update(edge.to as int, true);
    assert forall|j: int| 0 <= j < k implies is_least_crossing(pts, grown, j) by {
        lemma_least_crossing_prefix(pts, links, grown, j);
    }
    assert(is_least_crossing(pts, grown, k)) by {
        lemma_in_tree_prefix(links, grown, k, edge.from as int);
        lemma_in_tree_prefix(links, grown, k, edge.to as int);
        assert forall|a: int, b: int|
            0 <= a < n && 0 <= b < n && in_tree(grown, k, a) && !in_tree(
                grown,
                k,
                b,
            ) implies !#[trigger] ranks_before(pts, (a, b), grown[k]) by {
            lemma_in_tree_prefix(links, grown, k, a);
            lemma_in_tree_prefix(links, grown, k, b);
            let other = edge_between(pts, a, b);
            lemma_dist_sq_bound(pts[a], pts[b]);
            assert(waiting.count(other) > 0);
            assert(!other.precedes(edge));
        }
    }
    assert forall|v: int| 0 <= v < n implies (#[trigger] visited[v] <==> in_tree(
        grown,
        k + 1,
        v,
    )) by {
        lemma_in_tree_prefix(links, grown, k, v);
        if in_tree(grown, k + 1, v) && v != 0 {
            let j = choose|j: int| 0 <= j < k + 1 && (#[trigger] grown[j]).1 == v;
            if j < k {
                assert(in_tree(grown, k, v));
            }
        }
        if v == edge.to {
            assert(grown[k].1 == v);
        }
        if in_tree(grown, k, v) && v != 0 {
            let j = choose|j: int| 0 <= j < k && (#[trigger] grown[j]).1 == v;
            assert(grown[j].1 == v);
        }
    }
}

/// Once the point that a candidate led to is marked, the rest of the queue
/// lacks only the candidates that start at that point.
proof fn lemma_marked_point_lacks_candidates(
    pts: Seq<(int, int)>,
    marks: Seq<bool>,
    waiting: Multiset<Edge>,
    edge: Edge,
)
    requires
        pts.len() <= usize::MAX,
        marks.len() == pts.len(),
        frontier_sound(pts, marks, waiting),
        frontier_complete(pts, marks, waiting),
        waiting.count(edge) > 0,
        !marks[edge.to as int],
    ensures
        frontier_sound(pts, marks.update(edge.to as int, true), waiting.remove(edge)),
        frontier_complete_but(
            pts,
            marks.update(edge.to as int, true),
            waiting.remove(edge),
            edge.to as int,
            0,
        ),
{
    let visited = marks.update(edge.to as int, true);
    let drained = waiting.remove(edge);
    assert forall|e: Edge| #[trigger] drained.count(e) > 0 implies e.from < pts.len() && e.to
        < pts.len() && visited[e.from as int] && e.weight == dist_sq(
        pts[e.from as int],
        pts[e.to as int],
    ) by {
        assert(waiting.count(e) > 0);
    }
    assert forall|a: int, b: int|
        0 <= a < pts.len() && 0 <= b < pts.len() && visited[a] && !visited[b] && a
            != edge.to implies drained.count(#[trigger] edge_between(pts, a, b)) > 0 by {
        let other = edge_between(pts, a, b);
        assert(waiting.count(other) > 0);
        assert(other != edge);
    }
}

/// Dropping a candidate that leads to a marked point loses nothing that the
/// search still needs.
proof fn lemma_drop_stale(
    pts: Seq<(int, int)>,
    marks: Seq<bool>,
    waiting: Multiset<Edge>,
    edge: Edge,
)
    requires
        pts.len() <= usize::MAX,
        marks.len() == pts.len(),
        frontier_sound(pts, marks, waiting),
        frontier_complete(pts, marks, waiting),
        waiting.count(edge) > 0,
        marks[edge.to as int],
    ensures
        frontier_sound(pts, marks, waiting.remove(edge)),
        frontier_complete(pts, marks, waiting.remove(edge)),
        waiting.remove(edge).len() == waiting.len() - 1,
{
    let drained = waiting.remove(edge);
    assert(Multiset::singleton(edge).subset_of(waiting));
    assert forall|e: Edge| #[trigger] drained.count(e) > 0 implies waiting.count(e) > 0 by {}
    assert forall|a: int, b: int|
        0 <= a < pts.len() && 0 <= b < pts.len() && marks[a] && !marks[b] implies drained.count(
        #[trigger] edge_between(pts, a, b),
    ) > 0 by {
        let other = edge_between(pts, a, b);
        assert(waiting.count(other) > 0);
        assert(other != edge);
    }
}

/// Puts into the queue a candidate from `current`, a point just marked, to
/// every point that is not marked yet.
fn push_candidates(queue: &mut Frontier, points: &PointSet, visited: &Vec<bool>, current: usize)
    requires
        old(queue).wf(),
        visited@.len() == points@.len(),
        current < points@.len(),
        visited@[current as int],
        frontier_sound(points@, visited@, old(queue)@),
        frontier_complete_but(points@, visited@, old(queue)@, current as int, 0),
    ensures
        final(queue).wf(),
        frontier_sound(points@, visited@, final(queue)@),
        frontier_complete(points@, visited@, final(queue)@),
{
    let n = points.len();
    let mut ind: usize = 0;
    while ind < n
        invariant
            queue.wf(),
            n == points@.len(),
            visited@.len() == n,
            current < n,
            visited@[current as int],
            ind <= n,
            frontier_sound(points@, visited@, queue@),
            frontier_complete_but(points@, visited@, queue@, current as int, ind as int),
        decreases n - ind,
    {
        if !visited[ind] && ind != current {
            queue.push(Edge::new(current, ind, points));
        }
        ind += 1;
    }
}

/// Builds minimum spanning trees by growing a tree from the first point.
#[derive(Clone, Copy, Debug)]
pub struct MstBuilder;

impl MstBuilder {
    /// Computes the minimum spanning tree of `points`, as the edges in the
    /// order in which they joined the tree.
    ///
    /// The tree grows from the point with index 0. At every step the edge
    /// taken is the first, in the order of [`Edge::precedes`], among all edges
    /// that lead from a point of the tree to a point outside it. An empty set
    /// and a set of one point have no edges.
    pub fn build(points: &PointSet) -> (edges: Vec<Edge>)
        ensures
            is_prim_tree(points@, links_of(edges@)),
            weighted(points@, edges@),
    {
        let n = points.len();
        let mut edges: Vec<Edge> = Vec::new();
        if n == 0 {
            return edges;
        }
        let mut visited: Vec<bool> = vec![false; n];
        let mut queue = Frontier::new();
        queue.push(Edge::new(0, 0, points));
        proof {
            points.lemma_on_grid();
            lemma_dist_sq_symmetric(points@[0], points@[0]);
            assert(marked(visited@) =~= Set::<int>::empty());
        }
        while !queue.is_empty()
            invariant
                queue.wf(),
                all_on_grid(points@),
                n == points@.len(),
                n >= 1,
                visited@.len() == n,
                marked(visited@).finite(),
                marked(visited@).len() <= n,
                weighted(points@, edges@),
                forall|k: int|
                    0 <= k < edges@.len() ==> is_least_crossing(points@, links_of(edges@), k),
                !visited@[0] ==> {
                    &&& edges@.len() == 0
                    &&& queue@ == Multiset::<Edge>::empty().insert(seed())
                    &&& marked(visited@).len() == 0
                },
                visited@[0] ==> {
                    &&& marked(visited@).len() == edges@.len() + 1
                    &&& marks_tree(visited@, links_of(edges@))
                    &&& frontier_sound(points@, visited@, queue@)
                    &&& frontier_complete(points@, visited@, queue@)
                },
            decreases n - marked(visited@).len(), queue@.len(),
        {
            let ghost waiting = queue@;
            let ghost marks = visited@;
            let ghost links = links_of(edges@);
            let edge = queue.pop().unwrap();
            let origin = edge.from;
            let current = edge.to;
            assert(waiting.count(edge) > 0);
            if !visited[current] {
                visited.set(current, true);
                proof {
                    lemma_marked_grows(marks, current as int);
                }
                if origin != current {
                    edges.push(edge);
                    proof {
                        assert(links_of(edges@) =~= links.push(link_of(edge)));
                        lemma_take(points@, marks, links, waiting, edge);
                        lemma_marked_point_lacks_candidates(points@, marks, waiting, edge);
                    }
                } else {
                    assert(edge == seed());
                    assert(marks_tree(visited@, links)) by {
                        assert(marked(marks).contains(0) == marks[0]);
                        assert forall|v: int| 0 <= v < n implies (#[trigger] visited@[v] <==> v
                            == 0) by {
                            assert(marked(marks).contains(v) == marks[v]);
                        }
                    }
                }
                push_candidates(&mut queue, points, &visited, current);
            } else {
                proof {
                    lemma_drop_stale(points@, marks, waiting, edge);
                }
            }
        }
        proof {
            assert forall|v: int| 0 <= v < n implies visited@[v] by {
                if !visited@[v] {
                    assert(queue@.count(edge_between(points@, 0, v)) > 0);
                }
            }
            assert(marked(visited@) =~= set_int_range(0, n as int));
            lemma_int_range(0, n as int);
        }
        edges
    }
}

} // verus!
