use crate::geometry::{dist_sq, lemma_dist_sq_symmetric};
use vstd::prelude::*;

verus! {

/// Whether a link joins `a` and `b`, in either direction.
pub open spec fn joins(link: (int, int), a: int, b: int) -> bool {
    (link.0 == a && link.1 == b) || (link.0 == b && link.1 == a)
}

/// Whether some link of `links` joins `a` and `b`.
pub open spec fn adjacent(links: Seq<(int, int)>, a: int, b: int) -> bool {
    exists|i: int| 0 <= i < links.len() && joins(#[trigger] links[i], a, b)
}

/// Whether `walk` is a sequence of indices in which each is joined to the
/// next by a link of `links`.
pub open spec fn is_walk(links: Seq<(int, int)>, walk: Seq<int>) -> bool {
    &&& walk.len() >= 1
    &&& forall|i: int|
        0 <= i < walk.len() - 1 ==> adjacent(links, #[trigger] walk[i], walk[i + 1])
}

/// Whether one can get from `a` to `b` along links of `links`.
pub open spec fn linked(links: Seq<(int, int)>, a: int, b: int) -> bool {
    exists|walk: Seq<int>| #[trigger] is_walk(links, walk) && walk.first() == a && walk.last() == b
}

/// Every link joins two of the indices `0..n`.
pub open spec fn within(links: Seq<(int, int)>, n: nat) -> bool {
    forall|i: int|
        0 <= i < links.len() ==> 0 <= (#[trigger] links[i]).0 < n && 0 <= links[i].1 < n
}

/// Any two of the indices `0..n` are linked.
pub open spec fn connects(links: Seq<(int, int)>, n: nat) -> bool {
    forall|a: int, b: int| 0 <= a < n && 0 <= b < n ==> #[trigger] linked(links, a, b)
}

/// The links join indices of `0..n` and leave none of them apart.
pub open spec fn spans(links: Seq<(int, int)>, n: nat) -> bool {
    within(links, n) && connects(links, n)
}

/// Whether `steps`, a sequence of places in `links`, is a round trip that
/// uses no link twice: link `steps[i]` joins `stops[i]` to `stops[i + 1]`,
/// and the last stop is the first.
pub open spec fn is_closed_trail(links: Seq<(int, int)>, steps: Seq<int>, stops: Seq<int>) -> bool {
    &&& steps.len() >= 1
    &&& stops.len() == steps.len() + 1
    &&& stops.first() == stops.last()
    &&& forall|i: int|
        0 <= i < steps.len() ==> 0 <= #[trigger] steps[i] < links.len() && joins(
            links[steps[i]],
            stops[i],
            stops[i + 1],
        )
    &&& forall|i: int, j: int| 0 <= i < j < steps.len() ==> steps[i] != steps[j]
}

/// No round trip uses each of its links once: there is no loop, no pair of
/// links between the same two indices, and no longer cycle.
pub open spec fn acyclic(links: Seq<(int, int)>) -> bool {
    forall|steps: Seq<int>, stops: Seq<int>| !#[trigger] is_closed_trail(links, steps, stops)
}

/// The links form a tree on all of the indices `0..n`.
pub open spec fn is_spanning_tree(links: Seq<(int, int)>, n: nat) -> bool {
    &&& links.len() + 1 == n
    &&& spans(links, n)
    &&& acyclic(links)
}

/// The squared distance that a link covers over the positions `pts`.
pub open spec fn link_weight(pts: Seq<(int, int)>, link: (int, int)) -> nat {
    dist_sq(pts[link.0], pts[link.1])
}

/// A way of charging for a link by the squared distance it covers.
pub type Cost = spec_fn(nat) -> nat;

/// The charge never falls as the distance rises.
pub open spec fn monotone(cost: Cost) -> bool {
    forall|x: nat, y: nat| x <= y ==> #[trigger] cost(x) <= #[trigger] cost(y)
}

/// Charging the squared distance itself.
pub open spec fn at_weight() -> Cost {
    |d: nat| d
}

/// The sum of what `cost` charges for each of the links.
pub open spec fn total_cost(cost: Cost, pts: Seq<(int, int)>, links: Seq<(int, int)>) -> nat
    decreases links.len(),
{
    if links.len() == 0 {
        0
    } else {
        total_cost(cost, pts, links.drop_last()) + cost(link_weight(pts, links.last()))
    }
}

/// The sum of the weights of all links.
pub open spec fn total_weight(pts: Seq<(int, int)>, links: Seq<(int, int)>) -> nat {
    total_cost(at_weight(), pts, links)
}

/// A link weighs the same in both directions.
pub proof fn lemma_weight_of_joined(pts: Seq<(int, int)>, link: (int, int), a: int, b: int)
    requires
        joins(link, a, b),
    ensures
        link_weight(pts, link) == dist_sq(pts[a], pts[b]),
{
    lemma_dist_sq_symmetric(pts[a], pts[b]);
}

/// Appending a link adds its charge to the total.
pub proof fn lemma_total_push(
    cost: Cost,
    pts: Seq<(int, int)>,
    links: Seq<(int, int)>,
    link: (int, int),
)
    ensures
        total_cost(cost, pts, links.push(link)) == total_cost(cost, pts, links) + cost(
            link_weight(pts, link),
        ),
{
    assert(links.push(link).drop_last() =~= links);
}

/// The total of two sequences put end to end is the sum of their totals.
pub proof fn lemma_total_concat(
    cost: Cost,
    pts: Seq<(int, int)>,
    a: Seq<(int, int)>,
    b: Seq<(int, int)>,
)
    ensures
        total_cost(cost, pts, a + b) == total_cost(cost, pts, a) + total_cost(cost, pts, b),
    decreases b.len(),
{
    if b.len() == 0 {
        assert(a + b =~= a);
    } else {
        lemma_total_concat(cost, pts, a, b.drop_last());
        assert((a + b).drop_last() =~= a + b.drop_last());
    }
}

/// Taking a link out takes its charge off the total.
pub proof fn lemma_total_remove(cost: Cost, pts: Seq<(int, int)>, links: Seq<(int, int)>, i: int)
    requires
        0 <= i < links.len(),
    ensures
        total_cost(cost, pts, links.remove(i)) + cost(link_weight(pts, links[i])) == total_cost(
            cost,
            pts,
            links,
        ),
{
    let head = links.take(i);
    let tail = links.skip(i + 1);
    assert(links =~= head.push(links[i]) + tail);
    assert(links.remove(i) =~= head + tail);
    lemma_total_concat(cost, pts, head.push(links[i]), tail);
    lemma_total_concat(cost, pts, head, tail);
    lemma_total_push(cost, pts, head, links[i]);
}

/// The total of links among the first points does not change when the point
/// set grows.
pub proof fn lemma_total_keeps(
    cost: Cost,
    pts: Seq<(int, int)>,
    more: Seq<(int, int)>,
    links: Seq<(int, int)>,
)
    requires
        pts.len() <= more.len(),
        forall|i: int| 0 <= i < pts.len() ==> pts[i] == more[i],
        within(links, pts.len()),
    ensures
        total_cost(cost, more, links) == total_cost(cost, pts, links),
    decreases links.len(),
{
    if links.len() > 0 {
        let last = links.last();
        assert(last == links[links.len() - 1]);
        assert(within(links.drop_last(), pts.len())) by {
            assert forall|i: int| 0 <= i < links.drop_last().len() implies 0 <= (
            #[trigger] links.drop_last()[i]).0 < pts.len() && 0 <= links.drop_last()[i].1
                < pts.len() by {
                assert(links.drop_last()[i] == links[i]);
            }
        }
        lemma_total_keeps(cost, pts, more, links.drop_last());
    }
}

/// Every index is linked to itself.
pub proof fn lemma_linked_reflexive(links: Seq<(int, int)>, a: int)
    ensures
        linked(links, a, a),
{
    let walk = seq![a];
    assert(is_walk(links, walk));
}

/// Two indices that a link joins are linked.
pub proof fn lemma_linked_adjacent(links: Seq<(int, int)>, a: int, b: int)
    requires
        adjacent(links, a, b),
    ensures
        linked(links, a, b),
{
    let walk = seq![a, b];
    assert(is_walk(links, walk));
}

/// Being linked passes along: from `a` to `b` and from `b` to `c` makes from
/// `a` to `c`.
pub proof fn lemma_linked_transitive(links: Seq<(int, int)>, a: int, b: int, c: int)
    requires
        linked(links, a, b),
        linked(links, b, c),
    ensures
        linked(links, a, c),
{
    let first = choose|walk: Seq<int>| #[trigger]
        is_walk(links, walk) && walk.first() == a && walk.last() == b;
    let second = choose|walk: Seq<int>| #[trigger]
        is_walk(links, walk) && walk.first() == b && walk.last() == c;
    let whole = first + second.drop_first();
    assert forall|i: int| 0 <= i < whole.len() - 1 implies adjacent(
        links,
        #[trigger] whole[i],
        whole[i + 1],
    ) by {
        if i < first.len() - 1 {
            assert(adjacent(links, first[i], first[i + 1]));
        } else {
            let j = i - first.len() + 1;
            assert(adjacent(links, second[j], second[j + 1]));
        }
    }
    assert(is_walk(links, whole));
}

/// Being linked does not depend on direction.
pub proof fn lemma_linked_symmetric(links: Seq<(int, int)>, a: int, b: int)
    requires
        linked(links, a, b),
    ensures
        linked(links, b, a),
{
    let walk = choose|walk: Seq<int>| #[trigger]
        is_walk(links, walk) && walk.first() == a && walk.last() == b;
    let back = walk.reverse();
    assert forall|i: int| 0 <= i < back.len() - 1 implies adjacent(
        links,
        #[trigger] back[i],
        back[i + 1],
    ) by {
        let j = walk.len() - 2 - i;
        assert(adjacent(links, walk[j], walk[j + 1]));
        let at = choose|at: int| 0 <= at < links.len() && joins(#[trigger] links[at], walk[j], walk[j + 1]);
        assert(joins(links[at], back[i], back[i + 1]));
    }
    assert(is_walk(links, back));
}

/// If every index is linked to index 0, then any two indices are linked.
pub proof fn lemma_connects_through_root(links: Seq<(int, int)>, n: nat)
    requires
        forall|v: int| 0 <= v < n ==> #[trigger] linked(links, 0, v),
    ensures
        connects(links, n),
{
    assert forall|a: int, b: int| 0 <= a < n && 0 <= b < n implies #[trigger] linked(
        links,
        a,
        b,
    ) by {
        assert(linked(links, 0, a));
        assert(linked(links, 0, b));
        lemma_linked_symmetric(links, 0, a);
        lemma_linked_transitive(links, a, 0, b);
    }
}

/// Links added at the end keep whatever was linked before.
pub proof fn lemma_linked_in_extension(
    links: Seq<(int, int)>,
    more: Seq<(int, int)>,
    a: int,
    b: int,
)
    requires
        links.len() <= more.len(),
        forall|i: int| 0 <= i < links.len() ==> more[i] == links[i],
        linked(links, a, b),
    ensures
        linked(more, a, b),
{
    let walk = choose|walk: Seq<int>| #[trigger]
        is_walk(links, walk) && walk.first() == a && walk.last() == b;
    assert forall|i: int| 0 <= i < walk.len() - 1 implies adjacent(
        more,
        #[trigger] walk[i],
        walk[i + 1],
    ) by {
        assert(adjacent(links, walk[i], walk[i + 1]));
        let at = choose|at: int|
            0 <= at < links.len() && joins(#[trigger] links[at], walk[i], walk[i + 1]);
        assert(joins(more[at], walk[i], walk[i + 1]));
    }
    assert(is_walk(more, walk));
}

} // verus!
