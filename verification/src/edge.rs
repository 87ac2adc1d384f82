use crate::geometry::{dist_sq, squared_distance};
use crate::point_set::PointSet;
use vstd::prelude::*;

verus! {

/// An edge between two points of a set, named by their indices, with the
/// squared distance between them as its weight.
///
/// The same shape serves for a candidate that waits in the frontier and for
/// an edge of the finished tree.
#[derive(Clone, Copy, Debug, PartialEq, Eq, Structural)]
pub struct Edge {
    pub from: usize,
    pub to: usize,
    pub weight: u128,
}

/// The edge from index `from` to index `to` over the positions `pts`.
pub open spec fn edge_between(pts: Seq<(int, int)>, from: int, to: int) -> Edge {
    Edge { from: from as usize, to: to as usize, weight: dist_sq(pts[from], pts[to]) as u128 }
}

impl Edge {
    /// The order in which candidates are tried: lighter edges first, and among
    /// edges of equal weight the one with the smaller `(from, to)` pair.
    pub open spec fn precedes(self, other: Edge) -> bool {
        self.weight < other.weight || (self.weight == other.weight && (self.from < other.from || (
        self.from == other.from && self.to < other.to)))
    }

    /// Builds the edge between two points of `points`, measuring its weight.
    pub fn new(from: usize, to: usize, points: &PointSet) -> (edge: Edge)
        requires
            from < points@.len(),
            to < points@.len(),
        ensures
            edge == edge_between(points@, from as int, to as int),
            edge.from == from,
            edge.to == to,
            edge.weight == dist_sq(points@[from as int], points@[to as int]),
    {
        Edge { from, to, weight: squared_distance(points.get(from), points.get(to)) }
    }

    /// Whether this edge is tried before `other`.
    pub fn is_before(&self, other: &Edge) -> (before: bool)
        ensures
            before == self.precedes(*other),
    {
        self.weight < other.weight || (self.weight == other.weight && (self.from < other.from || (
        self.from == other.from && self.to < other.to)))
    }
}

/// `precedes` is a strict total order on edges: no edge precedes itself, the
/// relation is transitive, and of two different edges one precedes the other.
pub proof fn lemma_precedes_is_strict_total(a: Edge, b: Edge, c: Edge)
    ensures
        !a.precedes(a),
        a.precedes(b) && b.precedes(c) ==> a.precedes(c),
        a == b || a.precedes(b) || b.precedes(a),
        !(a.precedes(b) && b.precedes(a)),
{
}

} // verus!
