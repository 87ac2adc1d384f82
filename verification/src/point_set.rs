use crate::geometry::{on_grid, position, Coordinate};
use vstd::prelude::*;

verus! {

/// A point of the set: the index it was given when inserted, and where it
/// lies.
#[derive(Clone, Copy, Debug, PartialEq, Eq, Structural)]
pub struct Point {
    pub index: usize,
    pub x: i32,
    pub y: i32,
}

impl Point {
    /// Where the point lies.
    pub open spec fn coordinate(self) -> Coordinate {
        (self.x, self.y)
    }
}

/// An append-only collection of points, in insertion order.
///
/// A point's index is its place in that order: the first point inserted has
/// index 0, and no point is ever removed or renumbered.
#[derive(Debug)]
pub struct PointSet {
    points: Vec<Point>,
}

impl View for PointSet {
    type V = Seq<(int, int)>;

    /// The positions of the points, in insertion order.
    closed spec fn view(&self) -> Seq<(int, int)> {
        Seq::new(self.points@.len(), |i: int| position(self.points@[i].coordinate()))
    }
}

impl PointSet {
    /// The set is well formed: every stored point carries its own place in
    /// the sequence as its index, so that indices are exactly `0..len`.
    pub closed spec fn wf(&self) -> bool {
        forall|i: int| 0 <= i < self.points@.len() ==> (#[trigger] self.points@[i]).index == i
    }

    /// Every position of the set lies on the grid.
    pub proof fn lemma_on_grid(&self)
        ensures
            forall|i: int| 0 <= i < self@.len() ==> on_grid(#[trigger] self@[i]),
    {
    }

    /// The point stored at `index`, as a mathematical value.
    pub closed spec fn spec_point(&self, index: int) -> Point {
        self.points@[index]
    }

    /// Creates an empty set.
    pub fn new() -> (set: PointSet)
        ensures
            set.wf(),
            set@ == Seq::<(int, int)>::empty(),
    {
        PointSet { points: Vec::new() }
    }

    /// The number of points inserted so far.
    pub fn len(&self) -> (count: usize)
        ensures
            count == self@.len(),
    {
        self.points.len()
    }

    /// Appends a point at `coordinate` and returns its index, which is the
    /// number of points inserted before it. No other point changes.
    pub fn insert(&mut self, coordinate: Coordinate) -> (index: usize)
        requires
            old(self).wf(),
        ensures
            final(self).wf(),
            index == old(self)@.len(),
            final(self)@ == old(self)@.push(position(coordinate)),
            forall|i: int|
                0 <= i < old(self)@.len() ==> final(self).spec_point(i) == old(self).spec_point(i),
            final(self).spec_point(index as int) == (Point { index, x: coordinate.0, y: coordinate.1 }),
    {
        let index = self.points.len();
        self.points.push(Point { index, x: coordinate.0, y: coordinate.1 });
        assert(self@ =~= old(self)@.push(position(coordinate)));
        index
    }

    /// The coordinate of the point with the given index.
    pub fn get(&self, index: usize) -> (coordinate: Coordinate)
        requires
            index < self@.len(),
        ensures
            position(coordinate) == self@[index as int],
            coordinate == self.spec_point(index as int).coordinate(),
    {
        let point = &self.points[index];
        (point.x, point.y)
    }

    /// The point with the given index.
    pub fn point(&self, index: usize) -> (point: Point)
        requires
            self.wf(),
            index < self@.len(),
        ensures
            point == self.spec_point(index as int),
            point.index == index,
            position(point.coordinate()) == self@[index as int],
    {
        self.points[index]
    }
}

} // verus!
