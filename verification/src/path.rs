//! Paths.

use vstd::prelude::*;

use crate::{Cost, Point};

verus! {

/// A sequence of vertices and what it costs to follow it.
#[derive(Debug)]
pub struct Path<P> {
    path: Vec<P>,
    cost: Cost,
}

impl<P> Path<P> {
    /// The vertices, the first and the last included.
    pub closed spec fn points(&self) -> Seq<P> {
        self.path@
    }

    /// The cost of following the path.
    pub closed spec fn total(&self) -> Cost {
        self.cost
    }

    /// The number of vertices fits in a machine word.
    pub proof fn lemma_len(&self)
        ensures
            self.points().len() <= usize::MAX,
    {
        assert(self.path.len() <= usize::MAX);
    }

    /// A path over the given vertices.
    pub fn new(path: Vec<P>, cost: Cost) -> (new: Self)
        ensures
            new.points() == path@,
            new.total() == cost,
    {
        Path { path, cost }
    }

    /// The cost of following the path.
    pub fn cost(&self) -> (cost: Cost)
        ensures
            cost == self.total(),
    {
        self.cost
    }

    /// The number of vertices.
    pub fn len(&self) -> (len: usize)
        ensures
            len == self.points().len(),
    {
        self.path.len()
    }
}

impl<P: Copy> Path<P> {
    /// A path over a copy of the given vertices.
    pub fn from_slice(path: &[P], cost: Cost) -> (new: Self)
        ensures
            new.points() == path@,
            new.total() == cost,
    {
        let mut copy: Vec<P> = Vec::new();
        for i in 0..path.len()
            invariant
                copy@ =~= path@.take(i as int),
        {
            copy.push(path[i]);
        }
        assert(copy@ =~= path@);
        Path { path: copy, cost }
    }

    /// The `i`-th vertex.
    pub fn at(&self, i: usize) -> (point: P)
        requires
            i < self.points().len(),
        ensures
            point == self.points()[i as int],
    {
        self.path[i]
    }

    /// The vertices in reverse order, at the given cost.
    pub fn reversed(&self, cost: Cost) -> (back: Self)
        ensures
            back.points() == self.points().reverse(),
            back.total() == cost,
    {
        let mut path: Vec<P> = Vec::new();
        let mut left: usize = self.path.len();
        while left > 0
            invariant
                left <= self.path@.len(),
                path@ =~= self.path@.reverse().take(self.path@.len() - left),
            decreases left,
        {
            left = left - 1;
            path.push(self.path[left]);
        }
        assert(path@ =~= self.path@.reverse());
        Path { path, cost }
    }
}

impl<P: Copy> Clone for Path<P> {
    fn clone(&self) -> (copy: Self)
        ensures
            copy.points() == self.points(),
            copy.total() == self.total(),
    {
        Path::from_slice(self.path.as_slice(), self.cost)
    }
}

/// A part of a path: the points themselves, or only what is needed to find them again.
#[derive(Debug)]
pub enum PathSegment {
    /// The points are stored.
    Known(Path<Point>),
    /// The points have to be searched for.
    Unknown { start: Point, end: Point, cost: Cost, len: usize },
}

impl PathSegment {
    /// The cost of following the segment.
    pub open spec fn total(&self) -> Cost {
        match self {
            PathSegment::Known(path) => path.total(),
            PathSegment::Unknown { cost, .. } => *cost,
        }
    }

    /// The number of points.
    pub open spec fn count(&self) -> nat {
        match self {
            PathSegment::Known(path) => path.points().len(),
            PathSegment::Unknown { len, .. } => *len as nat,
        }
    }

    /// The first point.
    pub open spec fn first(&self) -> Point {
        match self {
            PathSegment::Known(path) => path.points()[0],
            PathSegment::Unknown { start, .. } => *start,
        }
    }

    /// The last point.
    pub open spec fn final_point(&self) -> Point {
        match self {
            PathSegment::Known(path) => path.points().last(),
            PathSegment::Unknown { end, .. } => *end,
        }
    }

    /// The points of `s` are those of the segment, as far as it knows them.
    pub open spec fn matches(&self, s: Seq<Point>) -> bool {
        &&& s.len() == self.count()
        &&& s.len() > 0
        &&& s[0] == self.first()
        &&& s.last() == self.final_point()
        &&& self matches PathSegment::Known(path) ==> path.points() == s
    }

    /// A segment over the points of the path, which are stored if `known` is set.
    pub fn new(path: Path<Point>, known: bool) -> (segment: Self)
        requires
            path.points().len() > 0,
        ensures
            segment.total() == path.total(),
            segment.matches(path.points()),
            segment is Known == known,
    {
        if known {
            PathSegment::Known(path)
        } else {
            PathSegment::Unknown {
                start: path.at(0),
                end: path.at(path.len() - 1),
                cost: path.cost(),
                len: path.len(),
            }
        }
    }

    /// The cost of following the segment.
    pub fn cost(&self) -> (cost: Cost)
        ensures
            cost == self.total(),
    {
        match self {
            PathSegment::Known(path) => path.cost(),
            PathSegment::Unknown { cost, .. } => *cost,
        }
    }

    /// The number of points.
    pub fn len(&self) -> (len: usize)
        ensures
            len == self.count(),
    {
        match self {
            PathSegment::Known(path) => path.len(),
            PathSegment::Unknown { len, .. } => *len,
        }
    }

    /// The first point.
    pub fn start(&self) -> (start: Point)
        requires
            self.count() > 0,
        ensures
            start == self.first(),
    {
        match self {
            PathSegment::Known(path) => path.at(0),
            PathSegment::Unknown { start, .. } => *start,
        }
    }

    /// The last point.
    pub fn end(&self) -> (end: Point)
        requires
            self.count() > 0,
        ensures
            end == self.final_point(),
    {
        match self {
            PathSegment::Known(path) => path.at(path.len() - 1),
            PathSegment::Unknown { end, .. } => *end,
        }
    }

    /// The segment taken back, given the costs of its first and its last point.
    pub fn reversed(&self, start_cost: Cost, end_cost: Cost) -> (back: Self)
        requires
            start_cost <= self.total(),
            self.total() - start_cost + end_cost <= usize::MAX,
        ensures
            back.total() == self.total() - start_cost + end_cost,
            back is Known == self is Known,
            forall|s: Seq<Point>| #[trigger] self.matches(s) ==> back.matches(s.reverse()),
    {
        let cost: Cost = self.cost() - start_cost + end_cost;
        match self {
            PathSegment::Known(path) => PathSegment::Known(path.reversed(cost)),
            PathSegment::Unknown { start, end, len, .. } => PathSegment::Unknown {
                start: *end,
                end: *start,
                cost,
                len: *len,
            },
        }
    }
}

impl Clone for PathSegment {
    fn clone(&self) -> (copy: Self)
        ensures
            copy.total() == self.total(),
            copy is Known == self is Known,
            forall|s: Seq<Point>| #[trigger] self.matches(s) ==> copy.matches(s),
    {
        match self {
            PathSegment::Known(path) => PathSegment::Known(path.clone()),
            PathSegment::Unknown { start, end, cost, len } => PathSegment::Unknown {
                start: *start,
                end: *end,
                cost: *cost,
                len: *len,
            },
        }
    }
}

} // verus!
