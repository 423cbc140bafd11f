//! The paths that the cache hands out.

use vstd::prelude::*;

use crate::course::{by_estimate, is_found};
use crate::grid::a_star_search;
use crate::neighbors::{on_grid, Neighborhood};
use crate::path::{Path, PathSegment};
use crate::terrain::{
    estimates, estimates_are_steady, is_affordable, is_cost_fn, is_ground, Region, Terrain,
};
use crate::walk::{
    connects, is_walk, joined, lemma_walk_part, lemma_walk_splits, lemma_walks_join, linked,
    walk_cost,
};
use crate::{Cost, Point};

verus! {

/// Where the `i`-th segment begins in the sequence of all points.
#[verifier::opaque]
pub open spec fn offset(segments: Seq<PathSegment>, i: int) -> int
    decreases i,
{
    if i <= 0 {
        0
    } else {
        offset(segments, i - 1) + segments[i - 1].count() - 1
    }
}

/// The `i`-th segment covers the part of `route` that begins where it does.
pub open spec fn placed(segments: Seq<PathSegment>, route: Seq<Point>, i: int) -> bool {
    let segment = segments[i];
    let from = offset(segments, i);
    &&& segment.count() >= 2
    &&& segment is Unknown ==> segment.first() != segment.final_point()
    &&& segment.matches(route.subrange(from, from + segment.count()))
}

/// The segments, one after the other, make up `route`.
pub open spec fn laid_out(segments: Seq<PathSegment>, route: Seq<Point>) -> bool {
    &&& route.len() == offset(segments, segments.len() as int) + 1
    &&& forall|i: int| 0 <= i < segments.len() ==> #[trigger] placed(segments, route, i)
}

proof fn lemma_offset_step(segments: Seq<PathSegment>, i: int)
    ensures
        offset(segments, 0) == 0,
        i >= 0 ==> offset(segments, i + 1) == offset(segments, i) + segments[i].count() - 1,
{
    reveal_with_fuel(offset, 2);
}

proof fn lemma_offset_prefix(a: Seq<PathSegment>, b: Seq<PathSegment>, i: int)
    requires
        0 <= i <= a.len(),
        i <= b.len(),
        forall|k: int| 0 <= k < i ==> #[trigger] a[k] == b[k],
    ensures
        offset(a, i) == offset(b, i),
    decreases i,
{
    lemma_offset_step(a, i - 1);
    lemma_offset_step(b, i - 1);
    if i > 0 {
        lemma_offset_prefix(a, b, i - 1);
        assert(a[i - 1] == b[i - 1]);
    }
}

proof fn lemma_offset_grows(segments: Seq<PathSegment>, route: Seq<Point>, i: int, j: int)
    requires
        0 <= i <= j <= segments.len(),
        laid_out(segments, route),
    ensures
        0 <= offset(segments, i) <= offset(segments, j),
        i < j ==> offset(segments, i) + segments[i].count() - 1 <= offset(segments, j),
    decreases j,
{
    if i < j {
        lemma_offset_step(segments, j - 1);
        lemma_offset_grows(segments, route, i, j - 1);
        assert(placed(segments, route, j - 1));
    } else if i > 0 {
        lemma_offset_step(segments, i - 1);
        lemma_offset_grows(segments, route, i - 1, j - 1);
        assert(placed(segments, route, i - 1));
    } else {
        lemma_offset_step(segments, 0);
    }
}

/// Appending a segment lengthens the route by its points.
proof fn lemma_segment_appended(
    segments: Seq<PathSegment>,
    route: Seq<Point>,
    segment: PathSegment,
    points: Seq<Point>,
)
    requires
        laid_out(segments, route),
        segment.count() >= 2,
        segment is Unknown ==> segment.first() != segment.final_point(),
        segment.matches(points),
        points[0] == route.last(),
    ensures
        laid_out(segments.push(segment), joined(route, points)),
        joined(route, points).last() == points.last(),
{
    let n = segments.len() as int;
    let after = segments.push(segment);
    let whole = joined(route, points);
    lemma_offset_prefix(segments, after, n);
    lemma_offset_step(after, n);
    lemma_offset_grows(segments, route, 0, n);
    assert forall|i: int| 0 <= i < after.len() implies #[trigger] placed(after, whole, i) by {
        lemma_offset_prefix(segments, after, i);
        let part = whole.subrange(offset(after, i), offset(after, i) + after[i].count());
        if i < n {
            assert(placed(segments, route, i));
            lemma_offset_grows(segments, route, 0, i);
            lemma_offset_grows(segments, route, i, n);
            assert(part =~= route.subrange(
                offset(segments, i),
                offset(segments, i) + segments[i].count(),
            ));
        } else {
            assert(part =~= points);
        }
    }
}

/// Whether the points of each segment of a path are stored, and how many there are.
pub type Shape = Seq<(bool, nat)>;

/// Where the `i`-th segment begins in the sequence of all points.
pub open spec fn segment_start(shape: Shape, i: int) -> int
    decreases i,
{
    if i <= 0 {
        0
    } else {
        segment_start(shape, i - 1) + shape[i - 1].1 - 1
    }
}

/// What there is to know of a path: its points, the segments that they make up, and its cost.
pub struct Outline {
    /// The points, the start included.
    pub points: Seq<Point>,
    /// The segments.
    pub shape: Shape,
    /// The cost.
    pub cost: nat,
}

/// The points of the path are stored as a single segment.
pub open spec fn stored(points: Seq<Point>, cost: nat) -> Outline {
    Outline { points, shape: seq![(true, points.len())], cost }
}

/// Of the path, the `i`-th segment, which begins where the next point has to be searched for,
/// was replaced by the path that is found.
pub open spec fn is_searched_at<N: Neighborhood>(
    before: AbstractPath<N>,
    after: AbstractPath<N>,
    i: int,
    points: Seq<Point>,
    cost: nat,
) -> bool {
    let from = before.position();
    let to = segment_start(before.shape(), i + 1);
    let t = before.terrain();
    &&& 0 <= i < before.shape().len()
    &&& segment_start(before.shape(), i) == from
    &&& !before.shape()[i].0
    &&& is_found(
        t.edges(t.whole()),
        by_estimate(estimates(before.surroundings(), Some(before.route()[to]))),
        before.route()[from],
        before.route()[to],
        points,
        cost,
    )
    &&& after.route() == joined(
        joined(before.route().take(from + 1), points),
        before.route().skip(to),
    )
    &&& after.shape() == before.shape().update(i, (true, points.len()))
}

/// What has become of the path when the next point was asked for: where it was not stored, the
/// points of its segment were searched for.
pub open spec fn is_advanced<N: Neighborhood>(
    before: AbstractPath<N>,
    after: AbstractPath<N>,
    point: Option<Point>,
) -> bool {
    &&& after.total() == before.total()
    &&& after.terrain() == before.terrain()
    &&& after.surroundings() == before.surroundings()
    &&& if before.next_is_known() {
        after.route() == before.route() && after.shape() == before.shape()
    } else {
        exists|i: int, points: Seq<Point>, cost: nat| #[trigger]
            is_searched_at(before, after, i, points, cost)
    }
    &&& if before.position() + 1 < before.route().len() {
        &&& after.position() == before.position() + 1
        &&& point == Some(after.route()[after.position()])
    } else {
        &&& after.position() == before.position()
        &&& point is None
    }
}

/// A path from one point to another, made of segments.
///
/// The path hands out its points one by one, beginning with the one after the start.
pub struct AbstractPath<N> {
    neighborhood: N,
    total_cost: Cost,
    total_length: usize,
    path: Vec<PathSegment>,
    end: Point,
    current_index: (usize, usize),
    route: Ghost<Seq<Point>>,
    ground: Ghost<Terrain>,
}

impl<N> AbstractPath<N> {
    /// The neighborhood in which the path was found.
    pub closed spec fn surroundings(&self) -> N {
        self.neighborhood
    }

    /// The grid on which the path was found.
    pub closed spec fn terrain(&self) -> Terrain {
        self.ground@
    }

    /// The cost of the whole path.
    pub closed spec fn total(&self) -> Cost {
        self.total_cost
    }

    /// The number of steps that the path was made of.
    pub closed spec fn steps(&self) -> int {
        self.total_length as int
    }

    /// The points of the path, the start included.
    pub closed spec fn route(&self) -> Seq<Point> {
        self.route@
    }

    /// The segments of the path.
    pub closed spec fn shape(&self) -> Shape {
        self.path@.map_values(|segment: PathSegment| (segment is Known, segment.count()))
    }

    /// What there is to know of the path.
    pub open spec fn outline(&self) -> Outline {
        Outline { points: self.route(), shape: self.shape(), cost: self.total() as nat }
    }

    /// How many points have been handed out.
    pub closed spec fn position(&self) -> int {
        offset(self.path@, self.current_index.0 as int) + self.current_index.1 - 1
    }

    /// The next point is stored in the path.
    pub closed spec fn next_is_known(&self) -> bool {
        self.current_index.0 < self.path@.len() ==> self.path@[self.current_index.0 as int] is Known
    }

    /// Every point is stored in the path.
    pub closed spec fn all_known(&self) -> bool {
        forall|i: int| 0 <= i < self.path@.len() ==> (#[trigger] self.path@[i]) is Known
    }

    /// The segments make up the route, and the next point to hand out is one of it.
    pub closed spec fn wf(&self) -> bool {
        &&& laid_out(self.path@, self.route@)
        &&& self.end == self.route@.last()
        &&& self.current_index.0 <= self.path@.len()
        &&& 1 <= self.current_index.1
        &&& self.current_index.0 < self.path@.len() ==> self.current_index.1
            < self.path@[self.current_index.0 as int].count()
        &&& !self.next_is_known() ==> self.current_index.1 == 1
        &&& self.current_index.0 == self.path@.len() ==> self.current_index.1 == 1
    }

    /// Where every point is stored, the next one is.
    pub proof fn lemma_all_known(&self)
        requires
            self.wf(),
            self.all_known(),
        ensures
            self.next_is_known(),
    {
    }

    /// The path has at least its start, and no more points were handed out than there are.
    pub proof fn lemma_position(&self)
        requires
            self.wf(),
        ensures
            0 <= self.position() < self.route().len(),
    {
        let i = self.current_index.0 as int;
        lemma_offset_grows(self.path@, self.route@, i, self.path@.len() as int);
        lemma_offset_grows(self.path@, self.route@, 0, i);
    }

    /// Where the segments begin.
    proof fn lemma_segment_start(&self, i: int)
        requires
            0 <= i <= self.path@.len(),
        ensures
            segment_start(self.shape(), i) == offset(self.path@, i),
        decreases i,
    {
        lemma_offset_step(self.path@, i - 1);
        if i > 0 {
            self.lemma_segment_start(i - 1);
        }
    }

    /// The points handed out tell in which segment the next one lies.
    proof fn lemma_in_segment(&self)
        requires
            self.wf(),
        ensures
            ({
                let i = self.current_index.0 as int;
                &&& offset(self.path@, i) <= self.position()
                &&& i < self.path@.len() ==> self.position() < offset(self.path@, i + 1)
                &&& i == self.path@.len() ==> self.position() + 1 == self.route().len()
                &&& i < self.path@.len() ==> self.position() + 1 < self.route().len()
            }),
    {
        let i = self.current_index.0 as int;
        lemma_offset_step(self.path@, i);
        if i < self.path@.len() {
            self.lemma_not_at_end();
        }
    }

    /// Of two paths of the same outline from which equally many points were handed out, the
    /// next one is stored in both or in neither.
    pub proof fn lemma_next_alike(&self, other: &Self)
        requires
            self.wf(),
            other.wf(),
            self.shape() == other.shape(),
            self.position() == other.position(),
        ensures
            self.next_is_known() == other.next_is_known(),
    {
        let (i, j) = (self.current_index.0 as int, other.current_index.0 as int);
        let (n, m) = (self.path@.len() as int, other.path@.len() as int);
        assert(n == self.shape().len() && m == other.shape().len());
        self.lemma_in_segment();
        other.lemma_in_segment();
        self.lemma_segment_start(i);
        self.lemma_segment_start(j);
        other.lemma_segment_start(i);
        other.lemma_segment_start(j);
        if i < j {
            lemma_offset_step(self.path@, i);
            lemma_offset_grows(self.path@, self.route@, i, j);
        } else if j < i {
            lemma_offset_step(other.path@, j);
            lemma_offset_grows(other.path@, other.route@, j, i);
        }
        assert(i == j);
        if i < n {
            assert(self.shape()[i].0 == self.path@[i] is Known);
            assert(other.shape()[i].0 == other.path@[i] is Known);
        }
    }

    /// No two segments begin at the same point.
    pub proof fn lemma_segments_apart(&self, i: int, j: int)
        requires
            self.wf(),
            0 <= i < self.shape().len(),
            0 <= j < self.shape().len(),
            segment_start(self.shape(), i) == segment_start(self.shape(), j),
        ensures
            i == j,
    {
        self.lemma_segment_start(i);
        self.lemma_segment_start(j);
        assert(placed(self.path@, self.route@, i));
        assert(placed(self.path@, self.route@, j));
        if i < j {
            lemma_offset_grows(self.path@, self.route@, i, j);
        } else if j < i {
            lemma_offset_grows(self.path@, self.route@, j, i);
        }
    }

    /// While there are segments left, there are points left.
    proof fn lemma_not_at_end(&self)
        requires
            self.wf(),
            self.current_index.0 < self.path@.len(),
        ensures
            self.position() + 1 < self.route().len(),
    {
        let i = self.current_index.0 as int;
        assert(placed(self.path@, self.route@, i));
        lemma_offset_step(self.path@, i);
        lemma_offset_grows(self.path@, self.route@, i + 1, self.path@.len() as int);
    }

    /// A path that has not gone anywhere.
    pub(crate) fn new(neighborhood: N, start: Point, Ghost(t): Ghost<Terrain>) -> (path: Self)
        ensures
            path.wf(),
            path.surroundings() == neighborhood,
            path.terrain() == t,
            path.total() == 0,
            path.steps() == 0,
            path.route() == seq![start],
            path.position() == 0,
            path.shape() == Seq::<(bool, nat)>::empty(),
            path.all_known(),
    {
        let ghost route = seq![start];
        proof {
            lemma_offset_step(Seq::<PathSegment>::empty(), 0);
        }
        AbstractPath {
            neighborhood,
            total_cost: 0,
            total_length: 0,
            path: Vec::new(),
            end: start,
            current_index: (0, 1),
            route: Ghost(route),
            ground: Ghost(t),
        }
    }

    /// A path of a single segment.
    pub(crate) fn from_known_path(
        neighborhood: N,
        path: Path<Point>,
        Ghost(t): Ghost<Terrain>,
    ) -> (new: Self)
        requires
            path.points().len() >= 2,
        ensures
            new.wf(),
            new.surroundings() == neighborhood,
            new.terrain() == t,
            new.total() == path.total(),
            new.steps() + 1 == path.points().len(),
            new.route() == path.points(),
            new.position() == 0,
            new.shape() == seq![(true, path.points().len())],
            new.outline() == stored(path.points(), path.total() as nat),
            new.all_known(),
    {
        let ghost points = path.points();
        proof {
            path.lemma_len();
        }
        let mut new = AbstractPath::new(neighborhood, path.at(0), Ghost(t));
        new.add_path(path);
        proof {
            assert(joined(seq![points[0]], points) =~= points);
            assert(new.shape() =~= seq![(true, points.len())]);
        }
        new
    }

    /// Appends a segment that starts where the path ends.
    pub(crate) fn add_path_segment(&mut self, segment: PathSegment, Ghost(points): Ghost<Seq<Point>>)
        requires
            old(self).wf(),
            segment.count() >= 2,
            segment.matches(points),
            segment is Unknown ==> segment.first() != segment.final_point(),
            segment.first() == old(self).route().last(),
            old(self).total() + segment.total() <= usize::MAX,
            old(self).steps() + segment.count() - 1 <= usize::MAX,
        ensures
            final(self).wf(),
            final(self).surroundings() == old(self).surroundings(),
            final(self).terrain() == old(self).terrain(),
            final(self).total() == old(self).total() + segment.total(),
            final(self).steps() == old(self).steps() + segment.count() - 1,
            final(self).route() == joined(old(self).route(), points),
            final(self).position() == old(self).position(),
            final(self).shape() == old(self).shape().push((segment is Known, segment.count())),
            final(self).all_known() == (old(self).all_known() && segment is Known),
    {
        let ghost before = *self;
        let ghost n = before.path@.len() as int;
        let ghost route = joined(before.route@, points);
        self.total_cost = self.total_cost + segment.cost();
        self.total_length = self.total_length + (segment.len() - 1);
        self.end = segment.end();
        self.path.push(segment);
        self.route = Ghost(route);
        proof {
            let after = self.path@;
            assert(self.shape() =~= before.shape().push((segment is Known, segment.count())));
            lemma_segment_appended(before.path@, before.route@, segment, points);
            lemma_offset_prefix(before.path@, after, self.current_index.0 as int);
            if self.current_index.0 == n {
                lemma_offset_step(after, n);
            }
            if before.all_known() && after[n] is Known {
                assert(self.all_known());
            }
            if self.all_known() {
                assert(after[n] is Known);
                assert forall|i: int| 0 <= i < n implies (#[trigger] before.path@[i]) is Known by {
                    assert(after[i] is Known);
                }
            }
        }
    }

    /// Appends a path that starts where this one ends.
    pub(crate) fn add_path(&mut self, path: Path<Point>)
        requires
            old(self).wf(),
            path.points().len() >= 2,
            path.points()[0] == old(self).route().last(),
            old(self).total() + path.total() <= usize::MAX,
            old(self).steps() + path.points().len() - 1 <= usize::MAX,
        ensures
            final(self).wf(),
            final(self).surroundings() == old(self).surroundings(),
            final(self).terrain() == old(self).terrain(),
            final(self).total() == old(self).total() + path.total(),
            final(self).steps() == old(self).steps() + path.points().len() - 1,
            final(self).route() == joined(old(self).route(), path.points()),
            final(self).position() == old(self).position(),
            final(self).shape() == old(self).shape().push((true, path.points().len())),
            final(self).all_known() == old(self).all_known(),
    {
        let ghost points = path.points();
        self.add_path_segment(PathSegment::Known(path), Ghost(points));
    }

    /// The total cost of the path.
    pub fn cost(&self) -> (cost: Cost)
        ensures
            cost == self.total(),
    {
        self.total_cost
    }

    /// The number of steps that the path was made of.
    pub fn length(&self) -> (length: usize)
        ensures
            length == self.steps(),
    {
        self.total_length
    }

    /// Hands out the next point, which has to be stored in the path.
    pub fn next(&mut self) -> (point: Option<Point>)
        requires
            old(self).wf(),
            old(self).next_is_known(),
        ensures
            final(self).wf(),
            final(self).surroundings() == old(self).surroundings(),
            final(self).terrain() == old(self).terrain(),
            final(self).total() == old(self).total(),
            final(self).steps() == old(self).steps(),
            final(self).route() == old(self).route(),
            final(self).shape() == old(self).shape(),
            final(self).all_known() == old(self).all_known(),
            match point {
                Some(point) => {
                    &&& final(self).position() == old(self).position() + 1
                    &&& point == old(self).route()[old(self).position() + 1]
                },
                None => {
                    &&& *final(self) == *old(self)
                    &&& old(self).position() + 1 == old(self).route().len()
                },
            },
    {
        let (segment, i) = self.current_index;
        if segment >= self.path.len() {
            return None;
        }
        let ghost points = self.route@.subrange(
            offset(self.path@, segment as int),
            offset(self.path@, segment as int) + self.path@[segment as int].count(),
        );
        let (point, len) = match &self.path[segment] {
            PathSegment::Known(path) => (path.at(i), path.len()),
            PathSegment::Unknown { start, len, .. } => (*start, *len),
        };
        proof {
            assert(placed(self.path@, self.route@, segment as int));
            lemma_offset_step(self.path@, segment as int);
            lemma_offset_grows(self.path@, self.route@, segment as int, self.path@.len() as int);
            lemma_offset_grows(self.path@, self.route@, 0, segment as int);
            assert(points[i as int] == self.route@[offset(self.path@, segment as int) + i]);
        }
        if i + 1 < len {
            self.current_index = (segment, i + 1);
        } else {
            self.current_index = (segment + 1, 1);
            proof {
                if segment + 1 < self.path@.len() {
                    assert(placed(self.path@, self.route@, segment + 1));
                }
            }
        }
        Some(point)
    }
}

impl<N: Clone> Clone for AbstractPath<N> {
    fn clone(&self) -> (copy: Self)
        ensures
            cloned(self.surroundings(), copy.surroundings()),
            copy.total() == self.total(),
            copy.steps() == self.steps(),
            copy.route() == self.route(),
            copy.terrain() == self.terrain(),
            self.wf() ==> {
                &&& copy.wf()
                &&& copy.shape() == self.shape()
                &&& copy.position() == self.position()
                &&& copy.next_is_known() == self.next_is_known()
                &&& copy.all_known() == self.all_known()
            },
    {
        let mut path: Vec<PathSegment> = Vec::new();
        for i in 0..self.path.len()
            invariant
                path@.len() == i,
                forall|k: int|
                    0 <= k < i ==> {
                        &&& (#[trigger] path@[k]) is Known == self.path@[k] is Known
                        &&& forall|s: Seq<Point>| #[trigger]
                            self.path@[k].matches(s) ==> path@[k].matches(s)
                    },
        {
            path.push(self.path[i].clone());
        }
        let ghost route = self.route@;
        let copy = AbstractPath {
            neighborhood: self.neighborhood.clone(),
            total_cost: self.total_cost,
            total_length: self.total_length,
            path,
            end: self.end,
            current_index: self.current_index,
            route: Ghost(route),
            ground: self.ground,
        };
        proof {
            if self.wf() {
                lemma_similar_segments(self.path@, copy.path@, route);
                assert(copy.shape() =~= self.shape());
                let i = self.current_index.0 as int;
                if i < self.path@.len() {
                    assert(placed(self.path@, route, i));
                    assert(placed(copy.path@, route, i));
                }
                assert(copy.all_known() == self.all_known()) by {
                    if self.all_known() {
                        assert forall|k: int| 0 <= k < copy.path@.len() implies (
                        #[trigger] copy.path@[k]) is Known by {
                            assert(self.path@[k] is Known);
                        }
                    }
                    if copy.all_known() {
                        assert forall|k: int| 0 <= k < self.path@.len() implies (
                        #[trigger] self.path@[k]) is Known by {
                            assert(copy.path@[k] is Known);
                        }
                    }
                }
            }
        }
        copy
    }
}

/// Segments over the same points make up the same route.
proof fn lemma_similar_segments(a: Seq<PathSegment>, b: Seq<PathSegment>, route: Seq<Point>)
    requires
        laid_out(a, route),
        a.len() == b.len(),
        forall|k: int|
            0 <= k < a.len() ==> {
                &&& (#[trigger] b[k]) is Known == a[k] is Known
                &&& forall|s: Seq<Point>| #[trigger] a[k].matches(s) ==> b[k].matches(s)
            },
    ensures
        laid_out(b, route),
        forall|i: int| 0 <= i <= a.len() ==> #[trigger] offset(b, i) == offset(a, i),
        forall|i: int| 0 <= i < a.len() ==> (#[trigger] b[i]).count() == a[i].count(),
{
    assert forall|i: int| 0 <= i < a.len() implies (#[trigger] b[i]).count() == a[i].count() by {
        let s = route.subrange(offset(a, i), offset(a, i) + a[i].count());
        assert(placed(a, route, i));
        assert(a[i].matches(s));
        assert(b[i].matches(s));
    }
    assert forall|i: int| 0 <= i <= a.len() implies #[trigger] offset(b, i) == offset(a, i) by {
        lemma_same_offset(a, b, i);
    }
    assert forall|i: int| 0 <= i < b.len() implies #[trigger] placed(b, route, i) by {
        assert(placed(a, route, i));
        let s = route.subrange(offset(a, i), offset(a, i) + a[i].count());
        assert(offset(b, i) == offset(a, i));
        assert(a[i].matches(s));
        assert(b[i].matches(s));
    }
}

proof fn lemma_same_offset(a: Seq<PathSegment>, b: Seq<PathSegment>, i: int)
    requires
        0 <= i <= a.len(),
        a.len() == b.len(),
        forall|k: int| 0 <= k < a.len() ==> (#[trigger] b[k]).count() == a[k].count(),
    ensures
        offset(b, i) == offset(a, i),
    decreases i,
{
    lemma_offset_step(a, i - 1);
    lemma_offset_step(b, i - 1);
    if i > 0 {
        lemma_same_offset(a, b, i - 1);
        assert(b[i - 1].count() == a[i - 1].count());
    }
}

/// The segments with the `k`-th replaced by `segment`, whose points are `points`, make up
/// the route with the part that the segment covers replaced.
proof fn lemma_segment_replaced(
    segments: Seq<PathSegment>,
    route: Seq<Point>,
    k: int,
    segment: PathSegment,
    points: Seq<Point>,
) -> (new: Seq<Point>)
    requires
        laid_out(segments, route),
        0 <= k < segments.len(),
        segment.count() >= 2,
        segment is Known,
        segment.matches(points),
        segment.first() == segments[k].first(),
        segment.final_point() == segments[k].final_point(),
    ensures
        laid_out(segments.update(k, segment), new),
        new == joined(
            joined(route.take(offset(segments, k) + 1), points),
            route.skip(offset(segments, k + 1)),
        ),
        0 <= offset(segments, k) < offset(segments, k + 1) < route.len(),
        route[offset(segments, k)] == segments[k].first(),
        route[offset(segments, k + 1)] == segments[k].final_point(),
        offset(segments.update(k, segment), k) == offset(segments, k),
        new[0] == route[0],
        new.last() == route.last(),
{
    let n = segments.len() as int;
    let after = segments.update(k, segment);
    let from = offset(segments, k);
    let to = offset(segments, k + 1);
    let old_points = route.subrange(from, from + segments[k].count());
    let new = joined(joined(route.take(from + 1), points), route.skip(to));
    let d = segment.count() - segments[k].count();
    assert(placed(segments, route, k));
    lemma_offset_step(segments, k);
    lemma_offset_grows(segments, route, 0, k);
    lemma_offset_grows(segments, route, k + 1, n);
    assert(old_points[0] == route[from]);
    assert(old_points.last() == route[to]);
    lemma_offset_prefix(segments, after, k);
    lemma_offset_shift(segments, after, k, n, d);
    assert(joined(route.take(from + 1), points).len() == from + points.len());
    assert(new.len() == from + points.len() + (route.len() - to) - 1);
    assert forall|i: int| 0 <= i < n implies #[trigger] placed(after, new, i) by {
        assert(placed(segments, route, i));
        lemma_offset_grows(segments, route, 0, i);
        lemma_offset_grows(segments, route, i, n);
        let part = new.subrange(offset(after, i), offset(after, i) + after[i].count());
        if i < k {
            lemma_offset_prefix(segments, after, i);
            lemma_offset_grows(segments, route, i, k);
            assert(part =~= route.subrange(
                offset(segments, i),
                offset(segments, i) + segments[i].count(),
            ));
        } else if i == k {
            assert(part =~= points);
        } else {
            lemma_offset_shift(segments, after, k, i, d);
            lemma_offset_grows(segments, route, k + 1, i);
            assert(part =~= route.subrange(
                offset(segments, i),
                offset(segments, i) + segments[i].count(),
            ));
        }
    }
    if to == route.len() - 1 {
        assert(new.last() == points.last());
    }
    new
}

proof fn lemma_offset_shift(
    a: Seq<PathSegment>,
    b: Seq<PathSegment>,
    k: int,
    i: int,
    d: int,
)
    requires
        0 <= k < i <= a.len(),
        a.len() == b.len(),
        b == a.update(k, b[k]),
        d == b[k].count() - a[k].count(),
    ensures
        offset(b, i) == offset(a, i) + d,
    decreases i,
{
    lemma_offset_step(a, i - 1);
    lemma_offset_step(b, i - 1);
    if i == k + 1 {
        lemma_offset_prefix(a, b, k);
    } else {
        lemma_offset_shift(a, b, k, i - 1, d);
    }
}

/// No path on the grid gets too expensive for a [`Cost`].
pub open spec fn paths_are_affordable(t: Terrain) -> bool {
    is_affordable(t, t.whole(), cost_limit(t.size))
}

/// The highest cost of a tile with which no path on the grid can get too expensive.
pub open spec fn cost_limit(size: (usize, usize)) -> nat {
    if size.0 * size.1 > 0 {
        (usize::MAX as int / (size.0 * size.1)) as nat
    } else {
        0
    }
}

/// No tile costs more than `weight`, no path on the grid gets too expensive for a [`Cost`],
/// and the estimated distance to any tile never drops by more than a step costs and can be
/// added to the cost of any path.
pub open spec fn is_guided_at<N: Neighborhood>(neighborhood: N, t: Terrain, weight: nat) -> bool {
    &&& is_affordable(t, t.whole(), weight)
    &&& forall|goal: Point|
        on_grid(goal, t.size) ==> #[trigger] estimates_are_steady(
            neighborhood,
            t.edges(t.whole()),
            goal,
            (t.whole().area() * weight) as nat,
        )
}

/// The estimates of the neighborhood guide the searches on the grid.
pub open spec fn are_searches_guided<N: Neighborhood>(neighborhood: N, t: Terrain) -> bool {
    exists|weight: nat| #[trigger] is_guided_at(neighborhood, t, weight)
}

impl<N: Neighborhood> AbstractPath<N> {
    /// Hands out the next point, and searches for the points of the next segment if they
    /// are not stored.
    ///
    /// The cost function has to be that of the grid on which the path was found. The points
    /// are those of the path that a search on the grid finds. Where the estimates guide it, the
    /// path does not get more expensive.
    pub fn safe_next<F: FnMut(Point) -> isize>(&mut self, get_cost: F) -> (point: Option<Point>)
        requires
            old(self).wf(),
            is_ground(old(self).terrain(), old(self).surroundings()),
            is_cost_fn(get_cost, old(self).terrain()),
            paths_are_affordable(old(self).terrain()),
            !old(self).next_is_known() ==> is_walk(
                old(self).terrain().edges(old(self).terrain().whole()),
                old(self).route(),
            ),
        ensures
            final(self).wf(),
            final(self).surroundings() == old(self).surroundings(),
            final(self).terrain() == old(self).terrain(),
            final(self).total() == old(self).total(),
            final(self).steps() == old(self).steps(),
            final(self).route()[0] == old(self).route()[0],
            final(self).route().last() == old(self).route().last(),
            old(self).next_is_known() ==> final(self).route() == old(self).route(),
            !old(self).next_is_known() ==> is_walk(
                old(self).terrain().edges(old(self).terrain().whole()),
                final(self).route(),
            ),
            are_searches_guided(old(self).surroundings(), old(self).terrain()) ==> walk_cost(
                old(self).terrain().edges(old(self).terrain().whole()),
                final(self).route(),
            ) <= walk_cost(
                old(self).terrain().edges(old(self).terrain().whole()),
                old(self).route(),
            ),
            is_advanced(*old(self), *final(self), point),
            match point {
                Some(point) => {
                    &&& final(self).position() == old(self).position() + 1
                    &&& old(self).position() + 1 < final(self).route().len()
                    &&& point == final(self).route()[old(self).position() + 1]
                    &&& forall|i: int|
                        0 <= i <= old(self).position() ==> #[trigger] final(self).route()[i]
                            == old(self).route()[i]
                },
                None => {
                    &&& *final(self) == *old(self)
                    &&& old(self).position() + 1 == old(self).route().len()
                },
            },
    {
        let (segment, i) = self.current_index;
        proof {
            self.lemma_in_segment();
        }
        if segment >= self.path.len() {
            return None;
        }
        let unknown: Option<(Point, Point)> = match &self.path[segment] {
            PathSegment::Known(_) => None,
            PathSegment::Unknown { start, end, .. } => Some((*start, *end)),
        };
        if let Some((start, end)) = unknown {
            self.resolve(start, end, get_cost);
        }
        proof {
            self.lemma_position();
        }
        let ghost resolved = *self;
        let point: Option<Point> = self.next();
        proof {
            resolved.lemma_not_at_end();
            if unknown is Some {
                let (k, points, cost) = choose|k: int, points: Seq<Point>, cost: nat| #[trigger]
                    is_searched_at(*old(self), resolved, k, points, cost);
                assert(is_searched_at(*old(self), *self, k, points, cost));
            }
        }
        point
    }

    /// Searches for the points of the next segment.
    fn resolve<F: FnMut(Point) -> isize>(&mut self, start: Point, end: Point, get_cost: F)
        requires
            old(self).wf(),
            !old(self).next_is_known(),
            start == old(self).path@[old(self).current_index.0 as int].first(),
            end == old(self).path@[old(self).current_index.0 as int].final_point(),
            is_ground(old(self).terrain(), old(self).surroundings()),
            is_cost_fn(get_cost, old(self).terrain()),
            paths_are_affordable(old(self).terrain()),
            is_walk(
                old(self).terrain().edges(old(self).terrain().whole()),
                old(self).route(),
            ),
        ensures
            final(self).wf(),
            final(self).next_is_known(),
            final(self).current_index == old(self).current_index,
            final(self).path@.len() == old(self).path@.len(),
            final(self).surroundings() == old(self).surroundings(),
            final(self).terrain() == old(self).terrain(),
            final(self).total() == old(self).total(),
            final(self).steps() == old(self).steps(),
            final(self).position() == old(self).position(),
            exists|i: int, points: Seq<Point>, cost: nat| #[trigger]
                is_searched_at(*old(self), *final(self), i, points, cost),
            final(self).route()[0] == old(self).route()[0],
            final(self).route().last() == old(self).route().last(),
            is_walk(
                old(self).terrain().edges(old(self).terrain().whole()),
                final(self).route(),
            ),
            forall|i: int|
                0 <= i <= old(self).position() ==> #[trigger] final(self).route()[i] == old(
                    self,
                ).route()[i],
            are_searches_guided(old(self).surroundings(), old(self).terrain()) ==> walk_cost(
                old(self).terrain().edges(old(self).terrain().whole()),
                final(self).route(),
            ) <= walk_cost(
                old(self).terrain().edges(old(self).terrain().whole()),
                old(self).route(),
            ),
    {
        let mut get_cost = get_cost;
        let ghost before = *self;
        let ghost t = self.terrain();
        let ghost whole = t.whole();
        let ghost e = t.edges(whole);
        let ghost k = self.current_index.0 as int;
        let ghost from = offset(self.path@, k);
        let ghost to = offset(self.path@, k + 1);
        proof {
            let points = before.route@.subrange(from, from + before.path@[k].count());
            assert(placed(before.path@, before.route@, k));
            lemma_offset_grows(before.path@, before.route@, 0, k);
            lemma_offset_grows(before.path@, before.route@, k, before.path@.len() as int);
            lemma_walk_part(e, before.route@, from, from + before.path@[k].count());
            assert(connects(e, points, start, end));
            assert(linked(e, points, 0));
        }
        let ghost weight = if are_searches_guided(self.neighborhood, t) {
            choose|weight: nat| #[trigger] is_guided_at(self.neighborhood, t, weight)
        } else {
            cost_limit(t.size)
        };
        let (width, height) = self.neighborhood.dimensions();
        let region = Region { left: 0, top: 0, right: width, bottom: height };
        let found: Option<Path<Point>> = a_star_search(
            &self.neighborhood,
            region,
            &mut get_cost,
            start,
            end,
            Ghost(t),
            Ghost(weight),
        );
        if let Some(path) = found {
            let ghost points = path.points();
            let ghost path_cost = path.total() as nat;
            proof {
                if points.len() == 1 {
                    assert(points[0] == points.last());
                }
            }
            let known = PathSegment::Known(path);
            let ghost route;
            proof {
                route = lemma_segment_replaced(before.path@, before.route@, k, known, points);
                let head = before.route@.take(from + 1);
                let tail = before.route@.skip(to);
                lemma_walk_part(e, before.route@, 0, from + 1);
                lemma_walk_part(e, before.route@, to, before.route@.len() as int);
                assert(head =~= before.route@.subrange(0, from + 1));
                assert(tail =~= before.route@.subrange(to, before.route@.len() as int));
                lemma_walks_join(e, head, points);
                lemma_walks_join(e, joined(head, points), tail);
                let rest = before.route@.skip(from);
                let part = before.route@.subrange(from, to + 1);
                lemma_walk_splits(e, before.route@, from);
                assert(rest =~= before.route@.subrange(from, before.route@.len() as int));
                lemma_walk_splits(e, rest, to - from);
                assert(rest.subrange(0, to - from + 1) =~= part);
                assert(rest.subrange(to - from, rest.len() as int) =~= tail);
                assert(connects(e, part, start, end));
                if are_searches_guided(before.neighborhood, t) {
                    assert(linked(e, part, part.len() - 2));
                    assert(on_grid(end, t.size));
                    assert(estimates_are_steady(
                        before.neighborhood,
                        e,
                        end,
                        (whole.area() * weight) as nat,
                    ));
                    assert(path.total() <= walk_cost(e, part));
                }
            }
            self.path[self.current_index.0] = known;
            self.route = Ghost(route);
            proof {
                before.lemma_segment_start(k);
                before.lemma_segment_start(k + 1);
                assert(self.shape() =~= before.shape().update(k, (true, points.len())));
                assert(is_searched_at(before, *self, k, points, path_cost));
            }
        } else {
            assert(false);
        }
    }
}

} // verus!
