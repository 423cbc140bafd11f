//! What holds of the neighborhoods, in terms of columns and rows.

use vstd::prelude::*;

use crate::neighbors::{gap, ManhattanNeighborhood, MooreNeighborhood, Neighborhood};
use crate::Point;

verus! {

/// Both coordinates differ by at most one.
pub open spec fn touch(a: Point, b: Point) -> bool {
    a.0 <= b.0 + 1 && b.0 <= a.0 + 1 && a.1 <= b.1 + 1 && b.1 <= a.1 + 1
}

/// The tiles are at most one step apart, in a straight direction.
pub open spec fn share_a_side(a: Point, b: Point) -> bool {
    touch(a, b) && (a.0 == b.0 || a.1 == b.1)
}

/// The tile `b`, moved like `a` was moved to `c`.
pub open spec fn moved_alike(a: Point, c: Point, b: Point, d: Point) -> bool {
    c.0 - a.0 == d.0 - b.0 && c.1 - a.1 == d.1 - b.1
}

/// Each of the tiles lies next to the one before it.
pub open spec fn are_steps<N: Neighborhood>(n: N, s: Seq<Point>) -> bool {
    forall|i: int| 0 <= i < s.len() - 1 ==> n.adjacent(#[trigger] s[i], s[i + 1])
}

/// With diagonals, two different tiles of the grid lie next to each other if and only if
/// neither their columns nor their rows differ by more than one, whatever the size of the grid.
pub proof fn law_diagonal_neighbors(n: MooreNeighborhood, a: Point, b: Point)
    requires
        a.0 < n.size().0,
        a.1 < n.size().1,
        b.0 < n.size().0,
        b.1 < n.size().1,
    ensures
        n.adjacent(a, b) <==> a != b && touch(a, b),
{
}

/// Without diagonals, two different tiles of the grid lie next to each other if and only if
/// they share a side, whatever the size of the grid.
pub proof fn law_straight_neighbors(n: ManhattanNeighborhood, a: Point, b: Point)
    requires
        a.0 < n.size().0,
        a.1 < n.size().1,
        b.0 < n.size().0,
        b.1 < n.size().1,
    ensures
        n.adjacent(a, b) <==> a != b && share_a_side(a, b),
{
}

/// A diagonal step leads to the tiles to which two straight ones lead, one along the row and
/// one along the column, in either order.
pub proof fn law_diagonals_are_two_straight_steps(
    n: MooreNeighborhood,
    m: ManhattanNeighborhood,
    a: Point,
    b: Point,
)
    requires
        n.size() == m.size(),
        a.0 != b.0,
        a.1 != b.1,
    ensures
        n.adjacent(a, b) <==> m.adjacent(a, (b.0, a.1)) && m.adjacent((b.0, a.1), b),
        n.adjacent(a, b) <==> m.adjacent(a, (a.0, b.1)) && m.adjacent((a.0, b.1), b),
{
}

/// In a straight direction, the neighborhood with diagonals is that without.
pub proof fn law_straight_steps_are_the_same(
    n: MooreNeighborhood,
    m: ManhattanNeighborhood,
    a: Point,
    b: Point,
)
    requires
        n.size() == m.size(),
        a.0 == b.0 || a.1 == b.1,
    ensures
        n.adjacent(a, b) <==> m.adjacent(a, b),
{
}

/// With diagonals, it depends neither on the size of the grid nor on the place whether tiles
/// lie next to each other, nor how far they are apart.
pub proof fn law_diagonal_neighbors_everywhere(
    n: MooreNeighborhood,
    m: MooreNeighborhood,
    a: Point,
    b: Point,
    c: Point,
    d: Point,
)
    requires
        a.0 < n.size().0,
        a.1 < n.size().1,
        b.0 < n.size().0,
        b.1 < n.size().1,
        c.0 < m.size().0,
        c.1 < m.size().1,
        d.0 < m.size().0,
        d.1 < m.size().1,
        moved_alike(a, c, b, d),
    ensures
        n.adjacent(a, b) == m.adjacent(c, d),
        n.distance(a, b) == m.distance(c, d),
{
}

/// Without diagonals, it depends neither on the size of the grid nor on the place whether
/// tiles lie next to each other, nor how far they are apart.
pub proof fn law_straight_neighbors_everywhere(
    n: ManhattanNeighborhood,
    m: ManhattanNeighborhood,
    a: Point,
    b: Point,
    c: Point,
    d: Point,
)
    requires
        a.0 < n.size().0,
        a.1 < n.size().1,
        b.0 < n.size().0,
        b.1 < n.size().1,
        c.0 < m.size().0,
        c.1 < m.size().1,
        d.0 < m.size().0,
        d.1 < m.size().1,
        moved_alike(a, c, b, d),
    ensures
        n.adjacent(a, b) == m.adjacent(c, d),
        n.distance(a, b) == m.distance(c, d),
{
}

/// With diagonals, no walk from one tile to another has fewer steps than they are apart.
pub proof fn law_diagonal_distance_is_a_lower_bound(n: MooreNeighborhood, s: Seq<Point>)
    requires
        s.len() > 0,
        are_steps(n, s),
    ensures
        n.distance(s[0], s.last()) <= s.len() - 1,
    decreases s.len(),
{
    if s.len() > 1 {
        let d = s.drop_last();
        assert forall|i: int| 0 <= i < d.len() - 1 implies n.adjacent(
            #[trigger] d[i],
            d[i + 1],
        ) by {
            assert(n.adjacent(s[i], s[i + 1]));
        }
        law_diagonal_distance_is_a_lower_bound(n, d);
        assert(n.adjacent(s[s.len() - 2], s[s.len() - 2 + 1]));
    }
}

/// With diagonals, there is a walk from one tile to another with as many steps as they are
/// apart.
pub proof fn law_diagonal_distance_is_walked(
    n: MooreNeighborhood,
    a: Point,
    b: Point,
) -> (s: Seq<Point>)
    requires
        a.0 < n.size().0,
        a.1 < n.size().1,
        b.0 < n.size().0,
        b.1 < n.size().1,
    ensures
        are_steps(n, s),
        s.len() == n.distance(a, b) + 1,
        s[0] == a,
        s.last() == b,
    decreases gap(a.0, b.0) + gap(a.1, b.1),
{
    if a == b {
        seq![a]
    } else {
        let c = (closer(b.0, a.0), closer(b.1, a.1));
        let u = law_diagonal_distance_is_walked(n, a, c);
        let s = u.push(b);
        assert(n.adjacent(c, b));
        assert forall|i: int| 0 <= i < s.len() - 1 implies n.adjacent(
            #[trigger] s[i],
            s[i + 1],
        ) by {
            if i < u.len() - 1 {
                assert(n.adjacent(u[i], u[i + 1]));
            }
        }
        s
    }
}

/// The coordinate `x`, brought closer to `y` by one if it differs.
spec fn closer(x: usize, y: usize) -> usize {
    if x < y {
        (x + 1) as usize
    } else if x > y {
        (x - 1) as usize
    } else {
        x
    }
}

/// Without diagonals, no walk from one tile to another has fewer steps than they are apart.
pub proof fn law_straight_distance_is_a_lower_bound(n: ManhattanNeighborhood, s: Seq<Point>)
    requires
        s.len() > 0,
        are_steps(n, s),
    ensures
        n.distance(s[0], s.last()) <= s.len() - 1,
    decreases s.len(),
{
    if s.len() > 1 {
        let d = s.drop_last();
        assert forall|i: int| 0 <= i < d.len() - 1 implies n.adjacent(
            #[trigger] d[i],
            d[i + 1],
        ) by {
            assert(n.adjacent(s[i], s[i + 1]));
        }
        law_straight_distance_is_a_lower_bound(n, d);
        assert(n.adjacent(s[s.len() - 2], s[s.len() - 2 + 1]));
    }
}

/// Without diagonals, there is a walk from one tile to another with as many steps as they are
/// apart, if this number fits in a machine word.
pub proof fn law_straight_distance_is_walked(
    n: ManhattanNeighborhood,
    a: Point,
    b: Point,
) -> (s: Seq<Point>)
    requires
        a.0 < n.size().0,
        a.1 < n.size().1,
        b.0 < n.size().0,
        b.1 < n.size().1,
        n.size().0 + n.size().1 <= usize::MAX,
    ensures
        are_steps(n, s),
        s.len() == n.distance(a, b) + 1,
        s[0] == a,
        s.last() == b,
    decreases gap(a.0, b.0) + gap(a.1, b.1),
{
    if a == b {
        seq![a]
    } else {
        let c = if a.0 != b.0 {
            (closer(b.0, a.0), b.1)
        } else {
            (b.0, closer(b.1, a.1))
        };
        let u = law_straight_distance_is_walked(n, a, c);
        let s = u.push(b);
        assert(n.adjacent(c, b));
        assert forall|i: int| 0 <= i < s.len() - 1 implies n.adjacent(
            #[trigger] s[i],
            s[i + 1],
        ) by {
            if i < u.len() - 1 {
                assert(n.adjacent(u[i], u[i + 1]));
            }
        }
        s
    }
}

} // verus!
