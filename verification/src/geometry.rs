//! Grid coordinates, unit edges between neighbouring vertices, and the
//! render-facing projection of a vertex.
use vstd::prelude::*;

verus! {

/// A vertex of the grid.
#[derive(Clone, Copy, Debug, PartialEq, Eq, Hash, Structural)]
pub struct Position {
    pub x: usize,
    pub y: usize,
}

impl Position {
    /// Whether the vertex lies on a grid of the given size.
    pub open spec fn within(self, width: nat, height: nat) -> bool {
        self.x < width && self.y < height
    }

    /// The pair of mathematical integers that names this vertex.
    pub open spec fn key(self) -> (int, int) {
        (self.x as int, self.y as int)
    }
}

/// The vertex named by a pair of indices.
pub open spec fn vertex(x: int, y: int) -> Position {
    Position { x: x as usize, y: y as usize }
}

/// The index pairs of the vertices of a grid of the given size.
pub open spec fn rect(width: nat, height: nat) -> Set<(int, int)> {
    Set::new(|p: (int, int)| 0 <= p.0 < width && 0 <= p.1 < height)
}

/// The vertex at `(x, y)`.
pub fn v2(x: usize, y: usize) -> (p: Position)
    ensures
        p == (Position { x, y }),
{
    Position { x, y }
}

/// Whether two vertices are one unit apart along one axis.
pub open spec fn adjacent(a: Position, b: Position) -> bool {
    ||| a.y == b.y && (a.x + 1 == b.x || b.x + 1 == a.x)
    ||| a.x == b.x && (a.y + 1 == b.y || b.y + 1 == a.y)
}

/// Whether `a` comes before `b` when vertices are ordered by `x`, then by `y`.
pub open spec fn precedes(a: Position, b: Position) -> bool {
    a.x < b.x || (a.x == b.x && a.y < b.y)
}

/// Why two vertices do not span a unit edge.
#[derive(Clone, Copy, Debug, PartialEq, Eq, Structural)]
pub enum EdgeError {
    /// Both ends are the same vertex.
    ZeroLength,
    /// The ends differ along both axes.
    Diagonal,
    /// The ends lie on one axis, more than one unit apart.
    TooLong,
}

/// What `Edge::try_new` owes for a pair of vertices.
pub open spec fn edge_error(a: Position, b: Position) -> Option<EdgeError> {
    if a == b {
        Some(EdgeError::ZeroLength)
    } else if a.x != b.x && a.y != b.y {
        Some(EdgeError::Diagonal)
    } else if !adjacent(a, b) {
        Some(EdgeError::TooLong)
    } else {
        None
    }
}

/// A unit edge between two neighbouring vertices. It always runs in the
/// positive direction of its axis: `from` is the end that comes first.
#[derive(Clone, Copy, Debug, PartialEq, Eq, Structural)]
pub struct Edge {
    from: Position,
    to: Position,
}

impl Edge {
    /// The end that comes first.
    pub closed spec fn spec_from(&self) -> Position {
        self.from
    }

    /// The end that comes second.
    pub closed spec fn spec_to(&self) -> Position {
        self.to
    }

    /// Whether the edge runs along the x axis.
    pub open spec fn spec_horizontal(&self) -> bool {
        self.from().y == self.to().y
    }

    /// The edge runs one unit in the positive direction of one axis.
    pub open spec fn wf(&self) -> bool {
        ||| self.to().x == self.from().x + 1 && self.to().y == self.from().y
        ||| self.to().x == self.from().x && self.to().y == self.from().y + 1
    }

    /// Both ends lie on a grid of the given size.
    pub open spec fn within(&self, width: nat, height: nat) -> bool {
        self.from().within(width, height) && self.to().within(width, height)
    }

    /// The horizontal edge that starts at `p`.
    pub closed spec fn right_of(p: Position) -> Edge {
        Edge { from: p, to: Position { x: (p.x + 1) as usize, y: p.y } }
    }

    /// The vertical edge that starts at `p`.
    pub closed spec fn above(p: Position) -> Edge {
        Edge { from: p, to: Position { x: p.x, y: (p.y + 1) as usize } }
    }

    /// The ends of the edges that start at `p`, where the grid goes on
    /// beyond `p` along the axis.
    pub proof fn lemma_starting_at(p: Position)
        ensures
            Self::right_of(p).from() == p,
            Self::above(p).from() == p,
            p.x < usize::MAX ==> Self::right_of(p).wf() && Self::right_of(p).horizontal()
                && Self::right_of(p).to() == (Position { x: (p.x + 1) as usize, y: p.y }),
            p.y < usize::MAX ==> Self::above(p).wf() && !Self::above(p).horizontal()
                && Self::above(p).to() == (Position { x: p.x, y: (p.y + 1) as usize }),
            p.x < usize::MAX || p.y < usize::MAX ==> Self::right_of(p) != Self::above(p),
    {
    }

    /// A well-formed edge is the horizontal or the vertical edge that starts
    /// at its first end.
    pub proof fn lemma_canonical(e: Edge)
        requires
            e.wf(),
        ensures
            e.horizontal() ==> e == Self::right_of(e.from()),
            !e.horizontal() ==> e == Self::above(e.from()),
    {
    }

    /// The edge between two neighbouring vertices, given in either order.
    pub fn new(from: Position, to: Position) -> (e: Edge)
        requires
            adjacent(from, to),
        ensures
            e.wf(),
            e.from() == (if precedes(from, to) { from } else { to }),
            e.to() == (if precedes(from, to) { to } else { from }),
    {
        if from.x < to.x || (from.x == to.x && from.y < to.y) {
            Edge { from, to }
        } else {
            Edge { from: to, to: from }
        }
    }

    /// The edge between two vertices, or the reason why there is none.
    pub fn try_new(a: Position, b: Position) -> (r: Result<Edge, EdgeError>)
        ensures
            match r {
                Ok(e) => adjacent(a, b) && e.wf()
                    && e.from() == (if precedes(a, b) { a } else { b })
                    && e.to() == (if precedes(a, b) { b } else { a }),
                Err(err) => edge_error(a, b) == Some(err),
            },
            r.is_ok() <==> adjacent(a, b),
    {
        if a.x == b.x && a.y == b.y {
            Err(EdgeError::ZeroLength)
        } else if a.x != b.x && a.y != b.y {
            Err(EdgeError::Diagonal)
        } else if a.x == b.x {
            if (a.y < b.y && b.y - a.y == 1) || (b.y < a.y && a.y - b.y == 1) {
                Ok(Edge::new(a, b))
            } else {
                Err(EdgeError::TooLong)
            }
        } else {
            if (a.x < b.x && b.x - a.x == 1) || (b.x < a.x && a.x - b.x == 1) {
                Ok(Edge::new(a, b))
            } else {
                Err(EdgeError::TooLong)
            }
        }
    }

    /// The end that comes first.
    #[verifier::when_used_as_spec(spec_from)]
    pub fn from(&self) -> (p: Position)
        ensures
            p == self.from(),
    {
        self.from
    }

    /// The end that comes second.
    #[verifier::when_used_as_spec(spec_to)]
    pub fn to(&self) -> (p: Position)
        ensures
            p == self.to(),
    {
        self.to
    }

    /// Whether the edge runs along the x axis.
    #[verifier::when_used_as_spec(spec_horizontal)]
    pub fn horizontal(&self) -> (r: bool)
        ensures
            r == self.horizontal(),
    {
        self.from.y == self.to.y
    }

    /// A well-formed edge is horizontal exactly when its second end lies one
    /// step along x, and vertical exactly when it lies one step along y.
    pub proof fn lemma_axis(e: Edge)
        requires
            e.wf(),
        ensures
            e.horizontal() <==> (e.to().x == e.from().x + 1 && e.to().y == e.from().y),
            !e.horizontal() <==> (e.to().x == e.from().x && e.to().y == e.from().y + 1),
    {
    }
}

/// What is rendered at a vertex: `width` is the extent of the features on the
/// vertical axis, `height` that of the features on the horizontal axis.
#[derive(Clone, Copy, Debug, PartialEq, Eq, Structural)]
pub struct Node {
    pub position: Position,
    pub width: u32,
    pub height: u32,
}

impl Node {
    /// The node at a vertex with the given extents.
    pub fn new(position: Position, width: u32, height: u32) -> (n: Node)
        ensures
            n == (Node { position, width, height }),
    {
        Node { position, width, height }
    }

    /// The vertex of the node.
    pub fn position(&self) -> (p: Position)
        ensures
            p == self.position,
    {
        self.position
    }

    /// The extent of the features on the vertical axis.
    pub fn width(&self) -> (w: u32)
        ensures
            w == self.width,
    {
        self.width
    }

    /// The extent of the features on the horizontal axis.
    pub fn height(&self) -> (h: u32)
        ensures
            h == self.height,
    {
        self.height
    }

    /// Whether anything is rendered at the vertex.
    pub open spec fn visible(&self) -> bool {
        self.width > 0 || self.height > 0
    }
}

} // verus!
