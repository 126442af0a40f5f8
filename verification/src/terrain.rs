//! The mesh-ready network: the node that is rendered at each vertex, and the
//! set of unit edges that carry a feature.
use vstd::prelude::*;
use crate::geometry::{rect, v2, vertex, Edge, Node, Position};

verus! {

/// What a `Terrain` holds.
pub struct TerrainView {
    pub width: nat,
    pub height: nat,
    pub nodes: Map<(int, int), Node>,
    pub edges: Set<Edge>,
}

impl TerrainView {
    /// The node at which nothing is rendered.
    pub open spec fn bare_node(p: Position) -> Node {
        Node { position: p, width: 0, height: 0 }
    }

    /// A grid with nothing rendered at any vertex and no edge.
    pub open spec fn empty(width: nat, height: nat) -> TerrainView {
        TerrainView {
            width,
            height,
            nodes: Map::new(
                |p: (int, int)| rect(width, height).contains(p),
                |p: (int, int)| Self::bare_node(vertex(p.0, p.1)),
            ),
            edges: Set::empty(),
        }
    }

    /// A node at every vertex of the grid and nowhere else, each at its own
    /// position; every edge a unit edge of the grid.
    pub open spec fn wf(self) -> bool {
        &&& self.nodes.dom() =~= rect(self.width, self.height)
        &&& forall|p: Position|
            p.within(self.width, self.height) ==> (#[trigger] self.node(p)).position == p
        &&& forall|e: Edge| #[trigger]
            self.edges.contains(e) ==> e.wf() && e.within(self.width, self.height)
    }

    /// The node at a vertex.
    pub open spec fn node(self, p: Position) -> Node {
        self.nodes[p.key()]
    }

    /// Whether the edge carries a feature.
    pub open spec fn is_edge(self, e: Edge) -> bool {
        self.edges.contains(e)
    }

    /// The network with the node at one vertex replaced.
    pub open spec fn with_node(self, node: Node) -> TerrainView {
        TerrainView { nodes: self.nodes.insert(node.position.key(), node), ..self }
    }

    /// The network with one more edge.
    pub open spec fn with_edge(self, e: Edge) -> TerrainView {
        TerrainView { edges: self.edges.insert(e), ..self }
    }

    /// The network without an edge.
    pub open spec fn without_edge(self, e: Edge) -> TerrainView {
        TerrainView { edges: self.edges.remove(e), ..self }
    }

    /// The network with the nodes of a list put in place, one after the
    /// other.
    pub open spec fn with_nodes(self, nodes: Seq<Node>) -> TerrainView
        decreases nodes.len(),
    {
        if nodes.len() == 0 {
            self
        } else {
            self.with_nodes(nodes.drop_last()).with_node(nodes.last())
        }
    }

    /// The network with the edges of a list added.
    pub open spec fn with_edges(self, edges: Seq<Edge>) -> TerrainView
        decreases edges.len(),
    {
        if edges.len() == 0 {
            self
        } else {
            self.with_edges(edges.drop_last()).with_edge(edges.last())
        }
    }
}

impl TerrainView {
    /// Putting nodes in place keeps the size and the edges; each vertex then
    /// holds what it held before or one of the listed nodes for that vertex,
    /// and a vertex for which a node is listed holds a listed one.
    pub proof fn lemma_with_nodes(self, nodes: Seq<Node>)
        requires
            self.wf(),
            forall|i: int|
                0 <= i < nodes.len() ==> (#[trigger] nodes[i]).position.within(
                    self.width,
                    self.height,
                ),
        ensures
            self.with_nodes(nodes).wf(),
            self.with_nodes(nodes).width == self.width,
            self.with_nodes(nodes).height == self.height,
            self.with_nodes(nodes).edges == self.edges,
            forall|p: Position|
                p.within(self.width, self.height) ==> {
                    ||| #[trigger] self.with_nodes(nodes).node(p) == self.node(p)
                    ||| nodes.contains(self.with_nodes(nodes).node(p))
                },
            forall|i: int|
                0 <= i < nodes.len() ==> nodes.contains(
                    self.with_nodes(nodes).node((#[trigger] nodes[i]).position),
                ),
        decreases nodes.len(),
    {
        if nodes.len() > 0 {
            let front = nodes.drop_last();
            let last = nodes.last();
            self.lemma_with_nodes(front);
            let before = self.with_nodes(front);
            let after = before.with_node(last);
            assert(after.nodes.dom() =~= before.nodes.dom());
            assert forall|p: Position| p.within(after.width, after.height) implies (
            #[trigger] after.node(p)).position == p by {
                let _ = before.node(p);
            }
            assert forall|p: Position| p.within(self.width, self.height) implies {
                ||| #[trigger] after.node(p) == self.node(p)
                ||| nodes.contains(after.node(p))
            } by {
                if p == last.position {
                    assert(nodes[nodes.len() - 1] == last);
                } else {
                    let _ = before.node(p);
                    if front.contains(before.node(p)) {
                        let i = choose|i: int| 0 <= i < front.len() && front[i] == before.node(p);
                        assert(nodes[i] == before.node(p));
                    }
                }
            }
            assert forall|i: int| 0 <= i < nodes.len() implies nodes.contains(
                after.node((#[trigger] nodes[i]).position),
            ) by {
                if nodes[i].position == last.position {
                    assert(nodes[nodes.len() - 1] == last);
                } else {
                    assert(front[i] == nodes[i]);
                    let held = before.node(front[i].position);
                    let k = choose|k: int| 0 <= k < front.len() && front[k] == held;
                    assert(nodes[k] == held);
                }
            }
        }
    }

    /// Adding edges keeps the size and the nodes; the network then carries
    /// what it carried before and the listed edges.
    pub proof fn lemma_with_edges(self, edges: Seq<Edge>)
        requires
            self.wf(),
            forall|i: int|
                0 <= i < edges.len() ==> (#[trigger] edges[i]).wf() && edges[i].within(
                    self.width,
                    self.height,
                ),
        ensures
            self.with_edges(edges).wf(),
            self.with_edges(edges).width == self.width,
            self.with_edges(edges).height == self.height,
            self.with_edges(edges).nodes == self.nodes,
            forall|e: Edge| #[trigger]
                self.with_edges(edges).is_edge(e) <==> self.is_edge(e) || edges.contains(e),
        decreases edges.len(),
    {
        if edges.len() > 0 {
            let front = edges.drop_last();
            let last = edges.last();
            self.lemma_with_edges(front);
            let before = self.with_edges(front);
            let after = before.with_edge(last);
            assert forall|e: Edge| #[trigger]
                after.is_edge(e) <==> self.is_edge(e) || edges.contains(e) by {
                let _ = before.is_edge(e);
                if e == last {
                    assert(edges[edges.len() - 1] == e);
                }
                if front.contains(e) {
                    let i = choose|i: int| 0 <= i < front.len() && front[i] == e;
                    assert(edges[i] == e);
                }
                if edges.contains(e) && e != last {
                    let i = choose|i: int| 0 <= i < edges.len() && edges[i] == e;
                    assert(front[i] == e);
                }
            }
            assert forall|e: Edge| #[trigger] after.edges.contains(e) implies e.wf() && e.within(
                after.width,
                after.height,
            ) by {
                if e != last {
                    assert(before.edges.contains(e));
                } else {
                    assert(edges[edges.len() - 1] == e);
                }
            }
            assert forall|p: Position| p.within(after.width, after.height) implies (
            #[trigger] after.node(p)).position == p by {
                let _ = before.node(p);
            }
        }
    }
}

/// What is kept for one vertex: its node, and whether an edge leaves it
/// along x (`right`) and along y (`up`).
#[derive(Clone, Copy)]
struct MeshCell {
    node: Node,
    right: bool,
    up: bool,
}

/// The cell of the vertex `(x, y)` in a column-after-column list.
spec fn cell_at(cells: Seq<MeshCell>, height: int, x: int, y: int) -> MeshCell {
    cells[x * height + y]
}

/// The cell of a vertex of the grid stands inside the list.
proof fn lemma_index_bound(x: int, y: int, width: int, height: int)
    by (nonlinear_arith)
    requires
        0 <= x < width,
        0 <= y < height,
    ensures
        0 <= x * height,
        0 <= x * height + y < width * height,
{
}

/// Two vertices whose cells stand at the same place are the same vertex.
proof fn lemma_index_injective(x: int, y: int, x2: int, y2: int, height: int)
    by (nonlinear_arith)
    requires
        0 <= y < height,
        0 <= y2 < height,
        x * height + y == x2 * height + y2,
    ensures
        x == x2,
        y == y2,
{
}

/// Replacing the cell of one vertex leaves the cell of every other vertex.
proof fn lemma_cell_replaced(
    before: Seq<MeshCell>,
    width: int,
    height: int,
    x: int,
    y: int,
    cell: MeshCell,
)
    requires
        0 <= x < width,
        0 <= y < height,
        before.len() == width * height,
    ensures
        forall|a: int, b: int|
            0 <= a < width && 0 <= b < height ==> #[trigger] cell_at(
                before.update(x * height + y, cell),
                height,
                a,
                b,
            ) == (if a == x && b == y {
                cell
            } else {
                cell_at(before, height, a, b)
            }),
{
    let after = before.update(x * height + y, cell);
    lemma_index_bound(x, y, width, height);
    assert forall|a: int, b: int| 0 <= a < width && 0 <= b < height implies #[trigger] cell_at(
        after,
        height,
        a,
        b,
    ) == (if a == x && b == y {
        cell
    } else {
        cell_at(before, height, a, b)
    }) by {
        lemma_index_bound(a, b, width, height);
        if a * height + b == x * height + y {
            lemma_index_injective(a, b, x, y, height);
        }
    }
}

/// The derived network of a grid world.
pub struct Terrain {
    width: usize,
    height: usize,
    cells: Vec<MeshCell>,
}

impl View for Terrain {
    type V = TerrainView;

    closed spec fn view(&self) -> TerrainView {
        TerrainView {
            width: self.width as nat,
            height: self.height as nat,
            nodes: Map::new(
                |p: (int, int)| rect(self.width as nat, self.height as nat).contains(p),
                |p: (int, int)| cell_at(self.cells@, self.height as int, p.0, p.1).node,
            ),
            edges: Set::new(
                |e: Edge|
                    e.wf() && e.from().within(self.width as nat, self.height as nat) && if e.horizontal() {
                        cell_at(
                            self.cells@,
                            self.height as int,
                            e.from().x as int,
                            e.from().y as int,
                        ).right
                    } else {
                        cell_at(
                            self.cells@,
                            self.height as int,
                            e.from().x as int,
                            e.from().y as int,
                        ).up
                    },
            ),
        }
    }
}

impl Terrain {
    /// One cell per vertex, each holding the node of its own vertex, and no
    /// edge that leaves the grid.
    pub closed spec fn wf(&self) -> bool {
        &&& self.cells@.len() == self.width * self.height
        &&& forall|x: int, y: int|
            0 <= x < self.width && 0 <= y < self.height ==> {
                let c = #[trigger] cell_at(self.cells@, self.height as int, x, y);
                &&& c.node.position == vertex(x, y)
                &&& (c.right ==> x + 1 < self.width)
                &&& (c.up ==> y + 1 < self.height)
            }
    }

    /// A well-formed terrain has a well-formed view.
    pub proof fn lemma_view_wf(&self)
        requires
            self.wf(),
        ensures
            self@.wf(),
    {
        assert forall|e: Edge| #[trigger] self@.edges.contains(e) implies e.wf() && e.within(
            self@.width,
            self@.height,
        ) by {
            let _ = cell_at(self.cells@, self.height as int, e.from().x as int, e.from().y as int);
            Edge::lemma_axis(e);
        }
        assert forall|p: Position| p.within(self@.width, self@.height) implies (
        #[trigger] self@.node(p)).position == p by {
            let _ = cell_at(self.cells@, self.height as int, p.x as int, p.y as int);
        }
    }

    /// The number of columns of vertices.
    pub fn width(&self) -> (w: usize)
        ensures
            w == self@.width,
    {
        self.width
    }

    /// The number of rows of vertices.
    pub fn height(&self) -> (h: usize)
        ensures
            h == self@.height,
    {
        self.height
    }

    /// Where the cell of a vertex stands.
    fn index(&self, position: &Position) -> (i: usize)
        requires
            self.wf(),
            position.within(self.width as nat, self.height as nat),
        ensures
            i == position.x * self.height + position.y,
            i < self.cells@.len(),
    {
        proof {
            lemma_index_bound(
                position.x as int,
                position.y as int,
                self.width as int,
                self.height as int,
            );
            assert(position.x * self.height + position.y < self.cells.len());
        }
        position.x * self.height + position.y
    }

    /// The node at a vertex.
    pub fn get_node(&self, position: Position) -> (n: &Node)
        requires
            self.wf(),
            position.within(self@.width, self@.height),
        ensures
            *n == self@.node(position),
    {
        let i: usize = self.index(&position);
        proof {
            let _ = cell_at(self.cells@, self.height as int, position.x as int, position.y as int);
        }
        &self.cells[i].node
    }

    /// Whether the edge carries a feature.
    pub fn is_edge(&self, edge: &Edge) -> (r: bool)
        requires
            self.wf(),
            edge.wf(),
            edge.from().within(self@.width, self@.height),
        ensures
            r == self@.is_edge(*edge),
    {
        let from: Position = edge.from();
        let i: usize = self.index(&from);
        if edge.horizontal() {
            self.cells[i].right
        } else {
            self.cells[i].up
        }
    }

    /// Replaces the node at the node's own vertex.
    pub fn set_node(&mut self, node: Node)
        requires
            old(self).wf(),
            node.position.within(old(self)@.width, old(self)@.height),
        ensures
            final(self).wf(),
            final(self)@ == old(self)@.with_node(node),
    {
        let position: Position = node.position();
        let i: usize = self.index(&position);
        let cell: MeshCell = self.cells[i];
        let replaced: MeshCell = MeshCell { node, right: cell.right, up: cell.up };
        proof {
            lemma_cell_replaced(
                self.cells@,
                self.width as int,
                self.height as int,
                position.x as int,
                position.y as int,
                replaced,
            );
            let _ = cell_at(self.cells@, self.height as int, position.x as int, position.y as int);
        }
        self.cells.set(i, replaced);
        proof {
            let after = self@;
            let expected = old(self)@.with_node(node);
            assert forall|p: (int, int)| after.nodes.dom().contains(p) implies after.nodes[p]
                == expected.nodes[p] by {
                let _ = cell_at(self.cells@, self.height as int, p.0, p.1);
            }
            assert(after.nodes =~= expected.nodes);
            assert forall|e: Edge| after.edges.contains(e) == expected.edges.contains(e) by {
                if e.from().within(self.width as nat, self.height as nat) {
                    let _ = cell_at(
                        self.cells@,
                        self.height as int,
                        e.from().x as int,
                        e.from().y as int,
                    );
                }
            }
            assert(after.edges =~= expected.edges);
        }
    }

    /// Replaces the flag of an edge at its first end.
    fn mark_edge(&mut self, edge: &Edge, on: bool)
        requires
            old(self).wf(),
            edge.wf(),
            edge.within(old(self)@.width, old(self)@.height),
        ensures
            final(self).wf(),
            final(self)@ == (if on {
                old(self)@.with_edge(*edge)
            } else {
                old(self)@.without_edge(*edge)
            }),
    {
        let from: Position = edge.from();
        let i: usize = self.index(&from);
        let cell: MeshCell = self.cells[i];
        let replaced: MeshCell = if edge.horizontal() {
            MeshCell { node: cell.node, right: on, up: cell.up }
        } else {
            MeshCell { node: cell.node, right: cell.right, up: on }
        };
        proof {
            lemma_cell_replaced(
                self.cells@,
                self.width as int,
                self.height as int,
                from.x as int,
                from.y as int,
                replaced,
            );
            let _ = cell_at(self.cells@, self.height as int, from.x as int, from.y as int);
            Edge::lemma_axis(*edge);
        }
        self.cells.set(i, replaced);
        proof {
            let after = self@;
            let expected = if on {
                old(self)@.with_edge(*edge)
            } else {
                old(self)@.without_edge(*edge)
            };
            assert forall|p: (int, int)| after.nodes.dom().contains(p) implies after.nodes[p]
                == expected.nodes[p] by {
                let _ = cell_at(self.cells@, self.height as int, p.0, p.1);
            }
            assert(after.nodes =~= expected.nodes);
            assert forall|e: Edge| after.edges.contains(e) == expected.edges.contains(e) by {
                if e.wf() && e.from().within(self.width as nat, self.height as nat) {
                    let _ = cell_at(
                        self.cells@,
                        self.height as int,
                        e.from().x as int,
                        e.from().y as int,
                    );
                    Edge::lemma_canonical(e);
                    Edge::lemma_canonical(*edge);
                }
            }
            assert(after.edges =~= expected.edges);
        }
    }

    /// Records that the edge carries a feature.
    pub fn set_edge(&mut self, edge: &Edge)
        requires
            old(self).wf(),
            edge.wf(),
            edge.within(old(self)@.width, old(self)@.height),
        ensures
            final(self).wf(),
            final(self)@ == old(self)@.with_edge(*edge),
    {
        self.mark_edge(edge, true);
    }

    /// Records that the edge carries no feature.
    pub fn clear_edge(&mut self, edge: &Edge)
        requires
            old(self).wf(),
            edge.wf(),
            edge.within(old(self)@.width, old(self)@.height),
        ensures
            final(self).wf(),
            final(self)@ == old(self)@.without_edge(*edge),
    {
        self.mark_edge(edge, false);
    }

    /// The cell of a vertex at which nothing is rendered and from which no
    /// edge leaves.
    closed spec fn bare_cell(x: int, y: int) -> MeshCell {
        MeshCell { node: TerrainView::bare_node(vertex(x, y)), right: false, up: false }
    }

    /// A network of the given size with nothing rendered and no edge.
    fn bare(width: usize, height: usize) -> (t: Terrain)
        requires
            width * height <= usize::MAX,
        ensures
            t.wf(),
            t@ == TerrainView::empty(width as nat, height as nat),
    {
        let mut cells: Vec<MeshCell> = Vec::new();
        let mut x: usize = 0;
        while x < width
            invariant
                x <= width,
                width * height <= usize::MAX,
                cells@.len() == x * height,
                forall|a: int, b: int|
                    0 <= a < x && 0 <= b < height ==> #[trigger] cell_at(
                        cells@,
                        height as int,
                        a,
                        b,
                    ) == Self::bare_cell(a, b),
            decreases width - x,
        {
            let mut y: usize = 0;
            while y < height
                invariant
                    x < width,
                    y <= height,
                    width * height <= usize::MAX,
                    cells@.len() == x * height + y,
                    forall|a: int, b: int|
                        (0 <= a < x && 0 <= b < height) || (a == x && 0 <= b < y)
                            ==> #[trigger] cell_at(cells@, height as int, a, b) == Self::bare_cell(
                            a,
                            b,
                        ),
                decreases height - y,
            {
                let ghost before = cells@;
                cells.push(MeshCell { node: Node::new(v2(x, y), 0, 0), right: false, up: false });
                proof {
                    assert forall|a: int, b: int|
                        (0 <= a < x && 0 <= b < height) || (a == x && 0 <= b < y + 1)
                        implies #[trigger] cell_at(cells@, height as int, a, b) == Self::bare_cell(
                        a,
                        b,
                    ) by {
                        if a < x {
                            lemma_index_bound(a, b, x as int, height as int);
                            assert(cell_at(cells@, height as int, a, b) == cell_at(
                                before,
                                height as int,
                                a,
                                b,
                            ));
                        } else if b < y {
                            assert(cell_at(cells@, height as int, a, b) == cell_at(
                                before,
                                height as int,
                                a,
                                b,
                            ));
                        }
                    }
                }
                y = y + 1;
            }
            proof {
                assert(x * height + height == (x + 1) * height) by (nonlinear_arith);
            }
            x = x + 1;
        }
        let t = Terrain { width, height, cells };
        proof {
            assert(t@.nodes =~= TerrainView::empty(width as nat, height as nat).nodes) by {
                assert forall|p: (int, int)| t@.nodes.dom().contains(p) implies t@.nodes[p]
                    == TerrainView::bare_node(vertex(p.0, p.1)) by {
                    let _ = cell_at(t.cells@, height as int, p.0, p.1);
                }
            }
            assert(t@.edges =~= Set::<Edge>::empty()) by {
                assert forall|e: Edge| !t@.edges.contains(e) by {
                    if e.from().within(width as nat, height as nat) {
                        let _ = cell_at(
                            t.cells@,
                            height as int,
                            e.from().x as int,
                            e.from().y as int,
                        );
                    }
                }
            }
        }
        t
    }

    /// The network that renders the given nodes and carries the given edges:
    /// the nodes are put in place one after the other, every other vertex
    /// renders nothing.
    pub fn new(width: usize, height: usize, nodes: &Vec<Node>, edges: &Vec<Edge>) -> (t: Terrain)
        requires
            width * height <= usize::MAX,
            forall|i: int|
                0 <= i < nodes@.len() ==> (#[trigger] nodes@[i]).position.within(
                    width as nat,
                    height as nat,
                ),
            forall|i: int|
                0 <= i < edges@.len() ==> (#[trigger] edges@[i]).wf() && edges@[i].within(
                    width as nat,
                    height as nat,
                ),
        ensures
            t.wf(),
            t@ == TerrainView::empty(width as nat, height as nat).with_nodes(nodes@).with_edges(
                edges@,
            ),
            t@.width == width,
            t@.height == height,
    {
        let mut t: Terrain = Self::bare(width, height);
        let ghost start = t@;
        let mut i: usize = 0;
        while i < nodes.len()
            invariant
                0 <= i <= nodes@.len(),
                t.wf(),
                t@ == start.with_nodes(nodes@.take(i as int)),
                t@.width == width,
                t@.height == height,
                forall|k: int|
                    0 <= k < nodes@.len() ==> (#[trigger] nodes@[k]).position.within(
                        width as nat,
                        height as nat,
                    ),
            decreases nodes@.len() - i,
        {
            t.set_node(nodes[i]);
            proof {
                assert(nodes@.take(i + 1).drop_last() == nodes@.take(i as int));
            }
            i = i + 1;
        }
        proof {
            assert(nodes@.take(nodes@.len() as int) == nodes@);
        }
        let ghost middle = t@;
        let mut k: usize = 0;
        while k < edges.len()
            invariant
                0 <= k <= edges@.len(),
                t.wf(),
                t@ == middle.with_edges(edges@.take(k as int)),
                t@.width == width,
                t@.height == height,
                forall|j: int|
                    0 <= j < edges@.len() ==> (#[trigger] edges@[j]).wf() && edges@[j].within(
                        width as nat,
                        height as nat,
                    ),
            decreases edges@.len() - k,
        {
            t.set_edge(&edges[k]);
            proof {
                assert(edges@.take(k + 1).drop_last() == edges@.take(k as int));
            }
            k = k + 1;
        }
        proof {
            assert(edges@.take(edges@.len() as int) == edges@);
        }
        t
    }
}

} // verus!
