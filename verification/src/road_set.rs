//! One feature class over the whole grid: a junction per vertex, edited one
//! unit edge at a time.
use vstd::prelude::*;
use core::ops::Range;
use crate::geometry::{rect, v2, vertex, Edge, Node, Position};
use crate::junction::{HalfJunction, Junction};
use crate::matrix::{grid_cells, grid_filled, grid_get, grid_set, grid_shape, JunctionGrid};

verus! {

/// What a `RoadSet` holds: the size of the grid and the junction at each
/// vertex.
pub struct RoadSetView {
    pub width: nat,
    pub height: nat,
    pub junctions: Map<(int, int), Junction>,
}

/// A junction with its `from` flag on one axis replaced.
pub open spec fn junction_with_from(j: Junction, horizontal: bool, on: bool) -> Junction {
    if horizontal {
        Junction { horizontal: HalfJunction { from: on, ..j.horizontal }, ..j }
    } else {
        Junction { vertical: HalfJunction { from: on, ..j.vertical }, ..j }
    }
}

/// A junction with its `to` flag on one axis replaced.
pub open spec fn junction_with_to(j: Junction, horizontal: bool, on: bool) -> Junction {
    if horizontal {
        Junction { horizontal: HalfJunction { to: on, ..j.horizontal }, ..j }
    } else {
        Junction { vertical: HalfJunction { to: on, ..j.vertical }, ..j }
    }
}

/// A junction with the stored widths that a node supplies: a positive
/// `width` goes to the vertical axis, a positive `height` to the horizontal
/// one.
pub open spec fn junction_with_widths(j: Junction, node: Node) -> Junction {
    Junction {
        horizontal: HalfJunction {
            width: if node.height > 0 { node.height } else { j.horizontal.width },
            ..j.horizontal
        },
        vertical: HalfJunction {
            width: if node.width > 0 { node.width } else { j.vertical.width },
            ..j.vertical
        },
    }
}

impl RoadSetView {
    /// A grid of the given size with no edge anywhere and the same stored
    /// width everywhere.
    pub open spec fn empty(width: nat, height: nat, road_width: u32) -> RoadSetView {
        RoadSetView {
            width,
            height,
            junctions: Map::new(
                |p: (int, int)| rect(width, height).contains(p),
                |p: (int, int)| Junction::empty(road_width),
            ),
        }
    }

    /// The junction at a vertex.
    pub open spec fn junction(self, p: Position) -> Junction {
        self.junctions[p.key()]
    }

    /// The junction at every vertex of the grid and nowhere else; each `to`
    /// flag mirrors the `from` flag of the vertex one step back on its axis;
    /// no edge leaves the grid.
    pub open spec fn wf(self) -> bool {
        &&& self.junctions.dom() =~= rect(self.width, self.height)
        &&& forall|x: int, y: int|
            0 <= x < self.width && 0 <= y < self.height ==> #[trigger] self.mirrored_at(x, y)
    }

    /// At the vertex `(x, y)`, each `to` flag is the `from` flag of the
    /// vertex one step back on its axis, and no edge leaves the grid.
    pub open spec fn mirrored_at(self, x: int, y: int) -> bool {
        let here = self.junctions[(x, y)];
        &&& here.horizontal.to == (x > 0 && self.junctions[(x - 1, y)].horizontal.from)
        &&& here.vertical.to == (y > 0 && self.junctions[(x, y - 1)].vertical.from)
        &&& (x == self.width - 1 ==> !here.horizontal.from)
        &&& (y == self.height - 1 ==> !here.vertical.from)
    }

    /// Whether the edge is present: the `from` flag of its axis at its first
    /// end.
    pub open spec fn is_road(self, e: Edge) -> bool {
        if e.horizontal() {
            self.junction(e.from()).horizontal.from
        } else {
            self.junction(e.from()).vertical.from
        }
    }

    /// The width reported for the horizontal axis at a vertex.
    pub open spec fn horizontal_width(self, p: Position) -> u32 {
        self.junction(p).horizontal.reported_width()
    }

    /// The width reported for the vertical axis at a vertex.
    pub open spec fn vertical_width(self, p: Position) -> u32 {
        self.junction(p).vertical.reported_width()
    }

    /// What is rendered at a vertex.
    pub open spec fn node(self, p: Position) -> Node {
        Node { position: p, width: self.vertical_width(p), height: self.horizontal_width(p) }
    }

    /// The grid with the two flags of an edge replaced: `from` at its first
    /// end, `to` at its second.
    pub open spec fn with_flags(self, e: Edge, on: bool) -> RoadSetView {
        let first = self.junctions.insert(
            e.from().key(),
            junction_with_from(self.junctions[e.from().key()], e.horizontal(), on),
        );
        RoadSetView {
            junctions: first.insert(
                e.to().key(),
                junction_with_to(first[e.to().key()], e.horizontal(), on),
            ),
            ..self
        }
    }

    /// The grid with the edge present.
    pub open spec fn with_road(self, e: Edge) -> RoadSetView {
        self.with_flags(e, true)
    }

    /// The grid with the edge absent.
    pub open spec fn without_road(self, e: Edge) -> RoadSetView {
        self.with_flags(e, false)
    }

    /// The grid with every edge of a list present.
    pub open spec fn with_roads(self, edges: Seq<Edge>) -> RoadSetView
        decreases edges.len(),
    {
        if edges.len() == 0 {
            self
        } else {
            self.with_roads(edges.drop_last()).with_road(edges.last())
        }
    }

    /// The grid with the stored widths at one vertex taken from a node.
    pub open spec fn with_widths_from(self, node: Node) -> RoadSetView {
        RoadSetView {
            junctions: self.junctions.insert(
                node.position.key(),
                junction_with_widths(self.junctions[node.position.key()], node),
            ),
            ..self
        }
    }

    /// The grid with the stored widths taken from a list of nodes, one after
    /// the other.
    pub open spec fn with_widths(self, nodes: Seq<Node>) -> RoadSetView
        decreases nodes.len(),
    {
        if nodes.len() == 0 {
            self
        } else {
            self.with_widths(nodes.drop_last()).with_widths_from(nodes.last())
        }
    }
}

/// A full-grid collection of junctions for one feature class.
pub struct RoadSet {
    junctions: JunctionGrid,
}

impl View for RoadSet {
    type V = RoadSetView;

    closed spec fn view(&self) -> RoadSetView {
        RoadSetView {
            width: grid_shape(self.junctions).0,
            height: grid_shape(self.junctions).1,
            junctions: grid_cells(self.junctions),
        }
    }
}

impl RoadSet {
    /// A grid with no edge, every junction storing `road_width`.
    pub fn new(width: usize, height: usize, road_width: u32) -> (r: RoadSet)
        requires
            width * height <= usize::MAX,
        ensures
            r@ == RoadSetView::empty(width as nat, height as nat, road_width),
            r@.wf(),
    {
        RoadSet { junctions: grid_filled(width, height, Junction::new(road_width)) }
    }

    /// The junction at a vertex.
    pub fn get_junction(&self, position: &Position) -> (j: &Junction)
        requires
            position.within(self@.width, self@.height),
        ensures
            *j == self@.junction(*position),
    {
        grid_get(&self.junctions, position.x, position.y)
    }

    /// The width reported for the horizontal axis at a vertex.
    pub fn get_horizontal_width(&self, position: &Position) -> (w: u32)
        requires
            position.within(self@.width, self@.height),
        ensures
            w == self@.horizontal_width(*position),
    {
        self.get_junction(position).horizontal.width()
    }

    /// The width reported for the vertical axis at a vertex.
    pub fn get_vertical_width(&self, position: &Position) -> (w: u32)
        requires
            position.within(self@.width, self@.height),
        ensures
            w == self@.vertical_width(*position),
    {
        self.get_junction(position).vertical.width()
    }

    /// Whether the edge is present. Only the junction at its first end is
    /// read.
    pub fn is_road(&self, edge: &Edge) -> (r: bool)
        requires
            edge.from().within(self@.width, self@.height),
        ensures
            r == self@.is_road(*edge),
    {
        if edge.horizontal() {
            self.get_junction(&edge.from()).horizontal.from
        } else {
            self.get_junction(&edge.from()).vertical.from
        }
    }

    /// What is rendered at a vertex: a width is reported for an axis only
    /// where an edge starts or ends there on that axis.
    pub fn get_node(&self, position: Position) -> (n: Node)
        requires
            position.within(self@.width, self@.height),
        ensures
            n == self@.node(position),
            n.width > 0 ==> self@.junction(position).vertical.present(),
            n.height > 0 ==> self@.junction(position).horizontal.present(),
    {
        let width = self.get_vertical_width(&position);
        let height = self.get_horizontal_width(&position);
        Node::new(position, width, height)
    }

    /// Replaces the two flags of an edge.
    fn set_flags(&mut self, road: &Edge, on: bool)
        requires
            old(self)@.wf(),
            road.wf(),
            road.within(old(self)@.width, old(self)@.height),
        ensures
            final(self)@ == old(self)@.with_flags(*road, on),
            final(self)@.wf(),
    {
        let from: Position = road.from();
        let to: Position = road.to();
        let horizontal: bool = road.horizontal();
        let mut from_junction: Junction = *self.get_junction(&from);
        if horizontal {
            from_junction.horizontal.from = on;
        } else {
            from_junction.vertical.from = on;
        }
        grid_set(&mut self.junctions, from.x, from.y, from_junction);
        let mut to_junction: Junction = *self.get_junction(&to);
        if horizontal {
            to_junction.horizontal.to = on;
        } else {
            to_junction.vertical.to = on;
        }
        grid_set(&mut self.junctions, to.x, to.y, to_junction);
        proof {
            RoadSetView::lemma_with_flags_wf(old(self)@, *road, on);
        }
    }

    /// Marks the edge as present.
    pub fn add_road(&mut self, road: &Edge)
        requires
            old(self)@.wf(),
            road.wf(),
            road.within(old(self)@.width, old(self)@.height),
        ensures
            final(self)@ == old(self)@.with_road(*road),
            final(self)@.wf(),
    {
        self.set_flags(road, true);
    }

    /// Marks the edge as absent.
    pub fn clear_road(&mut self, road: &Edge)
        requires
            old(self)@.wf(),
            road.wf(),
            road.within(old(self)@.width, old(self)@.height),
        ensures
            final(self)@ == old(self)@.without_road(*road),
            final(self)@.wf(),
    {
        self.set_flags(road, false);
    }
}

impl RoadSetView {
    /// Replacing the flags of an edge of the grid keeps the grid well formed
    /// and its size.
    pub proof fn lemma_with_flags_wf(v: RoadSetView, e: Edge, on: bool)
        requires
            v.wf(),
            e.wf(),
            e.within(v.width, v.height),
        ensures
            v.with_flags(e, on).wf(),
            v.with_flags(e, on).width == v.width,
            v.with_flags(e, on).height == v.height,
    {
        let w = v.with_flags(e, on);
        assert forall|x: int, y: int|
            0 <= x < w.width && 0 <= y < w.height implies #[trigger] w.mirrored_at(x, y) by {
            assert(v.mirrored_at(x, y));
            if x > 0 {
                assert(v.mirrored_at(x - 1, y));
            }
            if y > 0 {
                assert(v.mirrored_at(x, y - 1));
            }
        }
    }
}

impl RoadSetView {
    /// Taking stored widths from a node leaves every flag as it was, so the
    /// grid stays well formed.
    pub proof fn lemma_with_widths_from_wf(v: RoadSetView, node: Node)
        requires
            v.wf(),
            node.position.within(v.width, v.height),
        ensures
            v.with_widths_from(node).wf(),
            v.with_widths_from(node).width == v.width,
            v.with_widths_from(node).height == v.height,
    {
        let w = v.with_widths_from(node);
        assert forall|x: int, y: int|
            0 <= x < w.width && 0 <= y < w.height implies #[trigger] w.mirrored_at(x, y) by {
            assert(v.mirrored_at(x, y));
            if x > 0 {
                assert(v.mirrored_at(x - 1, y));
            }
            if y > 0 {
                assert(v.mirrored_at(x, y - 1));
            }
        }
    }
}

impl RoadSet {
    /// Takes the stored widths from a list of nodes, in order: at each
    /// node's vertex a positive `width` replaces the stored vertical width and
    /// a positive `height` the stored horizontal one. No flag changes.
    pub fn set_widths_from_nodes(&mut self, nodes: &Vec<Node>)
        requires
            old(self)@.wf(),
            forall|i: int|
                0 <= i < nodes@.len() ==> (#[trigger] nodes@[i]).position.within(
                    old(self)@.width,
                    old(self)@.height,
                ),
        ensures
            final(self)@ == old(self)@.with_widths(nodes@),
            final(self)@.wf(),
            final(self)@.width == old(self)@.width,
            final(self)@.height == old(self)@.height,
    {
        let mut i: usize = 0;
        while i < nodes.len()
            invariant
                0 <= i <= nodes@.len(),
                self@ == old(self)@.with_widths(nodes@.take(i as int)),
                self@.wf(),
                self@.width == old(self)@.width,
                self@.height == old(self)@.height,
                forall|k: int|
                    0 <= k < nodes@.len() ==> (#[trigger] nodes@[k]).position.within(
                        old(self)@.width,
                        old(self)@.height,
                    ),
            decreases nodes@.len() - i,
        {
            let node: Node = nodes[i];
            let position: Position = node.position();
            let ghost before = self@;
            let mut junction: Junction = *self.get_junction(&position);
            if node.width() > 0 {
                junction.vertical.width = node.width();
            }
            if node.height() > 0 {
                junction.horizontal.width = node.height();
            }
            grid_set(&mut self.junctions, position.x, position.y, junction);
            proof {
                assert(junction == junction_with_widths(before.junction(position), node));
                assert(self@ == before.with_widths_from(node));
                RoadSetView::lemma_with_widths_from_wf(before, node);
                assert(nodes@.take(i + 1).drop_last() == nodes@.take(i as int));
            }
            i = i + 1;
        }
        proof {
            assert(nodes@.take(nodes@.len() as int) == nodes@);
        }
    }

    /// Marks every edge of a list as present.
    pub fn add_roads(&mut self, edges: &Vec<Edge>)
        requires
            old(self)@.wf(),
            forall|i: int|
                0 <= i < edges@.len() ==> (#[trigger] edges@[i]).wf() && edges@[i].within(
                    old(self)@.width,
                    old(self)@.height,
                ),
        ensures
            final(self)@ == old(self)@.with_roads(edges@),
            final(self)@.wf(),
            final(self)@.width == old(self)@.width,
            final(self)@.height == old(self)@.height,
    {
        let mut i: usize = 0;
        while i < edges.len()
            invariant
                0 <= i <= edges@.len(),
                self@ == old(self)@.with_roads(edges@.take(i as int)),
                self@.wf(),
                self@.width == old(self)@.width,
                self@.height == old(self)@.height,
                forall|k: int|
                    0 <= k < edges@.len() ==> (#[trigger] edges@[k]).wf() && edges@[k].within(
                        old(self)@.width,
                        old(self)@.height,
                    ),
            decreases edges@.len() - i,
        {
            self.add_road(&edges[i]);
            proof {
                assert(edges@.take(i + 1).drop_last() == edges@.take(i as int));
            }
            i = i + 1;
        }
        proof {
            assert(edges@.take(edges@.len() as int) == edges@);
        }
    }
}

/// Whether every vertex of a rectangle of indices lies on the grid. An empty
/// rectangle has no vertex.
pub open spec fn ranges_within(
    x_range: Range<usize>,
    y_range: Range<usize>,
    width: nat,
    height: nat,
) -> bool {
    x_range.start < x_range.end && y_range.start < y_range.end ==> x_range.end <= width
        && y_range.end <= height
}

impl RoadSetView {
    /// The visible nodes of one column, for `y` from `y0` up to `y1`.
    pub open spec fn column_nodes(self, x: int, y0: int, y1: int) -> Seq<Node>
        decreases y1 - y0,
    {
        if y1 <= y0 {
            Seq::empty()
        } else {
            let rest = self.column_nodes(x, y0, y1 - 1);
            let node = self.node(vertex(x, y1 - 1));
            if node.visible() {
                rest.push(node)
            } else {
                rest
            }
        }
    }

    /// The visible nodes of a rectangle, column after column.
    pub open spec fn nodes_in(self, x0: int, x1: int, y0: int, y1: int) -> Seq<Node>
        decreases x1 - x0,
    {
        if x1 <= x0 {
            Seq::empty()
        } else {
            self.nodes_in(x0, x1 - 1, y0, y1) + self.column_nodes(x1 - 1, y0, y1)
        }
    }

    /// The edges that start at a vertex: the horizontal one, then the
    /// vertical one, each where its `from` flag is set.
    pub open spec fn edges_from(self, p: Position) -> Seq<Edge> {
        let horizontal = if self.junction(p).horizontal.from {
            seq![Edge::right_of(p)]
        } else {
            Seq::empty()
        };
        let vertical = if self.junction(p).vertical.from {
            seq![Edge::above(p)]
        } else {
            Seq::empty()
        };
        horizontal + vertical
    }

    /// The edges that start in one column, for `y` from `y0` up to `y1`.
    pub open spec fn column_edges(self, x: int, y0: int, y1: int) -> Seq<Edge>
        decreases y1 - y0,
    {
        if y1 <= y0 {
            Seq::empty()
        } else {
            self.column_edges(x, y0, y1 - 1) + self.edges_from(vertex(x, y1 - 1))
        }
    }

    /// The edges that start in a rectangle, column after column.
    pub open spec fn edges_in(self, x0: int, x1: int, y0: int, y1: int) -> Seq<Edge>
        decreases x1 - x0,
    {
        if x1 <= x0 {
            Seq::empty()
        } else {
            self.edges_in(x0, x1 - 1, y0, y1) + self.column_edges(x1 - 1, y0, y1)
        }
    }
}

impl RoadSet {
    /// The nodes of a rectangle of vertices at which anything is rendered.
    pub fn get_nodes(&self, x_range: Range<usize>, y_range: Range<usize>) -> (out: Vec<Node>)
        requires
            ranges_within(x_range, y_range, self@.width, self@.height),
        ensures
            out@ == self@.nodes_in(
                x_range.start as int,
                x_range.end as int,
                y_range.start as int,
                y_range.end as int,
            ),
            out@.no_duplicates(),
    {
        proof {
            self@.lemma_nodes_in_distinct(
                x_range.start as int,
                x_range.end as int,
                y_range.start as int,
                y_range.end as int,
            );
        }
        let mut out: Vec<Node> = Vec::new();
        let mut x: usize = x_range.start;
        while x < x_range.end
            invariant
                ranges_within(x_range, y_range, self@.width, self@.height),
                x_range.start <= x,
                x <= x_range.end || x == x_range.start,
                out@ == self@.nodes_in(
                    x_range.start as int,
                    x as int,
                    y_range.start as int,
                    y_range.end as int,
                ),
            decreases x_range.end - x,
        {
            let ghost done = out@;
            let mut y: usize = y_range.start;
            while y < y_range.end
                invariant
                    ranges_within(x_range, y_range, self@.width, self@.height),
                    x_range.start <= x < x_range.end,
                    y_range.start <= y,
                    y <= y_range.end || y == y_range.start,
                    out@ == done + self@.column_nodes(x as int, y_range.start as int, y as int),
                decreases y_range.end - y,
            {
                let node: Node = self.get_node(v2(x, y));
                if node.width() > 0 || node.height() > 0 {
                    out.push(node);
                }
                y = y + 1;
            }
            proof {
                if y_range.end <= y_range.start {
                    assert(self@.column_nodes(x as int, y_range.start as int, y as int)
                        == self@.column_nodes(x as int, y_range.start as int, y_range.end as int));
                }
            }
            x = x + 1;
        }
        out
    }

    /// The edges that start in a rectangle of vertices.
    pub fn get_edges(&self, x_range: Range<usize>, y_range: Range<usize>) -> (out: Vec<Edge>)
        requires
            ranges_within(x_range, y_range, self@.width, self@.height),
        ensures
            out@ == self@.edges_in(
                x_range.start as int,
                x_range.end as int,
                y_range.start as int,
                y_range.end as int,
            ),
            out@.no_duplicates(),
    {
        proof {
            self@.lemma_edges_in_distinct(
                x_range.start as int,
                x_range.end as int,
                y_range.start as int,
                y_range.end as int,
            );
        }
        let mut out: Vec<Edge> = Vec::new();
        let mut x: usize = x_range.start;
        while x < x_range.end
            invariant
                ranges_within(x_range, y_range, self@.width, self@.height),
                x_range.start <= x,
                x <= x_range.end || x == x_range.start,
                out@ == self@.edges_in(
                    x_range.start as int,
                    x as int,
                    y_range.start as int,
                    y_range.end as int,
                ),
            decreases x_range.end - x,
        {
            let ghost done = out@;
            let mut y: usize = y_range.start;
            while y < y_range.end
                invariant
                    ranges_within(x_range, y_range, self@.width, self@.height),
                    x_range.start <= x < x_range.end,
                    y_range.start <= y,
                    y <= y_range.end || y == y_range.start,
                    out@ == done + self@.column_edges(x as int, y_range.start as int, y as int),
                decreases y_range.end - y,
            {
                let from: Position = v2(x, y);
                let junction: &Junction = self.get_junction(&from);
                let ghost before = out@;
                proof {
                    Edge::lemma_starting_at(from);
                }
                if junction.horizontal.from {
                    let edge: Edge = Edge::new(from, v2(x + 1, y));
                    proof {
                        Edge::lemma_canonical(edge);
                    }
                    out.push(edge);
                }
                if junction.vertical.from {
                    let edge: Edge = Edge::new(from, v2(x, y + 1));
                    proof {
                        Edge::lemma_canonical(edge);
                    }
                    out.push(edge);
                }
                proof {
                    assert(out@ == before + self@.edges_from(from));
                }
                y = y + 1;
            }
            proof {
                if y_range.end <= y_range.start {
                    assert(self@.column_edges(x as int, y_range.start as int, y as int)
                        == self@.column_edges(x as int, y_range.start as int, y_range.end as int));
                }
            }
            x = x + 1;
        }
        out
    }
}

impl RoadSetView {
    /// A node is listed for a column exactly when it is the visible node of
    /// a vertex of that column.
    pub proof fn lemma_column_nodes(self, x: int, y0: int, y1: int)
        requires
            0 <= x <= usize::MAX,
            0 <= y0,
            y1 <= usize::MAX + 1,
        ensures
            forall|n: Node| #[trigger]
                self.column_nodes(x, y0, y1).contains(n) <==> {
                    &&& n.position.x == x
                    &&& y0 <= n.position.y < y1
                    &&& n == self.node(n.position)
                    &&& n.visible()
                },
        decreases y1 - y0,
    {
        if y1 > y0 {
            self.lemma_column_nodes(x, y0, y1 - 1);
            let rest = self.column_nodes(x, y0, y1 - 1);
            let last = self.node(vertex(x, y1 - 1));
            assert forall|n: Node| #[trigger]
                self.column_nodes(x, y0, y1).contains(n) <==> {
                    &&& n.position.x == x
                    &&& y0 <= n.position.y < y1
                    &&& n == self.node(n.position)
                    &&& n.visible()
                } by {
                if last.visible() {
                    assert(rest.push(last).contains(n) <==> rest.contains(n) || n == last) by {
                        if rest.contains(n) {
                            let i = choose|i: int| 0 <= i < rest.len() && rest[i] == n;
                            assert(rest.push(last)[i] == n);
                        }
                        if n == last {
                            assert(rest.push(last)[rest.len() as int] == n);
                        }
                    }
                }
            }
        }
    }

    /// A node is listed for a rectangle exactly when it is the visible node
    /// of a vertex of that rectangle.
    pub proof fn lemma_nodes_in(self, x0: int, x1: int, y0: int, y1: int)
        requires
            0 <= x0,
            x1 <= usize::MAX + 1,
            0 <= y0,
            y1 <= usize::MAX + 1,
        ensures
            forall|n: Node| #[trigger]
                self.nodes_in(x0, x1, y0, y1).contains(n) <==> {
                    &&& x0 <= n.position.x < x1
                    &&& y0 <= n.position.y < y1
                    &&& n == self.node(n.position)
                    &&& n.visible()
                },
        decreases x1 - x0,
    {
        if x1 > x0 {
            self.lemma_nodes_in(x0, x1 - 1, y0, y1);
            self.lemma_column_nodes(x1 - 1, y0, y1);
            let rest = self.nodes_in(x0, x1 - 1, y0, y1);
            let column = self.column_nodes(x1 - 1, y0, y1);
            assert forall|n: Node| #[trigger]
                self.nodes_in(x0, x1, y0, y1).contains(n) <==> {
                    &&& x0 <= n.position.x < x1
                    &&& y0 <= n.position.y < y1
                    &&& n == self.node(n.position)
                    &&& n.visible()
                } by {
                lemma_concat_contains(rest, column, n);
            }
        }
    }

    /// An edge is listed for a vertex exactly when it starts there and its
    /// `from` flag is set.
    pub proof fn lemma_edges_from(self, p: Position)
        ensures
            forall|e: Edge| #[trigger]
                self.edges_from(p).contains(e) <==> {
                    ||| e == Edge::right_of(p) && self.junction(p).horizontal.from
                    ||| e == Edge::above(p) && self.junction(p).vertical.from
                },
    {
        let horizontal = if self.junction(p).horizontal.from {
            seq![Edge::right_of(p)]
        } else {
            Seq::empty()
        };
        let vertical = if self.junction(p).vertical.from {
            seq![Edge::above(p)]
        } else {
            Seq::empty()
        };
        assert forall|e: Edge| #[trigger]
            self.edges_from(p).contains(e) <==> {
                ||| e == Edge::right_of(p) && self.junction(p).horizontal.from
                ||| e == Edge::above(p) && self.junction(p).vertical.from
            } by {
            lemma_concat_contains(horizontal, vertical, e);
            if self.junction(p).horizontal.from {
                assert(horizontal[0] == Edge::right_of(p));
            }
            if self.junction(p).vertical.from {
                assert(vertical[0] == Edge::above(p));
            }
        }
    }

    /// An edge is listed for a column exactly when it starts at a vertex of
    /// that column and its `from` flag is set.
    pub proof fn lemma_column_edges(self, x: int, y0: int, y1: int)
        requires
            0 <= x <= usize::MAX,
            0 <= y0,
            y1 <= usize::MAX + 1,
        ensures
            forall|e: Edge| #[trigger]
                self.column_edges(x, y0, y1).contains(e) <==> {
                    &&& e.from().x == x
                    &&& y0 <= e.from().y < y1
                    &&& self.edges_from(e.from()).contains(e)
                },
        decreases y1 - y0,
    {
        if y1 > y0 {
            self.lemma_column_edges(x, y0, y1 - 1);
            let rest = self.column_edges(x, y0, y1 - 1);
            let last = self.edges_from(vertex(x, y1 - 1));
            self.lemma_edges_from(vertex(x, y1 - 1));
            Edge::lemma_starting_at(vertex(x, y1 - 1));
            assert forall|e: Edge| #[trigger]
                self.column_edges(x, y0, y1).contains(e) <==> {
                    &&& e.from().x == x
                    &&& y0 <= e.from().y < y1
                    &&& self.edges_from(e.from()).contains(e)
                } by {
                lemma_concat_contains(rest, last, e);
            }
        }
    }

    /// An edge is listed for a rectangle exactly when it starts at a vertex
    /// of that rectangle and its `from` flag is set.
    pub proof fn lemma_edges_in(self, x0: int, x1: int, y0: int, y1: int)
        requires
            0 <= x0,
            x1 <= usize::MAX + 1,
            0 <= y0,
            y1 <= usize::MAX + 1,
        ensures
            forall|e: Edge| #[trigger]
                self.edges_in(x0, x1, y0, y1).contains(e) <==> {
                    &&& x0 <= e.from().x < x1
                    &&& y0 <= e.from().y < y1
                    &&& self.edges_from(e.from()).contains(e)
                },
        decreases x1 - x0,
    {
        if x1 > x0 {
            self.lemma_edges_in(x0, x1 - 1, y0, y1);
            self.lemma_column_edges(x1 - 1, y0, y1);
            let rest = self.edges_in(x0, x1 - 1, y0, y1);
            let column = self.column_edges(x1 - 1, y0, y1);
            assert forall|e: Edge| #[trigger]
                self.edges_in(x0, x1, y0, y1).contains(e) <==> {
                    &&& x0 <= e.from().x < x1
                    &&& y0 <= e.from().y < y1
                    &&& self.edges_from(e.from()).contains(e)
                } by {
                lemma_concat_contains(rest, column, e);
            }
        }
    }
}

impl RoadSetView {
    /// A width above zero is reported for an axis only where an edge starts
    /// or ends at the vertex on that axis; where neither flag is set, zero is
    /// reported.
    pub proof fn lemma_masking(self, p: Position)
        ensures
            self.node(p).width > 0 ==> self.junction(p).vertical.from || self.junction(
                p,
            ).vertical.to,
            self.node(p).height > 0 ==> self.junction(p).horizontal.from || self.junction(
                p,
            ).horizontal.to,
            !self.junction(p).vertical.from && !self.junction(p).vertical.to ==> self.node(p).width
                == 0,
            !self.junction(p).horizontal.from && !self.junction(p).horizontal.to ==> self.node(
                p,
            ).height == 0,
    {
    }
}

impl RoadSetView {
    /// Adding a road that is there, or clearing one that is not, changes
    /// nothing: each of the two edits is idempotent.
    pub proof fn lemma_flags_idempotent(self, e: Edge, on: bool)
        requires
            self.wf(),
            e.wf(),
            e.within(self.width, self.height),
        ensures
            self.with_flags(e, on).with_flags(e, on) == self.with_flags(e, on),
            self.with_flags(e, on).is_road(e) == on,
            self.is_road(e) == on ==> self.with_flags(e, on) == self,
    {
        Edge::lemma_axis(e);
        let once = self.with_flags(e, on);
        assert(once.with_flags(e, on).junctions =~= once.junctions);
        if self.is_road(e) == on {
            assert(self.mirrored_at(e.to().x as int, e.to().y as int));
            assert(once.junctions =~= self.junctions);
        }
    }

    /// Clearing a road undoes adding it where there was none, and adding
    /// undoes clearing where there was one.
    pub proof fn lemma_flags_inverse(self, e: Edge, on: bool)
        requires
            self.wf(),
            e.wf(),
            e.within(self.width, self.height),
            self.is_road(e) != on,
        ensures
            self.with_flags(e, on).with_flags(e, !on) == self,
    {
        Edge::lemma_axis(e);
        assert(self.mirrored_at(e.to().x as int, e.to().y as int));
        assert(self.with_flags(e, on).with_flags(e, !on).junctions =~= self.junctions);
    }

    /// Two roads may be added in either order.
    pub proof fn lemma_with_road_commutes(self, a: Edge, b: Edge)
        requires
            self.wf(),
            a.wf(),
            a.within(self.width, self.height),
            b.wf(),
            b.within(self.width, self.height),
        ensures
            self.with_road(a).with_road(b) == self.with_road(b).with_road(a),
    {
        Edge::lemma_axis(a);
        Edge::lemma_axis(b);
        assert(self.with_road(a).with_road(b).junctions =~= self.with_road(b).with_road(
            a,
        ).junctions);
    }
}

impl RoadSetView {
    /// A grid with no edge is well formed.
    pub proof fn lemma_empty_wf(width: nat, height: nat, road_width: u32)
        ensures
            Self::empty(width, height, road_width).wf(),
    {
        let v = Self::empty(width, height, road_width);
        assert forall|x: int, y: int|
            0 <= x < v.width && 0 <= y < v.height implies #[trigger] v.mirrored_at(x, y) by {
            assert(rect(width, height).contains((x, y)));
            if x > 0 {
                assert(rect(width, height).contains((x - 1, y)));
            }
            if y > 0 {
                assert(rect(width, height).contains((x, y - 1)));
            }
        }
    }

    /// Taking stored widths from a list of nodes of the grid keeps the grid
    /// well formed and its size.
    pub proof fn lemma_with_widths_wf(self, nodes: Seq<Node>)
        requires
            self.wf(),
            forall|i: int|
                0 <= i < nodes.len() ==> (#[trigger] nodes[i]).position.within(
                    self.width,
                    self.height,
                ),
        ensures
            self.with_widths(nodes).wf(),
            self.with_widths(nodes).width == self.width,
            self.with_widths(nodes).height == self.height,
        decreases nodes.len(),
    {
        if nodes.len() > 0 {
            let front = nodes.drop_last();
            assert forall|i: int| 0 <= i < front.len() implies (#[trigger] front[i]).position.within(
                self.width,
                self.height,
            ) by {
                assert(front[i] == nodes[i]);
            }
            self.lemma_with_widths_wf(front);
            Self::lemma_with_widths_from_wf(self.with_widths(front), nodes.last());
        }
    }

    /// Adding a list of edges of the grid keeps the grid well formed and its
    /// size.
    pub proof fn lemma_with_roads_wf(self, edges: Seq<Edge>)
        requires
            self.wf(),
            forall|i: int|
                0 <= i < edges.len() ==> (#[trigger] edges[i]).wf() && edges[i].within(
                    self.width,
                    self.height,
                ),
        ensures
            self.with_roads(edges).wf(),
            self.with_roads(edges).width == self.width,
            self.with_roads(edges).height == self.height,
        decreases edges.len(),
    {
        if edges.len() > 0 {
            let front = edges.drop_last();
            assert forall|i: int| 0 <= i < front.len() implies (#[trigger] front[i]).wf()
                && front[i].within(self.width, self.height) by {
                assert(front[i] == edges[i]);
            }
            self.lemma_with_roads_wf(front);
            Self::lemma_with_flags_wf(self.with_roads(front), edges.last(), true);
        }
    }

    /// What is listed for the whole of a well-formed grid lies on it: every
    /// node at a vertex of the grid, every edge a unit edge of the grid.
    pub proof fn lemma_listed_on_grid(self)
        requires
            self.wf(),
            self.width <= usize::MAX,
            self.height <= usize::MAX,
        ensures
            forall|n: Node| #[trigger]
                self.nodes_in(0, self.width as int, 0, self.height as int).contains(n)
                    ==> n.position.within(self.width, self.height),
            forall|e: Edge| #[trigger]
                self.edges_in(0, self.width as int, 0, self.height as int).contains(e) ==> e.wf()
                    && e.within(self.width, self.height),
    {
        self.lemma_nodes_in(0, self.width as int, 0, self.height as int);
        self.lemma_edges_in(0, self.width as int, 0, self.height as int);
        assert forall|e: Edge| #[trigger]
            self.edges_in(0, self.width as int, 0, self.height as int).contains(e) implies e.wf()
            && e.within(self.width, self.height) by {
            self.lemma_edges_from(e.from());
            Edge::lemma_starting_at(e.from());
            assert(self.mirrored_at(e.from().x as int, e.from().y as int));
        }
    }
}

impl RoadSetView {
    /// No node is listed twice for a column.
    pub proof fn lemma_column_nodes_distinct(self, x: int, y0: int, y1: int)
        requires
            0 <= x <= usize::MAX,
            0 <= y0,
            y1 <= usize::MAX + 1,
        ensures
            self.column_nodes(x, y0, y1).no_duplicates(),
        decreases y1 - y0,
    {
        if y1 > y0 {
            self.lemma_column_nodes_distinct(x, y0, y1 - 1);
            self.lemma_column_nodes(x, y0, y1 - 1);
            let rest = self.column_nodes(x, y0, y1 - 1);
            let last = self.node(vertex(x, y1 - 1));
            if last.visible() {
                assert(!rest.contains(last));
                assert forall|i: int, j: int|
                    0 <= i < rest.len() + 1 && 0 <= j < rest.len() + 1 && i != j implies rest.push(
                    last,
                )[i] != rest.push(last)[j] by {
                    if i < rest.len() {
                        assert(rest.contains(rest[i]));
                    }
                    if j < rest.len() {
                        assert(rest.contains(rest[j]));
                    }
                }
            }
        }
    }

    /// No node is listed twice for a rectangle.
    pub proof fn lemma_nodes_in_distinct(self, x0: int, x1: int, y0: int, y1: int)
        requires
            0 <= x0,
            x1 <= usize::MAX + 1,
            0 <= y0,
            y1 <= usize::MAX + 1,
        ensures
            self.nodes_in(x0, x1, y0, y1).no_duplicates(),
        decreases x1 - x0,
    {
        if x1 > x0 {
            self.lemma_nodes_in_distinct(x0, x1 - 1, y0, y1);
            self.lemma_nodes_in(x0, x1 - 1, y0, y1);
            self.lemma_column_nodes_distinct(x1 - 1, y0, y1);
            self.lemma_column_nodes(x1 - 1, y0, y1);
            lemma_concat_no_duplicates(
                self.nodes_in(x0, x1 - 1, y0, y1),
                self.column_nodes(x1 - 1, y0, y1),
            );
        }
    }

    /// No edge is listed twice for a vertex from which the grid goes on.
    pub proof fn lemma_edges_from_distinct(self, p: Position)
        requires
            p.x < usize::MAX,
        ensures
            self.edges_from(p).no_duplicates(),
    {
        Edge::lemma_starting_at(p);
        let horizontal = if self.junction(p).horizontal.from {
            seq![Edge::right_of(p)]
        } else {
            Seq::empty()
        };
        let vertical = if self.junction(p).vertical.from {
            seq![Edge::above(p)]
        } else {
            Seq::empty()
        };
        assert forall|i: int, j: int|
            0 <= i < (horizontal + vertical).len() && 0 <= j < (horizontal + vertical).len() && i
                != j implies (horizontal + vertical)[i] != (horizontal + vertical)[j] by {
            assert(horizontal.len() == 1 && vertical.len() == 1);
            assert(horizontal[0] == Edge::right_of(p));
            assert(vertical[0] == Edge::above(p));
        }
    }

    /// No edge is listed twice for a column.
    pub proof fn lemma_column_edges_distinct(self, x: int, y0: int, y1: int)
        requires
            0 <= x < usize::MAX,
            0 <= y0,
            y1 <= usize::MAX + 1,
        ensures
            self.column_edges(x, y0, y1).no_duplicates(),
        decreases y1 - y0,
    {
        if y1 > y0 {
            self.lemma_column_edges_distinct(x, y0, y1 - 1);
            self.lemma_column_edges(x, y0, y1 - 1);
            let p = vertex(x, y1 - 1);
            self.lemma_edges_from_distinct(p);
            self.lemma_edges_from(p);
            Edge::lemma_starting_at(p);
            lemma_concat_no_duplicates(self.column_edges(x, y0, y1 - 1), self.edges_from(p));
        }
    }

    /// No edge is listed twice for a rectangle.
    pub proof fn lemma_edges_in_distinct(self, x0: int, x1: int, y0: int, y1: int)
        requires
            0 <= x0,
            x1 <= usize::MAX,
            0 <= y0,
            y1 <= usize::MAX + 1,
        ensures
            self.edges_in(x0, x1, y0, y1).no_duplicates(),
        decreases x1 - x0,
    {
        if x1 > x0 {
            self.lemma_edges_in_distinct(x0, x1 - 1, y0, y1);
            self.lemma_edges_in(x0, x1 - 1, y0, y1);
            self.lemma_column_edges_distinct(x1 - 1, y0, y1);
            self.lemma_column_edges(x1 - 1, y0, y1);
            lemma_concat_no_duplicates(
                self.edges_in(x0, x1 - 1, y0, y1),
                self.column_edges(x1 - 1, y0, y1),
            );
        }
    }

    /// What adding a list of edges of the grid leaves: an edge of the grid
    /// is present exactly when it was present before or is listed, and every
    /// stored width is as before.
    pub proof fn lemma_with_roads(self, edges: Seq<Edge>)
        requires
            self.wf(),
            forall|i: int|
                0 <= i < edges.len() ==> (#[trigger] edges[i]).wf() && edges[i].within(
                    self.width,
                    self.height,
                ),
        ensures
            self.with_roads(edges).wf(),
            self.with_roads(edges).width == self.width,
            self.with_roads(edges).height == self.height,
            forall|e: Edge|
                e.wf() && e.within(self.width, self.height) ==> (#[trigger] self.with_roads(
                    edges,
                ).is_road(e)) == (self.is_road(e) || edges.contains(e)),
            forall|x: int, y: int|
                0 <= x < self.width && 0 <= y < self.height ==> {
                    let after = #[trigger] self.with_roads(edges).junctions[(x, y)];
                    &&& after.horizontal.width == self.junctions[(x, y)].horizontal.width
                    &&& after.vertical.width == self.junctions[(x, y)].vertical.width
                },
        decreases edges.len(),
    {
        self.lemma_with_roads_wf(edges);
        if edges.len() > 0 {
            let front = edges.drop_last();
            let last = edges.last();
            assert forall|i: int| 0 <= i < front.len() implies (#[trigger] front[i]).wf()
                && front[i].within(self.width, self.height) by {
                assert(front[i] == edges[i]);
            }
            self.lemma_with_roads(front);
            let before = self.with_roads(front);
            let after = before.with_road(last);
            Edge::lemma_axis(last);
            Edge::lemma_canonical(last);
            assert forall|e: Edge| e.wf() && e.within(self.width, self.height) implies (
            #[trigger] after.is_road(e)) == (self.is_road(e) || edges.contains(e)) by {
                Edge::lemma_axis(e);
                Edge::lemma_canonical(e);
                let _ = before.is_road(e);
                if e == last {
                    assert(edges[edges.len() - 1] == e);
                }
                if front.contains(e) {
                    let i = choose|i: int| 0 <= i < front.len() && front[i] == e;
                    assert(edges[i] == e);
                }
                if edges.contains(e) && e != last {
                    let i = choose|i: int| 0 <= i < edges.len() && edges[i] == e;
                    assert(front[i] == e);
                }
            }
            assert forall|x: int, y: int| 0 <= x < self.width && 0 <= y < self.height implies {
                let held = #[trigger] after.junctions[(x, y)];
                &&& held.horizontal.width == self.junctions[(x, y)].horizontal.width
                &&& held.vertical.width == self.junctions[(x, y)].vertical.width
            } by {
                let _ = before.junctions[(x, y)];
            }
        }
    }

    /// Two lists that hold the same edges of the grid, in whatever order and
    /// however often, leave the same grid when added.
    pub proof fn lemma_with_roads_any_order(self, a: Seq<Edge>, b: Seq<Edge>)
        requires
            self.wf(),
            self.width <= usize::MAX,
            self.height <= usize::MAX,
            forall|i: int|
                0 <= i < a.len() ==> (#[trigger] a[i]).wf() && a[i].within(self.width, self.height),
            forall|i: int|
                0 <= i < b.len() ==> (#[trigger] b[i]).wf() && b[i].within(self.width, self.height),
            forall|e: Edge| a.contains(e) <==> b.contains(e),
        ensures
            self.with_roads(a) == self.with_roads(b),
    {
        self.lemma_with_roads(a);
        self.lemma_with_roads(b);
        let left = self.with_roads(a);
        let right = self.with_roads(b);
        assert forall|x: int, y: int|
            0 <= x < self.width && 0 <= y < self.height implies #[trigger] left.junctions[(x, y)]
            == right.junctions[(x, y)] by {
            let _ = right.junctions[(x, y)];
            assert(left.mirrored_at(x, y));
            assert(right.mirrored_at(x, y));
            left.lemma_same_roads_same_flags(right, x, y);
            if x > 0 {
                left.lemma_same_roads_same_flags(right, x - 1, y);
            }
            if y > 0 {
                left.lemma_same_roads_same_flags(right, x, y - 1);
            }
        }
        assert(left.junctions =~= right.junctions);
    }

    /// In two well-formed grids of one size in which the same edges are
    /// present, the `from` flags at a vertex agree.
    proof fn lemma_same_roads_same_flags(self, other: RoadSetView, x: int, y: int)
        requires
            self.wf(),
            other.wf(),
            self.width == other.width,
            self.height == other.height,
            self.width <= usize::MAX,
            self.height <= usize::MAX,
            0 <= x < self.width,
            0 <= y < self.height,
            forall|e: Edge|
                e.wf() && e.within(self.width, self.height) ==> (#[trigger] self.is_road(e))
                    == other.is_road(e),
        ensures
            self.junctions[(x, y)].horizontal.from == other.junctions[(x, y)].horizontal.from,
            self.junctions[(x, y)].vertical.from == other.junctions[(x, y)].vertical.from,
    {
        let p = vertex(x, y);
        assert(self.mirrored_at(x, y));
        assert(other.mirrored_at(x, y));
        Edge::lemma_starting_at(p);
        if x + 1 < self.width {
            let _ = self.is_road(Edge::right_of(p));
        }
        if y + 1 < self.height {
            let _ = self.is_road(Edge::above(p));
        }
    }
}

/// A value occurs in two lists joined exactly when it occurs in one of them.
pub proof fn lemma_concat_contains<T>(a: Seq<T>, b: Seq<T>, x: T)
    ensures
        (a + b).contains(x) <==> a.contains(x) || b.contains(x),
{
    if a.contains(x) {
        let i = choose|i: int| 0 <= i < a.len() && a[i] == x;
        assert((a + b)[i] == x);
    }
    if b.contains(x) {
        let i = choose|i: int| 0 <= i < b.len() && b[i] == x;
        assert((a + b)[a.len() + i] == x);
    }
    if (a + b).contains(x) {
        let i = choose|i: int| 0 <= i < (a + b).len() && (a + b)[i] == x;
        if i < a.len() {
            assert(a[i] == x);
        } else {
            assert(b[i - a.len()] == x);
        }
    }
}

/// Two lists that hold nothing twice and nothing in common join to a list
/// that holds nothing twice.
pub proof fn lemma_concat_no_duplicates<T>(a: Seq<T>, b: Seq<T>)
    requires
        a.no_duplicates(),
        b.no_duplicates(),
        forall|x: T| a.contains(x) ==> !b.contains(x),
    ensures
        (a + b).no_duplicates(),
{
    assert forall|i: int, j: int|
        0 <= i < (a + b).len() && 0 <= j < (a + b).len() && i != j implies (a + b)[i] != (a
        + b)[j] by {
        if i < a.len() && j >= a.len() {
            assert(a.contains(a[i]));
            assert(b.contains(b[j - a.len()]));
        } else if j < a.len() && i >= a.len() {
            assert(a.contains(a[j]));
            assert(b.contains(b[i - a.len()]));
        }
    }
}

} // verus!
