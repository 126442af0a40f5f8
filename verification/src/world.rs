//! The world: rivers laid once, roads edited at run time, and the network
//! derived from both.
use vstd::prelude::*;
use crate::geometry::{rect, Edge, Node, Position};
use crate::road_set::{RoadSet, RoadSetView};
use crate::terrain::{Terrain, TerrainView};

verus! {

/// The larger of two widths.
pub open spec fn wider(a: u32, b: u32) -> u32 {
    if a >= b {
        a
    } else {
        b
    }
}

/// What a `World` holds.
pub struct WorldView {
    pub width: nat,
    pub height: nat,
    pub terrain: TerrainView,
    pub rivers: RoadSetView,
    pub roads: RoadSetView,
}

impl WorldView {
    /// The width rendered for the horizontal axis at a vertex: the wider of
    /// river and road.
    pub open spec fn horizontal_width(self, p: Position) -> u32 {
        wider(self.rivers.horizontal_width(p), self.roads.horizontal_width(p))
    }

    /// The width rendered for the vertical axis at a vertex: the wider of
    /// river and road.
    pub open spec fn vertical_width(self, p: Position) -> u32 {
        wider(self.rivers.vertical_width(p), self.roads.vertical_width(p))
    }

    /// What is rendered at a vertex.
    pub open spec fn node(self, p: Position) -> Node {
        Node { position: p, width: self.vertical_width(p), height: self.horizontal_width(p) }
    }

    /// Whether a river or a road runs along the edge.
    pub open spec fn is_river_or_road(self, e: Edge) -> bool {
        self.rivers.is_road(e) || self.roads.is_road(e)
    }

    /// The three parts are well formed and of the world's size.
    pub open spec fn sized(self) -> bool {
        &&& self.rivers.wf()
        &&& self.rivers.width == self.width
        &&& self.rivers.height == self.height
        &&& self.roads.wf()
        &&& self.roads.width == self.width
        &&& self.roads.height == self.height
        &&& self.terrain.wf()
        &&& self.terrain.width == self.width
        &&& self.terrain.height == self.height
    }

    /// The network carries exactly the edges along which a river or a road
    /// runs.
    pub open spec fn edges_agree(self) -> bool {
        forall|e: Edge|
            e.wf() && e.within(self.width, self.height) ==> #[trigger] self.terrain.is_edge(e)
                == self.is_river_or_road(e)
    }

    /// The network renders at every vertex the wider of river and road, axis
    /// by axis.
    pub open spec fn nodes_agree(self) -> bool {
        forall|p: Position|
            p.within(self.width, self.height) ==> #[trigger] self.terrain.node(p) == self.node(p)
    }

    /// Well formed, and the network agrees with rivers and roads.
    pub open spec fn wf(self) -> bool {
        &&& self.sized()
        &&& self.edges_agree()
        &&& self.nodes_agree()
    }

    /// The world with the network brought up to date along one edge: the
    /// edge itself, then the node at each of its ends.
    pub open spec fn terrain_updated(self, e: Edge) -> WorldView {
        let marked = if self.is_river_or_road(e) {
            self.terrain.with_edge(e)
        } else {
            self.terrain.without_edge(e)
        };
        WorldView {
            terrain: marked.with_node(self.node(e.from())).with_node(self.node(e.to())),
            ..self
        }
    }

    /// The world after the road flags of an edge are replaced and the
    /// network is brought up to date.
    pub open spec fn road_set_to(self, e: Edge, on: bool) -> WorldView {
        WorldView { roads: self.roads.with_flags(e, on), ..self }.terrain_updated(e)
    }

    /// The world after a road is added.
    pub open spec fn road_added(self, e: Edge) -> WorldView {
        self.road_set_to(e, true)
    }

    /// The world after a road is cleared.
    pub open spec fn road_cleared(self, e: Edge) -> WorldView {
        self.road_set_to(e, false)
    }

    /// The world after a road is toggled: cleared where there was one, added
    /// where there was none.
    pub open spec fn road_toggled(self, e: Edge) -> WorldView {
        if self.roads.is_road(e) {
            self.road_cleared(e)
        } else {
            self.road_added(e)
        }
    }

    /// Replacing the road flags of an edge of the grid and bringing the
    /// network up to date along it leaves a well-formed world in which the
    /// network agrees with rivers and roads.
    pub proof fn lemma_road_set_to_wf(s: WorldView, e: Edge, on: bool)
        requires
            s.wf(),
            e.wf(),
            e.within(s.width, s.height),
        ensures
            s.road_set_to(e, on).wf(),
            s.road_set_to(e, on).width == s.width,
            s.road_set_to(e, on).height == s.height,
            s.road_set_to(e, on).rivers == s.rivers,
            s.road_set_to(e, on).roads == s.roads.with_flags(e, on),
    {
        RoadSetView::lemma_with_flags_wf(s.roads, e, on);
        Edge::lemma_axis(e);
        Edge::lemma_canonical(e);
        let t = s.road_set_to(e, on);
        assert(t.terrain.nodes.dom() =~= s.terrain.nodes.dom());
        assert forall|p: Position| p.within(t.width, t.height) implies (#[trigger] t.terrain.node(
            p,
        )) == t.node(p) by {
            let _ = s.terrain.node(p);
        }
        assert forall|e2: Edge| e2.wf() && e2.within(t.width, t.height) implies (
        #[trigger] t.terrain.is_edge(e2)) == t.is_river_or_road(e2) by {
            Edge::lemma_axis(e2);
            Edge::lemma_canonical(e2);
            let _ = s.terrain.is_edge(e2);
        }
        assert forall|e2: Edge| #[trigger] t.terrain.edges.contains(e2) implies e2.wf()
            && e2.within(t.width, t.height) by {
            if e2 != e {
                assert(s.terrain.edges.contains(e2));
            }
        }
    }

    /// Toggling the road along the same edge twice, with no other edit in
    /// between, leaves the world as it was.
    pub proof fn lemma_toggle_twice(s: WorldView, e: Edge)
        requires
            s.wf(),
            e.wf(),
            e.within(s.width, s.height),
        ensures
            s.road_toggled(e).road_toggled(e) == s,
    {
        Edge::lemma_axis(e);
        let on = !s.roads.is_road(e);
        let once = s.road_toggled(e);
        assert(once == s.road_set_to(e, on));
        Self::lemma_road_set_to_wf(s, e, on);
        assert(once.roads.is_road(e) == on);
        let twice = once.road_toggled(e);
        assert(twice == once.road_set_to(e, !on));
        Self::lemma_road_set_to_wf(once, e, !on);
        assert(s.roads.mirrored_at(e.to().x as int, e.to().y as int));
        assert(twice.roads.junctions =~= s.roads.junctions);
        assert(twice.roads == s.roads);
        let _ = s.terrain.is_edge(e);
        assert(twice.terrain.edges =~= s.terrain.edges);
        let _ = s.terrain.node(e.from());
        let _ = s.terrain.node(e.to());
        assert(twice.terrain.nodes =~= s.terrain.nodes);
    }
}

impl WorldView {
    /// The rivers of a new world: on a grid that stores no width, the stored
    /// widths taken from the nodes, then the edges added.
    pub open spec fn rivers_of(
        width: nat,
        height: nat,
        river_nodes: Seq<Node>,
        rivers: Seq<Edge>,
    ) -> RoadSetView {
        RoadSetView::empty(width, height, 0).with_widths(river_nodes).with_roads(rivers)
    }

    /// The network of a world that has only rivers: their visible nodes put
    /// in place, their edges added.
    pub open spec fn network_of(rivers: RoadSetView) -> TerrainView {
        TerrainView::empty(rivers.width, rivers.height).with_nodes(
            rivers.nodes_in(0, rivers.width as int, 0, rivers.height as int),
        ).with_edges(rivers.edges_in(0, rivers.width as int, 0, rivers.height as int))
    }

    /// The world as it is made: the given rivers, no road, and the network
    /// of the rivers.
    pub open spec fn made(
        width: nat,
        height: nat,
        river_nodes: Seq<Node>,
        rivers: Seq<Edge>,
    ) -> WorldView {
        WorldView {
            width,
            height,
            terrain: Self::network_of(Self::rivers_of(width, height, river_nodes, rivers)),
            rivers: Self::rivers_of(width, height, river_nodes, rivers),
            roads: RoadSetView::empty(width, height, ROAD_WIDTH),
        }
    }

    /// A world as it is made is well formed, and its network agrees with
    /// its rivers and roads.
    pub proof fn lemma_made_wf(width: nat, height: nat, river_nodes: Seq<Node>, rivers: Seq<Edge>)
        requires
            width <= usize::MAX,
            height <= usize::MAX,
            forall|i: int|
                0 <= i < river_nodes.len() ==> (#[trigger] river_nodes[i]).position.within(
                    width,
                    height,
                ),
            forall|i: int|
                0 <= i < rivers.len() ==> (#[trigger] rivers[i]).wf() && rivers[i].within(
                    width,
                    height,
                ),
        ensures
            Self::made(width, height, river_nodes, rivers).wf(),
    {
        let w = Self::made(width, height, river_nodes, rivers);
        let bare = RoadSetView::empty(width, height, 0);
        RoadSetView::lemma_empty_wf(width, height, 0);
        RoadSetView::lemma_empty_wf(width, height, ROAD_WIDTH);
        bare.lemma_with_widths_wf(river_nodes);
        bare.with_widths(river_nodes).lemma_with_roads_wf(rivers);
        let nodes = w.rivers.nodes_in(0, width as int, 0, height as int);
        let edges = w.rivers.edges_in(0, width as int, 0, height as int);
        w.rivers.lemma_listed_on_grid();
        w.rivers.lemma_nodes_in(0, width as int, 0, height as int);
        w.rivers.lemma_edges_in(0, width as int, 0, height as int);
        assert forall|i: int| 0 <= i < nodes.len() implies (#[trigger] nodes[i]).position.within(
            width,
            height,
        ) by {
            assert(nodes.contains(nodes[i]));
        }
        assert forall|i: int| 0 <= i < edges.len() implies (#[trigger] edges[i]).wf()
            && edges[i].within(width, height) by {
            assert(edges.contains(edges[i]));
        }
        let start = TerrainView::empty(width, height);
        assert(start.wf());
        start.lemma_with_nodes(nodes);
        let middle = start.with_nodes(nodes);
        middle.lemma_with_edges(edges);
        assert forall|p: Position| p.within(w.width, w.height) implies (#[trigger] w.terrain.node(
            p,
        )) == w.node(p) by {
            let _ = middle.node(p);
            let _ = start.node(p);
            let river = w.rivers.node(p);
            assert(rect(width, height).contains(p.key()));
            if river.visible() {
                assert(nodes.contains(river));
                let i = choose|i: int| 0 <= i < nodes.len() && nodes[i] == river;
                assert(nodes.contains(middle.node(nodes[i].position)));
            }
        }
        assert forall|e: Edge| e.wf() && e.within(w.width, w.height) implies (
        #[trigger] w.terrain.is_edge(e)) == w.is_river_or_road(e) by {
            let _ = middle.is_edge(e);
            w.rivers.lemma_edges_from(e.from());
            Edge::lemma_canonical(e);
            Edge::lemma_axis(e);
            Edge::lemma_starting_at(e.from());
            assert(rect(width, height).contains(e.from().key()));
        }
    }
}

/// One edit of the roads of a world.
pub enum Edit {
    Add(Edge),
    Clear(Edge),
    Toggle(Edge),
}

impl Edit {
    /// The edge that is edited.
    pub open spec fn edge(self) -> Edge {
        match self {
            Edit::Add(e) => e,
            Edit::Clear(e) => e,
            Edit::Toggle(e) => e,
        }
    }
}

impl WorldView {
    /// The world after one edit.
    pub open spec fn edited(self, edit: Edit) -> WorldView {
        match edit {
            Edit::Add(e) => self.road_added(e),
            Edit::Clear(e) => self.road_cleared(e),
            Edit::Toggle(e) => self.road_toggled(e),
        }
    }

    /// The world after a list of edits, one after the other.
    pub open spec fn edited_all(self, edits: Seq<Edit>) -> WorldView
        decreases edits.len(),
    {
        if edits.len() == 0 {
            self
        } else {
            self.edited_all(edits.drop_last()).edited(edits.last())
        }
    }

    /// Whether every edit of a list is of a unit edge of the grid.
    pub open spec fn edits_allowed(self, edits: Seq<Edit>) -> bool {
        forall|i: int|
            0 <= i < edits.len() ==> (#[trigger] edits[i]).edge().wf() && edits[i].edge().within(
                self.width,
                self.height,
            )
    }

    /// Any list of edits leaves a well-formed world of the same size with
    /// the same rivers.
    pub proof fn lemma_edits_keep_wf(s: WorldView, edits: Seq<Edit>)
        requires
            s.wf(),
            s.edits_allowed(edits),
        ensures
            s.edited_all(edits).wf(),
            s.edited_all(edits).width == s.width,
            s.edited_all(edits).height == s.height,
            s.edited_all(edits).rivers == s.rivers,
        decreases edits.len(),
    {
        if edits.len() > 0 {
            let front = edits.drop_last();
            assert forall|i: int| 0 <= i < front.len() implies (#[trigger] front[i]).edge().wf()
                && front[i].edge().within(s.width, s.height) by {
                assert(front[i] == edits[i]);
            }
            Self::lemma_edits_keep_wf(s, front);
            let before = s.edited_all(front);
            let e = edits.last().edge();
            Self::lemma_road_set_to_wf(before, e, true);
            Self::lemma_road_set_to_wf(before, e, false);
        }
    }

    /// After any list of edits the network carries an edge of the grid
    /// exactly when a river or a road runs along it.
    pub proof fn lemma_union_consistency(s: WorldView, edits: Seq<Edit>, e: Edge)
        requires
            s.wf(),
            s.edits_allowed(edits),
            e.wf(),
            e.within(s.width, s.height),
        ensures
            s.edited_all(edits).terrain.is_edge(e) == (s.edited_all(edits).rivers.is_road(e)
                || s.edited_all(edits).roads.is_road(e)),
    {
        Self::lemma_edits_keep_wf(s, edits);
    }

    /// After any list of edits the network renders at each vertex of the
    /// grid, axis by axis, the wider of what rivers and roads render there.
    pub proof fn lemma_max_width_consistency(s: WorldView, edits: Seq<Edit>, p: Position)
        requires
            s.wf(),
            s.edits_allowed(edits),
            p.within(s.width, s.height),
        ensures
            s.edited_all(edits).terrain.node(p) == (Node {
                position: p,
                width: wider(
                    s.edited_all(edits).rivers.node(p).width,
                    s.edited_all(edits).roads.node(p).width,
                ),
                height: wider(
                    s.edited_all(edits).rivers.node(p).height,
                    s.edited_all(edits).roads.node(p).height,
                ),
            }),
    {
        Self::lemma_edits_keep_wf(s, edits);
        let t = s.edited_all(edits);
        let _ = t.terrain.node(p);
    }
}

/// An elevation surface's rivers and roads, with the network derived from
/// them.
pub struct World {
    width: usize,
    height: usize,
    terrain: Terrain,
    rivers: RoadSet,
    roads: RoadSet,
}

impl View for World {
    type V = WorldView;

    closed spec fn view(&self) -> WorldView {
        WorldView {
            width: self.width as nat,
            height: self.height as nat,
            terrain: self.terrain@,
            rivers: self.rivers@,
            roads: self.roads@,
        }
    }
}

/// The stored width of every road: one twentieth, as the bit pattern of a
/// single-precision number.
pub const ROAD_WIDTH: u32 = 0x3D4C_CCCD;

impl World {
    /// The world is well formed, and its network agrees with its rivers and
    /// roads.
    pub closed spec fn wf(&self) -> bool {
        self.terrain.wf() && self@.wf()
    }

    /// A well-formed world has a well-formed view.
    pub proof fn lemma_view_wf(&self)
        requires
            self.wf(),
        ensures
            self@.wf(),
    {
    }

    /// The rivers of a new world: stored widths from the nodes, then the
    /// edges, on a grid that stores no width.
    fn setup_rivers(width: usize, height: usize, river_nodes: Vec<Node>, rivers: Vec<Edge>) -> (out:
        RoadSet)
        requires
            width * height <= usize::MAX,
            forall|i: int|
                0 <= i < river_nodes@.len() ==> (#[trigger] river_nodes@[i]).position.within(
                    width as nat,
                    height as nat,
                ),
            forall|i: int|
                0 <= i < rivers@.len() ==> (#[trigger] rivers@[i]).wf() && rivers@[i].within(
                    width as nat,
                    height as nat,
                ),
        ensures
            out@ == RoadSetView::empty(width as nat, height as nat, 0).with_widths(
                river_nodes@,
            ).with_roads(rivers@),
            out@.wf(),
            out@.width == width,
            out@.height == height,
    {
        let mut out: RoadSet = RoadSet::new(width, height, 0);
        out.set_widths_from_nodes(&river_nodes);
        out.add_roads(&rivers);
        out
    }

    /// The world with the given rivers and no road. The network is built
    /// from the rivers' visible nodes and their edges.
    pub fn new(width: usize, height: usize, river_nodes: Vec<Node>, rivers: Vec<Edge>) -> (w: World)
        requires
            width * height <= usize::MAX,
            forall|i: int|
                0 <= i < river_nodes@.len() ==> (#[trigger] river_nodes@[i]).position.within(
                    width as nat,
                    height as nat,
                ),
            forall|i: int|
                0 <= i < rivers@.len() ==> (#[trigger] rivers@[i]).wf() && rivers@[i].within(
                    width as nat,
                    height as nat,
                ),
        ensures
            w.wf(),
            w@ == WorldView::made(width as nat, height as nat, river_nodes@, rivers@),
            w@.wf(),
    {
        let ghost listed_nodes = river_nodes@;
        let ghost listed_rivers = rivers@;
        let rivers: RoadSet = World::setup_rivers(width, height, river_nodes, rivers);
        let nodes: Vec<Node> = rivers.get_nodes(0..width, 0..height);
        let edges: Vec<Edge> = rivers.get_edges(0..width, 0..height);
        proof {
            rivers@.lemma_listed_on_grid();
            assert forall|i: int| 0 <= i < nodes@.len() implies (#[trigger] nodes@[i]).position.within(
                width as nat,
                height as nat,
            ) by {
                assert(nodes@.contains(nodes@[i]));
            }
            assert forall|i: int| 0 <= i < edges@.len() implies (#[trigger] edges@[i]).wf()
                && edges@[i].within(width as nat, height as nat) by {
                assert(edges@.contains(edges@[i]));
            }
        }
        let terrain: Terrain = Terrain::new(width, height, &nodes, &edges);
        let roads: RoadSet = RoadSet::new(width, height, ROAD_WIDTH);
        proof {
            WorldView::lemma_made_wf(width as nat, height as nat, listed_nodes, listed_rivers);
        }
        World { width, height, terrain, rivers, roads }
    }

    /// The number of columns of vertices.
    pub fn width(&self) -> (w: usize)
        ensures
            w == self@.width,
    {
        self.width
    }

    /// The number of rows of vertices.
    pub fn height(&self) -> (h: usize)
        ensures
            h == self@.height,
    {
        self.height
    }

    /// The network derived from rivers and roads.
    pub fn terrain(&self) -> (t: &Terrain)
        ensures
            t@ == self@.terrain,
            self.wf() ==> t.wf(),
    {
        &self.terrain
    }

    /// The rivers.
    pub fn rivers(&self) -> (r: &RoadSet)
        ensures
            r@ == self@.rivers,
    {
        &self.rivers
    }

    /// The roads.
    pub fn roads(&self) -> (r: &RoadSet)
        ensures
            r@ == self@.roads,
    {
        &self.roads
    }

    /// The wider of river and road on the horizontal axis at a vertex.
    fn get_horizontal_width(&self, position: &Position) -> (w: u32)
        requires
            self@.sized(),
            position.within(self@.width, self@.height),
        ensures
            w == self@.horizontal_width(*position),
    {
        let river: u32 = self.rivers.get_horizontal_width(position);
        let road: u32 = self.roads.get_horizontal_width(position);
        if river >= road {
            river
        } else {
            road
        }
    }

    /// The wider of river and road on the vertical axis at a vertex.
    fn get_vertical_width(&self, position: &Position) -> (w: u32)
        requires
            self@.sized(),
            position.within(self@.width, self@.height),
        ensures
            w == self@.vertical_width(*position),
    {
        let river: u32 = self.rivers.get_vertical_width(position);
        let road: u32 = self.roads.get_vertical_width(position);
        if river >= road {
            river
        } else {
            road
        }
    }

    /// Whether a river or a road runs along the edge.
    fn is_river_or_road(&self, edge: &Edge) -> (r: bool)
        requires
            self@.sized(),
            edge.from().within(self@.width, self@.height),
        ensures
            r == self@.is_river_or_road(*edge),
    {
        self.rivers.is_road(edge) || self.roads.is_road(edge)
    }

    /// What the network is to render at a vertex.
    fn get_node(&self, position: &Position) -> (n: Node)
        requires
            self@.sized(),
            position.within(self@.width, self@.height),
        ensures
            n == self@.node(*position),
    {
        let width: u32 = self.get_vertical_width(position);
        let height: u32 = self.get_horizontal_width(position);
        Node::new(*position, width, height)
    }

    /// Brings the network up to date along one edge.
    fn update_terrain(&mut self, edge: &Edge)
        requires
            old(self).terrain.wf(),
            old(self)@.sized(),
            edge.wf(),
            edge.within(old(self)@.width, old(self)@.height),
        ensures
            final(self).terrain.wf(),
            final(self)@ == old(self)@.terrain_updated(*edge),
    {
        if self.is_river_or_road(edge) {
            self.terrain.set_edge(edge);
        } else {
            self.terrain.clear_edge(edge);
        }
        proof {
            self.terrain.lemma_view_wf();
        }
        let from: Node = self.get_node(&edge.from());
        self.terrain.set_node(from);
        proof {
            self.terrain.lemma_view_wf();
        }
        let to: Node = self.get_node(&edge.to());
        self.terrain.set_node(to);
    }

    /// Adds a road along the edge.
    pub fn add_road(&mut self, edge: &Edge)
        requires
            old(self).wf(),
            edge.wf(),
            edge.within(old(self)@.width, old(self)@.height),
        ensures
            final(self).wf(),
            final(self)@ == old(self)@.road_added(*edge),
    {
        self.roads.add_road(edge);
        proof {
            RoadSetView::lemma_with_flags_wf(old(self)@.roads, *edge, true);
        }
        self.update_terrain(edge);
        proof {
            WorldView::lemma_road_set_to_wf(old(self)@, *edge, true);
        }
    }

    /// Clears the road along the edge.
    pub fn clear_road(&mut self, edge: &Edge)
        requires
            old(self).wf(),
            edge.wf(),
            edge.within(old(self)@.width, old(self)@.height),
        ensures
            final(self).wf(),
            final(self)@ == old(self)@.road_cleared(*edge),
    {
        self.roads.clear_road(edge);
        proof {
            RoadSetView::lemma_with_flags_wf(old(self)@.roads, *edge, false);
        }
        self.update_terrain(edge);
        proof {
            WorldView::lemma_road_set_to_wf(old(self)@, *edge, false);
        }
    }

    /// Clears the road along the edge where there is one, and adds one where
    /// there is none.
    pub fn toggle_road(&mut self, edge: &Edge)
        requires
            old(self).wf(),
            edge.wf(),
            edge.within(old(self)@.width, old(self)@.height),
        ensures
            final(self).wf(),
            final(self)@ == old(self)@.road_toggled(*edge),
    {
        if self.roads.is_road(edge) {
            self.clear_road(edge);
        } else {
            self.add_road(edge);
        }
    }
}

} // verus!
