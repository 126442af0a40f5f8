//! What has to be redrawn, tile by tile: the quads of a tile in the shared
//! mesh buffer, and the rivers and roads that lie over it.
use vstd::prelude::*;
use core::ops::Range;
use crate::geometry::{v2, vertex, Edge, Node, Position};
use crate::road_set::{lemma_concat_contains, lemma_concat_no_duplicates, ranges_within};
use crate::slab::{distinct_slabs, lemma_tile_origin, lesser, slabs_covering, slabs_of, Slab};
use crate::world::{World, WorldView};

verus! {

/// The two classes of linear features.
#[derive(Clone, Copy, Debug, PartialEq, Eq, Structural)]
pub enum Feature {
    River,
    Road,
}

/// One step of a redraw, for the renderer to carry out in order.
#[derive(Debug, PartialEq, Eq)]
pub enum Redraw {
    /// Regenerate, in the mesh buffer, the quads between two corners.
    UpdateTiles { from: Position, to: Position },
    /// Draw the edges of one feature class over the tile at `slab`,
    /// replacing what was drawn there for that class before.
    DrawEdges { slab: Position, feature: Feature, edges: Vec<Edge> },
    /// Draw the nodes of one feature class over the tile at `slab`,
    /// replacing what was drawn there for that class before.
    DrawNodes { slab: Position, feature: Feature, nodes: Vec<Node> },
    /// Draw the whole mesh buffer.
    DrawTerrain,
    /// Draw the sea plane.
    DrawSea,
}

/// A step of a redraw, with lists as sequences.
pub enum RedrawView {
    UpdateTiles { from: Position, to: Position },
    DrawEdges { slab: Position, feature: Feature, edges: Seq<Edge> },
    DrawNodes { slab: Position, feature: Feature, nodes: Seq<Node> },
    DrawTerrain,
    DrawSea,
}

impl View for Redraw {
    type V = RedrawView;

    open spec fn view(&self) -> RedrawView {
        match self {
            Redraw::UpdateTiles { from, to } => RedrawView::UpdateTiles { from: *from, to: *to },
            Redraw::DrawEdges { slab, feature, edges } => RedrawView::DrawEdges {
                slab: *slab,
                feature: *feature,
                edges: edges@,
            },
            Redraw::DrawNodes { slab, feature, nodes } => RedrawView::DrawNodes {
                slab: *slab,
                feature: *feature,
                nodes: nodes@,
            },
            Redraw::DrawTerrain => RedrawView::DrawTerrain,
            Redraw::DrawSea => RedrawView::DrawSea,
        }
    }
}

/// The steps of a list, each by its view.
pub open spec fn views(steps: Seq<Redraw>) -> Seq<RedrawView> {
    Seq::new(steps.len(), |i: int| steps[i]@)
}

impl WorldView {
    /// The river nodes of one column that are drawn as such: visible, at a
    /// vertex where no road node is visible.
    pub open spec fn column_river_nodes(self, x: int, y0: int, y1: int) -> Seq<Node>
        decreases y1 - y0,
    {
        if y1 <= y0 {
            Seq::empty()
        } else {
            let rest = self.column_river_nodes(x, y0, y1 - 1);
            let p = vertex(x, y1 - 1);
            if !self.roads.node(p).visible() && self.rivers.node(p).visible() {
                rest.push(self.rivers.node(p))
            } else {
                rest
            }
        }
    }

    /// The river nodes of a rectangle that are drawn as such, column after
    /// column.
    pub open spec fn river_nodes_in(self, x0: int, x1: int, y0: int, y1: int) -> Seq<Node>
        decreases x1 - x0,
    {
        if x1 <= x0 {
            Seq::empty()
        } else {
            self.river_nodes_in(x0, x1 - 1, y0, y1) + self.column_river_nodes(x1 - 1, y0, y1)
        }
    }

    /// The road nodes of a rectangle that are drawn: the visible ones.
    pub open spec fn road_nodes_in(self, x0: int, x1: int, y0: int, y1: int) -> Seq<Node> {
        self.roads.nodes_in(x0, x1, y0, y1)
    }

    /// The steps that redraw one tile: its quads, held back to the last
    /// quad of the grid, then river edges, road edges, river nodes and road
    /// nodes of the vertices of the tile that lie on the grid.
    pub open spec fn slab_redraws(self, slab: Slab) -> Seq<RedrawView> {
        let x0 = slab.from.x as int;
        let y0 = slab.from.y as int;
        let x1 = lesser(slab.from.x + slab.slab_size, self.width as int);
        let y1 = lesser(slab.from.y + slab.slab_size, self.height as int);
        seq![
            RedrawView::UpdateTiles {
                from: slab.from,
                to: vertex(
                    lesser(slab.from.x + slab.slab_size, self.width - 1),
                    lesser(slab.from.y + slab.slab_size, self.height - 1),
                ),
            },
            RedrawView::DrawEdges {
                slab: slab.from,
                feature: Feature::River,
                edges: self.rivers.edges_in(x0, x1, y0, y1),
            },
            RedrawView::DrawEdges {
                slab: slab.from,
                feature: Feature::Road,
                edges: self.roads.edges_in(x0, x1, y0, y1),
            },
            RedrawView::DrawNodes {
                slab: slab.from,
                feature: Feature::River,
                nodes: self.river_nodes_in(x0, x1, y0, y1),
            },
            RedrawView::DrawNodes {
                slab: slab.from,
                feature: Feature::Road,
                nodes: self.road_nodes_in(x0, x1, y0, y1),
            },
        ]
    }

    /// The steps that redraw a list of tiles, one tile after the other.
    pub open spec fn slabs_redraws(self, slabs: Seq<Slab>) -> Seq<RedrawView>
        decreases slabs.len(),
    {
        if slabs.len() == 0 {
            Seq::empty()
        } else {
            self.slabs_redraws(slabs.drop_last()) + self.slab_redraws(slabs.last())
        }
    }

    /// A batch: the steps for every tile of a list, then one draw of the
    /// whole mesh buffer. For no tile, no step.
    pub open spec fn batch(self, slabs: Seq<Slab>) -> Seq<RedrawView> {
        if slabs.len() == 0 {
            Seq::empty()
        } else {
            self.slabs_redraws(slabs).push(RedrawView::DrawTerrain)
        }
    }
}

impl WorldView {
    /// The steps for a list of tiles are five to a tile, and none of them
    /// draws the whole mesh buffer or the sea plane.
    pub proof fn lemma_slabs_redraws(self, slabs: Seq<Slab>)
        ensures
            self.slabs_redraws(slabs).len() == 5 * slabs.len(),
            forall|i: int|
                0 <= i < self.slabs_redraws(slabs).len() ==> {
                    let step = #[trigger] self.slabs_redraws(slabs)[i];
                    !(step is DrawTerrain) && !(step is DrawSea)
                },
        decreases slabs.len(),
    {
        if slabs.len() > 0 {
            self.lemma_slabs_redraws(slabs.drop_last());
            let rest = self.slabs_redraws(slabs.drop_last());
            let last = self.slab_redraws(slabs.last());
            assert forall|i: int| 0 <= i < (rest + last).len() implies {
                let step = #[trigger] (rest + last)[i];
                !(step is DrawTerrain) && !(step is DrawSea)
            } by {
                if i < rest.len() {
                    assert((rest + last)[i] == rest[i]);
                } else {
                    assert((rest + last)[i] == last[i - rest.len()]);
                }
            }
        }
    }

    /// A batch for at least one tile draws the whole mesh buffer once, as its
    /// last step, after every update of a tile; it does not draw the sea
    /// plane.
    pub proof fn lemma_batch_draws_terrain_once(self, slabs: Seq<Slab>)
        requires
            slabs.len() > 0,
        ensures
            self.batch(slabs).len() == 5 * slabs.len() + 1,
            self.batch(slabs).last() is DrawTerrain,
            forall|i: int|
                0 <= i < self.batch(slabs).len() - 1 ==> {
                    let step = #[trigger] self.batch(slabs)[i];
                    !(step is DrawTerrain) && !(step is DrawSea)
                },
    {
        self.lemma_slabs_redraws(slabs);
        let steps = self.slabs_redraws(slabs);
        assert forall|i: int| 0 <= i < self.batch(slabs).len() - 1 implies {
            let step = #[trigger] self.batch(slabs)[i];
            !(step is DrawTerrain) && !(step is DrawSea)
        } by {
            assert(self.batch(slabs)[i] == steps[i]);
        }
    }
}

/// What the artist was made with.
pub struct WorldArtistView {
    pub width: nat,
    pub height: nat,
    pub slab_size: nat,
}

/// Plans the redraws of one world, tile by tile.
pub struct WorldArtist {
    width: usize,
    height: usize,
    slab_size: usize,
}

impl View for WorldArtist {
    type V = WorldArtistView;

    closed spec fn view(&self) -> WorldArtistView {
        WorldArtistView {
            width: self.width as nat,
            height: self.height as nat,
            slab_size: self.slab_size as nat,
        }
    }
}

impl WorldArtist {
    /// The grid and the tiles are not empty.
    pub open spec fn wf(&self) -> bool {
        self@.width > 0 && self@.height > 0 && self@.slab_size > 0
    }

    /// Whether the artist is for a world of this size.
    pub open spec fn fits(&self, world: WorldView) -> bool {
        self@.width == world.width && self@.height == world.height
    }

    /// Whether a tile is one of the artist's and starts on the grid.
    pub open spec fn owns(&self, slab: Slab) -> bool {
        slab.slab_size == self@.slab_size && slab.from.within(self@.width, self@.height)
    }

    /// An artist for a world, with tiles of the given size.
    pub fn new(world: &World, slab_size: usize) -> (artist: WorldArtist)
        requires
            world@.width > 0,
            world@.height > 0,
            slab_size > 0,
        ensures
            artist.wf(),
            artist.fits(world@),
            artist@.slab_size == slab_size,
    {
        WorldArtist { width: world.width(), height: world.height(), slab_size }
    }

    /// The draw of the whole mesh buffer.
    pub fn draw_terrain(&self) -> (step: Redraw)
        ensures
            step@ == RedrawView::DrawTerrain,
    {
        Redraw::DrawTerrain
    }

    /// The draw of the sea plane.
    pub fn draw_sea(&self, world: &World) -> (step: Redraw)
        ensures
            step@ == RedrawView::DrawSea,
    {
        Redraw::DrawSea
    }

    /// The update of the quads of one tile.
    fn draw_slab_tiles(&self, world: &World, slab: &Slab) -> (step: Redraw)
        requires
            self.wf(),
            self.fits(world@),
            self.owns(*slab),
        ensures
            step@ == world@.slab_redraws(*slab)[0],
    {
        let to: Position = slab.to_clamped(v2(self.width - 1, self.height - 1));
        Redraw::UpdateTiles { from: slab.from, to }
    }

    /// The road nodes and the river nodes that are drawn in a rectangle of
    /// vertices: a vertex with a visible road node gives that one, any other
    /// vertex with a visible river node gives that one.
    fn get_road_river_nodes(
        &self,
        world: &World,
        x_range: Range<usize>,
        y_range: Range<usize>,
    ) -> (out: (Vec<Node>, Vec<Node>))
        requires
            world.wf(),
            ranges_within(x_range, y_range, world@.width, world@.height),
        ensures
            out.0@ == world@.road_nodes_in(
                x_range.start as int,
                x_range.end as int,
                y_range.start as int,
                y_range.end as int,
            ),
            out.1@ == world@.river_nodes_in(
                x_range.start as int,
                x_range.end as int,
                y_range.start as int,
                y_range.end as int,
            ),
    {
        proof {
            world.lemma_view_wf();
        }
        let mut road_nodes: Vec<Node> = Vec::new();
        let mut river_nodes: Vec<Node> = Vec::new();
        let mut x: usize = x_range.start;
        while x < x_range.end
            invariant
                world@.wf(),
                ranges_within(x_range, y_range, world@.width, world@.height),
                x_range.start <= x,
                x <= x_range.end || x == x_range.start,
                road_nodes@ == world@.roads.nodes_in(
                    x_range.start as int,
                    x as int,
                    y_range.start as int,
                    y_range.end as int,
                ),
                river_nodes@ == world@.river_nodes_in(
                    x_range.start as int,
                    x as int,
                    y_range.start as int,
                    y_range.end as int,
                ),
            decreases x_range.end - x,
        {
            let ghost roads_done = road_nodes@;
            let ghost rivers_done = river_nodes@;
            let mut y: usize = y_range.start;
            while y < y_range.end
                invariant
                    world@.wf(),
                    ranges_within(x_range, y_range, world@.width, world@.height),
                    x_range.start <= x < x_range.end,
                    y_range.start <= y,
                    y <= y_range.end || y == y_range.start,
                    road_nodes@ == roads_done + world@.roads.column_nodes(
                        x as int,
                        y_range.start as int,
                        y as int,
                    ),
                    river_nodes@ == rivers_done + world@.column_river_nodes(
                        x as int,
                        y_range.start as int,
                        y as int,
                    ),
                decreases y_range.end - y,
            {
                let road_node: Node = world.roads().get_node(v2(x, y));
                let river_node: Node = world.rivers().get_node(v2(x, y));
                if road_node.width() > 0 || road_node.height() > 0 {
                    road_nodes.push(road_node);
                } else if river_node.width() > 0 || river_node.height() > 0 {
                    river_nodes.push(river_node);
                }
                y = y + 1;
            }
            proof {
                if y_range.end <= y_range.start {
                    assert(world@.roads.column_nodes(x as int, y_range.start as int, y as int)
                        == world@.roads.column_nodes(
                        x as int,
                        y_range.start as int,
                        y_range.end as int,
                    ));
                    assert(world@.column_river_nodes(x as int, y_range.start as int, y as int)
                        == world@.column_river_nodes(
                        x as int,
                        y_range.start as int,
                        y_range.end as int,
                    ));
                }
            }
            x = x + 1;
        }
        (road_nodes, river_nodes)
    }

    /// The draws of the rivers and roads over one tile.
    fn draw_slab_rivers_roads(&self, world: &World, slab: &Slab) -> (out: Vec<Redraw>)
        requires
            world.wf(),
            self.wf(),
            self.fits(world@),
            self.owns(*slab),
        ensures
            views(out@) == world@.slab_redraws(*slab).subrange(1, 5),
    {
        proof {
            world.lemma_view_wf();
        }
        let to: Position = slab.to_clamped(v2(self.width, self.height));
        let river_edges: Vec<Edge> = world.rivers().get_edges(slab.from.x..to.x, slab.from.y..to.y);
        let road_edges: Vec<Edge> = world.roads().get_edges(slab.from.x..to.x, slab.from.y..to.y);
        let (road_nodes, river_nodes) = self.get_road_river_nodes(
            world,
            slab.from.x..to.x,
            slab.from.y..to.y,
        );
        let mut out: Vec<Redraw> = Vec::new();
        out.push(Redraw::DrawEdges { slab: slab.from, feature: Feature::River, edges: river_edges });
        out.push(Redraw::DrawEdges { slab: slab.from, feature: Feature::Road, edges: road_edges });
        out.push(Redraw::DrawNodes { slab: slab.from, feature: Feature::River, nodes: river_nodes });
        out.push(Redraw::DrawNodes { slab: slab.from, feature: Feature::Road, nodes: road_nodes });
        proof {
            assert(views(out@) =~= world@.slab_redraws(*slab).subrange(1, 5));
        }
        out
    }

    /// The steps that redraw one tile.
    fn draw_slab(&self, world: &World, slab: &Slab) -> (out: Vec<Redraw>)
        requires
            world.wf(),
            self.wf(),
            self.fits(world@),
            self.owns(*slab),
        ensures
            views(out@) == world@.slab_redraws(*slab),
    {
        let mut out: Vec<Redraw> = Vec::new();
        out.push(self.draw_slab_tiles(world, slab));
        let ghost first = out@;
        let mut features: Vec<Redraw> = self.draw_slab_rivers_roads(world, slab);
        let ghost listed = features@;
        out.append(&mut features);
        proof {
            let expected = world@.slab_redraws(*slab);
            assert(views(listed).len() == 4);
            assert(out@ == first + listed);
            assert(views(out@) =~= expected) by {
                assert forall|i: int| 0 <= i < 5 implies views(out@)[i] == expected[i] by {
                    if i > 0 {
                        assert(out@[i] == listed[i - 1]);
                        assert(views(listed)[i - 1] == expected.subrange(1, 5)[i - 1]);
                    } else {
                        assert(out@[0] == first[0]);
                    }
                }
            }
        }
        out
    }

    /// The steps that redraw a list of tiles, then one draw of the whole
    /// mesh buffer; for no tile, no step.
    fn draw_slabs(&self, world: &World, slabs: Vec<Slab>) -> (out: Vec<Redraw>)
        requires
            world.wf(),
            self.wf(),
            self.fits(world@),
            forall|i: int| 0 <= i < slabs@.len() ==> self.owns(#[trigger] slabs@[i]),
        ensures
            views(out@) == world@.batch(slabs@),
    {
        let mut out: Vec<Redraw> = Vec::new();
        let mut i: usize = 0;
        while i < slabs.len()
            invariant
                world.wf(),
                self.wf(),
                self.fits(world@),
                forall|k: int| 0 <= k < slabs@.len() ==> self.owns(#[trigger] slabs@[k]),
                0 <= i <= slabs@.len(),
                views(out@) == world@.slabs_redraws(slabs@.take(i as int)),
            decreases slabs@.len() - i,
        {
            let ghost before = out@;
            let mut steps: Vec<Redraw> = self.draw_slab(world, &slabs[i]);
            let ghost listed = steps@;
            out.append(&mut steps);
            proof {
                assert(slabs@.take(i + 1).drop_last() == slabs@.take(i as int));
                assert(views(before + listed) =~= views(before) + views(listed));
            }
            i = i + 1;
        }
        proof {
            assert(slabs@.take(slabs@.len() as int) == slabs@);
        }
        if slabs.len() > 0 {
            let ghost before = out@;
            out.push(self.draw_terrain());
            proof {
                assert(views(out@) =~= views(before).push(RedrawView::DrawTerrain));
            }
        }
        out
    }

    /// The tiles that cover the given vertices, each tile once.
    fn get_affected_slabs(&self, positions: Vec<Position>) -> (out: Vec<Slab>)
        requires
            self.wf(),
            forall|i: int|
                0 <= i < positions@.len() ==> (#[trigger] positions@[i]).within(
                    self@.width,
                    self@.height,
                ),
        ensures
            out@ == distinct_slabs(positions@, self@.slab_size as usize),
            forall|i: int| 0 <= i < out@.len() ==> self.owns(#[trigger] out@[i]),
    {
        let out: Vec<Slab> = slabs_covering(&positions, self.slab_size);
        proof {
            let all = slabs_of(positions@, self.slab_size);
            assert forall|i: int| 0 <= i < out@.len() implies self.owns(#[trigger] out@[i]) by {
                assert(out@.to_set().contains(out@[i]));
                assert(all.contains(out@[i]));
                let k = choose|k: int| 0 <= k < all.len() && all[k] == out@[i];
                lemma_tile_origin(positions@[k].x, self.slab_size);
                lemma_tile_origin(positions@[k].y, self.slab_size);
            }
        }
        out
    }

    /// The steps that bring the drawing up to date after an edit that
    /// touched the given vertices: each tile that covers one of them is
    /// redrawn once, in the order in which the vertices first reach it, and
    /// the whole mesh buffer is drawn once at the end. For no vertex there is
    /// no step.
    pub fn draw_affected(&self, world: &World, positions: Vec<Position>) -> (out: Vec<Redraw>)
        requires
            world.wf(),
            self.wf(),
            self.fits(world@),
            forall|i: int|
                0 <= i < positions@.len() ==> (#[trigger] positions@[i]).within(
                    self@.width,
                    self@.height,
                ),
        ensures
            views(out@) == world@.batch(distinct_slabs(positions@, self@.slab_size as usize)),
            positions@.len() == 0 ==> out@.len() == 0,
            positions@.len() > 0 ==> {
                &&& views(out@).len() == 5 * distinct_slabs(
                    positions@,
                    self@.slab_size as usize,
                ).len() + 1
                &&& views(out@).last() is DrawTerrain
                &&& forall|i: int|
                    0 <= i < views(out@).len() - 1 ==> {
                        let step = #[trigger] views(out@)[i];
                        !(step is DrawTerrain) && !(step is DrawSea)
                    }
            },
    {
        let ghost touched = positions@;
        let slabs: Vec<Slab> = self.get_affected_slabs(positions);
        let out: Vec<Redraw> = self.draw_slabs(world, slabs);
        proof {
            if touched.len() == 0 {
                assert(views(out@).len() == 0);
            } else {
                assert(touched.drop_last().len() < touched.len());
                world@.lemma_batch_draws_terrain_once(slabs@);
            }
        }
        out
    }
}

/// The tile whose corner nearest the origin is the given multiple of the
/// size on each axis.
pub open spec fn slab_at(column: int, row: int, slab_size: usize) -> Slab {
    Slab { from: vertex(column * slab_size, row * slab_size), slab_size }
}

/// The first `rows` tiles of one column of tiles.
pub open spec fn slabs_column(column: int, rows: int, slab_size: usize) -> Seq<Slab>
    decreases rows,
{
    if rows <= 0 {
        Seq::empty()
    } else {
        slabs_column(column, rows - 1, slab_size).push(slab_at(column, rows - 1, slab_size))
    }
}

/// The tiles of the first `columns` columns of tiles, column after column.
pub open spec fn slabs_grid(columns: int, rows: int, slab_size: usize) -> Seq<Slab>
    decreases columns,
{
    if columns <= 0 {
        Seq::empty()
    } else {
        slabs_grid(columns - 1, rows, slab_size) + slabs_column(columns - 1, rows, slab_size)
    }
}

/// The number of tiles that cover an extent along one axis: the whole tiles,
/// and one more where a remainder is left.
pub open spec fn tiles_along(extent: usize, slab_size: usize) -> int {
    if extent as int % slab_size as int > 0 {
        extent as int / slab_size as int + 1
    } else {
        extent as int / slab_size as int
    }
}

/// The tiles of a grid, column after column: they cover every vertex, the
/// last row and column of tiles being partial where the size does not divide
/// the grid.
pub open spec fn all_slabs(width: usize, height: usize, slab_size: usize) -> Seq<Slab> {
    slabs_grid(tiles_along(width, slab_size), tiles_along(height, slab_size), slab_size)
}

/// The tile numbered `index` along an axis starts on the grid and is the
/// tile that covers its own start; the tile that covers a coordinate of the
/// grid is one of the tiles along the axis.
pub proof fn lemma_tiles_along(extent: usize, slab_size: usize)
    requires
        slab_size > 0,
    ensures
        0 <= tiles_along(extent, slab_size) <= extent,
        extent > 0 ==> tiles_along(extent, slab_size) > 0,
        forall|index: int|
            0 <= index < tiles_along(extent, slab_size) ==> 0 <= #[trigger] (index * slab_size)
                < extent && (index * slab_size) / (slab_size as int) == index,
        forall|coordinate: int|
            0 <= coordinate < extent ==> 0 <= #[trigger] (coordinate / slab_size as int)
                < tiles_along(extent, slab_size),
{
    let n = tiles_along(extent, slab_size);
    let size = slab_size as int;
    let e = extent as int;
    assert(0 <= n <= e && (e > 0 ==> n > 0)) by (nonlinear_arith)
        requires
            n == (if e % size > 0 {
                e / size + 1
            } else {
                e / size
            }),
            size > 0,
            e >= 0,
    ;
    assert forall|index: int| 0 <= index < n implies 0 <= #[trigger] (index * slab_size) < extent
        && (index * slab_size) / (slab_size as int) == index by {
        assert(0 <= index * size < e && (index * size) / size == index) by (nonlinear_arith)
            requires
                0 <= index < n,
                n == (if e % size > 0 {
                    e / size + 1
                } else {
                    e / size
                }),
                size > 0,
                e >= 0,
        ;
    }
    assert forall|coordinate: int| 0 <= coordinate < extent implies 0 <= #[trigger] (coordinate
        / slab_size as int) < n by {
        assert(0 <= coordinate / size < n) by (nonlinear_arith)
            requires
                0 <= coordinate < e,
                n == (if e % size > 0 {
                    e / size + 1
                } else {
                    e / size
                }),
                size > 0,
        ;
    }
}

/// The tiles listed for a column are the tiles at its rows, in order.
pub proof fn lemma_slabs_column(column: int, rows: int, slab_size: usize)
    ensures
        slabs_column(column, rows, slab_size).len() == (if rows > 0 {
            rows
        } else {
            0
        }),
        forall|r: int|
            0 <= r < rows ==> #[trigger] slabs_column(column, rows, slab_size)[r] == slab_at(
                column,
                r,
                slab_size,
            ),
    decreases rows,
{
    if rows > 0 {
        lemma_slabs_column(column, rows - 1, slab_size);
    }
}

/// A tile is listed for a grid of tiles exactly when it is the tile at one of
/// its columns and rows.
pub proof fn lemma_slabs_grid(columns: int, rows: int, slab_size: usize)
    ensures
        forall|s: Slab| #[trigger]
            slabs_grid(columns, rows, slab_size).contains(s) <==> exists|c: int, r: int|
                0 <= c < columns && 0 <= r < rows && s == #[trigger] slab_at(c, r, slab_size),
    decreases columns,
{
    if columns > 0 {
        lemma_slabs_grid(columns - 1, rows, slab_size);
        lemma_slabs_column(columns - 1, rows, slab_size);
        let rest = slabs_grid(columns - 1, rows, slab_size);
        let column = slabs_column(columns - 1, rows, slab_size);
        assert forall|s: Slab| #[trigger]
            slabs_grid(columns, rows, slab_size).contains(s) <==> exists|c: int, r: int|
                0 <= c < columns && 0 <= r < rows && s == #[trigger] slab_at(
                    c,
                    r,
                    slab_size,
                ) by {
            lemma_concat_contains(rest, column, s);
            if column.contains(s) {
                let r = choose|r: int| 0 <= r < column.len() && column[r] == s;
                assert(s == slab_at(columns - 1, r, slab_size));
            }
            if exists|c: int, r: int|
                0 <= c < columns && 0 <= r < rows && s == #[trigger] slab_at(c, r, slab_size) {
                let (c, r) = choose|c: int, r: int|
                    0 <= c < columns && 0 <= r < rows && s == #[trigger] slab_at(c, r, slab_size);
                if c == columns - 1 {
                    assert(column[r] == s);
                } else {
                    assert(0 <= c < columns - 1 && 0 <= r < rows && s == slab_at(c, r, slab_size));
                }
            }
        }
    }
}

/// Where every tile starts at a coordinate that a machine integer holds, no
/// tile is listed twice for a grid of tiles.
pub proof fn lemma_slabs_grid_distinct(columns: int, rows: int, slab_size: usize)
    requires
        slab_size > 0,
        forall|c: int| 0 <= c < columns ==> 0 <= #[trigger] (c * slab_size) <= usize::MAX,
        forall|r: int| 0 <= r < rows ==> 0 <= #[trigger] (r * slab_size) <= usize::MAX,
    ensures
        slabs_grid(columns, rows, slab_size).no_duplicates(),
    decreases columns,
{
    if columns > 0 {
        lemma_slabs_grid_distinct(columns - 1, rows, slab_size);
        lemma_slabs_grid(columns - 1, rows, slab_size);
        lemma_slabs_column(columns - 1, rows, slab_size);
        let rest = slabs_grid(columns - 1, rows, slab_size);
        let column = slabs_column(columns - 1, rows, slab_size);
        let last = (columns - 1) * slab_size;
        assert(0 <= last <= usize::MAX);
        assert forall|i: int, j: int| 0 <= i < column.len() && 0 <= j < column.len() && i
            != j implies column[i] != column[j] by {
            assert(0 <= i * slab_size <= usize::MAX);
            assert(0 <= j * slab_size <= usize::MAX);
            assert(i * slab_size != j * slab_size) by (nonlinear_arith)
                requires
                    i != j,
                    slab_size > 0,
            ;
        }
        assert forall|s: Slab| rest.contains(s) implies !column.contains(s) by {
            let (c, r) = choose|c: int, r: int|
                0 <= c < columns - 1 && 0 <= r < rows && s == #[trigger] slab_at(c, r, slab_size);
            assert(0 <= c * slab_size <= usize::MAX);
            assert(c * slab_size != last) by (nonlinear_arith)
                requires
                    c != columns - 1,
                    last == (columns - 1) * slab_size,
                    slab_size > 0,
            ;
            if column.contains(s) {
                let k = choose|k: int| 0 <= k < column.len() && column[k] == s;
                assert(s == slab_at(columns - 1, k, slab_size));
            }
        }
        lemma_concat_no_duplicates(rest, column);
    }
}

/// The tiles of a grid part it: the tile that covers a vertex of the grid is
/// listed, every tile listed is the tile of its own first vertex, which lies
/// on the grid, and no tile is listed twice.
pub proof fn lemma_all_slabs_partition(width: usize, height: usize, slab_size: usize)
    requires
        slab_size > 0,
    ensures
        all_slabs(width, height, slab_size).no_duplicates(),
        forall|p: Position|
            p.within(width as nat, height as nat) ==> all_slabs(width, height, slab_size).contains(
                #[trigger] Slab::containing(p, slab_size),
            ),
        forall|s: Slab| #[trigger]
            all_slabs(width, height, slab_size).contains(s) ==> s.from.within(
                width as nat,
                height as nat,
            ) && s == Slab::containing(s.from, slab_size),
{
    let columns = tiles_along(width, slab_size);
    let rows = tiles_along(height, slab_size);
    lemma_tiles_along(width, slab_size);
    lemma_tiles_along(height, slab_size);
    lemma_slabs_grid(columns, rows, slab_size);
    lemma_slabs_grid_distinct(columns, rows, slab_size);
    assert forall|p: Position| p.within(width as nat, height as nat) implies all_slabs(
        width,
        height,
        slab_size,
    ).contains(#[trigger] Slab::containing(p, slab_size)) by {
        let c = p.x as int / slab_size as int;
        let r = p.y as int / slab_size as int;
        lemma_tile_origin(p.x, slab_size);
        lemma_tile_origin(p.y, slab_size);
        assert(0 <= c < columns);
        assert(0 <= r < rows);
        assert(Slab::containing(p, slab_size) == slab_at(c, r, slab_size));
    }
    assert forall|s: Slab| #[trigger]
        all_slabs(width, height, slab_size).contains(s) implies s.from.within(
        width as nat,
        height as nat,
    ) && s == Slab::containing(s.from, slab_size) by {
        let (c, r) = choose|c: int, r: int|
            0 <= c < columns && 0 <= r < rows && s == #[trigger] slab_at(c, r, slab_size);
        assert(0 <= c * slab_size < width);
        assert(0 <= r * slab_size < height);
        lemma_tile_origin(s.from.x, slab_size);
        lemma_tile_origin(s.from.y, slab_size);
    }
}

/// The number of tiles that cover an extent along one axis.
fn tile_count(extent: usize, slab_size: usize) -> (n: usize)
    requires
        slab_size > 0,
    ensures
        n == tiles_along(extent, slab_size),
{
    proof {
        lemma_tiles_along(extent, slab_size);
    }
    if extent % slab_size > 0 {
        extent / slab_size + 1
    } else {
        extent / slab_size
    }
}

impl WorldArtist {
    /// The tiles of the grid, partial ones included.
    fn get_all_slabs(&self) -> (out: Vec<Slab>)
        requires
            self.wf(),
        ensures
            out@ == all_slabs(
                self@.width as usize,
                self@.height as usize,
                self@.slab_size as usize,
            ),
            forall|i: int| 0 <= i < out@.len() ==> self.owns(#[trigger] out@[i]),
    {
        let columns: usize = tile_count(self.width, self.slab_size);
        let rows: usize = tile_count(self.height, self.slab_size);
        proof {
            lemma_tiles_along(self.width, self.slab_size);
            lemma_tiles_along(self.height, self.slab_size);
        }
        let mut out: Vec<Slab> = Vec::new();
        let mut x: usize = 0;
        while x < columns
            invariant
                self.wf(),
                columns == tiles_along(self.width, self.slab_size),
                rows == tiles_along(self.height, self.slab_size),
                forall|index: int|
                    0 <= index < columns ==> 0 <= #[trigger] (index * self.slab_size) < self.width
                        && (index * self.slab_size) / (self.slab_size as int) == index,
                forall|index: int|
                    0 <= index < rows ==> 0 <= #[trigger] (index * self.slab_size) < self.height
                        && (index * self.slab_size) / (self.slab_size as int) == index,
                0 <= x <= columns,
                out@ == slabs_grid(x as int, rows as int, self.slab_size),
                forall|i: int| 0 <= i < out@.len() ==> self.owns(#[trigger] out@[i]),
            decreases columns - x,
        {
            let ghost done = out@;
            let mut y: usize = 0;
            while y < rows
                invariant
                    self.wf(),
                    columns == tiles_along(self.width, self.slab_size),
                    rows == tiles_along(self.height, self.slab_size),
                    forall|index: int|
                        0 <= index < columns ==> 0 <= #[trigger] (index * self.slab_size)
                            < self.width && (index * self.slab_size) / (self.slab_size as int)
                            == index,
                    forall|index: int|
                        0 <= index < rows ==> 0 <= #[trigger] (index * self.slab_size)
                            < self.height && (index * self.slab_size) / (self.slab_size as int)
                            == index,
                    0 <= x < columns,
                    0 <= y <= rows,
                    out@ == done + slabs_column(x as int, y as int, self.slab_size),
                    forall|i: int| 0 <= i < out@.len() ==> self.owns(#[trigger] out@[i]),
                decreases rows - y,
            {
                proof {
                    assert(0 <= x * self.slab_size < self.width);
                    assert(0 <= y * self.slab_size < self.height);
                }
                let from: Position = v2(x * self.slab_size, y * self.slab_size);
                let slab: Slab = Slab::new(from, self.slab_size);
                proof {
                    assert(slab == slab_at(x as int, y as int, self.slab_size));
                }
                out.push(slab);
                y = y + 1;
            }
            x = x + 1;
        }
        out
    }

    /// The steps that redraw every tile.
    fn draw_all(&self, world: &World) -> (out: Vec<Redraw>)
        requires
            world.wf(),
            self.wf(),
            self.fits(world@),
        ensures
            views(out@) == world@.batch(
                all_slabs(self@.width as usize, self@.height as usize, self@.slab_size as usize),
            ),
    {
        let slabs: Vec<Slab> = self.get_all_slabs();
        self.draw_slabs(world, slabs)
    }

    /// The steps of the first drawing: the sea plane, then every tile of the
    /// grid, then one draw of the whole mesh buffer.
    pub fn init(&self, world: &World) -> (out: Vec<Redraw>)
        requires
            world.wf(),
            self.wf(),
            self.fits(world@),
        ensures
            views(out@) == seq![RedrawView::DrawSea] + world@.batch(
                all_slabs(self@.width as usize, self@.height as usize, self@.slab_size as usize),
            ),
            views(out@).len() == 5 * all_slabs(
                self@.width as usize,
                self@.height as usize,
                self@.slab_size as usize,
            ).len() + 2,
            views(out@).first() is DrawSea,
            views(out@).last() is DrawTerrain,
            forall|i: int|
                0 < i < views(out@).len() - 1 ==> {
                    let step = #[trigger] views(out@)[i];
                    !(step is DrawTerrain) && !(step is DrawSea)
                },
    {
        let mut out: Vec<Redraw> = Vec::new();
        out.push(self.draw_sea(world));
        let ghost first = out@;
        let mut rest: Vec<Redraw> = self.draw_all(world);
        let ghost listed = rest@;
        out.append(&mut rest);
        proof {
            let tiles = all_slabs(self.width, self.height, self.slab_size);
            assert(views(first + listed) =~= views(first) + views(listed));
            assert(views(first) =~= seq![RedrawView::DrawSea]);
            lemma_all_slabs_partition(self.width, self.height, self.slab_size);
            assert(tiles.contains(Slab::containing(vertex(0, 0), self.slab_size)));
            world@.lemma_batch_draws_terrain_once(tiles);
            let batch = world@.batch(tiles);
            assert forall|i: int| 0 < i < views(out@).len() - 1 implies {
                let step = #[trigger] views(out@)[i];
                !(step is DrawTerrain) && !(step is DrawSea)
            } by {
                assert(views(out@)[i] == batch[i - 1]);
            }
            assert(views(out@).last() == batch.last());
        }
        out
    }
}

} // verus!
