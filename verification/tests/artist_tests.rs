use road_world::artist::{Feature, Redraw, WorldArtist};
use road_world::coloring::{quad_ground, Ground};
use road_world::geometry::{v2, Edge, Node};
use road_world::rotation::Rotation;
use road_world::world::{World, ROAD_WIDTH};

fn plain(width: usize, height: usize) -> World {
    World::new(width, height, vec![], vec![])
}

fn empty_slab(x: usize, y: usize, to_x: usize, to_y: usize) -> Vec<Redraw> {
    vec![
        Redraw::UpdateTiles { from: v2(x, y), to: v2(to_x, to_y) },
        Redraw::DrawEdges { slab: v2(x, y), feature: Feature::River, edges: vec![] },
        Redraw::DrawEdges { slab: v2(x, y), feature: Feature::Road, edges: vec![] },
        Redraw::DrawNodes { slab: v2(x, y), feature: Feature::River, nodes: vec![] },
        Redraw::DrawNodes { slab: v2(x, y), feature: Feature::Road, nodes: vec![] },
    ]
}

#[test]
fn draw_affected_redraws_one_slab_for_two_points_in_it() {
    let mut world = plain(16, 16);
    let edge = Edge::new(v2(5, 5), v2(5, 6));
    world.toggle_road(&edge);
    let artist = WorldArtist::new(&world, 8);
    let steps = artist.draw_affected(&world, vec![v2(5, 5), v2(5, 6)]);
    assert_eq!(
        steps,
        vec![
            Redraw::UpdateTiles { from: v2(0, 0), to: v2(8, 8) },
            Redraw::DrawEdges { slab: v2(0, 0), feature: Feature::River, edges: vec![] },
            Redraw::DrawEdges { slab: v2(0, 0), feature: Feature::Road, edges: vec![edge] },
            Redraw::DrawNodes { slab: v2(0, 0), feature: Feature::River, nodes: vec![] },
            Redraw::DrawNodes {
                slab: v2(0, 0),
                feature: Feature::Road,
                nodes: vec![Node::new(v2(5, 5), ROAD_WIDTH, 0), Node::new(v2(5, 6), ROAD_WIDTH, 0)],
            },
            Redraw::DrawTerrain,
        ]
    );
    let updates = steps.iter().filter(|step| matches!(step, Redraw::UpdateTiles { .. })).count();
    assert_eq!(updates, 1);
}

#[test]
fn draw_affected_redraws_both_slabs_of_an_edge_across_them() {
    let mut world = plain(16, 16);
    let edge = Edge::new(v2(7, 2), v2(8, 2));
    world.toggle_road(&edge);
    let artist = WorldArtist::new(&world, 8);
    let steps = artist.draw_affected(&world, vec![v2(7, 2), v2(8, 2)]);
    assert_eq!(steps.len(), 11);
    assert_eq!(steps[0], Redraw::UpdateTiles { from: v2(0, 0), to: v2(8, 8) });
    assert_eq!(
        steps[2],
        Redraw::DrawEdges { slab: v2(0, 0), feature: Feature::Road, edges: vec![edge] }
    );
    assert_eq!(steps[5], Redraw::UpdateTiles { from: v2(8, 0), to: v2(15, 8) });
    assert_eq!(
        steps[7],
        Redraw::DrawEdges { slab: v2(8, 0), feature: Feature::Road, edges: vec![] }
    );
    assert_eq!(
        steps[9],
        Redraw::DrawNodes {
            slab: v2(8, 0),
            feature: Feature::Road,
            nodes: vec![Node::new(v2(8, 2), 0, ROAD_WIDTH)],
        }
    );
    assert_eq!(steps[10], Redraw::DrawTerrain);
}

#[test]
fn draw_affected_with_no_position_does_nothing() {
    let world = plain(16, 16);
    let artist = WorldArtist::new(&world, 8);
    assert_eq!(artist.draw_affected(&world, vec![]), vec![]);
}

#[test]
fn partial_slab_is_held_back_to_the_grid() {
    let mut world = plain(10, 10);
    world.add_road(&Edge::new(v2(8, 9), v2(9, 9)));
    let artist = WorldArtist::new(&world, 8);
    let steps = artist.draw_affected(&world, vec![v2(9, 9)]);
    assert_eq!(
        steps,
        vec![
            Redraw::UpdateTiles { from: v2(8, 8), to: v2(9, 9) },
            Redraw::DrawEdges { slab: v2(8, 8), feature: Feature::River, edges: vec![] },
            Redraw::DrawEdges {
                slab: v2(8, 8),
                feature: Feature::Road,
                edges: vec![Edge::new(v2(8, 9), v2(9, 9))],
            },
            Redraw::DrawNodes { slab: v2(8, 8), feature: Feature::River, nodes: vec![] },
            Redraw::DrawNodes {
                slab: v2(8, 8),
                feature: Feature::Road,
                nodes: vec![Node::new(v2(8, 9), 0, ROAD_WIDTH), Node::new(v2(9, 9), 0, ROAD_WIDTH)],
            },
            Redraw::DrawTerrain,
        ]
    );
}

#[test]
fn a_road_node_hides_the_river_node_under_it() {
    let river = 0.2f32.to_bits();
    let mut world = World::new(
        4,
        4,
        vec![Node::new(v2(1, 1), river, 0), Node::new(v2(1, 2), river, 0)],
        vec![Edge::new(v2(1, 1), v2(1, 2))],
    );
    world.add_road(&Edge::new(v2(0, 1), v2(1, 1)));
    let artist = WorldArtist::new(&world, 4);
    let steps = artist.draw_affected(&world, vec![v2(0, 1), v2(1, 1)]);
    assert_eq!(
        steps,
        vec![
            Redraw::UpdateTiles { from: v2(0, 0), to: v2(3, 3) },
            Redraw::DrawEdges {
                slab: v2(0, 0),
                feature: Feature::River,
                edges: vec![Edge::new(v2(1, 1), v2(1, 2))],
            },
            Redraw::DrawEdges {
                slab: v2(0, 0),
                feature: Feature::Road,
                edges: vec![Edge::new(v2(0, 1), v2(1, 1))],
            },
            Redraw::DrawNodes {
                slab: v2(0, 0),
                feature: Feature::River,
                nodes: vec![Node::new(v2(1, 2), river, 0)],
            },
            Redraw::DrawNodes {
                slab: v2(0, 0),
                feature: Feature::Road,
                nodes: vec![Node::new(v2(0, 1), 0, ROAD_WIDTH), Node::new(v2(1, 1), 0, ROAD_WIDTH)],
            },
            Redraw::DrawTerrain,
        ]
    );
}

#[test]
fn init_draws_sea_then_every_slab_then_the_mesh_once() {
    let world = plain(4, 4);
    let artist = WorldArtist::new(&world, 2);
    let mut expected = vec![Redraw::DrawSea];
    expected.append(&mut empty_slab(0, 0, 2, 2));
    expected.append(&mut empty_slab(0, 2, 2, 3));
    expected.append(&mut empty_slab(2, 0, 3, 2));
    expected.append(&mut empty_slab(2, 2, 3, 3));
    expected.push(Redraw::DrawTerrain);
    assert_eq!(artist.init(&world), expected);
}

#[test]
fn init_covers_the_partial_last_row_and_column() {
    let mut world = plain(3, 3);
    world.add_road(&Edge::new(v2(2, 1), v2(2, 2)));
    let artist = WorldArtist::new(&world, 2);
    let steps = artist.init(&world);
    let mut expected = vec![Redraw::DrawSea];
    expected.append(&mut empty_slab(0, 0, 2, 2));
    expected.append(&mut empty_slab(0, 2, 2, 2));
    expected.append(&mut vec![
        Redraw::UpdateTiles { from: v2(2, 0), to: v2(2, 2) },
        Redraw::DrawEdges { slab: v2(2, 0), feature: Feature::River, edges: vec![] },
        Redraw::DrawEdges {
            slab: v2(2, 0),
            feature: Feature::Road,
            edges: vec![Edge::new(v2(2, 1), v2(2, 2))],
        },
        Redraw::DrawNodes { slab: v2(2, 0), feature: Feature::River, nodes: vec![] },
        Redraw::DrawNodes {
            slab: v2(2, 0),
            feature: Feature::Road,
            nodes: vec![Node::new(v2(2, 1), ROAD_WIDTH, 0)],
        },
        Redraw::UpdateTiles { from: v2(2, 2), to: v2(2, 2) },
        Redraw::DrawEdges { slab: v2(2, 2), feature: Feature::River, edges: vec![] },
        Redraw::DrawEdges { slab: v2(2, 2), feature: Feature::Road, edges: vec![] },
        Redraw::DrawNodes { slab: v2(2, 2), feature: Feature::River, nodes: vec![] },
        Redraw::DrawNodes {
            slab: v2(2, 2),
            feature: Feature::Road,
            nodes: vec![Node::new(v2(2, 2), ROAD_WIDTH, 0)],
        },
        Redraw::DrawTerrain,
    ]);
    assert_eq!(steps, expected);
    let origins: Vec<_> = steps
        .iter()
        .filter_map(|step| match step {
            Redraw::UpdateTiles { from, .. } => Some(*from),
            _ => None,
        })
        .collect();
    assert_eq!(origins, vec![v2(0, 0), v2(0, 2), v2(2, 0), v2(2, 2)]);
}

#[test]
fn init_draws_the_mesh_and_the_sea_once_each() {
    for (width, height, slab_size) in [(4, 4, 2), (3, 3, 2), (3, 3, 4), (5, 2, 3), (1, 1, 1)] {
        let world = plain(width, height);
        let artist = WorldArtist::new(&world, slab_size);
        let steps = artist.init(&world);
        let columns = (width + slab_size - 1) / slab_size;
        let rows = (height + slab_size - 1) / slab_size;
        assert_eq!(steps.len(), 5 * columns * rows + 2);
        assert_eq!(steps.iter().filter(|step| **step == Redraw::DrawTerrain).count(), 1);
        assert_eq!(steps.iter().filter(|step| **step == Redraw::DrawSea).count(), 1);
        assert_eq!(steps.first(), Some(&Redraw::DrawSea));
        assert_eq!(steps.last(), Some(&Redraw::DrawTerrain));
    }
}

#[test]
fn init_of_a_grid_smaller_than_a_slab() {
    let world = plain(3, 3);
    let artist = WorldArtist::new(&world, 4);
    let mut expected = vec![Redraw::DrawSea];
    expected.append(&mut empty_slab(0, 0, 2, 2));
    expected.push(Redraw::DrawTerrain);
    assert_eq!(artist.init(&world), expected);
    assert_eq!(artist.draw_terrain(), Redraw::DrawTerrain);
    assert_eq!(artist.draw_sea(&world), Redraw::DrawSea);
}

#[test]
fn draw_affected_draws_the_mesh_once_at_the_end() {
    let world = plain(16, 16);
    let artist = WorldArtist::new(&world, 8);
    let steps = artist.draw_affected(&world, vec![v2(0, 0), v2(9, 9), v2(15, 0), v2(1, 1)]);
    assert_eq!(steps.len(), 16);
    assert_eq!(steps.iter().filter(|step| **step == Redraw::DrawTerrain).count(), 1);
    assert_eq!(steps.iter().filter(|step| **step == Redraw::DrawSea).count(), 0);
    assert_eq!(steps.last(), Some(&Redraw::DrawTerrain));
}

#[test]
fn ground_of_a_quad() {
    let no = [false; 4];
    let yes = [true; 4];
    assert_eq!(quad_ground(no, no), Ground::Grass);
    assert_eq!(quad_ground(no, yes), Ground::Beach);
    assert_eq!(quad_ground(yes, yes), Ground::Rock);
    assert_eq!(quad_ground([false, false, true, false], yes), Ground::Rock);
    assert_eq!(quad_ground([false, false, false, true], no), Ground::Rock);
    assert_eq!(quad_ground(no, [true, true, true, false]), Ground::Grass);
    assert_eq!(quad_ground(no, [false, true, true, true]), Ground::Grass);
}

#[test]
fn rotation_turns_through_the_cycle() {
    assert_eq!(Rotation::Left.clockwise(), Rotation::Up);
    assert_eq!(Rotation::Up.clockwise(), Rotation::Right);
    assert_eq!(Rotation::Right.clockwise(), Rotation::Down);
    assert_eq!(Rotation::Down.clockwise(), Rotation::Left);
    assert_eq!(Rotation::Left.anticlockwise(), Rotation::Down);
    assert_eq!(Rotation::Up.anticlockwise(), Rotation::Left);
    assert_eq!(Rotation::Right.anticlockwise(), Rotation::Up);
    assert_eq!(Rotation::Down.anticlockwise(), Rotation::Right);
    for rotation in [Rotation::Left, Rotation::Up, Rotation::Right, Rotation::Down] {
        assert_eq!(rotation.clockwise().anticlockwise(), rotation);
        assert_eq!(rotation.clockwise().clockwise().clockwise().clockwise(), rotation);
    }
}

#[test]
fn rotation_angles() {
    assert_eq!(Rotation::Left.angle_eighths(), 0);
    assert_eq!(Rotation::Up.angle_eighths(), 2);
    assert_eq!(Rotation::Right.angle_eighths(), 4);
    assert_eq!(Rotation::Down.angle_eighths(), 6);
}
