use road_world::geometry::{v2, Edge, Node};
use road_world::junction::Junction;
use road_world::terrain::Terrain;
use road_world::world::{World, ROAD_WIDTH};

fn key(width: f32) -> u32 {
    width.to_bits()
}

fn river_world() -> World {
    World::new(
        3,
        3,
        vec![
            Node::new(v2(1, 0), key(0.1), key(0.0)),
            Node::new(v2(1, 1), key(0.2), key(0.0)),
            Node::new(v2(1, 2), key(0.3), key(0.0)),
        ],
        vec![Edge::new(v2(1, 0), v2(1, 1)), Edge::new(v2(1, 1), v2(1, 2))],
    )
}

fn grid_edges(width: usize, height: usize) -> Vec<Edge> {
    let mut out = vec![];
    for x in 0..width {
        for y in 0..height {
            if x + 1 < width {
                out.push(Edge::new(v2(x, y), v2(x + 1, y)));
            }
            if y + 1 < height {
                out.push(Edge::new(v2(x, y), v2(x, y + 1)));
            }
        }
    }
    out
}

fn state(world: &World) -> (Vec<Junction>, Vec<Junction>, Vec<Node>, Vec<bool>) {
    let mut rivers = vec![];
    let mut roads = vec![];
    let mut nodes = vec![];
    for x in 0..world.width() {
        for y in 0..world.height() {
            rivers.push(*world.rivers().get_junction(&v2(x, y)));
            roads.push(*world.roads().get_junction(&v2(x, y)));
            nodes.push(*world.terrain().get_node(v2(x, y)));
        }
    }
    let edges = grid_edges(world.width(), world.height())
        .iter()
        .map(|edge| world.terrain().is_edge(edge))
        .collect();
    (rivers, roads, nodes, edges)
}

fn network_agrees(world: &World) {
    for edge in grid_edges(world.width(), world.height()) {
        assert_eq!(
            world.terrain().is_edge(&edge),
            world.rivers().is_road(&edge) || world.roads().is_road(&edge)
        );
    }
    for x in 0..world.width() {
        for y in 0..world.height() {
            let river = world.rivers().get_node(v2(x, y));
            let road = world.roads().get_node(v2(x, y));
            assert_eq!(
                world.terrain().get_node(v2(x, y)),
                &Node::new(
                    v2(x, y),
                    river.width().max(road.width()),
                    river.height().max(road.height())
                )
            );
        }
    }
}

#[test]
fn road_width_is_one_twentieth() {
    assert_eq!(ROAD_WIDTH, 0.05f32.to_bits());
    assert_eq!(f32::from_bits(ROAD_WIDTH), 0.05);
}

#[test]
fn new_world_has_its_size_and_no_road() {
    let world = river_world();
    assert_eq!(world.width(), 3);
    assert_eq!(world.height(), 3);
    assert_eq!(world.terrain().width(), 3);
    assert_eq!(world.terrain().height(), 3);
    for x in 0..3 {
        for y in 0..3 {
            assert_eq!(world.roads().get_junction(&v2(x, y)), &Junction::new(ROAD_WIDTH));
        }
    }
    assert!(world.rivers().is_road(&Edge::new(v2(1, 0), v2(1, 1))));
    assert!(world.rivers().is_road(&Edge::new(v2(1, 1), v2(1, 2))));
    assert_eq!(world.rivers().get_node(v2(1, 1)), Node::new(v2(1, 1), key(0.2), 0));
    network_agrees(&world);
}

#[test]
fn toggling_twice_changes_nothing() {
    for edge in grid_edges(3, 3) {
        let mut world = river_world();
        world.add_road(&Edge::new(v2(0, 0), v2(1, 0)));
        world.add_road(&Edge::new(v2(1, 1), v2(1, 2)));
        let before = state(&world);
        world.toggle_road(&edge);
        assert_ne!(state(&world), before);
        world.toggle_road(&edge);
        assert_eq!(state(&world), before);
    }
}

#[test]
fn network_agrees_after_every_edit() {
    let mut world = river_world();
    network_agrees(&world);
    for edge in grid_edges(3, 3) {
        world.toggle_road(&edge);
        network_agrees(&world);
    }
    for edge in grid_edges(3, 3) {
        world.add_road(&edge);
        network_agrees(&world);
    }
    for edge in grid_edges(3, 3) {
        world.clear_road(&edge);
        network_agrees(&world);
    }
    world.toggle_road(&Edge::new(v2(1, 1), v2(1, 0)));
    network_agrees(&world);
}

#[test]
fn wider_of_river_and_road_is_rendered() {
    let mut world = World::new(
        2,
        2,
        vec![Node::new(v2(0, 0), key(0.5), key(0.01)), Node::new(v2(0, 1), key(0.02), 0)],
        vec![Edge::new(v2(0, 0), v2(0, 1)), Edge::new(v2(0, 0), v2(1, 0))],
    );
    world.add_road(&Edge::new(v2(0, 0), v2(0, 1)));
    world.add_road(&Edge::new(v2(0, 0), v2(1, 0)));
    // the river is wider on the vertical axis at (0, 0), the road on the
    // horizontal axis there and on the vertical axis at (0, 1)
    assert_eq!(world.terrain().get_node(v2(0, 0)), &Node::new(v2(0, 0), key(0.5), key(0.05)));
    assert_eq!(world.terrain().get_node(v2(0, 1)), &Node::new(v2(0, 1), key(0.05), 0));
    assert_eq!(world.terrain().get_node(v2(1, 0)), &Node::new(v2(1, 0), 0, key(0.05)));
    assert_eq!(world.terrain().get_node(v2(1, 1)), &Node::new(v2(1, 1), 0, 0));
}

#[test]
fn clearing_a_road_over_a_river_keeps_the_edge() {
    let mut world = river_world();
    let edge = Edge::new(v2(1, 0), v2(1, 1));
    world.add_road(&edge);
    assert!(world.roads().is_road(&edge));
    assert!(world.terrain().is_edge(&edge));
    world.clear_road(&edge);
    assert!(!world.roads().is_road(&edge));
    assert!(world.terrain().is_edge(&edge));
    assert_eq!(world.terrain().get_node(v2(1, 0)), &Node::new(v2(1, 0), key(0.1), 0));
}

#[test]
fn roads_along_a_river_column_scenario() {
    let mut world = World::new(
        3,
        3,
        vec![
            Node::new(v2(1, 0), key(0.1), 0),
            Node::new(v2(1, 1), key(0.2), 0),
            Node::new(v2(1, 2), key(0.3), 0),
        ],
        vec![Edge::new(v2(1, 0), v2(1, 1)), Edge::new(v2(1, 1), v2(1, 2))],
    );
    let before = state(&world);
    let first = Edge::new(v2(0, 0), v2(0, 1));
    let second = Edge::new(v2(0, 1), v2(1, 1));

    world.toggle_road(&first);
    world.toggle_road(&second);

    assert_eq!(world.terrain().get_node(v2(0, 0)), &Node::new(v2(0, 0), ROAD_WIDTH, 0));
    assert_eq!(world.terrain().get_node(v2(0, 1)), &Node::new(v2(0, 1), ROAD_WIDTH, ROAD_WIDTH));
    assert_eq!(
        world.terrain().get_node(v2(1, 1)),
        &Node::new(v2(1, 1), key(0.2), ROAD_WIDTH)
    );
    assert!(world.terrain().is_edge(&first));
    assert!(world.terrain().is_edge(&second));

    world.clear_road(&first);
    world.clear_road(&second);

    assert_eq!(state(&world), before);
}

#[test]
fn terrain_can_be_edited_on_its_own() {
    let mut terrain = Terrain::new(
        2,
        3,
        &vec![Node::new(v2(1, 2), 4, 5), Node::new(v2(1, 2), 6, 7)],
        &vec![Edge::new(v2(0, 0), v2(0, 1))],
    );
    assert_eq!(terrain.get_node(v2(1, 2)), &Node::new(v2(1, 2), 6, 7));
    assert_eq!(terrain.get_node(v2(0, 0)), &Node::new(v2(0, 0), 0, 0));
    assert!(terrain.is_edge(&Edge::new(v2(0, 0), v2(0, 1))));
    assert!(!terrain.is_edge(&Edge::new(v2(0, 0), v2(1, 0))));
    terrain.set_edge(&Edge::new(v2(0, 0), v2(1, 0)));
    terrain.clear_edge(&Edge::new(v2(0, 0), v2(0, 1)));
    terrain.set_node(Node::new(v2(0, 1), 8, 9));
    assert!(terrain.is_edge(&Edge::new(v2(0, 0), v2(1, 0))));
    assert!(!terrain.is_edge(&Edge::new(v2(0, 0), v2(0, 1))));
    assert_eq!(terrain.get_node(v2(0, 1)), &Node::new(v2(0, 1), 8, 9));
    assert_eq!(terrain.get_node(v2(1, 2)), &Node::new(v2(1, 2), 6, 7));
    assert_eq!(terrain.get_node(v2(1, 1)), &Node::new(v2(1, 1), 0, 0));
}
