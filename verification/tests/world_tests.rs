use nalgebra::DMatrix;
use road_world::geometry::{v2, Edge, Node};
use road_world::world::{World, ROAD_WIDTH};

// Widths travel as the bit patterns of non-negative single-precision numbers.
fn bits(width: f32) -> u32 {
    width.to_bits()
}

fn world() -> World {
    World::new(
        3,
        3,
        vec![
            Node::new(v2(1, 0), bits(0.1), bits(0.0)),
            Node::new(v2(1, 1), bits(0.2), bits(0.0)),
            Node::new(v2(1, 2), bits(0.3), bits(0.0)),
            Node::new(v2(1, 2), bits(0.0), bits(0.3)),
            Node::new(v2(2, 2), bits(0.0), bits(0.4)),
        ],
        vec![
            Edge::new(v2(1, 0), v2(1, 1)),
            Edge::new(v2(1, 1), v2(1, 2)),
            Edge::new(v2(1, 2), v2(2, 2)),
        ],
    )
}

#[test]
fn test_terrain() {
    let world = world();
    let terrain = world.terrain();

    assert_eq!(terrain.get_node(v2(1, 0)), &Node::new(v2(1, 0), bits(0.1), bits(0.0)));
    assert_eq!(terrain.get_node(v2(1, 1)), &Node::new(v2(1, 1), bits(0.2), bits(0.0)));
    assert_eq!(terrain.get_node(v2(1, 2)), &Node::new(v2(1, 2), bits(0.3), bits(0.3)));
    assert_eq!(terrain.get_node(v2(2, 2)), &Node::new(v2(2, 2), bits(0.0), bits(0.4)));
    assert!(terrain.is_edge(&Edge::new(v2(1, 0), v2(1, 1))));
    assert!(terrain.is_edge(&Edge::new(v2(1, 1), v2(1, 2))));
    assert!(terrain.is_edge(&Edge::new(v2(1, 2), v2(2, 2))));
}

#[test]
fn test_add_and_clear_road() {
    let mut world = world();
    let road_width = f32::from_bits(ROAD_WIDTH);

    let before_widths = DMatrix::from_vec(3, 3, vec![
        0.0, 0.1, 0.0,
        0.0, 0.2, 0.0,
        0.0, 0.3, 0.0,
    ]);
    let before_heights = DMatrix::from_vec(3, 3, vec![
        0.0, 0.0, 0.0,
        0.0, 0.0, 0.0,
        0.0, 0.3, 0.4,
    ]);

    for x in 0..3 {
        for y in 0..3 {
            assert_eq!(
                world.terrain().get_node(v2(x, y)),
                &Node::new(v2(x, y), bits(before_widths[(x, y)]), bits(before_heights[(x, y)])),
            );
        }
    }
    assert!(!world.terrain().is_edge(&Edge::new(v2(0, 0), v2(0, 1))));
    assert!(!world.terrain().is_edge(&Edge::new(v2(0, 1), v2(1, 1))));

    world.add_road(&Edge::new(v2(0, 0), v2(0, 1)));
    world.toggle_road(&Edge::new(v2(0, 1), v2(1, 1)));

    let after_widths = DMatrix::from_vec(3, 3, vec![
        road_width, 0.1, 0.0,
        road_width, 0.2, 0.0,
        0.0, 0.3, 0.0,
    ]);
    let after_heights = DMatrix::from_vec(3, 3, vec![
        0.0, 0.0, 0.0,
        road_width, road_width, 0.0,
        0.0, 0.3, 0.4,
    ]);

    for x in 0..3 {
        for y in 0..3 {
            assert_eq!(
                world.terrain().get_node(v2(x, y)),
                &Node::new(v2(x, y), bits(after_widths[(x, y)]), bits(after_heights[(x, y)])),
            );
        }
    }

    assert!(world.terrain().is_edge(&Edge::new(v2(0, 0), v2(0, 1))));
    assert!(world.terrain().is_edge(&Edge::new(v2(0, 1), v2(1, 1))));

    world.clear_road(&Edge::new(v2(0, 0), v2(0, 1)));
    world.toggle_road(&Edge::new(v2(0, 1), v2(1, 1)));

    for x in 0..3 {
        for y in 0..3 {
            assert_eq!(
                world.terrain().get_node(v2(x, y)),
                &Node::new(v2(x, y), bits(before_widths[(x, y)]), bits(before_heights[(x, y)])),
            );
        }
    }

    assert!(!world.terrain().is_edge(&Edge::new(v2(0, 0), v2(0, 1))));
    assert!(!world.terrain().is_edge(&Edge::new(v2(0, 1), v2(1, 1))));
}
