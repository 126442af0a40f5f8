use road_world::geometry::{v2, Edge, Node};
use road_world::junction::{HalfJunction, Junction};
use road_world::road_set::RoadSet;

// Widths travel as the bit patterns of non-negative single-precision numbers.
fn w(width: f32) -> u32 {
    width.to_bits()
}

fn l() -> RoadSet {
    let mut roadset = RoadSet::new(2, 2, w(9.0));
    roadset.add_road(&Edge::new(v2(0, 0), v2(1, 0)));
    roadset.add_road(&Edge::new(v2(0, 0), v2(0, 1)));
    roadset
}

fn parallel() -> RoadSet {
    let mut roadset = RoadSet::new(2, 2, w(9.0));
    roadset.add_road(&Edge::new(v2(0, 0), v2(1, 0)));
    roadset.add_road(&Edge::new(v2(0, 1), v2(1, 1)));
    roadset
}

#[test]
fn test_set_widths_from_nodes() {
    let mut roadset = l();
    roadset.set_widths_from_nodes(&vec![
        Node::new(v2(0, 0), w(0.1), w(0.0)),
        Node::new(v2(0, 0), w(0.0), w(0.2)),
        Node::new(v2(1, 0), w(0.3), w(0.0)),
        Node::new(v2(1, 0), w(0.0), w(0.4)),
        Node::new(v2(0, 1), w(0.5), w(0.6)),
        Node::new(v2(1, 1), w(0.7), w(0.8)),
    ]);
    assert_eq!(
        roadset.get_junction(&v2(0, 0)),
        &Junction {
            horizontal: HalfJunction { width: w(0.2), from: true, to: false },
            vertical: HalfJunction { width: w(0.1), from: true, to: false }
        }
    );
    assert_eq!(
        roadset.get_junction(&v2(1, 0)),
        &Junction {
            horizontal: HalfJunction { width: w(0.4), from: false, to: true },
            vertical: HalfJunction { width: w(0.3), from: false, to: false }
        }
    );
    assert_eq!(
        roadset.get_junction(&v2(0, 1)),
        &Junction {
            horizontal: HalfJunction { width: w(0.6), from: false, to: false },
            vertical: HalfJunction { width: w(0.5), from: false, to: true }
        }
    );
    assert_eq!(
        roadset.get_junction(&v2(1, 1)),
        &Junction {
            horizontal: HalfJunction { width: w(0.8), from: false, to: false },
            vertical: HalfJunction { width: w(0.7), from: false, to: false }
        }
    );
}

#[test]
fn test_add_road_l() {
    let roadset = l();
    assert_eq!(
        roadset.get_junction(&v2(0, 0)),
        &Junction {
            horizontal: HalfJunction { width: w(9.0), from: true, to: false },
            vertical: HalfJunction { width: w(9.0), from: true, to: false }
        }
    );
    assert_eq!(
        roadset.get_junction(&v2(1, 0)),
        &Junction {
            horizontal: HalfJunction { width: w(9.0), from: false, to: true },
            vertical: HalfJunction { width: w(9.0), from: false, to: false }
        }
    );
    assert_eq!(
        roadset.get_junction(&v2(0, 1)),
        &Junction {
            horizontal: HalfJunction { width: w(9.0), from: false, to: false },
            vertical: HalfJunction { width: w(9.0), from: false, to: true }
        }
    );
    assert_eq!(roadset.get_junction(&v2(1, 1)), &Junction::new(w(9.0)));
}

#[test]
fn test_add_road_parallel() {
    let roadset = parallel();
    assert_eq!(
        roadset.get_junction(&v2(0, 0)),
        &Junction {
            horizontal: HalfJunction { width: w(9.0), from: true, to: false },
            vertical: HalfJunction { width: w(9.0), from: false, to: false }
        }
    );
    assert_eq!(
        roadset.get_junction(&v2(1, 0)),
        &Junction {
            horizontal: HalfJunction { width: w(9.0), from: false, to: true },
            vertical: HalfJunction { width: w(9.0), from: false, to: false }
        }
    );
    assert_eq!(
        roadset.get_junction(&v2(0, 1)),
        &Junction {
            horizontal: HalfJunction { width: w(9.0), from: true, to: false },
            vertical: HalfJunction { width: w(9.0), from: false, to: false }
        }
    );
    assert_eq!(
        roadset.get_junction(&v2(1, 1)),
        &Junction {
            horizontal: HalfJunction { width: w(9.0), from: false, to: true },
            vertical: HalfJunction { width: w(9.0), from: false, to: false }
        }
    );
}

#[test]
fn test_add_roads() {
    let mut roadset = RoadSet::new(2, 2, w(9.0));
    roadset.add_roads(&vec![
        Edge::new(v2(0, 0), v2(1, 0)),
        Edge::new(v2(0, 0), v2(0, 1)),
    ]);
    assert_eq!(
        roadset.get_junction(&v2(0, 0)),
        &Junction {
            horizontal: HalfJunction { width: w(9.0), from: true, to: false },
            vertical: HalfJunction { width: w(9.0), from: true, to: false }
        }
    );
    assert_eq!(
        roadset.get_junction(&v2(1, 0)),
        &Junction {
            horizontal: HalfJunction { width: w(9.0), from: false, to: true },
            vertical: HalfJunction { width: w(9.0), from: false, to: false }
        }
    );
    assert_eq!(
        roadset.get_junction(&v2(0, 1)),
        &Junction {
            horizontal: HalfJunction { width: w(9.0), from: false, to: false },
            vertical: HalfJunction { width: w(9.0), from: false, to: true }
        }
    );
    assert_eq!(roadset.get_junction(&v2(1, 1)), &Junction::new(w(9.0)));
}

#[test]
fn test_clear_road_l() {
    let mut roadset = l();
    roadset.clear_road(&Edge::new(v2(0, 0), v2(0, 1)));
    assert_eq!(
        roadset.get_junction(&v2(0, 0)),
        &Junction {
            horizontal: HalfJunction { width: w(9.0), from: true, to: false },
            vertical: HalfJunction { width: w(9.0), from: false, to: false }
        }
    );
    assert_eq!(
        roadset.get_junction(&v2(1, 0)),
        &Junction {
            horizontal: HalfJunction { width: w(9.0), from: false, to: true },
            vertical: HalfJunction { width: w(9.0), from: false, to: false }
        }
    );
    assert_eq!(roadset.get_junction(&v2(0, 1)), &Junction::new(w(9.0)));
    assert_eq!(roadset.get_junction(&v2(1, 1)), &Junction::new(w(9.0)));
}

#[test]
fn test_clear_road_parallel() {
    let mut roadset = parallel();
    roadset.clear_road(&Edge::new(v2(0, 1), v2(1, 1)));
    assert_eq!(
        roadset.get_junction(&v2(0, 0)),
        &Junction {
            horizontal: HalfJunction { width: w(9.0), from: true, to: false },
            vertical: HalfJunction { width: w(9.0), from: false, to: false }
        }
    );
    assert_eq!(
        roadset.get_junction(&v2(1, 0)),
        &Junction {
            horizontal: HalfJunction { width: w(9.0), from: false, to: true },
            vertical: HalfJunction { width: w(9.0), from: false, to: false }
        }
    );
    assert_eq!(roadset.get_junction(&v2(0, 1)), &Junction::new(w(9.0)));
    assert_eq!(roadset.get_junction(&v2(1, 1)), &Junction::new(w(9.0)));
}

#[test]
fn test_get_horizontal_width_l() {
    let roadset = l();
    assert_eq!(roadset.get_horizontal_width(&v2(0, 0)), w(9.0));
    assert_eq!(roadset.get_horizontal_width(&v2(1, 0)), w(9.0));
    assert_eq!(roadset.get_horizontal_width(&v2(0, 1)), w(0.0));
    assert_eq!(roadset.get_horizontal_width(&v2(1, 1)), w(0.0));
}

#[test]
fn test_get_vertical_width_l() {
    let roadset = l();
    assert_eq!(roadset.get_vertical_width(&v2(0, 0)), w(9.0));
    assert_eq!(roadset.get_vertical_width(&v2(1, 0)), w(0.0));
    assert_eq!(roadset.get_vertical_width(&v2(0, 1)), w(9.0));
    assert_eq!(roadset.get_vertical_width(&v2(1, 1)), w(0.0));
}

#[test]
fn test_is_road_l() {
    let roadset = l();
    assert!(roadset.is_road(&Edge::new(v2(0, 0), v2(1, 0))));
    assert!(roadset.is_road(&Edge::new(v2(0, 0), v2(0, 1))));
    assert!(!roadset.is_road(&Edge::new(v2(0, 1), v2(1, 1))));
    assert!(!roadset.is_road(&Edge::new(v2(1, 0), v2(1, 1))));
}

#[test]
fn test_get_horizontal_width_parallel() {
    let roadset = parallel();
    assert_eq!(roadset.get_horizontal_width(&v2(0, 0)), w(9.0));
    assert_eq!(roadset.get_horizontal_width(&v2(1, 0)), w(9.0));
    assert_eq!(roadset.get_horizontal_width(&v2(0, 1)), w(9.0));
    assert_eq!(roadset.get_horizontal_width(&v2(1, 1)), w(9.0));
}

#[test]
fn test_get_vertical_width_parallel() {
    let roadset = parallel();
    assert_eq!(roadset.get_vertical_width(&v2(0, 0)), w(0.0));
    assert_eq!(roadset.get_vertical_width(&v2(1, 0)), w(0.0));
    assert_eq!(roadset.get_vertical_width(&v2(0, 1)), w(0.0));
    assert_eq!(roadset.get_vertical_width(&v2(1, 1)), w(0.0));
}

#[test]
fn test_is_road_parallel() {
    let roadset = parallel();
    assert!(roadset.is_road(&Edge::new(v2(0, 0), v2(1, 0))));
    assert!(roadset.is_road(&Edge::new(v2(0, 1), v2(1, 1))));
    assert!(!roadset.is_road(&Edge::new(v2(0, 0), v2(0, 1))));
    assert!(!roadset.is_road(&Edge::new(v2(1, 0), v2(1, 1))));
}

#[test]
fn test_get_nodes_l() {
    let roadset = l();
    let actual = roadset.get_nodes(0..2, 0..2);
    assert_eq!(actual.len(), 3);
    assert!(actual.contains(&Node::new(v2(0, 0), w(9.0), w(9.0))));
    assert!(actual.contains(&Node::new(v2(1, 0), w(0.0), w(9.0))));
    assert!(actual.contains(&Node::new(v2(0, 1), w(9.0), w(0.0))));
}

#[test]
fn test_get_nodes_parallel() {
    let roadset = parallel();
    let actual = roadset.get_nodes(0..2, 0..2);
    assert_eq!(actual.len(), 4);
    assert!(actual.contains(&Node::new(v2(0, 0), w(0.0), w(9.0))));
    assert!(actual.contains(&Node::new(v2(1, 0), w(0.0), w(9.0))));
    assert!(actual.contains(&Node::new(v2(0, 1), w(0.0), w(9.0))));
    assert!(actual.contains(&Node::new(v2(1, 1), w(0.0), w(9.0))));
}

#[test]
fn test_get_nodes_partial() {
    let roadset = l();
    let actual = roadset.get_nodes(0..1, 0..1);
    assert_eq!(actual.len(), 1);
    assert!(actual.contains(&Node::new(v2(0, 0), w(9.0), w(9.0))));
}

#[test]
fn test_get_edges_l() {
    let roadset = l();
    let actual = roadset.get_edges(0..2, 0..2);
    assert_eq!(actual.len(), 2);
    assert!(actual.contains(&Edge::new(v2(0, 0), v2(1, 0))));
    assert!(actual.contains(&Edge::new(v2(0, 0), v2(0, 1))));
}

#[test]
fn test_get_edges_parallel() {
    let roadset = parallel();
    let actual = roadset.get_edges(0..2, 0..2);
    assert_eq!(actual.len(), 2);
    assert!(actual.contains(&Edge::new(v2(0, 0), v2(1, 0))));
    assert!(actual.contains(&Edge::new(v2(0, 1), v2(1, 1))));
}
