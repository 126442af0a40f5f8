use road_world::geometry::v2;
use road_world::slab::{slabs_covering, Slab};

#[test]
fn slab_new() {
    assert_eq!(
        Slab::new(v2(11, 33), 32),
        Slab {
            from: v2(0, 32),
            slab_size: 32,
        }
    );
}

#[test]
fn slab_to() {
    assert_eq!(Slab::new(v2(11, 33), 32).to(), v2(32, 64));
}

#[test]
fn slab_of_a_point_on_a_boundary() {
    assert_eq!(Slab::new(v2(32, 63), 32), Slab { from: v2(32, 32), slab_size: 32 });
    assert_eq!(Slab::new(v2(0, 0), 8), Slab { from: v2(0, 0), slab_size: 8 });
    assert_eq!(Slab::new(v2(7, 8), 8), Slab { from: v2(0, 8), slab_size: 8 });
    assert_eq!(Slab::new(v2(5, 9), 1), Slab { from: v2(5, 9), slab_size: 1 });
}

#[test]
fn slab_to_is_held_back_to_a_limit() {
    let slab = Slab::new(v2(9, 3), 8);
    assert_eq!(slab.to_clamped(v2(100, 100)), v2(16, 8));
    assert_eq!(slab.to_clamped(v2(9, 100)), v2(9, 8));
    assert_eq!(slab.to_clamped(v2(12, 5)), v2(12, 5));
    let huge = Slab::new(v2(3, 3), usize::MAX);
    assert_eq!(huge.to_clamped(v2(10, 20)), v2(10, 20));
}

#[test]
fn slabs_covering_lists_each_tile_once() {
    let points = vec![v2(5, 5), v2(5, 6), v2(5, 5), v2(8, 5), v2(0, 0), v2(15, 7), v2(3, 9)];
    assert_eq!(
        slabs_covering(&points, 8),
        vec![
            Slab { from: v2(0, 0), slab_size: 8 },
            Slab { from: v2(8, 0), slab_size: 8 },
            Slab { from: v2(0, 8), slab_size: 8 },
        ]
    );
}

#[test]
fn slabs_covering_of_duplicates_is_one_tile() {
    assert_eq!(slabs_covering(&vec![v2(9, 9), v2(9, 9), v2(9, 9)], 4).len(), 1);
    assert_eq!(slabs_covering(&vec![], 4), vec![]);
    assert_eq!(slabs_covering(&vec![v2(0, 0), v2(1, 1), v2(2, 2), v2(3, 3)], 2).len(), 2);
}
