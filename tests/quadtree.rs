use ivan_game::geometry::{Rectangle, Vec2};
use ivan_game::quadtree::{check_for_collisions, rebuild_quadtree, Quadtree};
use std::collections::HashSet;

fn p(x: i64, y: i64) -> Vec2 {
    Vec2::new(x, y)
}

fn ids(v: &[u64]) -> HashSet<u64> {
    v.iter().copied().collect()
}

/// A fixed scatter of points inside `[0, size) x [0, size)`.
fn scatter(k: u64, size: i64) -> Vec<(u64, Vec2)> {
    let mut out = Vec::new();
    let mut s: u64 = 0x2545_f491_4f6c_dd1d;
    for id in 0..k {
        s ^= s << 13;
        s ^= s >> 7;
        s ^= s << 17;
        let x = (s % size as u64) as i64;
        let y = ((s >> 20) % size as u64) as i64;
        out.push((id, p(x, y)));
    }
    out
}

#[test]
fn rectangle_contains_is_closed() {
    let r = Rectangle::new(0, 0, 10, 10);
    assert!(r.contains(p(0, 0)));
    assert!(r.contains(p(10, 10)));
    assert!(r.contains(p(5, 10)));
    assert!(!r.contains(p(11, 5)));
    assert!(!r.contains(p(-1, 0)));
}

#[test]
fn rectangle_touching_edges_do_not_intersect() {
    let r = Rectangle::new(0, 0, 10, 10);
    assert!(!r.intersects(&Rectangle::new(10, 0, 5, 5)));
    assert!(!r.intersects(&Rectangle::new(0, 10, 5, 5)));
    assert!(r.intersects(&Rectangle::new(9, 9, 5, 5)));
    assert!(r.intersects(&Rectangle::new(-5, -5, 30, 30)));
    assert!(r.intersects(&Rectangle::new(3, 3, 0, 0)));
    assert!(!r.intersects(&Rectangle::new(10, 3, 0, 0)));
}

#[test]
fn rectangle_extent_accessors() {
    let r = Rectangle::new(-4, 7, 10, 3);
    assert_eq!(r.min_x(), -4);
    assert_eq!(r.max_x(), 6);
    assert_eq!(r.min_y(), 7);
    assert_eq!(r.max_y(), 10);
}

#[test]
fn empty_tree_reports_nothing() {
    let t = Quadtree::new(Rectangle::new(0, 0, 100, 100), 4);
    assert!(check_for_collisions(&t, Rectangle::new(0, 0, 100, 100)).is_empty());
}

#[test]
fn insert_outside_boundary_is_ignored() {
    let mut t = Quadtree::new(Rectangle::new(0, 0, 10, 10), 4);
    t.insert(1, p(20, 20));
    t.insert(2, p(-1, 5));
    assert!(check_for_collisions(&t, Rectangle::new(-100, -100, 200, 200)).is_empty());
}

#[test]
fn full_range_query_returns_every_id() {
    let boundary = Rectangle::new(0, 0, 1000, 1000);
    for &cap in &[1usize, 2, 4] {
        let mut t = Quadtree::new(boundary, cap);
        let pts = scatter(200, 1000);
        for (id, q) in &pts {
            t.insert(*id, *q);
        }
        let found = check_for_collisions(&t, boundary);
        let want: HashSet<u64> = pts.iter().map(|(id, _)| *id).collect();
        assert_eq!(found, want);
    }
}

#[test]
fn full_range_query_finds_coincident_points() {
    let boundary = Rectangle::new(0, 0, 1, 1);
    let mut t = Quadtree::new(boundary, 1);
    for id in 0..7 {
        t.insert(id, p(0, 0));
    }
    assert_eq!(check_for_collisions(&t, boundary), (0..7).collect::<HashSet<u64>>());
}

#[test]
fn query_is_conservative() {
    let boundary = Rectangle::new(0, 0, 512, 512);
    let mut t = Quadtree::new(boundary, 3);
    let pts = scatter(150, 512);
    for (id, q) in &pts {
        t.insert(*id, *q);
    }
    let ranges = [
        Rectangle::new(10, 10, 50, 50),
        Rectangle::new(100, 300, 200, 20),
        Rectangle::new(400, 0, 112, 512),
        Rectangle::new(250, 250, 3, 3),
    ];
    for range in ranges.iter() {
        let found = check_for_collisions(&t, *range);
        for (id, q) in &pts {
            let inside = range.x < q.x
                && q.x < range.x + range.width
                && range.y < q.y
                && q.y < range.y + range.height;
            if inside {
                assert!(found.contains(id), "id {} at {:?} missing for {:?}", id, q, range);
            }
        }
    }
}

#[test]
fn query_reports_whole_nodes() {
    let mut t = Quadtree::new(Rectangle::new(0, 0, 100, 100), 4);
    t.insert(1, p(5, 5));
    t.insert(2, p(95, 95));
    t.insert(3, p(5, 95));
    let found = check_for_collisions(&t, Rectangle::new(40, 40, 10, 10));
    assert_eq!(found, ids(&[1, 2, 3]));
    let none = check_for_collisions(&t, Rectangle::new(200, 200, 10, 10));
    assert!(none.is_empty());
}

#[test]
fn full_node_splits_into_quadrants() {
    let mut t = Quadtree::new(Rectangle::new(0, 0, 100, 60), 1);
    t.insert(1, p(10, 10));
    let mut rects = Vec::new();
    t.collect_boundaries(&mut rects);
    assert_eq!(rects, vec![Rectangle::new(0, 0, 100, 60)]);
    t.insert(2, p(80, 50));
    let mut rects = Vec::new();
    t.collect_boundaries(&mut rects);
    assert_eq!(
        rects,
        vec![
            Rectangle::new(0, 0, 100, 60),
            Rectangle::new(0, 0, 50, 30),
            Rectangle::new(50, 0, 50, 30),
            Rectangle::new(0, 30, 50, 30),
            Rectangle::new(50, 30, 50, 30),
        ]
    );
}

#[test]
fn odd_extent_gives_the_extra_unit_to_the_far_quadrants() {
    let mut t = Quadtree::new(Rectangle::new(0, 0, 5, 3), 1);
    t.insert(1, p(0, 0));
    t.insert(2, p(5, 3));
    let mut rects = Vec::new();
    t.collect_boundaries(&mut rects);
    assert_eq!(
        rects,
        vec![
            Rectangle::new(0, 0, 5, 3),
            Rectangle::new(0, 0, 2, 1),
            Rectangle::new(2, 0, 3, 1),
            Rectangle::new(0, 1, 2, 2),
            Rectangle::new(2, 1, 3, 2),
        ]
    );
}

#[test]
fn node_splits_only_once() {
    let mut t = Quadtree::new(Rectangle::new(0, 0, 100, 100), 1);
    t.insert(1, p(10, 10));
    t.insert(2, p(20, 20));
    let mut first = Vec::new();
    t.collect_boundaries(&mut first);
    assert_eq!(first.len(), 5);
    // More points in the north-west quadrant split that quadrant, not the root again.
    t.insert(3, p(30, 30));
    t.insert(4, p(40, 40));
    let mut later = Vec::new();
    t.collect_boundaries(&mut later);
    assert_eq!(later[0], first[0]);
    assert_eq!(later[1], first[1]);
    assert_eq!(later.len(), 13);
    assert_eq!(later.iter().filter(|r| **r == Rectangle::new(0, 0, 100, 100)).count(), 1);
    assert_eq!(later.iter().filter(|r| **r == Rectangle::new(0, 0, 50, 50)).count(), 1);
}

#[test]
fn capacity_is_per_node() {
    let mut t = Quadtree::new(Rectangle::new(0, 0, 100, 100), 2);
    t.insert(1, p(10, 10));
    t.insert(2, p(10, 12));
    let mut rects = Vec::new();
    t.collect_boundaries(&mut rects);
    assert_eq!(rects.len(), 1);
    t.insert(3, p(10, 14));
    let mut rects = Vec::new();
    t.collect_boundaries(&mut rects);
    assert_eq!(rects.len(), 5);
}

#[test]
fn point_on_shared_edge_goes_to_both_quadrants() {
    let mut t = Quadtree::new(Rectangle::new(0, 0, 100, 100), 1);
    t.insert(1, p(90, 90));
    t.insert(2, p(50, 20));
    // Only the north-west and north-east quadrants hold (50, 20).
    let west = check_for_collisions(&t, Rectangle::new(0, 60, 1, 1));
    assert_eq!(west, ids(&[1]));
    let nw = check_for_collisions(&t, Rectangle::new(10, 10, 1, 1));
    assert_eq!(nw, ids(&[1, 2]));
    let ne = check_for_collisions(&t, Rectangle::new(70, 10, 1, 1));
    assert_eq!(ne, ids(&[1, 2]));
}

#[test]
fn remove_drops_the_id() {
    let mut t = Quadtree::new(Rectangle::new(0, 0, 100, 100), 1);
    t.insert(1, p(10, 10));
    t.insert(2, p(80, 80));
    t.insert(3, p(20, 20));
    t.remove(2, p(80, 80));
    let found = check_for_collisions(&t, Rectangle::new(0, 0, 100, 100));
    assert_eq!(found, ids(&[1, 3]));
    t.remove(1, p(10, 10));
    let found = check_for_collisions(&t, Rectangle::new(0, 0, 100, 100));
    assert_eq!(found, ids(&[3]));
}

#[test]
fn remove_outside_or_elsewhere_changes_nothing() {
    let mut t = Quadtree::new(Rectangle::new(0, 0, 100, 100), 4);
    t.insert(1, p(10, 10));
    t.remove(1, p(200, 200));
    assert_eq!(check_for_collisions(&t, Rectangle::new(0, 0, 100, 100)), ids(&[1]));
    t.remove(7, p(10, 10));
    assert_eq!(check_for_collisions(&t, Rectangle::new(0, 0, 100, 100)), ids(&[1]));
}

#[test]
fn update_position_inside_keeps_the_old_entry() {
    let mut t = Quadtree::new(Rectangle::new(0, 0, 100, 100), 1);
    t.insert(9, p(90, 90));
    t.insert(1, p(10, 10));
    t.update_entity_position(1, p(10, 10), p(10, 90));
    // The old position lies inside the root, so no removal is made.
    assert_eq!(check_for_collisions(&t, Rectangle::new(5, 5, 1, 1)), ids(&[9, 1]));
    assert_eq!(check_for_collisions(&t, Rectangle::new(5, 85, 1, 1)), ids(&[9, 1]));
}

#[test]
fn update_position_from_outside_inserts() {
    let mut t = Quadtree::new(Rectangle::new(0, 0, 100, 100), 4);
    t.update_entity_position(5, p(-50, -50), p(40, 40));
    assert_eq!(check_for_collisions(&t, Rectangle::new(0, 0, 100, 100)), ids(&[5]));
}

#[test]
fn bounding_box_query_filters_candidates() {
    let mut t = Quadtree::new(Rectangle::new(0, 0, 100, 100), 4);
    t.insert(1, p(10, 10));
    t.insert(2, p(60, 60));
    t.insert(3, p(90, 10));
    let boxes = |id: u64| -> Rectangle {
        match id {
            1 => Rectangle::new(5, 5, 10, 10),
            2 => Rectangle::new(55, 55, 10, 10),
            _ => Rectangle::new(85, 5, 10, 10),
        }
    };
    let mut found = HashSet::new();
    t.query_bounding_boxes(&Rectangle::new(0, 0, 50, 50), &mut found, &boxes);
    assert_eq!(found, ids(&[1]));
    let mut found = HashSet::new();
    t.query_bounding_boxes(&Rectangle::new(50, 0, 50, 100), &mut found, &boxes);
    assert_eq!(found, ids(&[2, 3]));
    let mut found = HashSet::new();
    t.query_bounding_boxes(&Rectangle::new(200, 200, 5, 5), &mut found, &boxes);
    assert!(found.is_empty());
}

#[test]
fn query_adds_to_what_was_found() {
    let mut t = Quadtree::new(Rectangle::new(0, 0, 100, 100), 4);
    t.insert(1, p(10, 10));
    let mut found: HashSet<u64> = ids(&[42]);
    t.query(&Rectangle::new(0, 0, 100, 100), &mut found);
    assert_eq!(found, ids(&[1, 42]));
}

#[test]
fn rebuild_indexes_the_objects_inside_the_window() {
    let objects = vec![(1, p(-300, -200)), (2, p(0, 0)), (3, p(400, 0)), (4, p(399, 299)), (5, p(10, 10))];
    let t = rebuild_quadtree(800, 600, &objects);
    let all = check_for_collisions(&t, Rectangle::new(-400, -300, 800, 600));
    assert_eq!(all, ids(&[1, 2, 3, 4, 5]));
    let outside = vec![(7, p(401, 0)), (8, p(0, -301))];
    let t = rebuild_quadtree(800, 600, &outside);
    assert!(check_for_collisions(&t, Rectangle::new(-400, -300, 800, 600)).is_empty());
}

#[test]
fn rebuild_splits_past_four_objects() {
    let objects: Vec<(u64, Vec2)> = (0..5).map(|i| (i, p(-100 + i as i64, -100))).collect();
    let t = rebuild_quadtree(400, 400, &objects);
    let mut rects = Vec::new();
    t.collect_boundaries(&mut rects);
    assert_eq!(rects.len(), 5);
    assert_eq!(rects[0], Rectangle::new(-200, -200, 400, 400));
    assert_eq!(rects[1], Rectangle::new(-200, -200, 200, 200));
}

#[test]
fn repeated_id_is_kept_once() {
    let mut t = Quadtree::new(Rectangle::new(0, 0, 100, 100), 2);
    t.insert(1, p(10, 10));
    t.insert(1, p(10, 10));
    t.insert(2, p(20, 20));
    let mut rects = Vec::new();
    t.collect_boundaries(&mut rects);
    assert_eq!(rects.len(), 1);
    assert_eq!(check_for_collisions(&t, Rectangle::new(0, 0, 100, 100)), ids(&[1, 2]));
}

#[test]
fn widest_window_indexes_extreme_points() {
    let objects = vec![
        (1, p(-(i64::MAX / 2), -(i64::MAX / 2))),
        (2, p(i64::MAX - i64::MAX / 2, i64::MAX - i64::MAX / 2)),
        (3, p(0, 0)),
        (4, p(1, 1)),
        (5, p(-1, 1)),
        (6, p(i64::MIN, 0)),
    ];
    let t = rebuild_quadtree(i64::MAX, i64::MAX, &objects);
    let whole = Rectangle::new(-(i64::MAX / 2), -(i64::MAX / 2), i64::MAX, i64::MAX);
    assert_eq!(check_for_collisions(&t, whole), ids(&[1, 2, 3, 4, 5]));
}
