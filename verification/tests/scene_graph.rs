use gloom::scene::{DrawCall, SceneGraph, Visit, NO_GEOMETRY};

/// The helicopter scene: root, terrain, body, tail rotor, main rotor, door.
fn helicopter_scene() -> SceneGraph {
    let mut g = SceneGraph::new();
    let root = g.add_empty_node();
    let terrain = g.add_node(1, 600);
    let body = g.add_node(2, 300);
    let tail_rotor = g.add_node(3, 60);
    let main_rotor = g.add_node(4, 90);
    let door = g.add_node(5, 30);
    for (parent, child) in [(root, terrain), (terrain, body), (body, main_rotor), (body, tail_rotor), (body, door)] {
        assert!(!g.reaches(child, parent));
        g.add_child(parent, child);
    }
    g
}

#[test]
fn nodes_are_numbered_in_order() {
    let mut g = SceneGraph::new();
    assert_eq!(g.len(), 0);
    assert_eq!(g.add_empty_node(), 0);
    assert_eq!(g.add_node(7, 3), 1);
    assert_eq!(g.len(), 2);
    assert_eq!(NO_GEOMETRY, -1);
}

#[test]
fn walk_visits_parents_first() {
    let g = helicopter_scene();
    let walk = g.visit_order(0);
    let expected: Vec<Visit> = vec![
        Visit { node: 0, parent: None },
        Visit { node: 1, parent: Some(0) },
        Visit { node: 2, parent: Some(1) },
        Visit { node: 4, parent: Some(2) },
        Visit { node: 3, parent: Some(2) },
        Visit { node: 5, parent: Some(2) },
    ];
    assert_eq!(walk, expected);
}

#[test]
fn draws_skip_nodes_without_geometry() {
    let g = helicopter_scene();
    let calls = g.draw_calls(0);
    assert_eq!(
        calls,
        vec![
            DrawCall { node: 1, vao_id: 1, index_count: 600 },
            DrawCall { node: 2, vao_id: 2, index_count: 300 },
            DrawCall { node: 4, vao_id: 4, index_count: 90 },
            DrawCall { node: 3, vao_id: 3, index_count: 60 },
            DrawCall { node: 5, vao_id: 5, index_count: 30 },
        ]
    );
}

#[test]
fn zero_index_count_is_not_drawn() {
    let mut g = SceneGraph::new();
    let a = g.add_node(9, 0);
    let b = g.add_node(8, 12);
    g.add_child(a, b);
    assert_eq!(g.draw_calls(a), vec![DrawCall { node: 1, vao_id: 8, index_count: 12 }]);
    assert_eq!(g.visit_order(a).len(), 2);
}

#[test]
fn walk_from_inner_node() {
    let g = helicopter_scene();
    let walk = g.visit_order(2);
    assert_eq!(walk.len(), 4);
    assert_eq!(walk[0], Visit { node: 2, parent: None });
    assert_eq!(walk[1], Visit { node: 4, parent: Some(2) });
}

#[test]
fn reaches_descendants_only() {
    let g = helicopter_scene();
    assert!(g.reaches(0, 5));
    assert!(g.reaches(1, 3));
    assert!(g.reaches(4, 4));
    assert!(!g.reaches(3, 2));
    assert!(!g.reaches(4, 3));
    assert!(!g.reaches(2, 0));
}

#[test]
fn cycle_is_detected_before_linking() {
    let g = helicopter_scene();
    // Linking the door to the root would make the root its own descendant.
    assert!(g.reaches(0, 5));
}

#[test]
fn shared_child_is_walked_twice() {
    let mut g = SceneGraph::new();
    let root = g.add_empty_node();
    let left = g.add_empty_node();
    let right = g.add_empty_node();
    let shared = g.add_node(11, 6);
    g.add_child(root, left);
    g.add_child(root, right);
    g.add_child(left, shared);
    g.add_child(right, shared);
    let walk = g.visit_order(root);
    assert_eq!(walk.len(), 5);
    assert_eq!(walk[2], Visit { node: shared, parent: Some(left) });
    assert_eq!(walk[4], Visit { node: shared, parent: Some(right) });
    assert_eq!(g.draw_calls(root).len(), 2);
}

#[test]
fn child_can_be_added_to_earlier_node() {
    let mut g = SceneGraph::new();
    let child = g.add_node(1, 3);
    let parent = g.add_empty_node();
    assert!(!g.reaches(child, parent));
    g.add_child(parent, child);
    assert!(g.reaches(parent, child));
    assert_eq!(g.visit_order(parent), vec![Visit { node: 1, parent: None }, Visit { node: 0, parent: Some(1) }]);
}
