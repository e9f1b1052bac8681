use pippop::game::colors::get_group;
use pippop::graph::bubble::{BubbleKey, BubbleStyle, Color};
use pippop::graph::edge::{Edge, EdgeKey, Slot};
use pippop::graph::Graph;

fn turquoise() -> Color {
    Color { r: 85, g: 196, b: 200, a: 255 }
}

fn rose() -> Color {
    Color { r: 212, g: 131, b: 145, a: 255 }
}

fn green() -> Color {
    Color { r: 95, g: 168, b: 69, a: 255 }
}

fn yellow() -> Color {
    Color { r: 192, g: 199, b: 49, a: 255 }
}

fn twin_bubble(graph: &Graph, e: EdgeKey) -> BubbleKey {
    graph.vertices.get_edge(graph.vertices.get_edge(e).twin).bubble
}

#[test]
fn test_get_swappable_bubble() {
    let mut graph = Graph::new(BubbleStyle::colored(turquoise()), BubbleStyle::colored(rose()));

    // Initially no swappable bubble.
    assert_eq!(graph.bubbles.get_swappable(), None);

    // Set the first bubble to swappable.
    let bkey = graph.bubbles.keys()[0];
    graph.bubbles.set_style(bkey, BubbleStyle::swappable(5));

    assert_eq!(graph.bubbles.get_swappable(), Some(bkey));
}

#[test]
fn test_get_closest_swap_candidate() {
    let graph = Graph::new(BubbleStyle::swappable(5), BubbleStyle::colored(turquoise()));

    // The first bubble is the swappable one and the second a colored one.
    let b2 = graph.bubbles.keys()[1];

    // Whatever point the player picks, the closest candidate is one of these.
    let candidates = graph.swap_candidates();
    assert!(!candidates.is_empty());

    // Each candidate is the twin of a wall of the swappable bubble, on b2.
    for ekey in candidates {
        assert_eq!(graph.vertices.get_edge(ekey).bubble, b2);
    }
}

#[test]
fn test_rebubble_reorders_edges() {
    let mut graph = Graph::new(BubbleStyle::swappable(5), BubbleStyle::colored(turquoise()));

    let bkey = graph.bubbles.keys()[0];
    let edges_before = graph.bubbles.get(bkey).edges.clone();
    assert!(edges_before.len() >= 2);

    // Rebubble starting from the second edge.
    let new_start = edges_before[1];
    graph.rebubble(bkey, new_start);

    let new_edges = &graph.bubbles.get(bkey).edges;
    assert_eq!(new_edges[0], new_start);
    assert_eq!(new_edges.len(), edges_before.len());

    // It is a cyclic shift.
    for i in 0..new_edges.len() {
        assert_eq!(new_edges[i], edges_before[(i + 1) % edges_before.len()]);
    }
}

#[test]
fn test_remove_edge_with_duplicate_neighbors() {
    let mut graph = Graph::new(BubbleStyle::colored(turquoise()), BubbleStyle::colored(rose()));

    let s1 = graph
        .bubbles
        .keys()
        .into_iter()
        .find(|&k| matches!(graph.bubbles.style(k), BubbleStyle::Colored { size: 1, .. }))
        .unwrap();
    let oa = graph.get_open_air();

    // 1. Remove one internal wall to merge the colored bubbles.
    let e12 = graph.bubbles.get(s1).edges.iter().copied().find(|&e| twin_bubble(&graph, e) != oa).unwrap();
    graph.remove_edge(e12);

    // 2. Try to remove a wall between the merged bubble and the open air.
    let e_s1_oa = graph.bubbles.get(s1).edges.iter().copied().find(|&e| twin_bubble(&graph, e) == oa).unwrap();
    graph.remove_edge(e_s1_oa);

    // No list names a vertex that is gone.
    for bkey in graph.bubbles.keys() {
        for ekey in &graph.bubbles.get(bkey).edges {
            assert!(graph.vertices.contains_key(ekey.vertex));
        }
    }
}

#[test]
fn test_bridge_creation_and_resolution() {
    // Create a large enough graph by spawning a few times.
    let mut graph = Graph::new(BubbleStyle::colored(turquoise()), BubbleStyle::colored(rose()));

    let oa_key = graph.get_open_air();

    // Spawn a couple of times to get a non-trivial graph.
    let mut vkeys = graph.vertices.keys();
    graph.spawn(vkeys[0], BubbleStyle::colored(green()));
    vkeys = graph.vertices.keys();
    graph.spawn(vkeys[2], BubbleStyle::colored(yellow()));

    // Find an edge that separates two distinct colored bubbles.
    let mut target_ekey = None;
    for vkey in graph.vertices.keys() {
        let vertex = graph.vertices.get(vkey);
        for slot in Slot::all() {
            let edge = vertex.edge(vkey.slot(slot));
            let twin_bubble = graph.vertices.get_edge(edge.twin).bubble;
            if edge.bubble != oa_key && twin_bubble != oa_key && edge.bubble != twin_bubble {
                target_ekey = Some(vkey.slot(slot));
                break;
            }
        }
        if target_ekey.is_some() {
            break;
        }
    }

    let ekey = target_ekey.expect("Could not find internal edge");

    // Make it a bridge by setting both sides to the open air.
    let edge = graph.vertices.get_edge(ekey);
    graph.vertices.set_edge(ekey, Edge { twin: edge.twin, bubble: oa_key });
    let twin = graph.vertices.get_edge(edge.twin);
    graph.vertices.set_edge(edge.twin, Edge { twin: twin.twin, bubble: oa_key });

    // Slide it.
    graph.slide(ekey);

    // After sliding, the edge does not have the open air on both sides.
    let new_b1 = graph.vertices.get_edge(ekey).bubble;
    let new_b2 = twin_bubble(&graph, ekey);

    assert!(new_b1 != oa_key || new_b2 != oa_key, "Bridge was not resolved!");
}

#[test]
fn new_graph_has_two_vertices_and_three_bubbles() {
    let graph = Graph::new(BubbleStyle::colored(turquoise()), BubbleStyle::colored(rose()));
    assert_eq!(graph.vertices.len(), 2);
    assert_eq!(graph.bubbles.len(), 3);
    let keys = graph.bubbles.keys();
    assert_eq!(graph.bubbles.style(keys[0]), BubbleStyle::colored(turquoise()));
    assert_eq!(graph.bubbles.style(keys[1]), BubbleStyle::colored(rose()));
    assert_eq!(graph.bubbles.style(keys[2]), BubbleStyle::OpenAir);
    for k in keys {
        assert_eq!(graph.bubbles.get(k).edges.len(), 2);
    }
}

#[test]
fn spawn_adds_two_vertices_and_a_triangle() {
    let mut graph = Graph::new(BubbleStyle::colored(turquoise()), BubbleStyle::colored(rose()));
    let v = graph.vertices.keys()[0];
    graph.spawn(v, BubbleStyle::colored(green()));
    assert_eq!(graph.vertices.len(), 4);
    assert_eq!(graph.bubbles.len(), 4);
    // Euler's formula for the trivalent graph: V = 2 (B - 2).
    assert_eq!(graph.vertices.len(), 2 * (graph.bubbles.len() - 2));
    let nb = graph.bubbles.keys()[3];
    assert_eq!(graph.bubbles.style(nb), BubbleStyle::colored(green()));
    assert_eq!(graph.bubbles.get(nb).edges.len(), 3);
    // The new bubble's boundary starts at the first edge of the split vertex.
    assert_eq!(graph.bubbles.get(nb).edges[0], v.slot(Slot::A));
}

#[test]
fn remove_edge_merges_styles_and_keeps_euler() {
    let mut graph = Graph::new(BubbleStyle::colored(turquoise()), BubbleStyle::colored(rose()));
    let v = graph.vertices.keys()[0];
    graph.spawn(v, BubbleStyle::colored(turquoise()));
    let b1 = graph.bubbles.keys()[0];
    let nb = graph.bubbles.keys()[3];
    // The wall between the first bubble and the spawned one.
    let e = graph.bubbles.get(b1).edges.iter().copied().find(|&e| twin_bubble(&graph, e) == nb).unwrap();
    graph.remove_edge(e);
    assert_eq!(graph.vertices.len(), 2);
    assert_eq!(graph.bubbles.len(), 3);
    assert!(!graph.bubbles.contains_key(nb));
    assert_eq!(graph.bubbles.style(b1), BubbleStyle::Colored { size: 2, color: turquoise() });
}

#[test]
fn degenerate_edges_of_a_fresh_graph_are_none() {
    let graph = Graph::new(BubbleStyle::colored(turquoise()), BubbleStyle::colored(rose()));
    for b in graph.bubbles.keys() {
        assert!(graph.get_degenerate_edges(b).is_empty());
    }
}

#[test]
fn open_air_vertices_follow_its_boundary() {
    let graph = Graph::new(BubbleStyle::colored(turquoise()), BubbleStyle::colored(rose()));
    let oa = graph.get_open_air();
    let vs = graph.get_open_air_vertices();
    let edges = &graph.bubbles.get(oa).edges;
    assert_eq!(vs.len(), edges.len());
    for i in 0..vs.len() {
        assert_eq!(vs[i], edges[i].vertex);
    }
}

#[test]
fn merge_rules() {
    let a = BubbleStyle::Colored { size: 2, color: turquoise() };
    let b = BubbleStyle::Colored { size: 3, color: rose() };
    assert_eq!(a.merge(&b), BubbleStyle::Colored { size: 5, color: turquoise() });
    assert_eq!(a.merge(&BubbleStyle::OpenAir), BubbleStyle::OpenAir);
    assert_eq!(BubbleStyle::OpenAir.merge(&a), BubbleStyle::OpenAir);
    assert_eq!(BubbleStyle::swappable(3).merge(&a), BubbleStyle::swappable(3));
    assert!(BubbleStyle::Colored { size: 5, color: rose() }.is_poppable());
    assert!(!BubbleStyle::Colored { size: 4, color: rose() }.is_poppable());
    assert!(!BubbleStyle::Invisible { size: 7 }.is_poppable());
}

#[test]
fn edge_key_rotation() {
    let graph = Graph::new(BubbleStyle::colored(turquoise()), BubbleStyle::colored(rose()));
    let v = graph.vertices.keys()[0];
    let keys = v.edge_keys();
    assert_eq!(keys[0].next_on_vertex(), keys[1]);
    assert_eq!(keys[2].next_on_vertex(), keys[0]);
    assert_eq!(keys[0].prev_on_vertex(), keys[2]);
    assert_eq!(EdgeKey::new(v, 1), keys[1]);
    assert!(keys[0].less_than(&keys[1]));
    assert!(!keys[1].less_than(&keys[1]));
}

#[test]
fn color_groups_take_the_palette_in_order() {
    let g = get_group(3);
    assert_eq!(g, vec![turquoise(), rose(), green()]);
    assert_eq!(get_group(10).len(), 6);
    assert!(get_group(0).is_empty());
}
