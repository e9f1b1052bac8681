use pippop::game::burst::BurstManager;
use pippop::game::gameover::GameOverManager;
use pippop::game::pop::{PopDone, PopManager, POPPING_TIME};
use pippop::game::reap::ReapManager;
use pippop::game::sanity::{SanityError, SanityManager};
use pippop::game::score::{ChainTimer, ScoreKind, ScoreManager};
use pippop::game::state::{GamePhase, GameState, SoundEvent};
use pippop::game::swap::SwapManager;
use pippop::game::spawn::{SpawnManager, MAX_BUBBLES};
use pippop::game::colors::get_group;
use pippop::game::pause::PauseManager;
use pippop::game::debug::{DebugError, DebugManager};
use pippop::ffi::CBubbleKindTag;
use pippop::graph::bubble::{BubbleKey, BubbleStyle, Color};
use pippop::graph::edge::{Edge, EdgeKey};
use pippop::graph::vertex::{Vertex, VertexKey};
use pippop::graph::Graph;

fn turquoise() -> Color {
    Color { r: 85, g: 196, b: 200, a: 255 }
}

fn rose() -> Color {
    Color { r: 212, g: 131, b: 145, a: 255 }
}

fn twin_bubble(graph: &Graph, e: EdgeKey) -> BubbleKey {
    graph.vertices.get_edge(graph.vertices.get_edge(e).twin).bubble
}

#[test]
fn test_burst_increments_swaps() {
    let graph = Graph::new(BubbleStyle::swappable(5), BubbleStyle::colored(turquoise()));
    let mut state = GameState::new(graph);

    let vkey = state.graph.vertices.keys()[0];
    state.graph.spawn(vkey, BubbleStyle::colored(turquoise()));

    let mut burst_manager = BurstManager::new();
    // Find the colored bubble that isn't the swappable one.
    let bkey = state
        .graph
        .bubbles
        .keys()
        .into_iter()
        .find(|&k| matches!(state.graph.bubbles.style(k), BubbleStyle::Colored { .. }))
        .expect("Should have a colored bubble");

    state.focus_bubble = Some(bkey);
    assert!(
        burst_manager.find_and_set_next_burstable(&state.graph, state.focus_bubble),
        "Should find a burstable edge in focus bubble"
    );

    let ekey = burst_manager.active_edge.unwrap();
    burst_manager.burst(&mut state.graph, ekey);

    let swappable_bkey = state.graph.bubbles.get_swappable().unwrap();
    if let BubbleStyle::Swappable { swaps_left } = state.graph.bubbles.style(swappable_bkey) {
        assert_eq!(swaps_left, 5);
    } else {
        panic!("Expected Swappable style");
    }
}

#[test]
fn burst_below_the_cap_adds_a_swap() {
    let graph = Graph::new(BubbleStyle::swappable(3), BubbleStyle::colored(turquoise()));
    let mut state = GameState::new(graph);
    let vkey = state.graph.vertices.keys()[0];
    state.graph.spawn(vkey, BubbleStyle::colored(turquoise()));
    let mut bm = BurstManager::new();
    let b2 = state.graph.bubbles.keys()[1];
    assert!(bm.find_and_set_next_burstable(&state.graph, Some(b2)));
    let e = bm.active_edge.unwrap();
    assert!(bm.is_burstable(&state.graph, e));
    bm.burst(&mut state.graph, e);
    let p = state.graph.bubbles.get_swappable().unwrap();
    assert_eq!(state.graph.bubbles.style(p), BubbleStyle::swappable(4));
    assert_eq!(state.graph.bubbles.len(), 3);
    // The focus bubble survives with the merged size.
    assert_eq!(state.graph.bubbles.style(b2), BubbleStyle::Colored { size: 2, color: turquoise() });
}

#[test]
fn burst_update_runs_the_freeze_then_bursts() {
    let graph = Graph::new(BubbleStyle::swappable(3), BubbleStyle::colored(turquoise()));
    let mut state = GameState::new(graph);
    let vkey = state.graph.vertices.keys()[0];
    state.graph.spawn(vkey, BubbleStyle::colored(turquoise()));
    let b2 = state.graph.bubbles.keys()[1];
    state.phase = GamePhase::Bursting;
    state.focus_bubble = Some(b2);
    let mut bm = BurstManager::new();
    // The first tick freezes a wall.
    assert_eq!(bm.update(&mut state, 100_000), None);
    assert!(bm.active_edge.is_some());
    assert_eq!(bm.timer, 400_000);
    let e = bm.active_edge.unwrap();
    // The freeze runs out: the wall bursts and the phase ends.
    assert_eq!(bm.update(&mut state, 400_000), Some(e));
    assert_eq!(state.sound_events, vec![SoundEvent::Burst]);
    assert_eq!(state.phase, GamePhase::Normal);
    assert_eq!(state.focus_bubble, None);
    assert!(bm.active_edge.is_none());
}

#[test]
fn burst_update_outside_its_phase_does_nothing() {
    let graph = Graph::new(BubbleStyle::swappable(3), BubbleStyle::colored(turquoise()));
    let mut state = GameState::new(graph);
    let mut bm = BurstManager::new();
    assert_eq!(bm.update(&mut state, 100_000), None);
    assert_eq!(state.phase, GamePhase::Normal);
    assert!(bm.active_edge.is_none());
}

#[test]
fn burst_update_without_target_ends_the_phase() {
    let graph = Graph::new(BubbleStyle::swappable(3), BubbleStyle::colored(turquoise()));
    let mut state = GameState::new(graph);
    state.phase = GamePhase::Bursting;
    state.focus_bubble = Some(state.graph.bubbles.keys()[1]);
    let mut bm = BurstManager::new();
    assert_eq!(bm.update(&mut state, 100_000), None);
    assert_eq!(state.phase, GamePhase::Normal);
    assert_eq!(state.focus_bubble, None);
}

#[test]
fn pop_starts_and_finishes() {
    let graph = Graph::new(BubbleStyle::swappable(3), BubbleStyle::Colored { size: 5, color: rose() });
    let mut state = GameState::new(graph);
    let b2 = state.graph.bubbles.keys()[1];
    let mut pm = PopManager::new();
    assert_eq!(pm.update(&mut state, 10_000), None);
    assert_eq!(state.phase, GamePhase::Popping);
    assert!(pm.is_handling(b2));
    assert_eq!(state.graph.bubbles.style(b2), BubbleStyle::Invisible { size: 5 });
    assert_eq!(pm.update(&mut state, 100_000), None);
    assert_eq!(pm.pending_pop.unwrap().timer, 400_000);
    assert_eq!(pm.update(&mut state, 400_000), Some(PopDone { bkey: b2, size: 5 }));
    assert_eq!(state.phase, GamePhase::Normal);
    assert_eq!(state.graph.bubbles.style(b2), BubbleStyle::Invisible { size: 0 });
    assert_eq!(state.sound_events, vec![SoundEvent::Pop]);
    assert!(!pm.is_handling(b2));
}

#[test]
fn pop_waits_for_a_big_enough_bubble() {
    let graph = Graph::new(BubbleStyle::swappable(3), BubbleStyle::Colored { size: 4, color: rose() });
    let mut state = GameState::new(graph);
    let mut pm = PopManager::new();
    assert_eq!(pm.update(&mut state, 10_000), None);
    assert_eq!(state.phase, GamePhase::Normal);
    assert!(pm.pending_pop.is_none());
}

#[test]
fn reap_merges_a_popped_bubble_into_the_open_air() {
    let mut graph = Graph::new(BubbleStyle::swappable(3), BubbleStyle::colored(rose()));
    let v = graph.vertices.keys()[0];
    graph.spawn(v, BubbleStyle::colored(turquoise()));
    let nb = graph.bubbles.keys()[3];
    graph.bubbles.set_style(nb, BubbleStyle::Invisible { size: 0 });
    let mut state = GameState::new(graph);
    let rm = ReapManager::new();
    let targets = rm.reap_targets(&state.graph, &vec![]);
    assert_eq!(targets.len(), 1);
    // The target is on the open air's side of the wall.
    let oa = state.graph.get_open_air();
    assert_eq!(state.graph.vertices.get_edge(targets[0]).bubble, oa);
    assert_eq!(twin_bubble(&state.graph, targets[0]), nb);
    rm.update(&mut state, &vec![]);
    assert_eq!(state.graph.bubbles.len(), 3);
    assert!(!state.graph.bubbles.contains_key(nb));
    assert_eq!(state.graph.vertices.len(), 2);
}

#[test]
fn reap_leaves_bubbles_that_are_not_done() {
    let graph = Graph::new(BubbleStyle::swappable(3), BubbleStyle::Invisible { size: 2 });
    let state = GameState::new(graph);
    let rm = ReapManager::new();
    assert!(rm.reap_targets(&state.graph, &vec![]).is_empty());
}

#[test]
fn swap_trades_places_and_spends_a_swap() {
    let graph = Graph::new(BubbleStyle::swappable(3), BubbleStyle::colored(rose()));
    let mut state = GameState::new(graph);
    let b1 = state.graph.bubbles.keys()[0];
    let b2 = state.graph.bubbles.keys()[1];
    let e = state.graph.swap_candidates()[0];
    let mut sm = SwapManager::new();
    sm.begin(&mut state, e);
    assert_eq!(state.phase, GamePhase::Swapping);
    assert_eq!(state.sound_events, vec![SoundEvent::Swap]);
    assert!(sm.is_handling(b1) && sm.is_handling(b2));
    assert_eq!(state.graph.bubbles.style(b2), BubbleStyle::swappable(2));
    assert_eq!(state.graph.bubbles.get(b2).edges[0], e);
    sm.finish(&mut state);
    assert_eq!(state.graph.bubbles.style(b1), BubbleStyle::colored(rose()));
    assert_eq!(state.focus_bubble, Some(b1));
    assert_eq!(state.phase, GamePhase::Bursting);
    assert!(sm.active_swap.is_none());
}

#[test]
fn game_over_when_out_of_swaps() {
    let graph = Graph::new(BubbleStyle::swappable(0), BubbleStyle::colored(rose()));
    let mut state = GameState::new(graph);
    let mut gm = GameOverManager::new();
    gm.update(&mut state, 1_000_000);
    assert_eq!(state.phase, GamePhase::GameOver);
    assert_eq!(gm.timer, 0);
    assert!(!gm.interact(&state, true));
    gm.update(&mut state, 2_500_000);
    assert_eq!(gm.timer, 2_500_000);
    assert!(gm.interact(&state, true));
    assert!(!gm.interact(&state, false));
}

#[test]
fn no_game_over_with_swaps_left() {
    let graph = Graph::new(BubbleStyle::swappable(1), BubbleStyle::colored(rose()));
    let mut state = GameState::new(graph);
    let mut gm = GameOverManager::new();
    gm.update(&mut state, 1_000_000);
    assert_eq!(state.phase, GamePhase::Normal);
}

#[test]
fn score_chains_multiply_points() {
    let mut sm = ScoreManager::new();
    let pts = sm.score(16_000, &vec![ScoreKind::Burst, ScoreKind::Burst, ScoreKind::Pop { size: 5 }]);
    assert_eq!(pts, vec![10, 20, 50]);
    let pts = sm.score(1_000_000, &vec![ScoreKind::Burst]);
    assert_eq!(pts, vec![30]);
    // The chain runs out after two seconds without events.
    let pts = sm.score(3_000_000, &vec![ScoreKind::Burst, ScoreKind::Pop { size: 6 }]);
    assert_eq!(pts, vec![10, 60]);
}

#[test]
fn chain_timer_counts_while_running() {
    let mut c = ChainTimer::new();
    assert_eq!(c.get_count(), 0);
    c.re_up();
    assert_eq!(c.get_count(), 1);
    c.re_up();
    assert_eq!(c.get_count(), 2);
    c.update(2_000_000);
    assert_eq!(c.get_count(), 0);
    c.re_up();
    assert_eq!(c.get_count(), 1);
}

#[test]
fn sanity_accepts_a_new_graph() {
    let graph = Graph::new(BubbleStyle::swappable(5), BubbleStyle::colored(rose()));
    let state = GameState::new(graph);
    assert_eq!(SanityManager::new().check(&state), Ok(()));
}

#[test]
fn sanity_accepts_graphs_after_spawns_and_removals() {
    let mut graph = Graph::new(BubbleStyle::colored(turquoise()), BubbleStyle::colored(rose()));
    let v = graph.vertices.keys()[0];
    graph.spawn(v, BubbleStyle::colored(turquoise()));
    assert_eq!(SanityManager::new().check_invariants(&graph), Ok(()));
    let v = graph.vertices.keys()[3];
    graph.spawn(v, BubbleStyle::colored(rose()));
    assert_eq!(SanityManager::new().check_invariants(&graph), Ok(()));
    let b1 = graph.bubbles.keys()[0];
    let nb = graph.bubbles.keys()[3];
    let e = graph.bubbles.get(b1).edges.iter().copied().find(|&e| twin_bubble(&graph, e) == nb).unwrap();
    graph.remove_edge(e);
    assert_eq!(SanityManager::new().check_invariants(&graph), Ok(()));
}

#[test]
fn sanity_reports_an_empty_bubble() {
    let mut graph = Graph::new(BubbleStyle::swappable(5), BubbleStyle::colored(rose()));
    let b1 = graph.bubbles.keys()[0];
    graph.bubbles.set_edges(b1, vec![]);
    assert_eq!(SanityManager::new().check_invariants(&graph), Err(SanityError::EmptyBubble { bubble: b1 }));
}

#[test]
fn sanity_reports_a_wrong_owner() {
    let mut graph = Graph::new(BubbleStyle::swappable(5), BubbleStyle::colored(rose()));
    let b1 = graph.bubbles.keys()[0];
    let b2 = graph.bubbles.keys()[1];
    let e = graph.bubbles.get(b1).edges[0];
    let edge = graph.vertices.get_edge(e);
    graph.vertices.set_edge(e, Edge { twin: edge.twin, bubble: b2 });
    assert_eq!(
        SanityManager::new().check_invariants(&graph),
        Err(SanityError::WrongOwner { edge: e, bubble: b1, owner: b2 })
    );
}

#[test]
fn sanity_reports_a_twin_mismatch() {
    let mut graph = Graph::new(BubbleStyle::swappable(5), BubbleStyle::colored(rose()));
    let b1 = graph.bubbles.keys()[0];
    let e = graph.bubbles.get(b1).edges[0];
    let edge = graph.vertices.get_edge(e);
    let other = e.next_on_vertex();
    graph.vertices.set_edge(e, Edge { twin: other, bubble: edge.bubble });
    let r = SanityManager::new().check_invariants(&graph);
    assert!(matches!(r, Err(SanityError::TwinMismatch { edge, .. }) if edge == e));
}

#[test]
fn sanity_reports_the_open_air_count() {
    let mut graph = Graph::new(BubbleStyle::swappable(5), BubbleStyle::colored(rose()));
    let b3 = graph.bubbles.keys()[2];
    graph.bubbles.set_style(b3, BubbleStyle::colored(turquoise()));
    assert_eq!(SanityManager::new().check_invariants(&graph), Err(SanityError::OpenAirCount { count: 0 }));
}

#[test]
fn sanity_reports_a_duplicate_edge() {
    let mut graph = Graph::new(BubbleStyle::swappable(5), BubbleStyle::colored(rose()));
    let b1 = graph.bubbles.keys()[0];
    let es = graph.bubbles.get(b1).edges.clone();
    graph.bubbles.set_edges(b1, vec![es[0], es[1], es[0], es[1]]);
    assert_eq!(SanityManager::new().check_invariants(&graph), Err(SanityError::DuplicateEdge { edge: es[0] }));
}

#[test]
fn sanity_reports_a_discontinuity() {
    let mut graph = Graph::new(BubbleStyle::swappable(5), BubbleStyle::colored(rose()));
    let b1 = graph.bubbles.keys()[0];
    let b2 = graph.bubbles.keys()[1];
    let es1 = graph.bubbles.get(b1).edges.clone();
    let es2 = graph.bubbles.get(b2).edges.clone();
    // Claim a third edge: its owner is fixed so that only the order breaks.
    let extra = es2[0];
    let edge = graph.vertices.get_edge(extra);
    graph.vertices.set_edge(extra, Edge { twin: edge.twin, bubble: b1 });
    graph.bubbles.set_edges(b1, vec![es1[0], extra, es1[1]]);
    let r = SanityManager::new().check_invariants(&graph);
    assert!(matches!(r, Err(SanityError::Discontinuity { bubble, edge, .. }) if bubble == b1 && edge == es1[0]));
}

#[test]
fn sanity_reports_an_unowned_edge() {
    let mut graph = Graph::new(BubbleStyle::swappable(5), BubbleStyle::colored(rose()));
    let v3 = graph.vertices.insert(Vertex::new());
    assert_eq!(
        SanityManager::new().check_invariants(&graph),
        Err(SanityError::UnownedEdge { edge: EdgeKey::new(v3, 0) })
    );
}

#[test]
fn sanity_reports_a_missing_vertex() {
    let mut graph = Graph::new(BubbleStyle::swappable(5), BubbleStyle::colored(rose()));
    let b1 = graph.bubbles.keys()[0];
    let stray = EdgeKey::new(VertexKey { id: 0x1_0000_0005 }, 0);
    graph.bubbles.set_edges(b1, vec![stray]);
    assert_eq!(
        SanityManager::new().check_invariants(&graph),
        Err(SanityError::MissingVertex { edge: stray, bubble: b1 })
    );
}

#[test]
fn sanity_reports_a_missing_twin_vertex() {
    let mut graph = Graph::new(BubbleStyle::swappable(5), BubbleStyle::colored(rose()));
    let b1 = graph.bubbles.keys()[0];
    let e = graph.bubbles.get(b1).edges[0];
    let stray = EdgeKey::new(VertexKey { id: 0x1_0000_0005 }, 0);
    graph.vertices.set_edge(e, Edge { twin: stray, bubble: b1 });
    assert_eq!(
        SanityManager::new().check_invariants(&graph),
        Err(SanityError::MissingTwinVertex { edge: e, bubble: b1, twin: stray })
    );
}

#[test]
fn debug_manager_starts_without_warning() {
    assert_eq!(DebugManager::new().open_air_loop_warning, None);
    assert_ne!(CBubbleKindTag::Game, CBubbleKindTag::Player);
}

#[test]
fn debug_check_accepts_a_new_graph() {
    let graph = Graph::new(BubbleStyle::swappable(5), BubbleStyle::colored(rose()));
    let state = GameState::new(graph);
    assert_eq!(DebugManager::new().check(&state), Ok(()));
}

#[test]
fn debug_check_reports_a_missing_owner() {
    let mut graph = Graph::new(BubbleStyle::swappable(5), BubbleStyle::colored(rose()));
    let v1 = graph.vertices.keys()[0];
    let e = EdgeKey::new(v1, 0);
    let stray = BubbleKey { id: 0x1_0000_0009 };
    let edge = graph.vertices.get_edge(e);
    graph.vertices.set_edge(e, Edge { twin: edge.twin, bubble: stray });
    let state = GameState::new(graph);
    assert_eq!(DebugManager::new().check(&state), Err(DebugError::MissingOwner { edge: e, owner: stray }));
}

#[test]
fn debug_check_reports_an_empty_bubble() {
    let mut graph = Graph::new(BubbleStyle::swappable(5), BubbleStyle::colored(rose()));
    let b1 = graph.bubbles.keys()[0];
    graph.bubbles.set_edges(b1, vec![]);
    let state = GameState::new(graph);
    assert_eq!(DebugManager::new().check(&state), Err(DebugError::EmptyBubble { bubble: b1 }));
}

#[test]
fn debug_check_reports_an_edge_set_mismatch() {
    let mut graph = Graph::new(BubbleStyle::swappable(5), BubbleStyle::colored(rose()));
    let b1 = graph.bubbles.keys()[0];
    let es = graph.bubbles.get(b1).edges.clone();
    graph.bubbles.set_edges(b1, vec![es[0]]);
    let state = GameState::new(graph);
    assert_eq!(DebugManager::new().check(&state), Err(DebugError::EdgeSetMismatch { bubble: b1 }));
}

#[test]
fn debug_check_reports_a_twin_mismatch() {
    let mut graph = Graph::new(BubbleStyle::swappable(5), BubbleStyle::colored(rose()));
    let b1 = graph.bubbles.keys()[0];
    let e = graph.bubbles.get(b1).edges[0];
    let edge = graph.vertices.get_edge(e);
    let other = e.next_on_vertex();
    graph.vertices.set_edge(e, Edge { twin: other, bubble: edge.bubble });
    let expected_tt = graph.vertices.get_edge(other).twin;
    let state = GameState::new(graph);
    assert_eq!(
        DebugManager::new().check(&state),
        Err(DebugError::TwinMismatch { edge: e, twin: other, twin_of_twin: expected_tt })
    );
}

#[test]
fn debug_check_reports_a_discontinuity() {
    let mut graph = Graph::new(BubbleStyle::swappable(5), BubbleStyle::colored(rose()));
    let b1 = graph.bubbles.keys()[0];
    let es = graph.bubbles.get(b1).edges.clone();
    graph.bubbles.set_edges(b1, vec![es[0], es[0], es[1]]);
    let state = GameState::new(graph);
    assert_eq!(
        DebugManager::new().check(&state),
        Err(DebugError::Discontinuity { bubble: b1, edge: es[0], expected: es[0], actual: es[1] })
    );
}

#[test]
fn debug_check_reports_the_open_air_count() {
    let mut graph = Graph::new(BubbleStyle::swappable(5), BubbleStyle::colored(rose()));
    let b3 = graph.bubbles.keys()[2];
    graph.bubbles.set_style(b3, BubbleStyle::colored(turquoise()));
    let state = GameState::new(graph);
    assert_eq!(DebugManager::new().check(&state), Err(DebugError::OpenAirCount { count: 0 }));
}

#[test]
fn reap_merges_a_tiny_inner_bubble_into_a_neighbor() {
    let mut graph = Graph::new(BubbleStyle::swappable(3), BubbleStyle::colored(rose()));
    let v = graph.vertices.keys()[0];
    graph.spawn(v, BubbleStyle::colored(turquoise()));
    // The second new vertex is not on the open air; a bubble spawned there
    // is an inner one.
    let inner_vertex = graph.vertices.keys()[3];
    graph.spawn(inner_vertex, BubbleStyle::colored(turquoise()));
    let inner = graph.bubbles.keys()[4];
    let oa = graph.get_open_air();
    for e in &graph.bubbles.get(inner).edges {
        assert_ne!(twin_bubble(&graph, *e), oa);
    }
    graph.bubbles.set_style(inner, BubbleStyle::Invisible { size: 0 });
    let mut state = GameState::new(graph);
    let rm = ReapManager::new();
    // Not small: it stays.
    assert!(rm.reap_targets(&state.graph, &vec![]).is_empty());
    // Small: it goes through the wall of its first edge.
    let targets = rm.reap_targets(&state.graph, &vec![inner]);
    let first = state.graph.bubbles.get(inner).edges[0];
    assert_eq!(targets, vec![state.graph.vertices.get_edge(first).twin]);
    rm.update(&mut state, &vec![inner]);
    assert!(!state.graph.bubbles.contains_key(inner));
    assert_eq!(state.graph.bubbles.len(), 4);
    assert_eq!(SanityManager::new().check(&state), Ok(()));
}

#[test]
fn slide_keeps_the_counts_and_the_styles() {
    let mut graph = Graph::new(BubbleStyle::colored(turquoise()), BubbleStyle::colored(rose()));
    let v = graph.vertices.keys()[0];
    graph.spawn(v, BubbleStyle::colored(turquoise()));
    let inner_vertex = graph.vertices.keys()[3];
    graph.spawn(inner_vertex, BubbleStyle::colored(rose()));
    let styles: Vec<BubbleStyle> = graph.bubbles.keys().into_iter().map(|b| graph.bubbles.style(b)).collect();
    let nv = graph.vertices.len();
    let nb = graph.bubbles.len();
    let e = EdgeKey::new(graph.vertices.keys()[3], 0);
    graph.slide(e);
    assert_eq!(graph.vertices.len(), nv);
    assert_eq!(graph.bubbles.len(), nb);
    let after: Vec<BubbleStyle> = graph.bubbles.keys().into_iter().map(|b| graph.bubbles.style(b)).collect();
    assert_eq!(styles, after);
}

#[test]
fn slide_keeps_the_graph_sane() {
    let mut graph = Graph::new(BubbleStyle::colored(turquoise()), BubbleStyle::colored(rose()));
    let v = graph.vertices.keys()[0];
    graph.spawn(v, BubbleStyle::colored(turquoise()));
    let inner_vertex = graph.vertices.keys()[3];
    graph.spawn(inner_vertex, BubbleStyle::colored(rose()));
    for k in 0..graph.vertices.len() {
        for o in 0..3u8 {
            let e = EdgeKey::new(graph.vertices.keys()[k], o);
            graph.slide(e);
            assert_eq!(SanityManager::new().check_invariants(&graph), Ok(()));
        }
    }
}

#[test]
fn spawns_and_removals_keep_the_graph_sane() {
    let mut graph = Graph::new(BubbleStyle::colored(turquoise()), BubbleStyle::colored(rose()));
    for round in 0..4usize {
        let v = graph.vertices.keys()[round % graph.vertices.len()];
        graph.spawn(v, BubbleStyle::colored(if round % 2 == 0 { turquoise() } else { rose() }));
        assert_eq!(SanityManager::new().check_invariants(&graph), Ok(()));
    }
    let b = graph.bubbles.keys()[3];
    let e = graph.bubbles.get(b).edges[0];
    graph.remove_edge(e);
    assert_eq!(SanityManager::new().check_invariants(&graph), Ok(()));
}

#[test]
fn score_keeps_points_only_when_their_sum_is_positive() {
    let mut sm = ScoreManager::new();
    let pts = sm.update(16_000, &vec![ScoreKind::Burst, ScoreKind::Pop { size: 2 }]);
    assert_eq!(pts, vec![10, 20]);
    assert_eq!(sm.total, 30);
    let pts = sm.update(16_000, &vec![ScoreKind::Pop { size: -5 }]);
    assert_eq!(pts, Vec::<i64>::new());
    assert_eq!(sm.total, 30);
    let pts = sm.update(16_000, &vec![]);
    assert_eq!(pts, Vec::<i64>::new());
    assert_eq!(sm.total, 30);
}

#[test]
fn spawn_test_spawn_manager_speedup() {
    let mut manager = SpawnManager::new(get_group(3));
    let graph = Graph::new(BubbleStyle::colored(turquoise()), BubbleStyle::colored(rose()));
    let mut state = GameState::new(graph);
    manager.next_spawn_time = 100_000_000;
    let initial_time = manager.next_spawn_time;
    // Three bubbles and three colors, below three per color: five times as fast.
    manager.update(&mut state, 1_000_000, 2_000_000);
    assert_eq!(manager.next_spawn_time, initial_time - 5_000_000);
}

#[test]
fn spawn_test_spawn_manager_max_bubbles() {
    let mut manager = SpawnManager::new(get_group(3));
    let mut graph = Graph::new(BubbleStyle::colored(turquoise()), BubbleStyle::colored(rose()));
    while graph.bubbles.len() < MAX_BUBBLES {
        let vkey = graph.vertices.keys()[0];
        graph.spawn(vkey, BubbleStyle::colored(turquoise()));
    }
    let mut state = GameState::new(graph);
    manager.next_spawn_time = 100_000_000;
    manager.update(&mut state, 1_000_000, 2_000_000);
    assert_eq!(manager.next_spawn_time, 100_000_000);
}

#[test]
fn spawn_update_spawns_when_the_time_runs_out() {
    let mut manager = SpawnManager::new(get_group(3));
    let graph = Graph::new(BubbleStyle::colored(turquoise()), BubbleStyle::colored(rose()));
    let mut state = GameState::new(graph);
    manager.next_spawn_time = 1_000;
    assert!(manager.update(&mut state, 1_000, 7_000));
    assert_eq!(manager.next_spawn_time, 7_000);
    assert_eq!(state.graph.bubbles.len(), 4);
    assert_eq!(state.sound_events, vec![SoundEvent::Spawn]);
    state.phase = GamePhase::Swapping;
    manager.next_spawn_time = 0;
    assert!(!manager.update(&mut state, 1_000, 7_000));
    assert_eq!(state.graph.bubbles.len(), 4);
}

#[test]
fn pause_keeps_the_phase_and_reaping_waits() {
    let graph = Graph::new(BubbleStyle::colored(turquoise()), BubbleStyle::colored(rose()));
    let mut state = GameState::new(graph);
    state.phase = GamePhase::Bursting;
    let pause = PauseManager::new();
    pause.toggle_pause(&mut state);
    assert_eq!(state.phase, GamePhase::Paused);
    let b = state.graph.bubbles.keys()[0];
    let before = state.graph.bubbles.len();
    ReapManager::new().update(&mut state, &vec![b]);
    assert_eq!(state.graph.bubbles.len(), before);
    pause.toggle_pause(&mut state);
    assert_eq!(state.phase, GamePhase::Bursting);
    state.phase = GamePhase::GameOver;
    pause.toggle_pause(&mut state);
    assert_eq!(state.phase, GamePhase::GameOver);
}

#[test]
fn reap_while_paused_keeps_the_phase_to_resume() {
    let graph = Graph::new(BubbleStyle::colored(turquoise()), BubbleStyle::colored(rose()));
    let mut state = GameState::new(graph);
    state.phase = GamePhase::Popping;
    let pause = PauseManager::new();
    pause.toggle_pause(&mut state);
    assert_eq!(state.resume_phase, GamePhase::Popping);
    let b = state.graph.bubbles.keys()[0];
    ReapManager::new().update(&mut state, &vec![b]);
    assert_eq!(state.phase, GamePhase::Paused);
    assert_eq!(state.resume_phase, GamePhase::Popping);
}

#[test]
fn burst_keeps_the_focus_bubble_and_freezes_its_walls() {
    let graph = Graph::new(BubbleStyle::swappable(3), BubbleStyle::colored(turquoise()));
    let mut state = GameState::new(graph);
    let vkey = state.graph.vertices.keys()[0];
    state.graph.spawn(vkey, BubbleStyle::colored(turquoise()));
    let b2 = state.graph.bubbles.keys()[1];
    state.phase = GamePhase::Bursting;
    state.focus_bubble = Some(b2);
    let mut bm = BurstManager::new();
    bm.update(&mut state, 100_000);
    let e = bm.active_edge.unwrap();
    // The frozen wall is a wall of the focus bubble.
    assert!(state.graph.bubbles.get(b2).edges.contains(&e));
    assert_eq!(bm.update(&mut state, 400_000), Some(e));
    // The focus bubble is still there after its wall burst.
    assert!(state.graph.bubbles.contains_key(b2));
    assert_eq!(SanityManager::new().check(&state), Ok(()));
}

#[test]
fn sane_graphs_pass_the_debug_check() {
    let mut graph = Graph::new(BubbleStyle::colored(turquoise()), BubbleStyle::colored(rose()));
    for round in 0..5usize {
        let v = graph.vertices.keys()[(3 * round) % graph.vertices.len()];
        graph.spawn(v, BubbleStyle::colored(if round % 2 == 0 { turquoise() } else { rose() }));
        let state = GameState::new(graph);
        assert_eq!(SanityManager::new().check(&state), Ok(()));
        assert_eq!(DebugManager::new().check(&state), Ok(()));
        graph = state.graph;
    }
}

/// Whether `remove_edge` takes the wall of `e` away: it refuses in a
/// graph of two vertices, when a bubble would border itself, and when a
/// bubble at an end of the wall has one edge.
fn removable(graph: &Graph, e: EdgeKey) -> bool {
    let t = graph.vertices.get_edge(e).twin;
    let top = graph.vertices.get_edge(e).bubble;
    let bottom = graph.vertices.get_edge(t).bubble;
    let right = graph.vertices.get_edge(e.next_on_vertex()).bubble;
    let left = graph.vertices.get_edge(t.next_on_vertex()).bubble;
    let ept = graph.vertices.get_edge(e.prev_on_vertex()).twin;
    let tpt = graph.vertices.get_edge(t.prev_on_vertex()).twin;
    !(graph.vertices.len() <= 2 || top == bottom || top == left || top == right
        || bottom == left || bottom == right
        || e.next_on_vertex() == ept || t.next_on_vertex() == tpt)
}

#[test]
fn spawns_and_removals_in_turn_keep_the_graph_sane() {
    let mut graph = Graph::new(BubbleStyle::colored(turquoise()), BubbleStyle::colored(rose()));
    let mut removed = 0usize;
    for step in 0..120usize {
        if step % 3 == 2 {
            // A wall of a bubble with two edges goes first, when there is one.
            let mut wall = None;
            let mut two_edged = None;
            for k in graph.vertices.keys() {
                for o in 0..3u8 {
                    let e = EdgeKey::new(k, o);
                    if removable(&graph, e) {
                        if wall.is_none() {
                            wall = Some(e);
                        }
                        let top = graph.vertices.get_edge(e).bubble;
                        let bottom = graph.vertices.get_edge(graph.vertices.get_edge(e).twin).bubble;
                        let short = graph.bubbles.get(top).edges.len() == 2 || graph.bubbles.get(bottom).edges.len() == 2;
                        if two_edged.is_none() && short {
                            two_edged = Some(e);
                        }
                    }
                }
            }
            if two_edged.is_some() {
                wall = two_edged;
            }
            if let Some(e) = wall {
                let bubbles = graph.bubbles.len();
                let vertices = graph.vertices.len();
                graph.remove_edge(e);
                assert_eq!(graph.bubbles.len(), bubbles - 1);
                assert_eq!(graph.vertices.len(), vertices - 2);
                removed += 1;
            }
        } else {
            let v = graph.vertices.keys()[(7 * step + 1) % graph.vertices.len()];
            graph.spawn(v, BubbleStyle::colored(if step % 2 == 0 { turquoise() } else { rose() }));
        }
        let state = GameState::new(graph);
        assert_eq!(SanityManager::new().check(&state), Ok(()));
        assert_eq!(DebugManager::new().check(&state), Ok(()));
        graph = state.graph;
    }
    assert!(removed > 0);
}

#[test]
fn spawn_next_to_a_bridge_keeps_the_graph_sane() {
    // Two loops joined by a bridge: the open air lies on both sides of the
    // bridge and round both loops.
    let mut vertices = pippop::graph::vertex::VertexSet::new();
    let u = vertices.insert(Vertex::new());
    let w = vertices.insert(Vertex::new());
    let mut bubbles = pippop::graph::bubble::BubbleSet::new();
    let oa = bubbles.insert(pippop::graph::bubble::Bubble::new(BubbleStyle::OpenAir));
    let c1 = bubbles.insert(pippop::graph::bubble::Bubble::new(BubbleStyle::colored(turquoise())));
    let c2 = bubbles.insert(pippop::graph::bubble::Bubble::new(BubbleStyle::colored(rose())));
    let (u0, u1, u2) = (EdgeKey::new(u, 0), EdgeKey::new(u, 1), EdgeKey::new(u, 2));
    let (w0, w1, w2) = (EdgeKey::new(w, 0), EdgeKey::new(w, 1), EdgeKey::new(w, 2));
    vertices.set_edge(u0, Edge { twin: w0, bubble: oa });
    vertices.set_edge(w0, Edge { twin: u0, bubble: oa });
    vertices.set_edge(u1, Edge { twin: u2, bubble: c1 });
    vertices.set_edge(u2, Edge { twin: u1, bubble: oa });
    vertices.set_edge(w1, Edge { twin: w2, bubble: c2 });
    vertices.set_edge(w2, Edge { twin: w1, bubble: oa });
    bubbles.set_edges(oa, vec![u0, w2, w0, u2]);
    bubbles.set_edges(c1, vec![u1]);
    bubbles.set_edges(c2, vec![w1]);
    let mut graph = Graph { vertices, bubbles };
    assert_eq!(SanityManager::new().check_invariants(&graph), Ok(()));
    // The bridge's end at `u` meets the open air twice.
    graph.spawn(u, BubbleStyle::colored(rose()));
    assert_eq!(graph.vertices.len(), 4);
    assert_eq!(graph.bubbles.len(), 4);
    let nb = graph.bubbles.keys()[3];
    assert_eq!(graph.bubbles.get(nb).edges.len(), 3);
    assert_eq!(graph.bubbles.get(nb).edges[0], u0);
    assert_eq!(graph.bubbles.get(oa).edges.len(), 6);
    assert_eq!(SanityManager::new().check_invariants(&graph), Ok(()));
    let state = GameState::new(graph);
    assert_eq!(DebugManager::new().check(&state), Ok(()));
}

#[test]
fn swap_update_runs_the_swap_then_finishes_it() {
    let graph = Graph::new(BubbleStyle::swappable(3), BubbleStyle::colored(turquoise()));
    let mut state = GameState::new(graph);
    let player = state.graph.bubbles.keys()[0];
    let colored = state.graph.bubbles.keys()[1];
    let e = state.graph.bubbles.get(colored).edges.iter().copied().find(|&e| twin_bubble(&state.graph, e) == player).unwrap();
    let mut sm = SwapManager::new();
    sm.begin(&mut state, e);
    assert_eq!(state.phase, GamePhase::Swapping);
    sm.update(&mut state, 150_000);
    assert_eq!(sm.elapsed, 150_000);
    assert_eq!(state.phase, GamePhase::Swapping);
    sm.update(&mut state, 50_000);
    assert_eq!(sm.elapsed, 0);
    assert!(sm.active_swap.is_none());
    assert_eq!(state.phase, GamePhase::Bursting);
    assert_eq!(state.focus_bubble, Some(player));
}

#[test]
fn swap_keeps_the_graph_sane_and_turns_the_lists() {
    let graph = Graph::new(BubbleStyle::swappable(3), BubbleStyle::colored(turquoise()));
    let mut state = GameState::new(graph);
    let player = state.graph.bubbles.keys()[0];
    let colored = state.graph.bubbles.keys()[1];
    let before = state.graph.bubbles.get(colored).edges.clone();
    let colored_style = state.graph.bubbles.style(colored);
    let i = before.iter().position(|&f| twin_bubble(&state.graph, f) == player).unwrap();
    let e = before[i];
    let mut turned = before[i..].to_vec();
    turned.extend_from_slice(&before[..i]);
    let mut sm = SwapManager::new();
    sm.begin(&mut state, e);
    assert_eq!(SanityManager::new().check_invariants(&state.graph), Ok(()));
    assert_eq!(state.graph.bubbles.get(colored).edges, turned);
    assert_eq!(state.graph.bubbles.get(colored).edges[0], e);
    assert_eq!(state.graph.bubbles.style(colored), BubbleStyle::swappable(2));
    sm.update(&mut state, 200_000);
    assert_eq!(state.phase, GamePhase::Bursting);
    assert_eq!(SanityManager::new().check_invariants(&state.graph), Ok(()));
    assert_eq!(state.graph.bubbles.style(player), colored_style);
}

#[test]
fn pop_keeps_the_graph_sane() {
    let graph = Graph::new(BubbleStyle::swappable(3), BubbleStyle::Colored { size: 5, color: rose() });
    let mut state = GameState::new(graph);
    let mut pm = PopManager::new();
    pm.update(&mut state, 10_000);
    assert_eq!(state.phase, GamePhase::Popping);
    assert_eq!(SanityManager::new().check_invariants(&state.graph), Ok(()));
    pm.update(&mut state, POPPING_TIME);
    assert_eq!(state.phase, GamePhase::Normal);
    assert_eq!(SanityManager::new().check_invariants(&state.graph), Ok(()));
}

#[test]
fn reap_keeps_the_graph_sane() {
    let mut graph = Graph::new(BubbleStyle::swappable(3), BubbleStyle::colored(rose()));
    let v = graph.vertices.keys()[0];
    graph.spawn(v, BubbleStyle::colored(turquoise()));
    let nb = graph.bubbles.keys()[3];
    graph.bubbles.set_style(nb, BubbleStyle::Invisible { size: 0 });
    let mut state = GameState::new(graph);
    assert_eq!(SanityManager::new().check_invariants(&state.graph), Ok(()));
    ReapManager::new().update(&mut state, &vec![]);
    assert!(!state.graph.bubbles.contains_key(nb));
    assert_eq!(SanityManager::new().check_invariants(&state.graph), Ok(()));
}
