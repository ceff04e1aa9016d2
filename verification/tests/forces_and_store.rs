use graph_vis::force::{isqrt, pull_magnitude, push_magnitude, push_vector, update_forces, PullConf,
    PushConf};
use graph_vis::graph::{EdgeId, Graph, NodeId, NodeState};
use graph_vis::next_mode;
use graph_vis::step_algorithms::timer::Timer;
use graph_vis::AppMode;

#[test]
fn isqrt_concrete() {
    assert_eq!(isqrt(0), 0);
    assert_eq!(isqrt(1), 1);
    assert_eq!(isqrt(8), 2);
    assert_eq!(isqrt(9), 3);
    assert_eq!(isqrt(10), 3);
    assert_eq!(isqrt(2_500), 50);
}

#[test]
fn configurations_reject_zero() {
    assert!(PushConf::new(0, 10).is_none());
    assert!(PushConf::new(10, 0).is_none());
    assert!(PushConf::new(10, 10).is_some());
    assert!(PullConf::new(0, 5).is_none());
    assert!(PullConf::new(5, 0).is_none());
    assert!(PullConf::new(5, 5).is_some());
}

#[test]
fn push_is_maximal_at_zero_distance_and_decays() {
    let conf = PushConf::new(100, 50).unwrap();
    assert_eq!(push_magnitude(&conf, 0), 100);
    assert_eq!(push_magnitude(&conf, 50), 50);
    assert_eq!(push_magnitude(&conf, 150), 25);
    assert!(push_magnitude(&conf, 10_000) < push_magnitude(&conf, 100));
}

#[test]
fn push_force_is_symmetric() {
    let conf = PushConf::new(100, 50).unwrap();
    // distance 50 between (0, 0) and (30, 40); magnitude 100 * 50 / 100 = 50
    let on_a = push_vector(&conf, 0, 0, 30, 40);
    let on_b = push_vector(&conf, 30, 40, 0, 0);
    assert_eq!(on_a, (-30, -40));
    assert_eq!(on_b, (30, 40));
    assert_eq!(on_a.0, -on_b.0);
    assert_eq!(on_a.1, -on_b.1);
}

#[test]
fn pull_is_zero_close_then_grows() {
    let conf = PullConf::new(10, 7).unwrap();
    assert_eq!(pull_magnitude(&conf, 0), 0);
    assert_eq!(pull_magnitude(&conf, 10), 0);
    assert!(pull_magnitude(&conf, 11) >= 1);
    assert!(pull_magnitude(&conf, 11) <= pull_magnitude(&conf, 15));
    assert!(pull_magnitude(&conf, 15) <= pull_magnitude(&conf, 19));
    // the configured force is reached exactly at twice the minimum distance
    assert_eq!(pull_magnitude(&conf, 20), 7);
}

#[test]
fn force_tick_moves_free_nodes_and_pins_hold() {
    let mut g = Graph::new();
    let a = g.add_node(0, 0);
    let b = g.add_node(10, 0);
    g.set_ignore_force(b, true);
    let push = PushConf::new(1000, 100).unwrap();
    let pull = PullConf::new(10, 5).unwrap();
    update_forces(&mut g, &push, &pull, 1000);
    let (ax, ay) = g.position_of(a).unwrap();
    let (bx, by) = g.position_of(b).unwrap();
    // the free node is pushed away from the pinned one (to the left)
    assert!(ax < 0);
    assert_eq!(ay, 0);
    // the pinned node has not moved
    assert_eq!((bx, by), (10, 0));
    // states and labels are untouched by the layout tick
    assert_eq!(g.state_of(a), Some(NodeState::NotVisited));
}

#[test]
fn timer_fires_per_interval_and_catches_up() {
    let mut t = Timer::new(10, true);
    assert!(!t.ready());
    t.update(35);
    let mut fires = 0;
    while t.ready() {
        t.consume();
        fires += 1;
    }
    assert_eq!(fires, 3);
    t.update(5);
    assert!(t.ready());
    t.consume();
    assert!(!t.ready());
}

#[test]
fn disabled_timer_never_fires() {
    let mut t = Timer::new(10, false);
    t.update(1000);
    assert!(!t.ready());
    t.restart();
    assert!(!t.ready());
    t.update(10);
    assert!(t.ready());
}

#[test]
fn stale_handles_are_no_ops() {
    let mut g = Graph::new();
    let a = g.add_node(0, 0);
    let ghost_node = NodeId { idx: 7 };
    let ghost_edge = EdgeId { idx: 3 };
    g.set_state(ghost_node, NodeState::Visited);
    g.remove_node(ghost_node);
    g.remove_edge(ghost_edge);
    g.set_enabled(ghost_edge, true);
    assert!(g.add_edge(a, ghost_node).is_none());
    assert_eq!(g.state_of(a), Some(NodeState::NotVisited));
    assert_eq!(g.state_of(ghost_node), None);
}

#[test]
fn handles_are_never_reused() {
    let mut g = Graph::new();
    let a = g.add_node(0, 0);
    g.remove_node(a);
    let b = g.add_node(5, 5);
    assert_ne!(a.idx, b.idx);
    assert_eq!(g.state_of(a), None);
    assert_eq!(g.state_of(b), Some(NodeState::NotVisited));
}

#[test]
fn hit_test_uses_radius_and_insertion_order() {
    let mut g = Graph::new();
    let a = g.add_node(0, 0);
    let b = g.add_node(20, 20);
    // inside a's radius (30): distance squared 800 <= 900
    assert_eq!(g.node_from_point(20, 20), Some(a));
    // outside every radius
    assert_eq!(g.node_from_point(300, 300), None);
    // close to b only
    assert_eq!(g.node_from_point(40, 40), Some(b));
}

#[test]
fn labels_and_positions_can_be_edited() {
    let mut g = Graph::new();
    let a = g.add_node(1, 2);
    assert_eq!(g.position_of(a), Some((1, 2)));
    g.set_position(a, 50, 60);
    assert_eq!(g.position_of(a), Some((50, 60)));
    g.set_label(a, Some(String::from("start")));
    g.set_label(a, None);
}

#[test]
fn mode_transitions_follow_the_cursor() {
    assert_eq!(next_mode(AppMode::Normal, true, true), AppMode::Write);
    assert_eq!(next_mode(AppMode::Write, false, true), AppMode::Write);
    assert_eq!(next_mode(AppMode::Write, false, false), AppMode::Normal);
    assert_eq!(next_mode(AppMode::Normal, true, false), AppMode::Normal);
    assert_eq!(next_mode(AppMode::Normal, false, true), AppMode::Normal);
}
