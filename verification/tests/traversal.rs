use graph_vis::graph::{Direction, Graph, NodeId, NodeState};
use graph_vis::{AlgorithmKind, Session};
use graph_vis::step_algorithms::algorithm::{AlgorithmStep, EdgeStep, NodeStep};
use graph_vis::step_algorithms::bfs::Bfs;
use graph_vis::step_algorithms::dfs::Dfs;

fn node(idx: usize, state: NodeState) -> AlgorithmStep {
    AlgorithmStep::Node(NodeStep::new(NodeId { idx }, state))
}

fn edge(idx: usize) -> AlgorithmStep {
    AlgorithmStep::Edge(EdgeStep::new(graph_vis::graph::EdgeId { idx }))
}

fn triangle_fan() -> (Graph, NodeId, NodeId, NodeId) {
    let mut g = Graph::new();
    let a = g.add_node(0, 0);
    let b = g.add_node(100, 0);
    let c = g.add_node(0, 100);
    g.add_edge(a, b).unwrap();
    g.add_edge(a, c).unwrap();
    (g, a, b, c)
}

#[test]
fn dfs_scenario_fan() {
    let (mut g, a, _b, _c) = triangle_fan();
    let mut alg = Dfs::new(a);
    alg.run_algorithm(&mut g);
    let expected = vec![
        node(0, NodeState::Queued),
        edge(0),
        node(1, NodeState::Queued),
        node(1, NodeState::Visited),
        edge(1),
        node(2, NodeState::Queued),
        node(2, NodeState::Visited),
        node(0, NodeState::Visited),
    ];
    assert_eq!(*alg.steps(), expected);
}

#[test]
fn bfs_scenario_fan() {
    let (mut g, a, _b, _c) = triangle_fan();
    let mut alg = Bfs::new(a);
    alg.run_algorithm(&mut g);
    let expected = vec![
        node(0, NodeState::Queued),
        node(0, NodeState::Visited),
        edge(0),
        node(1, NodeState::Queued),
        edge(1),
        node(2, NodeState::Queued),
        node(1, NodeState::Visited),
        node(2, NodeState::Visited),
    ];
    assert_eq!(*alg.steps(), expected);
}

#[test]
fn removing_node_cascades_and_dfs_skips_it() {
    let (mut g, a, b, c) = triangle_fan();
    g.remove_node(b);
    assert!(g.edge_of(graph_vis::graph::EdgeId { idx: 0 }).is_none());
    assert!(g.edge_of(graph_vis::graph::EdgeId { idx: 1 }).is_some());
    let mut alg = Dfs::new(a);
    alg.run_algorithm(&mut g);
    assert_eq!(g.state_of(a), Some(NodeState::Visited));
    assert_eq!(g.state_of(b), None);
    assert_eq!(g.state_of(c), Some(NodeState::Visited));
    let expected = vec![
        node(0, NodeState::Queued),
        edge(1),
        node(2, NodeState::Queued),
        node(2, NodeState::Visited),
        node(0, NodeState::Visited),
    ];
    assert_eq!(*alg.steps(), expected);
}

#[test]
fn dfs_goes_deep_before_siblings() {
    // a -> b, a -> d, b -> c: all of b's subtree precedes d's first step
    let mut g = Graph::new();
    let a = g.add_node(0, 0);
    let b = g.add_node(10, 0);
    let d = g.add_node(20, 0);
    let c = g.add_node(30, 0);
    g.add_edge(a, b).unwrap();
    g.add_edge(a, d).unwrap();
    g.add_edge(b, c).unwrap();
    let mut alg = Dfs::new(a);
    alg.run_algorithm(&mut g);
    let expected = vec![
        node(0, NodeState::Queued),
        edge(0),
        node(1, NodeState::Queued),
        edge(2),
        node(3, NodeState::Queued),
        node(3, NodeState::Visited),
        node(1, NodeState::Visited),
        edge(1),
        node(2, NodeState::Queued),
        node(2, NodeState::Visited),
        node(0, NodeState::Visited),
    ];
    assert_eq!(*alg.steps(), expected);
}

#[test]
fn bfs_visits_in_distance_order() {
    // a -> b -> c, a -> d: distance order a (0), b,d (1), c (2)
    let mut g = Graph::new();
    let a = g.add_node(0, 0);
    let b = g.add_node(10, 0);
    let c = g.add_node(20, 0);
    let d = g.add_node(30, 0);
    g.add_edge(a, b).unwrap();
    g.add_edge(b, c).unwrap();
    g.add_edge(a, d).unwrap();
    let mut alg = Bfs::new(a);
    alg.run_algorithm(&mut g);
    let visited_order: Vec<usize> = alg
        .steps()
        .iter()
        .filter_map(|s| match s {
            AlgorithmStep::Node(ns) if ns.state == NodeState::Visited => Some(ns.idx.idx),
            _ => None,
        })
        .collect();
    assert_eq!(visited_order, vec![a.idx, b.idx, d.idx, c.idx]);
}

#[test]
fn unreachable_nodes_stay_unvisited() {
    let mut g = Graph::new();
    let a = g.add_node(0, 0);
    let b = g.add_node(10, 0);
    let lone = g.add_node(20, 0);
    g.add_edge(a, b).unwrap();
    let mut alg = Dfs::new(a);
    alg.run_algorithm(&mut g);
    assert_eq!(g.state_of(lone), Some(NodeState::NotVisited));
    let mut alg2 = Bfs::new(a);
    alg2.run_algorithm(&mut g);
    assert_eq!(g.state_of(lone), Some(NodeState::NotVisited));
}

#[test]
fn reset_is_idempotent() {
    let (mut g, a, b, _c) = triangle_fan();
    let mut alg = Dfs::new(a);
    alg.run_algorithm(&mut g);
    // after planning, some states are Visited and edges disabled
    let mut alg2 = Dfs::new(b);
    alg2.reset_algorithm(&mut g);
    let once: Vec<_> = (0..3).map(|i| g.state_of(NodeId { idx: i })).collect();
    let once_edges: Vec<_> = (0..2).map(|i| g.edge_of(graph_vis::graph::EdgeId { idx: i })).collect();
    alg2.reset_algorithm(&mut g);
    let twice: Vec<_> = (0..3).map(|i| g.state_of(NodeId { idx: i })).collect();
    let twice_edges: Vec<_> = (0..2).map(|i| g.edge_of(graph_vis::graph::EdgeId { idx: i })).collect();
    assert_eq!(once, twice);
    assert_eq!(once_edges, twice_edges);
    assert!(once.iter().all(|s| *s == Some(NodeState::NotVisited)));
    assert!(once_edges.iter().all(|e| e.unwrap().2 == false));
}

#[test]
fn player_drains_and_never_overruns() {
    let (mut g, a, _b, _c) = triangle_fan();
    let alg = Dfs::new(a);
    let mut result = alg.show_dfs(&mut g);
    let (applied, planned) = result.current_step_progress();
    assert_eq!(applied, 0);
    assert_eq!(planned, 8);
    // baseline after show: all NotVisited, edges disabled, start pinned
    assert_eq!(g.state_of(a), Some(NodeState::NotVisited));
    // one tick, one step
    result.update(&mut g, 1000);
    assert_eq!(result.current_step_progress().0, 1);
    assert_eq!(g.state_of(a), Some(NodeState::Queued));
    // catch-up: a huge frame applies the rest, and no more than planned
    result.update(&mut g, 1000 * 100);
    assert!(result.is_drained());
    assert_eq!(result.current_step_progress(), (8, 8));
    result.update(&mut g, 1000 * 100);
    assert_eq!(result.current_step_progress(), (8, 8));
    // the replay recolored the graph and revealed the edges
    assert_eq!(g.state_of(a), Some(NodeState::Visited));
    assert_eq!(g.edge_of(graph_vis::graph::EdgeId { idx: 0 }).unwrap().2, true);
    assert_eq!(g.edge_of(graph_vis::graph::EdgeId { idx: 1 }).unwrap().2, true);
}

#[test]
fn show_bfs_pins_start_and_restores_baseline() {
    let (mut g, a, b, _c) = triangle_fan();
    let alg = Bfs::new(a);
    let result = alg.show_bfs(&mut g);
    assert_eq!(result.current_step_progress(), (0, 8));
    assert_eq!(g.state_of(a), Some(NodeState::NotVisited));
    assert_eq!(g.state_of(b), Some(NodeState::NotVisited));
    assert_eq!(g.edge_of(graph_vis::graph::EdgeId { idx: 0 }).unwrap().2, false);
}

#[test]
fn neighbors_follow_insertion_order_and_direction() {
    let mut g = Graph::new();
    let a = g.add_node(0, 0);
    let b = g.add_node(10, 0);
    let c = g.add_node(20, 0);
    let e_ab = g.add_edge(a, b).unwrap();
    let e_ca = g.add_edge(c, a).unwrap();
    let e_ac = g.add_edge(a, c).unwrap();
    let out: Vec<_> = g.neighbors(a, Direction::Outgoing);
    assert_eq!(out, vec![(e_ab, b), (e_ac, c)]);
    let inc: Vec<_> = g.neighbors(a, Direction::Incoming);
    assert_eq!(inc, vec![(e_ca, c)]);
    let both: Vec<_> = g.neighbors(a, Direction::Both);
    assert_eq!(both, vec![(e_ab, b), (e_ca, c), (e_ac, c)]);
}

#[test]
fn structural_mutation_is_blocked_while_replaying() {
    let mut s = Session::new();
    let a = s.add_node(0, 0).unwrap();
    let b = s.add_node(100, 0).unwrap();
    let e = s.add_edge(a, b).unwrap();
    let planned = Dfs::new(a).show_dfs(&mut s.graph);
    s.add_algorithm(planned);
    assert!(s.is_animating());
    // while steps are pending, every structural edit is refused
    assert!(s.add_node(50, 50).is_none());
    assert!(s.add_edge(b, a).is_none());
    s.remove_node(b);
    s.remove_edge(e);
    assert!(s.graph.state_of(b).is_some());
    assert!(s.graph.edge_of(e).is_some());
    // drain the replay, then edits work again
    let push = graph_vis::force::PushConf::new(10, 10).unwrap();
    let pull = graph_vis::force::PullConf::new(10, 10).unwrap();
    for _ in 0..10 {
        s.update(&push, &pull, 1000);
    }
    assert!(!s.is_animating());
    assert!(s.add_node(50, 50).is_some());
    s.remove_node(b);
    assert!(s.graph.state_of(b).is_none());
    assert!(s.graph.edge_of(e).is_none());
}

#[test]
fn session_start_plans_and_attaches() {
    let mut s = Session::new();
    let a = s.add_node(0, 0).unwrap();
    let b = s.add_node(100, 0).unwrap();
    s.add_edge(a, b).unwrap();
    // a stale handle is refused before any reset or planning runs
    assert!(!s.start(AlgorithmKind::Dfs, NodeId { idx: 9 }));
    assert!(s.algorithm.is_none());
    assert!(s.start(AlgorithmKind::Bfs, a));
    let alg = s.algorithm.as_ref().unwrap();
    assert_eq!(alg.current_step_progress(), (0, 5));
    assert!(s.is_animating());
}
