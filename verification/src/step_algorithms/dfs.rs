//! Depth-first traversal planning: from a start node, walk outgoing edges in
//! insertion order, recording a `Queued` step on entering a node, an edge
//! step and a recursive descent for each outgoing edge to an unvisited
//! neighbor, and a `Visited` step once all its edges are exhausted. The
//! recursion is run on an explicit frame stack so deep chains cannot
//! exhaust the call stack, with the same child ordering.

use vstd::prelude::*;

use crate::graph::{Graph, Node, Edge, NodeId, EdgeId, NodeState};
use crate::step_algorithms::algorithm::{
    AlgorithmStep, NodeStep, EdgeStep, StepAlgorithmResult, count_node_steps, count_unvisited,
    first_fresh_edge, fresh_edge_at, lemma_count_node_steps_push, lemma_count_set_state,
    lemma_count_unvisited_update, lemma_first_fresh_edge_skip, lemma_first_fresh_edge_some,
    queued_counts_ok, set_state_slot, unvisited_weight, visited_counts_ok,
};
use crate::step_algorithms::timer::Timer;

verus! {

/// The rest of a depth-first plan, continued from a frame stack (each frame a
/// node and its next edge slot to scan), a node coloring, and the steps
/// recorded so far: the top frame either descends into its first remaining
/// candidate edge or, with none left, is popped with a `Visited` mark.
pub open spec fn dfs_plan_from(
    nodes: Seq<Option<Node>>,
    edges: Seq<Option<Edge>>,
    stack: Seq<(NodeId, usize)>,
    steps: Seq<AlgorithmStep>,
) -> Seq<AlgorithmStep>
    decreases count_unvisited(nodes), stack.len(),
    via dfs_plan_from_decreases
{
    if stack.len() == 0 {
        steps
    } else {
        let top = stack.last();
        match first_fresh_edge(nodes, edges, top.0, top.1 as int) {
            Option::None => dfs_plan_from(
                set_state_slot(nodes, top.0.idx as int, NodeState::Visited),
                edges,
                stack.drop_last(),
                steps.push(
                    AlgorithmStep::Node(NodeStep { idx: top.0, state: NodeState::Visited }),
                ),
            ),
            Option::Some(pair) => dfs_plan_from(
                set_state_slot(nodes, pair.1.idx as int, NodeState::Queued),
                edges,
                stack.drop_last().push((top.0, (pair.0 + 1) as usize)).push((pair.1, 0usize)),
                steps.push(
                    AlgorithmStep::Edge(EdgeStep { idx: EdgeId { idx: pair.0 as usize } }),
                ).push(AlgorithmStep::Node(NodeStep { idx: pair.1, state: NodeState::Queued })),
            ),
        }
    }
}

#[via_fn]
proof fn dfs_plan_from_decreases(
    nodes: Seq<Option<Node>>,
    edges: Seq<Option<Edge>>,
    stack: Seq<(NodeId, usize)>,
    steps: Seq<AlgorithmStep>,
) {
    if stack.len() > 0 {
        let top = stack.last();
        match first_fresh_edge(nodes, edges, top.0, top.1 as int) {
            Option::None => {
                lemma_count_set_state(nodes, top.0.idx as int, NodeState::Visited);
            },
            Option::Some(pair) => {
                lemma_first_fresh_edge_some(nodes, edges, top.0, top.1 as int);
                lemma_count_set_state(nodes, pair.1.idx as int, NodeState::Queued);
            },
        }
    }
}

/// The whole depth-first plan from a start node over a graph whose live
/// nodes are all `NotVisited`: the start is marked and recorded `Queued`,
/// then the walk proceeds as `dfs_plan_from` says. The plan is a function of
/// the slot sequences and the start alone, so planning is deterministic.
pub open spec fn dfs_plan(
    nodes: Seq<Option<Node>>,
    edges: Seq<Option<Edge>>,
    start: NodeId,
) -> Seq<AlgorithmStep> {
    dfs_plan_from(
        set_state_slot(nodes, start.idx as int, NodeState::Queued),
        edges,
        seq![(start, 0usize)],
        seq![AlgorithmStep::Node(NodeStep { idx: start, state: NodeState::Queued })],
    )
}

/// Depth-first traversal: the planned step queue, the pacing timer, and the
/// start node.
pub struct Dfs {
    pub steps: Vec<AlgorithmStep>,
    pub timer: Timer,
    pub start_idx: NodeId,
}

impl Dfs {
    /// Creates a depth-first traversal from the given start node, pacing one
    /// step per second.
    pub fn new(start_idx: NodeId) -> (r: Dfs)
        ensures
            r.steps@.len() == 0,
            r.timer.wf(),
            r.timer.interval_ms == 1000,
            r.timer.enabled,
            r.timer.acc_ms == 0,
            r.start_idx == start_idx,
    {
        Dfs { steps: Vec::new(), timer: Timer::new(1000, true), start_idx }
    }

    /// The traversal's start node.
    pub fn start_idx(&self) -> (r: NodeId)
        ensures
            r == self.start_idx,
    {
        self.start_idx
    }

    /// Read access to the pacing timer.
    pub fn timer(&self) -> (r: &Timer)
        ensures
            r == self.timer,
    {
        &self.timer
    }

    /// The planned steps so far.
    pub fn steps(&self) -> (r: &Vec<AlgorithmStep>)
        ensures
            r == self.steps,
    {
        &self.steps
    }

    /// Appends one step to the plan.
    fn add_step(&mut self, s: AlgorithmStep)
        ensures
            final(self).steps@ == old(self).steps@.push(s),
            final(self).timer == old(self).timer,
            final(self).start_idx == old(self).start_idx,
    {
        self.steps.push(s);
    }

    /// Phase one of a run: every node back to `NotVisited`, every edge
    /// disabled, the plan cleared, the timer restarted.
    pub fn reset_algorithm(&mut self, graph: &mut Graph)
        requires
            old(graph).wf(),
        ensures
            final(graph).wf(),
            final(graph).nodes@ == Graph::reset_nodes(old(graph).nodes@),
            final(graph).edges@ == Graph::reset_edges(old(graph).edges@),
            final(self).steps@.len() == 0,
            final(self).start_idx == old(self).start_idx,
            final(self).timer.interval_ms == old(self).timer.interval_ms,
            final(self).timer.enabled,
            final(self).timer.acc_ms == 0,
    {
        graph.reset_states();
        graph.disable_all_edges();
        self.steps.clear();
        self.timer.restart();
    }

    /// Phase two of a run: plans the walk from the start node.
    fn dfs(&mut self, graph: &mut Graph)
        requires
            old(graph).wf(),
            old(graph).has_node(old(self).start_idx),
            forall|i: int| old(graph).node_alive(i) ==> old(graph).node_at(i).state
                is NotVisited,
            old(self).steps@.len() == 0,
        ensures
            final(graph).wf(),
            Graph::same_but_states(old(graph).nodes@, final(graph).nodes@),
            final(graph).edges@ == old(graph).edges@,
            final(self).timer == old(self).timer,
            final(self).start_idx == old(self).start_idx,
            forall|i: int| final(graph).node_alive(i) ==> (final(graph).node_at(i).state
                is Visited || final(graph).node_at(i).state is NotVisited),
            forall|i: int| final(graph).node_alive(i) ==> (final(graph).node_at(i).state
                is Visited <==> old(graph).reachable(
                old(self).start_idx,
                NodeId { idx: i as usize },
            )),
            visited_counts_ok(final(self).steps@, *final(graph)),
            queued_counts_ok(final(self).steps@, *final(graph)),
            final(self).steps@ == dfs_plan(
                old(graph).nodes@,
                old(graph).edges@,
                old(self).start_idx,
            ),
    {
        let start = self.start_idx;
        self.dfs_helper(graph, start);
        let nlen = graph.nodes.len();
        proof {
            let g0 = *old(graph);
            let gf = *graph;
            assert(gf.node_alive(start.idx as int)) by {
                assert(g0.node_alive(start.idx as int));
            };
            assert(gf.node_at(start.idx as int).state is Visited);
            assert forall|i: int| gf.node_alive(i) implies (gf.node_at(i).state is Visited
                <==> g0.reachable(start, NodeId { idx: i as usize })) by {
                assert(i < nlen as int);
                assert((i as usize) as int == i);
                if gf.node_at(i).state is Visited {
                    assert(g0.reachable(start, NodeId { idx: i as usize }));
                } else {
                    if g0.reachable(start, NodeId { idx: i as usize }) {
                        let f = |n: NodeId|
                            n.idx < gf.nodes@.len() && gf.node_alive(n.idx as int)
                                && gf.node_at(n.idx as int).state is Visited;
                        assert forall|a: NodeId, b: NodeId|
                            f(a) && #[trigger] g0.spec_edge(a, b) implies f(b) by {
                            let e = choose|e: int|
                                #[trigger] g0.edge_alive(e) && g0.edge_at(e).from == a
                                    && g0.edge_at(e).to == b;
                            assert(gf.edge_alive(e));
                            assert(g0.has_node(b));
                            assert(gf.node_alive(b.idx as int));
                        };
                        assert(f(start));
                        g0.lemma_reachable_in_closed_set(
                            start,
                            NodeId { idx: i as usize },
                            f,
                        );
                        assert(f(NodeId { idx: i as usize }));
                    }
                }
            };
        }
    }

    /// The planning walk itself, from `node_index`, over a graph whose live
    /// nodes are all still `NotVisited`.
    #[verifier::rlimit(60)]
    fn dfs_helper(&mut self, graph: &mut Graph, node_index: NodeId)
        requires
            old(graph).wf(),
            old(graph).has_node(node_index),
            forall|i: int| old(graph).node_alive(i) ==> old(graph).node_at(i).state
                is NotVisited,
            old(self).steps@.len() == 0,
        ensures
            final(graph).wf(),
            Graph::same_but_states(old(graph).nodes@, final(graph).nodes@),
            final(graph).edges@ == old(graph).edges@,
            final(self).timer == old(self).timer,
            final(self).start_idx == old(self).start_idx,
            forall|i: int| final(graph).node_alive(i) ==> (final(graph).node_at(i).state
                is Visited || final(graph).node_at(i).state is NotVisited),
            final(graph).node_at(node_index.idx as int).state is Visited,
            forall|e: int| final(graph).edge_alive(e) && final(graph).node_at(
                final(graph).edge_at(e).from.idx as int,
            ).state is Visited ==> final(graph).node_at(
                final(graph).edge_at(e).to.idx as int,
            ).state is Visited,
            forall|i: int| final(graph).node_alive(i) && final(graph).node_at(i).state
                is Visited ==> old(graph).reachable(node_index, NodeId { idx: i as usize }),
            visited_counts_ok(final(self).steps@, *final(graph)),
            queued_counts_ok(final(self).steps@, *final(graph)),
            final(self).steps@ == dfs_plan(old(graph).nodes@, old(graph).edges@, node_index),
    {
        let ghost g0 = *old(graph);
        let ghost target = dfs_plan(g0.nodes@, g0.edges@, node_index);
        let mut stack: Vec<(NodeId, usize)> = Vec::new();
        self.add_step(AlgorithmStep::Node(NodeStep::new(node_index, NodeState::Queued)));
        graph.set_state(node_index, NodeState::Queued);
        stack.push((node_index, 0));
        proof {
            g0.lemma_reachable_refl(node_index);
            assert(stack@[0].0 == node_index && stack@[0].1 == 0);
            assert forall|i: int| graph.node_alive(i) && i != node_index.idx as int implies
                graph.node_at(i).state is NotVisited by {
                assert(old(graph).node_alive(i));
            };
            assert forall|i: int| graph.node_alive(i) && !(#[trigger] graph.node_at(i).state
                is NotVisited) implies g0.reachable(node_index, NodeId { idx: i as usize }) by {
                assert(i == node_index.idx as int);
                assert(NodeId { idx: i as usize } == node_index);
            };
            assert forall|i: int| graph.node_alive(i) && graph.node_at(i).state is Queued
                implies exists|k: int| 0 <= k < stack@.len() && (#[trigger] stack@[k]).0.idx
                == i by {
                assert(i == node_index.idx as int);
                assert((stack@[0]).0.idx == i);
            };
            let qstep = AlgorithmStep::Node(NodeStep { idx: node_index, state: NodeState::Queued });
            assert(queued_counts_ok(self.steps@, *graph)) by {
                assert forall|n: NodeId|
                    #![trigger count_node_steps(self.steps@, n, NodeState::Queued)]
                    count_node_steps(self.steps@, n, NodeState::Queued) == (
                    if graph.has_node(n) && !(graph.node_at(n.idx as int).state is NotVisited) {
                        1nat
                    } else {
                        0nat
                    }) by {
                    lemma_count_node_steps_push(old(self).steps@, qstep, n, NodeState::Queued);
                    if graph.has_node(n) && !(graph.node_at(n.idx as int).state is NotVisited) {
                        assert(n.idx as int == node_index.idx as int);
                        assert(n == node_index);
                    }
                };
            };
            assert(visited_counts_ok(self.steps@, *graph)) by {
                assert forall|n: NodeId|
                    #![trigger count_node_steps(self.steps@, n, NodeState::Visited)]
                    count_node_steps(self.steps@, n, NodeState::Visited) == (
                    if graph.has_node(n) && graph.node_at(n.idx as int).state is Visited {
                        1nat
                    } else {
                        0nat
                    }) by {
                    lemma_count_node_steps_push(old(self).steps@, qstep, n, NodeState::Visited);
                    if graph.has_node(n) && graph.node_at(n.idx as int).state is Visited {
                        assert(n.idx as int == node_index.idx as int);
                        assert(false);
                    }
                };
            };
            assert(graph.nodes@ == set_state_slot(
                g0.nodes@,
                node_index.idx as int,
                NodeState::Queued,
            ));
            assert(self.steps@ =~= seq![qstep]);
            assert(stack@ =~= seq![(node_index, 0usize)]);
            assert(dfs_plan_from(graph.nodes@, graph.edges@, stack@, self.steps@) == target);
        }
        while stack.len() > 0
            invariant
                graph.wf(),
                g0.wf(),
                g0 == *old(graph),
                g0.has_node(node_index),
                Graph::same_but_states(g0.nodes@, graph.nodes@),
                graph.edges@ == g0.edges@,
                self.timer == old(self).timer,
                self.start_idx == old(self).start_idx,
                // stack frames hold live, queued, pairwise distinct nodes
                forall|k: int| 0 <= k < stack@.len() ==> graph.has_node(
                    (#[trigger] stack@[k]).0,
                ) && graph.node_at(stack@[k].0.idx as int).state is Queued,
                forall|k1: int, k2: int| 0 <= k1 < k2 < stack@.len() ==> (
                #[trigger] stack@[k1]).0 != (#[trigger] stack@[k2]).0,
                // queued nodes are exactly the stacked ones
                forall|i: int| graph.node_alive(i) && graph.node_at(i).state is Queued
                    ==> exists|k: int| 0 <= k < stack@.len() && (#[trigger] stack@[k]).0.idx
                    == i,
                // scanned edges of each frame lead to touched nodes
                forall|k: int| 0 <= k < stack@.len() ==> (#[trigger] stack@[k]).1
                    <= graph.edges@.len(),
                forall|k: int, e: int| #![trigger stack@[k], graph.edge_alive(e)] 0 <= k < stack@.len()
                    && 0 <= e < (stack@[k]).1 && graph.edge_alive(e) && graph.edge_at(e).from == (
                stack@[k]).0 ==> !(graph.node_at(graph.edge_at(e).to.idx as int).state
                    is NotVisited),
                // every out-edge of a visited node leads to a touched node
                forall|e: int| #[trigger] graph.edge_alive(e) && graph.node_at(
                    graph.edge_at(e).from.idx as int,
                ).state is Visited ==> !(graph.node_at(graph.edge_at(e).to.idx as int).state
                    is NotVisited),
                // the walk's root stays touched
                graph.has_node(node_index),
                !(graph.node_at(node_index.idx as int).state is NotVisited),
                // every touched node is reachable from the root
                forall|i: int| graph.node_alive(i) && !(#[trigger] graph.node_at(i).state
                    is NotVisited) ==> g0.reachable(node_index, NodeId { idx: i as usize }),
                // step counts mirror the states
                visited_counts_ok(self.steps@, *graph),
                queued_counts_ok(self.steps@, *graph),
                dfs_plan_from(graph.nodes@, graph.edges@, stack@, self.steps@) == target,
            decreases count_unvisited(graph.nodes@), stack@.len(),
        {
            let top = stack[stack.len() - 1];
            let u = top.0;
            let c = top.1;
            let mut j = c;
            let mut found: Option<(EdgeId, NodeId)> = None;
            proof {
                assert(graph.has_node(u));
            }
            while j < graph.edges.len() && found.is_none()
                invariant
                    graph.wf(),
                    c <= j <= graph.edges@.len(),
                    graph.has_node(u),
                    found is None ==> forall|e: int| c <= e < j ==> !(#[trigger] graph.edge_alive(
                        e,
                    ) && graph.edge_at(e).from == u && graph.node_at(
                        graph.edge_at(e).to.idx as int,
                    ).state is NotVisited),
                    found is Some ==> {
                        let pair = found->Some_0;
                        &&& j < graph.edges@.len()
                        &&& pair.0.idx == j
                        &&& graph.edge_alive(j as int)
                        &&& graph.edge_at(j as int).from == u
                        &&& pair.1 == graph.edge_at(j as int).to
                        &&& graph.node_at(pair.1.idx as int).state is NotVisited
                        &&& forall|e: int| c <= e < j ==> !(#[trigger] graph.edge_alive(e)
                            && graph.edge_at(e).from == u && graph.node_at(
                            graph.edge_at(e).to.idx as int,
                        ).state is NotVisited)
                    },
                decreases graph.edges@.len() - j, (if found is None {
                    1int
                } else {
                    0int
                }),
            {
                let slot = &graph.edges[j];
                proof {
                    assert(*slot == graph.edges@[j as int]);
                }
                let mut cand_to: Option<NodeId> = None;
                match slot {
                    Some(ed) => {
                        if ed.from.idx == u.idx {
                            cand_to = Some(ed.to);
                        }
                    },
                    None => {},
                }
                match cand_to {
                    Some(tgt) => {
                        let st = graph.state_of(tgt);
                        let mut is_fresh = false;
                        match st {
                            Some(NodeState::NotVisited) => {
                                is_fresh = true;
                            },
                            _ => {},
                        }
                        if is_fresh {
                            found = Some((EdgeId { idx: j }, tgt));
                        } else {
                            j += 1;
                        }
                    },
                    None => {
                        j += 1;
                    },
                }
            }
            match found {
                Some(pair) => {
                    let e = pair.0;
                    let v = pair.1;
                    let ghost pre = *graph;
                    let ghost presteps = self.steps@;
                    let ghost prestack = stack@;
                    let top_i = stack.len() - 1;
                    stack[top_i] = (u, j + 1);
                    self.add_step(AlgorithmStep::Edge(EdgeStep::new(e)));
                    self.add_step(
                        AlgorithmStep::Node(NodeStep::new(v, NodeState::Queued)),
                    );
                    graph.set_state(v, NodeState::Queued);
                    stack.push((v, 0));
                    proof {
                        assert(pre.has_node(v));
                        assert(g0.spec_edge(u, v)) by {
                            assert(g0.edge_alive(j as int) && g0.edge_at(j as int).from == u
                                && g0.edge_at(j as int).to == v);
                        };
                        assert(g0.has_node(v));
                        g0.lemma_reachable_step(node_index, u, v);
                        assert(self.steps@ == presteps.push(
                            AlgorithmStep::Edge(EdgeStep { idx: e }),
                        ).push(AlgorithmStep::Node(NodeStep { idx: v, state: NodeState::Queued })));
                        assert(count_node_steps(presteps, v, NodeState::Visited) == 0nat);
                        assert(graph.nodes@ == pre.nodes@.update(
                            v.idx as int,
                            Some(
                                (crate::graph::Node {
                                    state: NodeState::Queued,
                                    ..pre.node_at(v.idx as int)
                                }),
                            ),
                        ));
                        assert(visited_counts_ok(self.steps@, *graph)) by {
                            assert forall|n: NodeId|
                                #![trigger count_node_steps(self.steps@, n, NodeState::Visited)]
                                count_node_steps(self.steps@, n, NodeState::Visited) == (
                                if graph.has_node(n) && graph.node_at(n.idx as int).state
                                    is Visited {
                                    1nat
                                } else {
                                    0nat
                                }) by {
                                lemma_count_node_steps_push(
                                    presteps,
                                    AlgorithmStep::Edge(EdgeStep { idx: e }),
                                    n,
                                    NodeState::Visited,
                                );
                                lemma_count_node_steps_push(
                                    presteps.push(AlgorithmStep::Edge(EdgeStep { idx: e })),
                                    AlgorithmStep::Node(
                                        NodeStep { idx: v, state: NodeState::Queued },
                                    ),
                                    n,
                                    NodeState::Visited,
                                );
                                if n.idx as int == v.idx as int {
                                    assert(n == v);
                                }
                            };
                        };
                        assert(queued_counts_ok(self.steps@, *graph)) by {
                            assert forall|n: NodeId|
                                #![trigger count_node_steps(self.steps@, n, NodeState::Queued)]
                                count_node_steps(self.steps@, n, NodeState::Queued) == (
                                if graph.has_node(n) && !(graph.node_at(n.idx as int).state
                                    is NotVisited) {
                                    1nat
                                } else {
                                    0nat
                                }) by {
                                lemma_count_node_steps_push(
                                    presteps,
                                    AlgorithmStep::Edge(EdgeStep { idx: e }),
                                    n,
                                    NodeState::Queued,
                                );
                                lemma_count_node_steps_push(
                                    presteps.push(AlgorithmStep::Edge(EdgeStep { idx: e })),
                                    AlgorithmStep::Node(
                                        NodeStep { idx: v, state: NodeState::Queued },
                                    ),
                                    n,
                                    NodeState::Queued,
                                );
                                if n.idx as int == v.idx as int {
                                    assert(n == v);
                                }
                            };
                        };
                        lemma_count_unvisited_update(
                            pre.nodes@,
                            v.idx as int,
                            Some(
                                crate::graph::Node {
                                    state: NodeState::Queued,
                                    ..pre.node_at(v.idx as int)
                                },
                            ),
                        );
                        assert(unvisited_weight(pre.nodes@[v.idx as int]) == 1);
                        assert(count_unvisited(graph.nodes@) < count_unvisited(pre.nodes@));
                        Graph::lemma_same_but_states_update(
                            g0.nodes@,
                            pre.nodes@,
                            v.idx as int,
                            NodeState::Queued,
                        );
                        assert(stack@ =~= prestack.update(top_i as int, (u, (j + 1) as usize)).push(
                            (v, 0usize),
                        ));
                        let newlen = stack@.len() as int;
                        assert(stack@[newlen - 1] == (v, 0usize));
                        assert(stack@[top_i as int] == (u, (j + 1) as usize));
                        assert forall|k: int| 0 <= k < newlen - 1 implies (#[trigger] stack@[k]).0
                            == prestack[k].0 by {};
                        // frames still hold live, queued nodes
                        assert forall|k: int| 0 <= k < newlen implies graph.has_node(
                            (#[trigger] stack@[k]).0,
                        ) && graph.node_at(stack@[k].0.idx as int).state is Queued by {
                            if k == newlen - 1 {
                            } else {
                                assert(pre.has_node(prestack[k].0) && pre.node_at(
                                    prestack[k].0.idx as int,
                                ).state is Queued);
                                assert(prestack[k].0.idx != v.idx);
                            }
                        };
                        // distinctness: the fresh node was not queued before
                        assert forall|k1: int, k2: int| 0 <= k1 < k2 < newlen implies (
                        #[trigger] stack@[k1]).0 != (#[trigger] stack@[k2]).0 by {
                            if k2 == newlen - 1 {
                                assert(pre.node_at(prestack[k1].0.idx as int).state is Queued);
                                assert(pre.node_at(v.idx as int).state is NotVisited);
                            } else {
                                assert(prestack[k1].0 != prestack[k2].0);
                            }
                        };
                        // queued nodes still have a frame
                        assert forall|i: int|
                            graph.node_alive(i) && graph.node_at(i).state is Queued
                                implies exists|k: int|
                                0 <= k < stack@.len() && (#[trigger] stack@[k]).0.idx == i by {
                            if i == v.idx as int {
                                assert((stack@[newlen - 1]).0.idx == i);
                            } else {
                                assert(pre.node_alive(i) && pre.node_at(i).state is Queued);
                                let k = choose|k: int|
                                    0 <= k < prestack.len() && (#[trigger] prestack[k]).0.idx == i;
                                assert((stack@[k]).0.idx == i);
                            }
                        };
                        // scanned prefixes still lead to touched nodes
                        assert forall|k: int, e2: int|
                            #![trigger stack@[k], graph.edge_alive(e2)]
                            0 <= k < newlen && 0 <= e2 < (stack@[k]).1 && graph.edge_alive(e2)
                                && graph.edge_at(e2).from == (stack@[k]).0 implies !(graph.node_at(
                            graph.edge_at(e2).to.idx as int,
                        ).state is NotVisited) by {
                            let tgt = graph.edge_at(e2).to.idx as int;
                            if k == newlen - 1 {
                            } else if k == top_i as int {
                                if e2 < c {
                                    assert(pre.edge_alive(e2) && pre.edge_at(e2).from == (
                                    prestack[k]).0);
                                    assert(!(pre.node_at(tgt).state is NotVisited));
                                } else if e2 < j {
                                    assert((stack@[k]).0 == u);
                                    assert(pre.edge_alive(e2));
                                    assert(pre.edge_at(e2).from == u);
                                    assert(!(pre.edge_alive(e2) && pre.edge_at(e2).from == u
                                        && pre.node_at(pre.edge_at(e2).to.idx as int).state
                                        is NotVisited));
                                    assert(!(pre.node_at(tgt).state is NotVisited));
                                } else {
                                    assert(e2 == j);
                                    assert(graph.edge_at(e2).to == v);
                                }
                            } else {
                                assert(pre.edge_alive(e2) && pre.edge_at(e2).from == (
                                prestack[k]).0 && e2 < (prestack[k]).1);
                                assert(!(pre.node_at(tgt).state is NotVisited));
                            }
                        };
                        // out-edges of visited nodes still lead to touched nodes
                        assert forall|e2: int| #[trigger] graph.edge_alive(e2) && graph.node_at(
                            graph.edge_at(e2).from.idx as int,
                        ).state is Visited implies !(graph.node_at(
                            graph.edge_at(e2).to.idx as int,
                        ).state is NotVisited) by {
                            assert(pre.edge_alive(e2));
                            assert(graph.edge_at(e2).from.idx as int != v.idx as int);
                            assert(pre.node_at(graph.edge_at(e2).from.idx as int).state
                                is Visited);
                            assert(!(pre.node_at(graph.edge_at(e2).to.idx as int).state
                                is NotVisited));
                        };
                        // every touched node is still reachable
                        assert forall|i: int|
                            graph.node_alive(i) && !(#[trigger] graph.node_at(i).state
                                is NotVisited) implies g0.reachable(
                            node_index,
                            NodeId { idx: i as usize },
                        ) by {
                            if i == v.idx as int {
                                assert(NodeId { idx: i as usize } == v);
                            } else {
                                assert(pre.node_alive(i) && !(pre.node_at(i).state
                                    is NotVisited));
                            }
                        };
                        // the step taken is exactly the plan's next move
                        assert(prestack.last() == (u, c));
                        assert forall|e2: int| c <= e2 < j implies !#[trigger] fresh_edge_at(
                            pre.nodes@,
                            pre.edges@,
                            u,
                            e2,
                        ) by {
                            if fresh_edge_at(pre.nodes@, pre.edges@, u, e2) {
                                assert(pre.edge_alive(e2));
                                assert(pre.edge_at(e2).from == u);
                                assert(pre.node_at(pre.edge_at(e2).to.idx as int).state
                                    is NotVisited);
                            }
                        };
                        assert(fresh_edge_at(pre.nodes@, pre.edges@, u, j as int)) by {
                            assert(pre.edge_alive(j as int));
                            assert(pre.has_node(pre.edge_at(j as int).to));
                        };
                        lemma_first_fresh_edge_skip(pre.nodes@, pre.edges@, u, c as int, j as int);
                        assert(first_fresh_edge(pre.nodes@, pre.edges@, u, c as int) == Some(
                            (j as int, v),
                        ));
                        assert(dfs_plan_from(pre.nodes@, pre.edges@, prestack, presteps)
                            == target);
                        assert(graph.nodes@ == set_state_slot(
                            pre.nodes@,
                            v.idx as int,
                            NodeState::Queued,
                        ));
                        assert(stack@ =~= prestack.drop_last().push((u, (j + 1) as usize)).push(
                            (v, 0usize),
                        ));
                        assert(dfs_plan_from(graph.nodes@, graph.edges@, stack@, self.steps@)
                            == target);
                    }
                },
                None => {
                    let ghost prestack = stack@;
                    let ghost pre = *graph;
                    let ghost presteps = self.steps@;
                    stack.pop();
                    self.add_step(
                        AlgorithmStep::Node(NodeStep::new(u, NodeState::Visited)),
                    );
                    graph.set_state(u, NodeState::Visited);
                    proof {
                        assert(stack@ =~= prestack.drop_last());
                        assert(visited_counts_ok(self.steps@, *graph)) by {
                            assert forall|n: NodeId|
                                #![trigger count_node_steps(self.steps@, n, NodeState::Visited)]
                                count_node_steps(self.steps@, n, NodeState::Visited) == (
                                if graph.has_node(n) && graph.node_at(n.idx as int).state
                                    is Visited {
                                    1nat
                                } else {
                                    0nat
                                }) by {
                                lemma_count_node_steps_push(
                                    presteps,
                                    AlgorithmStep::Node(
                                        NodeStep { idx: u, state: NodeState::Visited },
                                    ),
                                    n,
                                    NodeState::Visited,
                                );
                                if n.idx as int == u.idx as int {
                                    assert(n == u);
                                }
                            };
                        };
                        assert(queued_counts_ok(self.steps@, *graph)) by {
                            assert forall|n: NodeId|
                                #![trigger count_node_steps(self.steps@, n, NodeState::Queued)]
                                count_node_steps(self.steps@, n, NodeState::Queued) == (
                                if graph.has_node(n) && !(graph.node_at(n.idx as int).state
                                    is NotVisited) {
                                    1nat
                                } else {
                                    0nat
                                }) by {
                                lemma_count_node_steps_push(
                                    presteps,
                                    AlgorithmStep::Node(
                                        NodeStep { idx: u, state: NodeState::Visited },
                                    ),
                                    n,
                                    NodeState::Queued,
                                );
                                if n.idx as int == u.idx as int {
                                    assert(n == u);
                                }
                            };
                        };
                        // queued nodes other than `u` keep a frame below the top
                        assert forall|i: int|
                            graph.node_alive(i) && graph.node_at(i).state is Queued
                                implies exists|k: int|
                                0 <= k < stack@.len() && (#[trigger] stack@[k]).0.idx == i by {
                            assert(pre.node_alive(i) && pre.node_at(i).state is Queued);
                            let k = choose|k: int|
                                0 <= k < prestack.len() && (#[trigger] prestack[k]).0.idx == i;
                            assert(i != u.idx as int);
                            assert(k != prestack.len() - 1);
                            assert((stack@[k]).0.idx == i);
                        };
                        lemma_count_unvisited_update(
                            pre.nodes@,
                            u.idx as int,
                            Some(
                                crate::graph::Node {
                                    state: NodeState::Visited,
                                    ..pre.node_at(u.idx as int)
                                },
                            ),
                        );
                        assert(count_unvisited(graph.nodes@) == count_unvisited(pre.nodes@));
                        Graph::lemma_same_but_states_update(
                            g0.nodes@,
                            pre.nodes@,
                            u.idx as int,
                            NodeState::Visited,
                        );
                        let newlen = stack@.len() as int;
                        assert(prestack[newlen] == (u, c));
                        // remaining frames still hold live, queued nodes
                        assert forall|k: int| 0 <= k < newlen implies graph.has_node(
                            (#[trigger] stack@[k]).0,
                        ) && graph.node_at(stack@[k].0.idx as int).state is Queued by {
                            assert(stack@[k] == prestack[k]);
                            assert(prestack[k].0 != u);
                            assert(pre.node_at(prestack[k].0.idx as int).state is Queued);
                        };
                        assert forall|k1: int, k2: int| 0 <= k1 < k2 < newlen implies (
                        #[trigger] stack@[k1]).0 != (#[trigger] stack@[k2]).0 by {
                            assert(prestack[k1].0 != prestack[k2].0);
                        };
                        // scanned prefixes still lead to touched nodes
                        assert forall|k: int, e2: int|
                            #![trigger stack@[k], graph.edge_alive(e2)]
                            0 <= k < newlen && 0 <= e2 < (stack@[k]).1 && graph.edge_alive(e2)
                                && graph.edge_at(e2).from == (stack@[k]).0 implies !(graph.node_at(
                            graph.edge_at(e2).to.idx as int,
                        ).state is NotVisited) by {
                            assert(stack@[k] == prestack[k]);
                            assert(pre.edge_alive(e2) && pre.edge_at(e2).from == (prestack[k]).0
                                && e2 < (prestack[k]).1);
                            assert(!(pre.node_at(pre.edge_at(e2).to.idx as int).state
                                is NotVisited));
                        };
                        // the popped node's whole edge list was scanned
                        assert forall|e2: int| #[trigger] graph.edge_alive(e2) && graph.node_at(
                            graph.edge_at(e2).from.idx as int,
                        ).state is Visited implies !(graph.node_at(
                            graph.edge_at(e2).to.idx as int,
                        ).state is NotVisited) by {
                            let fr = graph.edge_at(e2).from;
                            let tgt = graph.edge_at(e2).to.idx as int;
                            assert(pre.edge_alive(e2));
                            if fr.idx as int == u.idx as int {
                                if e2 < c {
                                    assert(pre.edge_alive(e2) && pre.edge_at(e2).from == u);
                                    assert(!(pre.node_at(tgt).state is NotVisited));
                                } else {
                                    assert(!(pre.edge_alive(e2) && pre.edge_at(e2).from == u
                                        && pre.node_at(tgt).state is NotVisited));
                                    assert(pre.edge_at(e2).from == u) by {
                                        assert(pre.edge_at(e2).from.idx == u.idx);
                                    };
                                    assert(!(pre.node_at(tgt).state is NotVisited));
                                }
                            } else {
                                assert(pre.node_at(fr.idx as int).state is Visited);
                                assert(!(pre.node_at(tgt).state is NotVisited));
                            }
                        };
                        // every touched node is still reachable
                        assert forall|i: int|
                            graph.node_alive(i) && !(#[trigger] graph.node_at(i).state
                                is NotVisited) implies g0.reachable(
                            node_index,
                            NodeId { idx: i as usize },
                        ) by {
                            assert(pre.node_alive(i) && !(pre.node_at(i).state is NotVisited));
                        };
                        // the pop is exactly the plan's next move
                        assert(prestack.last() == (u, c));
                        assert(j == pre.edges@.len());
                        assert forall|e2: int| c <= e2 < j implies !#[trigger] fresh_edge_at(
                            pre.nodes@,
                            pre.edges@,
                            u,
                            e2,
                        ) by {
                            if fresh_edge_at(pre.nodes@, pre.edges@, u, e2) {
                                assert(pre.edge_alive(e2));
                                assert(pre.edge_at(e2).from == u);
                                assert(pre.node_at(pre.edge_at(e2).to.idx as int).state
                                    is NotVisited);
                            }
                        };
                        lemma_first_fresh_edge_skip(pre.nodes@, pre.edges@, u, c as int, j as int);
                        assert(first_fresh_edge(pre.nodes@, pre.edges@, u, c as int) is None);
                        assert(dfs_plan_from(pre.nodes@, pre.edges@, prestack, presteps)
                            == target);
                        assert(graph.nodes@ == set_state_slot(
                            pre.nodes@,
                            u.idx as int,
                            NodeState::Visited,
                        ));
                        assert(self.steps@ == presteps.push(
                            AlgorithmStep::Node(NodeStep { idx: u, state: NodeState::Visited }),
                        ));
                        assert(dfs_plan_from(graph.nodes@, graph.edges@, stack@, self.steps@)
                            == target);
                    }
                },
            }
        }
        proof {
            // the stack is empty, so no node is still queued
            assert forall|i: int| graph.node_alive(i) implies !(graph.node_at(i).state
                is Queued) by {
                if graph.node_at(i).state is Queued {
                    let k = choose|k: int|
                        0 <= k < stack@.len() && (#[trigger] stack@[k]).0.idx == i;
                }
            };
            assert(graph.node_at(node_index.idx as int).state is Visited);
            assert forall|e: int| graph.edge_alive(e) && graph.node_at(
                graph.edge_at(e).from.idx as int,
            ).state is Visited implies graph.node_at(graph.edge_at(e).to.idx as int).state
                is Visited by {
                assert(!(graph.node_at(graph.edge_at(e).to.idx as int).state is NotVisited));
                assert(graph.has_node(graph.edge_at(e).to));
                assert(!(graph.node_at(graph.edge_at(e).to.idx as int).state is Queued));
            };
            assert(self.steps@ == target);
        }
    }

    /// Runs a full traversal: reset, then plan.
    pub fn run_algorithm(&mut self, graph: &mut Graph)
        requires
            old(graph).wf(),
            old(graph).has_node(old(self).start_idx),
            old(self).timer.wf(),
        ensures
            final(graph).wf(),
            final(self).timer.wf(),
            Graph::same_but_states(old(graph).nodes@, final(graph).nodes@),
            final(graph).edges@ == Graph::reset_edges(old(graph).edges@),
            final(self).start_idx == old(self).start_idx,
            final(self).timer.interval_ms == old(self).timer.interval_ms,
            final(self).timer.enabled,
            final(self).timer.acc_ms == 0,
            forall|i: int| final(graph).node_alive(i) ==> (final(graph).node_at(i).state
                is Visited || final(graph).node_at(i).state is NotVisited),
            forall|i: int| final(graph).node_alive(i) ==> (final(graph).node_at(i).state
                is Visited <==> old(graph).reachable(
                old(self).start_idx,
                NodeId { idx: i as usize },
            )),
            forall|n: NodeId|
                count_node_steps(final(self).steps@, n, NodeState::Visited) == (
                if final(graph).has_node(n) && old(graph).reachable(old(self).start_idx, n) {
                    1nat
                } else {
                    0nat
                }),
            queued_counts_ok(final(self).steps@, *final(graph)),
            final(self).steps@ == dfs_plan(
                Graph::reset_nodes(old(graph).nodes@),
                Graph::reset_edges(old(graph).edges@),
                old(self).start_idx,
            ),
    {
        let ghost gorig = *old(graph);
        self.reset_algorithm(graph);
        let ghost g1 = *graph;
        proof {
            assert forall|i: int| g1.node_alive(i) implies g1.node_at(i).state is NotVisited by {
                assert(gorig.node_alive(i));
            };
            assert(g1.has_node(self.start_idx)) by {
                assert(gorig.node_alive(self.start_idx.idx as int));
            };
        }
        self.dfs(graph);
        proof {
            let gf = *graph;
            let s = old(self).start_idx;
            assert(Graph::same_shape(g1, gorig)) by {
                assert forall|i: int| g1.node_alive(i) <==> #[trigger] gorig.node_alive(i) by {};
                assert forall|i: int| g1.edge_alive(i) <==> #[trigger] gorig.edge_alive(i) by {};
            };
            assert(Graph::same_shape(gorig, g1)) by {
                assert forall|i: int| gorig.node_alive(i) <==> #[trigger] g1.node_alive(i) by {};
                assert forall|i: int| gorig.edge_alive(i) <==> #[trigger] g1.edge_alive(i) by {};
            };
            assert forall|i: int| gf.node_alive(i) implies (gf.node_at(i).state is Visited
                <==> gorig.reachable(s, NodeId { idx: i as usize })) by {
                if g1.reachable(s, NodeId { idx: i as usize }) {
                    Graph::lemma_same_shape_reachable(g1, gorig, s, NodeId { idx: i as usize });
                }
                if gorig.reachable(s, NodeId { idx: i as usize }) {
                    Graph::lemma_same_shape_reachable(gorig, g1, s, NodeId { idx: i as usize });
                }
            };
            assert(Graph::same_but_states(gorig.nodes@, gf.nodes@)) by {
                assert(Graph::same_but_states(g1.nodes@, gf.nodes@));
                assert forall|i: int| 0 <= i < gorig.nodes@.len() implies ((gorig.nodes@[i]
                    is Some <==> gf.nodes@[i] is Some) && (gorig.nodes@[i] is Some
                    ==> gf.nodes@[i]->Some_0 == (crate::graph::Node {
                    state: gf.nodes@[i]->Some_0.state,
                    ..gorig.nodes@[i]->Some_0
                }))) by {};
            };
            assert forall|n: NodeId|
                count_node_steps(self.steps@, n, NodeState::Visited) == (
                if gf.has_node(n) && gorig.reachable(s, n) {
                    1nat
                } else {
                    0nat
                }) by {
                if gf.has_node(n) {
                    assert(n.idx as int == n.idx);
                    assert(NodeId { idx: n.idx } == n);
                }
            };
        }
    }

    /// Plans the traversal, hands the queue to a replayable result, restores
    /// the live graph to its visual baseline with the start node pinned, and
    /// starts the clock.
    pub fn show_dfs(self, graph: &mut Graph) -> (r: StepAlgorithmResult)
        requires
            old(graph).wf(),
            old(graph).has_node(self.start_idx),
            self.timer.wf(),
        ensures
            final(graph).wf(),
            r.wf(),
            r.next == 0,
            r.start_idx == self.start_idx,
            r.timer.enabled,
            r.timer.acc_ms == 0,
            r.timer.interval_ms == self.timer.interval_ms,
            forall|n: NodeId|
                count_node_steps(r.steps@, n, NodeState::Visited) == (
                if final(graph).has_node(n) && old(graph).reachable(self.start_idx, n) {
                    1nat
                } else {
                    0nat
                }),
            r.steps@ == dfs_plan(
                Graph::reset_nodes(old(graph).nodes@),
                Graph::reset_edges(old(graph).edges@),
                self.start_idx,
            ),
            final(graph).edges@ == Graph::reset_edges(old(graph).edges@),
            final(graph).nodes@ == Graph::reset_nodes(old(graph).nodes@).update(
                self.start_idx.idx as int,
                Some(
                    (crate::graph::Node {
                        ignore_force: true,
                        state: NodeState::NotVisited,
                        ..old(graph).node_at(self.start_idx.idx as int)
                    }),
                ),
            ),
    {
        let mut alg = self;
        alg.run_algorithm(graph);
        let ghost gmid = *graph;
        let Dfs { steps, timer, start_idx } = alg;
        let ghost planned = steps@;
        let mut result = StepAlgorithmResult::new(steps, timer, start_idx);
        result.show_algorithm(graph);
        proof {
            assert(gmid.has_node(start_idx));
            assert(result.steps@ == planned);
            assert forall|n: NodeId| gmid.has_node(n) <==> final(graph).has_node(n) by {
                // the baseline restore keeps every slot's liveness
            };
            assert(final(graph).nodes@ =~= Graph::reset_nodes(old(graph).nodes@).update(
                start_idx.idx as int,
                Some(
                    (crate::graph::Node {
                        ignore_force: true,
                        state: NodeState::NotVisited,
                        ..old(graph).node_at(start_idx.idx as int)
                    }),
                ),
            ));
            assert(final(graph).edges@ =~= Graph::reset_edges(old(graph).edges@));
            assert forall|n: NodeId|
                #![trigger count_node_steps(result.steps@, n, NodeState::Visited)]
                count_node_steps(result.steps@, n, NodeState::Visited) == (
                if final(graph).has_node(n) && old(graph).reachable(self.start_idx, n) {
                    1nat
                } else {
                    0nat
                }) by {
                assert(count_node_steps(planned, n, NodeState::Visited) == (
                if gmid.has_node(n) && old(graph).reachable(self.start_idx, n) {
                    1nat
                } else {
                    0nat
                }));
                assert(gmid.has_node(n) <==> final(graph).has_node(n));
            };
        }
        result
    }
}

} // verus!
