//! Breadth-first traversal planning: a FIFO worklist is seeded with the
//! start node marked `Queued`; each popped node is marked `Visited`, and each
//! outgoing edge to a still unvisited neighbor (in edge insertion order)
//! records an edge step, marks and records the neighbor `Queued`, and
//! enqueues it.

use vstd::prelude::*;

use crate::graph::{Graph, Node, Edge, NodeId, EdgeId, NodeState};
use crate::step_algorithms::algorithm::{
    AlgorithmStep, NodeStep, EdgeStep, StepAlgorithmResult, count_node_steps, count_unvisited,
    fresh_edge_at, lemma_count_node_steps_push, lemma_count_set_state,
    lemma_count_unvisited_update, queued_counts_ok, set_state_slot, unvisited_weight,
    visited_counts_ok,
};
use crate::step_algorithms::timer::Timer;

verus! {

/// One node's breadth-first edge scan, continued from edge slot `j`: each
/// remaining candidate edge from `u` records an edge step, marks and records
/// its target `Queued`, and enqueues it; the new coloring, worklist and step
/// sequence come back together.
pub open spec fn bfs_scan(
    nodes: Seq<Option<Node>>,
    edges: Seq<Option<Edge>>,
    u: NodeId,
    j: int,
    queue: Seq<NodeId>,
    steps: Seq<AlgorithmStep>,
) -> (Seq<Option<Node>>, Seq<NodeId>, Seq<AlgorithmStep>)
    decreases edges.len() - j,
{
    if j < 0 || j >= edges.len() {
        (nodes, queue, steps)
    } else if fresh_edge_at(nodes, edges, u, j) {
        let v = edges[j]->Some_0.to;
        bfs_scan(
            set_state_slot(nodes, v.idx as int, NodeState::Queued),
            edges,
            u,
            j + 1,
            queue.push(v),
            steps.push(AlgorithmStep::Edge(EdgeStep { idx: EdgeId { idx: j as usize } })).push(
                AlgorithmStep::Node(NodeStep { idx: v, state: NodeState::Queued }),
            ),
        )
    } else {
        bfs_scan(nodes, edges, u, j + 1, queue, steps)
    }
}

/// Each node the scan enqueues was unvisited and is recolored, so the
/// unvisited count plus the worklist length is conserved.
pub proof fn lemma_bfs_scan_count(
    nodes: Seq<Option<Node>>,
    edges: Seq<Option<Edge>>,
    u: NodeId,
    j: int,
    queue: Seq<NodeId>,
    steps: Seq<AlgorithmStep>,
)
    ensures
        ({
            let scan = bfs_scan(nodes, edges, u, j, queue, steps);
            &&& count_unvisited(scan.0) + scan.1.len() == count_unvisited(nodes) + queue.len()
            &&& scan.1.len() >= queue.len()
        }),
    decreases edges.len() - j,
{
    if !(j < 0 || j >= edges.len()) {
        if fresh_edge_at(nodes, edges, u, j) {
            let v = edges[j]->Some_0.to;
            lemma_count_set_state(nodes, v.idx as int, NodeState::Queued);
            lemma_bfs_scan_count(
                set_state_slot(nodes, v.idx as int, NodeState::Queued),
                edges,
                u,
                j + 1,
                queue.push(v),
                steps.push(AlgorithmStep::Edge(EdgeStep { idx: EdgeId { idx: j as usize } })).push(
                    AlgorithmStep::Node(NodeStep { idx: v, state: NodeState::Queued }),
                ),
            );
        } else {
            lemma_bfs_scan_count(nodes, edges, u, j + 1, queue, steps);
        }
    }
}

/// The rest of a breadth-first plan, continued from a FIFO worklist, a node
/// coloring, and the steps recorded so far: the front node is popped with a
/// `Visited` mark and its whole edge list is scanned before the next pop.
pub open spec fn bfs_plan_from(
    nodes: Seq<Option<Node>>,
    edges: Seq<Option<Edge>>,
    queue: Seq<NodeId>,
    steps: Seq<AlgorithmStep>,
) -> Seq<AlgorithmStep>
    decreases count_unvisited(nodes), queue.len(),
    via bfs_plan_from_decreases
{
    if queue.len() == 0 {
        steps
    } else {
        let u = queue.first();
        let scan = bfs_scan(
            set_state_slot(nodes, u.idx as int, NodeState::Visited),
            edges,
            u,
            0,
            queue.drop_first(),
            steps.push(AlgorithmStep::Node(NodeStep { idx: u, state: NodeState::Visited })),
        );
        bfs_plan_from(scan.0, edges, scan.1, scan.2)
    }
}

#[via_fn]
proof fn bfs_plan_from_decreases(
    nodes: Seq<Option<Node>>,
    edges: Seq<Option<Edge>>,
    queue: Seq<NodeId>,
    steps: Seq<AlgorithmStep>,
) {
    if queue.len() > 0 {
        let u = queue.first();
        lemma_count_set_state(nodes, u.idx as int, NodeState::Visited);
        lemma_bfs_scan_count(
            set_state_slot(nodes, u.idx as int, NodeState::Visited),
            edges,
            u,
            0,
            queue.drop_first(),
            steps.push(AlgorithmStep::Node(NodeStep { idx: u, state: NodeState::Visited })),
        );
    }
}

/// The whole breadth-first plan from a start node over a graph whose live
/// nodes are all `NotVisited`: the start is marked and recorded `Queued` and
/// seeds the worklist, then the walk proceeds as `bfs_plan_from` says. The
/// plan is a function of the slot sequences and the start alone, so planning
/// is deterministic.
pub open spec fn bfs_plan(
    nodes: Seq<Option<Node>>,
    edges: Seq<Option<Edge>>,
    start: NodeId,
) -> Seq<AlgorithmStep> {
    bfs_plan_from(
        set_state_slot(nodes, start.idx as int, NodeState::Queued),
        edges,
        seq![start],
        seq![AlgorithmStep::Node(NodeStep { idx: start, state: NodeState::Queued })],
    )
}

/// Breadth-first traversal: the planned step queue, the pacing timer, and
/// the start node.
pub struct Bfs {
    pub steps: Vec<AlgorithmStep>,
    pub timer: Timer,
    pub start_idx: NodeId,
}

impl Bfs {
    /// Creates a breadth-first traversal from the given start node, pacing
    /// one step per second.
    pub fn new(start_idx: NodeId) -> (r: Bfs)
        ensures
            r.steps@.len() == 0,
            r.timer.wf(),
            r.timer.interval_ms == 1000,
            r.timer.enabled,
            r.timer.acc_ms == 0,
            r.start_idx == start_idx,
    {
        Bfs { steps: Vec::new(), timer: Timer::new(1000, true), start_idx }
    }

    /// The traversal's start node.
    pub fn start_idx(&self) -> (r: NodeId)
        ensures
            r == self.start_idx,
    {
        self.start_idx
    }

    /// Read access to the pacing timer.
    pub fn timer(&self) -> (r: &Timer)
        ensures
            r == self.timer,
    {
        &self.timer
    }

    /// The planned steps so far.
    pub fn steps(&self) -> (r: &Vec<AlgorithmStep>)
        ensures
            r == self.steps,
    {
        &self.steps
    }

    /// Appends one step to the plan.
    fn add_step(&mut self, s: AlgorithmStep)
        ensures
            final(self).steps@ == old(self).steps@.push(s),
            final(self).timer == old(self).timer,
            final(self).start_idx == old(self).start_idx,
    {
        self.steps.push(s);
    }

    /// Phase one of a run: every node back to `NotVisited`, every edge
    /// disabled, the plan cleared, the timer restarted.
    pub fn reset_algorithm(&mut self, graph: &mut Graph)
        requires
            old(graph).wf(),
        ensures
            final(graph).wf(),
            final(graph).nodes@ == Graph::reset_nodes(old(graph).nodes@),
            final(graph).edges@ == Graph::reset_edges(old(graph).edges@),
            final(self).steps@.len() == 0,
            final(self).start_idx == old(self).start_idx,
            final(self).timer.interval_ms == old(self).timer.interval_ms,
            final(self).timer.enabled,
            final(self).timer.acc_ms == 0,
    {
        graph.reset_states();
        graph.disable_all_edges();
        self.steps.clear();
        self.timer.restart();
    }

    /// Phase two of a run: plans the walk from the start node, breadth
    /// first, over a graph whose live nodes are all still `NotVisited`.
    #[verifier::rlimit(60)]
    fn bfs(&mut self, graph: &mut Graph)
        requires
            old(graph).wf(),
            old(graph).has_node(old(self).start_idx),
            forall|i: int| old(graph).node_alive(i) ==> old(graph).node_at(i).state
                is NotVisited,
            old(self).steps@.len() == 0,
        ensures
            final(graph).wf(),
            Graph::same_but_states(old(graph).nodes@, final(graph).nodes@),
            final(graph).edges@ == old(graph).edges@,
            final(self).timer == old(self).timer,
            final(self).start_idx == old(self).start_idx,
            forall|i: int| final(graph).node_alive(i) ==> (final(graph).node_at(i).state
                is Visited || final(graph).node_at(i).state is NotVisited),
            forall|i: int| final(graph).node_alive(i) ==> (final(graph).node_at(i).state
                is Visited <==> old(graph).reachable(
                old(self).start_idx,
                NodeId { idx: i as usize },
            )),
            visited_counts_ok(final(self).steps@, *final(graph)),
            queued_counts_ok(final(self).steps@, *final(graph)),
            final(self).steps@ == bfs_plan(
                old(graph).nodes@,
                old(graph).edges@,
                old(self).start_idx,
            ),
    {
        let ghost g0 = *old(graph);
        let ghost target = bfs_plan(g0.nodes@, g0.edges@, old(self).start_idx);
        let start = self.start_idx;
        let mut queue: Vec<NodeId> = Vec::new();
        let mut head: usize = 0;
        self.add_step(AlgorithmStep::Node(NodeStep::new(start, NodeState::Queued)));
        graph.set_state(start, NodeState::Queued);
        queue.push(start);
        proof {
            g0.lemma_reachable_refl(start);
            assert(queue@[0] == start);
            assert forall|i: int| graph.node_alive(i) && i != start.idx as int implies
                graph.node_at(i).state is NotVisited by {
                assert(old(graph).node_alive(i));
            };
            assert forall|i: int| graph.node_alive(i) && !(#[trigger] graph.node_at(i).state
                is NotVisited) implies g0.reachable(start, NodeId { idx: i as usize }) by {
                assert(i == start.idx as int);
                assert(NodeId { idx: i as usize } == start);
            };
            assert forall|i: int| graph.node_alive(i) && graph.node_at(i).state is Queued
                implies exists|k: int| head <= k < queue@.len() && (#[trigger] queue@[k]).idx
                == i by {
                assert(i == start.idx as int);
                assert((queue@[0]).idx == i);
            };
            let qstep = AlgorithmStep::Node(NodeStep { idx: start, state: NodeState::Queued });
            assert(queued_counts_ok(self.steps@, *graph)) by {
                assert forall|n: NodeId|
                    #![trigger count_node_steps(self.steps@, n, NodeState::Queued)]
                    count_node_steps(self.steps@, n, NodeState::Queued) == (
                    if graph.has_node(n) && !(graph.node_at(n.idx as int).state is NotVisited) {
                        1nat
                    } else {
                        0nat
                    }) by {
                    lemma_count_node_steps_push(old(self).steps@, qstep, n, NodeState::Queued);
                    if graph.has_node(n) && !(graph.node_at(n.idx as int).state is NotVisited) {
                        assert(n.idx as int == start.idx as int);
                        assert(n == start);
                    }
                };
            };
            assert(visited_counts_ok(self.steps@, *graph)) by {
                assert forall|n: NodeId|
                    #![trigger count_node_steps(self.steps@, n, NodeState::Visited)]
                    count_node_steps(self.steps@, n, NodeState::Visited) == (
                    if graph.has_node(n) && graph.node_at(n.idx as int).state is Visited {
                        1nat
                    } else {
                        0nat
                    }) by {
                    lemma_count_node_steps_push(old(self).steps@, qstep, n, NodeState::Visited);
                    if graph.has_node(n) && graph.node_at(n.idx as int).state is Visited {
                        assert(n.idx as int == start.idx as int);
                        assert(false);
                    }
                };
            };
            assert(graph.nodes@ == set_state_slot(
                g0.nodes@,
                start.idx as int,
                NodeState::Queued,
            ));
            assert(self.steps@ =~= seq![qstep]);
            assert(queue@.subrange(head as int, queue@.len() as int) =~= seq![start]);
            assert(bfs_plan_from(
                graph.nodes@,
                graph.edges@,
                queue@.subrange(head as int, queue@.len() as int),
                self.steps@,
            ) == target);
        }
        while head < queue.len()
            invariant
                graph.wf(),
                g0.wf(),
                g0 == *old(graph),
                g0.has_node(start),
                Graph::same_but_states(g0.nodes@, graph.nodes@),
                graph.edges@ == g0.edges@,
                self.timer == old(self).timer,
                self.start_idx == old(self).start_idx,
                head <= queue@.len(),
                forall|k: int| head <= k < queue@.len() ==> graph.has_node(
                    #[trigger] queue@[k],
                ) && graph.node_at(queue@[k].idx as int).state is Queued,
                forall|k1: int, k2: int| head <= k1 < k2 < queue@.len() ==> (
                #[trigger] queue@[k1]) != (#[trigger] queue@[k2]),
                forall|i: int| graph.node_alive(i) && graph.node_at(i).state is Queued
                    ==> exists|k: int| head <= k < queue@.len() && (#[trigger] queue@[k]).idx
                    == i,
                forall|e: int| #[trigger] graph.edge_alive(e) && graph.node_at(
                    graph.edge_at(e).from.idx as int,
                ).state is Visited ==> !(graph.node_at(graph.edge_at(e).to.idx as int).state
                    is NotVisited),
                graph.has_node(start),
                !(graph.node_at(start.idx as int).state is NotVisited),
                forall|i: int| graph.node_alive(i) && !(#[trigger] graph.node_at(i).state
                    is NotVisited) ==> g0.reachable(start, NodeId { idx: i as usize }),
                visited_counts_ok(self.steps@, *graph),
                queued_counts_ok(self.steps@, *graph),
                bfs_plan_from(
                    graph.nodes@,
                    graph.edges@,
                    queue@.subrange(head as int, queue@.len() as int),
                    self.steps@,
                ) == target,
            decreases count_unvisited(graph.nodes@), queue@.len() - head,
        {
            let u = queue[head];
            head += 1;
            let ghost prehead = head as int;
            let ghost prequeue = queue@;
            let ghost prepop = *graph;
            let ghost presteps = self.steps@;
            self.add_step(AlgorithmStep::Node(NodeStep::new(u, NodeState::Visited)));
            graph.set_state(u, NodeState::Visited);
            let ghost pre_count = count_unvisited(graph.nodes@);
            let ghost pre_qlen = queue@.len() as int;
            proof {
                assert(prepop.has_node(u) && prepop.node_at(u.idx as int).state is Queued);
                lemma_count_unvisited_update(
                    prepop.nodes@,
                    u.idx as int,
                    Some(
                        crate::graph::Node {
                            state: NodeState::Visited,
                            ..prepop.node_at(u.idx as int)
                        },
                    ),
                );
                assert(count_unvisited(graph.nodes@) == count_unvisited(prepop.nodes@));
                Graph::lemma_same_but_states_update(
                    g0.nodes@,
                    prepop.nodes@,
                    u.idx as int,
                    NodeState::Visited,
                );
                assert(visited_counts_ok(self.steps@, *graph)) by {
                    assert forall|n: NodeId|
                        #![trigger count_node_steps(self.steps@, n, NodeState::Visited)]
                        count_node_steps(self.steps@, n, NodeState::Visited) == (
                        if graph.has_node(n) && graph.node_at(n.idx as int).state is Visited {
                            1nat
                        } else {
                            0nat
                        }) by {
                        lemma_count_node_steps_push(
                            presteps,
                            AlgorithmStep::Node(NodeStep { idx: u, state: NodeState::Visited }),
                            n,
                            NodeState::Visited,
                        );
                        if n.idx as int == u.idx as int {
                            assert(n == u);
                        }
                    };
                };
                assert(queued_counts_ok(self.steps@, *graph)) by {
                    assert forall|n: NodeId|
                        #![trigger count_node_steps(self.steps@, n, NodeState::Queued)]
                        count_node_steps(self.steps@, n, NodeState::Queued) == (
                        if graph.has_node(n) && !(graph.node_at(n.idx as int).state
                            is NotVisited) {
                            1nat
                        } else {
                            0nat
                        }) by {
                        lemma_count_node_steps_push(
                            presteps,
                            AlgorithmStep::Node(NodeStep { idx: u, state: NodeState::Visited }),
                            n,
                            NodeState::Queued,
                        );
                        if n.idx as int == u.idx as int {
                            assert(n == u);
                        }
                    };
                };
                assert(queue@.subrange(0, pre_qlen) =~= prequeue);
                assert(prequeue[prehead - 1] == u);
                assert forall|k: int| prehead <= k < queue@.len() implies graph.has_node(
                    #[trigger] queue@[k],
                ) && graph.node_at(queue@[k].idx as int).state is Queued by {
                    assert(prepop.has_node(queue@[k]) && prepop.node_at(
                        queue@[k].idx as int,
                    ).state is Queued);
                    assert(queue@[k] != u);
                };
                assert forall|i: int| graph.node_alive(i) && graph.node_at(i).state is Queued
                    implies exists|k: int| prehead <= k < queue@.len() && (
                #[trigger] queue@[k]).idx == i by {
                    assert(prepop.node_alive(i) && prepop.node_at(i).state is Queued);
                    let k0 = choose|k: int|
                        prehead - 1 <= k < prequeue.len() && (#[trigger] prequeue[k]).idx == i;
                    assert(i != u.idx as int);
                    assert(k0 != prehead - 1);
                    assert((queue@[k0]).idx == i);
                };
                assert forall|e: int| #[trigger] graph.edge_alive(e) && graph.edge_at(
                    e,
                ).from.idx != u.idx && graph.node_at(graph.edge_at(e).from.idx as int).state
                    is Visited implies !(graph.node_at(graph.edge_at(e).to.idx as int).state
                    is NotVisited) by {
                    assert(prepop.edge_alive(e));
                    assert(prepop.node_at(graph.edge_at(e).from.idx as int).state is Visited);
                    assert(!(prepop.node_at(graph.edge_at(e).to.idx as int).state
                        is NotVisited));
                };
                assert forall|i: int| graph.node_alive(i) && !(#[trigger] graph.node_at(
                    i,
                ).state is NotVisited) implies g0.reachable(start, NodeId { idx: i as usize }) by {
                    assert(prepop.node_alive(i) && !(prepop.node_at(i).state is NotVisited));
                };
                // the pop and mark are exactly the plan's next move
                let active0 = prequeue.subrange(prehead - 1, prequeue.len() as int);
                assert(active0.len() > 0);
                assert(active0.first() == u);
                assert(active0.drop_first() =~= prequeue.subrange(
                    prehead,
                    prequeue.len() as int,
                ));
                assert(bfs_plan_from(prepop.nodes@, prepop.edges@, active0, presteps)
                    == target);
                assert(graph.nodes@ == set_state_slot(
                    prepop.nodes@,
                    u.idx as int,
                    NodeState::Visited,
                ));
                assert(self.steps@ == presteps.push(
                    AlgorithmStep::Node(NodeStep { idx: u, state: NodeState::Visited }),
                ));
                assert(queue@.subrange(prehead, queue@.len() as int) == active0.drop_first());
                assert(({
                    let scan = bfs_scan(
                        graph.nodes@,
                        graph.edges@,
                        u,
                        0,
                        queue@.subrange(prehead, queue@.len() as int),
                        self.steps@,
                    );
                    bfs_plan_from(scan.0, graph.edges@, scan.1, scan.2) == target
                }));
            }
            let mut j: usize = 0;
            while j < graph.edges.len()
                invariant
                    graph.wf(),
                    g0.wf(),
                    g0 == *old(graph),
                    g0.has_node(start),
                    Graph::same_but_states(g0.nodes@, graph.nodes@),
                    graph.edges@ == g0.edges@,
                    self.timer == old(self).timer,
                    self.start_idx == old(self).start_idx,
                    j <= graph.edges@.len(),
                    1 <= prehead <= queue@.len(),
                    0 <= pre_qlen <= queue@.len(),
                    prehead <= pre_qlen,
                    queue@.subrange(0, pre_qlen) == prequeue,
                    graph.has_node(u),
                    graph.node_at(u.idx as int).state is Visited,
                    forall|k: int| prehead <= k < queue@.len() ==> graph.has_node(
                        #[trigger] queue@[k],
                    ) && graph.node_at(queue@[k].idx as int).state is Queued,
                    forall|k1: int, k2: int| prehead <= k1 < k2 < queue@.len() ==> (
                    #[trigger] queue@[k1]) != (#[trigger] queue@[k2]),
                    forall|i: int| graph.node_alive(i) && graph.node_at(i).state is Queued
                        ==> exists|k: int| prehead <= k < queue@.len() && (
                    #[trigger] queue@[k]).idx == i,
                    // scanned edges of the popped node lead to touched nodes
                    forall|e: int| 0 <= e < j && #[trigger] graph.edge_alive(e)
                        && graph.edge_at(e).from.idx == u.idx ==> !(graph.node_at(
                        graph.edge_at(e).to.idx as int,
                    ).state is NotVisited),
                    // other visited nodes are already fully covered
                    forall|e: int| #[trigger] graph.edge_alive(e) && graph.edge_at(
                        e,
                    ).from.idx != u.idx && graph.node_at(graph.edge_at(e).from.idx as int).state
                        is Visited ==> !(graph.node_at(graph.edge_at(e).to.idx as int).state
                        is NotVisited),
                    graph.has_node(start),
                    !(graph.node_at(start.idx as int).state is NotVisited),
                    forall|i: int| graph.node_alive(i) && !(#[trigger] graph.node_at(i).state
                        is NotVisited) ==> g0.reachable(start, NodeId { idx: i as usize }),
                    visited_counts_ok(self.steps@, *graph),
                    queued_counts_ok(self.steps@, *graph),
                    count_unvisited(graph.nodes@) + (queue@.len() - pre_qlen) == pre_count,
                    ({
                        let scan = bfs_scan(
                            graph.nodes@,
                            graph.edges@,
                            u,
                            j as int,
                            queue@.subrange(prehead, queue@.len() as int),
                            self.steps@,
                        );
                        bfs_plan_from(scan.0, graph.edges@, scan.1, scan.2) == target
                    }),
                decreases graph.edges@.len() - j,
            {
                let slot = &graph.edges[j];
                proof {
                    assert(*slot == graph.edges@[j as int]);
                }
                let mut cand_to: Option<NodeId> = None;
                match slot {
                    Some(ed) => {
                        if ed.from.idx == u.idx {
                            cand_to = Some(ed.to);
                        }
                    },
                    None => {},
                }
                match cand_to {
                    Some(tgt) => {
                        let st = graph.state_of(tgt);
                        let mut is_fresh = false;
                        match st {
                            Some(NodeState::NotVisited) => {
                                is_fresh = true;
                            },
                            _ => {},
                        }
                        if is_fresh {
                            let ghost pre = *graph;
                            let ghost presteps2 = self.steps@;
                            let ghost prequeue2 = queue@;
                            self.add_step(
                                AlgorithmStep::Edge(EdgeStep::new(
                                    crate::graph::EdgeId { idx: j },
                                )),
                            );
                            self.add_step(
                                AlgorithmStep::Node(NodeStep::new(tgt, NodeState::Queued)),
                            );
                            graph.set_state(tgt, NodeState::Queued);
                            queue.push(tgt);
                            proof {
                                assert(pre.has_node(tgt));
                                assert(g0.spec_edge(u, tgt)) by {
                                    assert(g0.edge_alive(j as int) && g0.edge_at(
                                        j as int,
                                    ).from == u && g0.edge_at(j as int).to == tgt);
                                };
                                g0.lemma_reachable_step(start, u, tgt);
                                Graph::lemma_same_but_states_update(
                                    g0.nodes@,
                                    pre.nodes@,
                                    tgt.idx as int,
                                    NodeState::Queued,
                                );
                                lemma_count_unvisited_update(
                                    pre.nodes@,
                                    tgt.idx as int,
                                    Some(
                                        crate::graph::Node {
                                            state: NodeState::Queued,
                                            ..pre.node_at(tgt.idx as int)
                                        },
                                    ),
                                );
                                assert(unvisited_weight(pre.nodes@[tgt.idx as int]) == 1);
                                assert(queue@ =~= prequeue2.push(tgt));
                                assert(queue@.subrange(0, pre_qlen) =~= prequeue2.subrange(
                                    0,
                                    pre_qlen,
                                ));
                                let newlen = queue@.len() as int;
                                assert(queue@[newlen - 1] == tgt);
                                // worklist entries: the fresh node joins at the back
                                assert forall|k: int| prehead <= k < newlen implies
                                    graph.has_node(#[trigger] queue@[k]) && graph.node_at(
                                    queue@[k].idx as int,
                                ).state is Queued by {
                                    if k < newlen - 1 {
                                        assert(queue@[k] == prequeue2[k]);
                                        assert(pre.node_at(queue@[k].idx as int).state
                                            is Queued);
                                        assert(queue@[k].idx != tgt.idx);
                                    }
                                };
                                assert forall|k1: int, k2: int| prehead <= k1 < k2 < newlen
                                    implies (#[trigger] queue@[k1]) != (
                                #[trigger] queue@[k2]) by {
                                    if k2 == newlen - 1 {
                                        assert(pre.node_at(prequeue2[k1].idx as int).state
                                            is Queued);
                                        assert(pre.node_at(tgt.idx as int).state
                                            is NotVisited);
                                    } else {
                                        assert(prequeue2[k1] != prequeue2[k2]);
                                    }
                                };
                                assert forall|i: int|
                                    graph.node_alive(i) && graph.node_at(i).state is Queued
                                        implies exists|k: int|
                                        prehead <= k < queue@.len() && (
                                    #[trigger] queue@[k]).idx == i by {
                                    if i == tgt.idx as int {
                                        assert((queue@[newlen - 1]).idx == i);
                                    } else {
                                        assert(pre.node_alive(i) && pre.node_at(i).state
                                            is Queued);
                                        let k = choose|k: int|
                                            prehead <= k < prequeue2.len() && (
                                            #[trigger] prequeue2[k]).idx == i;
                                        assert((queue@[k]).idx == i);
                                    }
                                };
                                // scanned edges of the popped node stay covered
                                assert forall|e: int| 0 <= e < j + 1 && #[trigger]
                                    graph.edge_alive(e) && graph.edge_at(e).from.idx == u.idx
                                    implies !(graph.node_at(graph.edge_at(e).to.idx as int).state
                                    is NotVisited) by {
                                    if e < j {
                                        assert(pre.edge_alive(e) && pre.edge_at(e).from.idx
                                            == u.idx);
                                        assert(!(pre.node_at(pre.edge_at(e).to.idx as int).state
                                            is NotVisited));
                                    } else {
                                        assert(graph.edge_at(e).to == tgt);
                                    }
                                };
                                assert forall|e: int| #[trigger] graph.edge_alive(e)
                                    && graph.edge_at(e).from.idx != u.idx && graph.node_at(
                                    graph.edge_at(e).from.idx as int,
                                ).state is Visited implies !(graph.node_at(
                                    graph.edge_at(e).to.idx as int,
                                ).state is NotVisited) by {
                                    assert(pre.edge_alive(e));
                                    assert(graph.edge_at(e).from.idx as int != tgt.idx as int);
                                    assert(pre.node_at(graph.edge_at(e).from.idx as int).state
                                        is Visited);
                                    assert(!(pre.node_at(graph.edge_at(e).to.idx as int).state
                                        is NotVisited));
                                };
                                assert forall|i: int|
                                    graph.node_alive(i) && !(#[trigger] graph.node_at(i).state
                                        is NotVisited) implies g0.reachable(
                                    start,
                                    NodeId { idx: i as usize },
                                ) by {
                                    if i == tgt.idx as int {
                                        assert(NodeId { idx: i as usize } == tgt);
                                    } else {
                                        assert(pre.node_alive(i) && !(pre.node_at(i).state
                                            is NotVisited));
                                    }
                                };
                                assert(visited_counts_ok(self.steps@, *graph)) by {
                                    assert forall|n: NodeId|
                                        #![trigger count_node_steps(self.steps@, n, NodeState::Visited)]
                                        count_node_steps(self.steps@, n, NodeState::Visited)
                                            == (
                                        if graph.has_node(n) && graph.node_at(
                                            n.idx as int,
                                        ).state is Visited {
                                            1nat
                                        } else {
                                            0nat
                                        }) by {
                                        lemma_count_node_steps_push(
                                            presteps2,
                                            AlgorithmStep::Edge(EdgeStep {
                                                idx: crate::graph::EdgeId { idx: j },
                                            }),
                                            n,
                                            NodeState::Visited,
                                        );
                                        lemma_count_node_steps_push(
                                            presteps2.push(
                                                AlgorithmStep::Edge(EdgeStep {
                                                    idx: crate::graph::EdgeId { idx: j },
                                                }),
                                            ),
                                            AlgorithmStep::Node(
                                                NodeStep { idx: tgt, state: NodeState::Queued },
                                            ),
                                            n,
                                            NodeState::Visited,
                                        );
                                        if n.idx as int == tgt.idx as int {
                                            assert(n == tgt);
                                        }
                                    };
                                };
                                assert(queued_counts_ok(self.steps@, *graph)) by {
                                    assert forall|n: NodeId|
                                        #![trigger count_node_steps(self.steps@, n, NodeState::Queued)]
                                        count_node_steps(self.steps@, n, NodeState::Queued)
                                            == (
                                        if graph.has_node(n) && !(graph.node_at(
                                            n.idx as int,
                                        ).state is NotVisited) {
                                            1nat
                                        } else {
                                            0nat
                                        }) by {
                                        lemma_count_node_steps_push(
                                            presteps2,
                                            AlgorithmStep::Edge(EdgeStep {
                                                idx: crate::graph::EdgeId { idx: j },
                                            }),
                                            n,
                                            NodeState::Queued,
                                        );
                                        lemma_count_node_steps_push(
                                            presteps2.push(
                                                AlgorithmStep::Edge(EdgeStep {
                                                    idx: crate::graph::EdgeId { idx: j },
                                                }),
                                            ),
                                            AlgorithmStep::Node(
                                                NodeStep { idx: tgt, state: NodeState::Queued },
                                            ),
                                            n,
                                            NodeState::Queued,
                                        );
                                        if n.idx as int == tgt.idx as int {
                                            assert(n == tgt);
                                        }
                                    };
                                };
                                // the enqueue is exactly the scan's next move
                                assert(fresh_edge_at(pre.nodes@, pre.edges@, u, j as int)) by {
                                    assert(pre.edge_alive(j as int));
                                    assert(pre.has_node(pre.edge_at(j as int).to));
                                };
                                let preactive = prequeue2.subrange(
                                    prehead,
                                    prequeue2.len() as int,
                                );
                                let newactive = queue@.subrange(prehead, queue@.len() as int);
                                assert(newactive =~= preactive.push(tgt));
                                assert(graph.nodes@ == set_state_slot(
                                    pre.nodes@,
                                    tgt.idx as int,
                                    NodeState::Queued,
                                ));
                                assert(self.steps@ == presteps2.push(
                                    AlgorithmStep::Edge(EdgeStep { idx: EdgeId { idx: j } }),
                                ).push(
                                    AlgorithmStep::Node(
                                        NodeStep { idx: tgt, state: NodeState::Queued },
                                    ),
                                ));
                                assert(bfs_scan(
                                    pre.nodes@,
                                    pre.edges@,
                                    u,
                                    j as int,
                                    preactive,
                                    presteps2,
                                ) == bfs_scan(
                                    graph.nodes@,
                                    graph.edges@,
                                    u,
                                    j as int + 1,
                                    newactive,
                                    self.steps@,
                                ));
                            }
                        } else {
                            proof {
                                assert(!fresh_edge_at(graph.nodes@, graph.edges@, u, j as int));
                            }
                        }
                    },
                    None => {
                        proof {
                            assert(!fresh_edge_at(graph.nodes@, graph.edges@, u, j as int));
                        }
                    },
                }
                j += 1;
            }
            proof {
                assert forall|e: int| #[trigger] graph.edge_alive(e) && graph.node_at(
                    graph.edge_at(e).from.idx as int,
                ).state is Visited implies !(graph.node_at(graph.edge_at(e).to.idx as int).state
                    is NotVisited) by {
                    if graph.edge_at(e).from.idx == u.idx {
                        assert(0 <= e < graph.edges@.len());
                    }
                };
                // a finished scan leaves coloring, worklist and steps as they are
                assert(j == graph.edges@.len());
                assert(bfs_scan(
                    graph.nodes@,
                    graph.edges@,
                    u,
                    j as int,
                    queue@.subrange(prehead, queue@.len() as int),
                    self.steps@,
                ) == (
                    graph.nodes@,
                    queue@.subrange(prehead, queue@.len() as int),
                    self.steps@,
                ));
                assert(head as int == prehead);
                assert(bfs_plan_from(
                    graph.nodes@,
                    graph.edges@,
                    queue@.subrange(head as int, queue@.len() as int),
                    self.steps@,
                ) == target);
            }
        }
        let nlen = graph.nodes.len();
        proof {
            assert forall|i: int| graph.node_alive(i) implies !(graph.node_at(i).state
                is Queued) by {
                if graph.node_at(i).state is Queued {
                    let k = choose|k: int|
                        head as int <= k < queue@.len() && (#[trigger] queue@[k]).idx == i;
                }
            };
            assert(queue@.subrange(head as int, queue@.len() as int).len() == 0);
            assert(self.steps@ == target);
            assert(graph.node_at(start.idx as int).state is Visited);
            assert forall|e: int| graph.edge_alive(e) && graph.node_at(
                graph.edge_at(e).from.idx as int,
            ).state is Visited implies graph.node_at(graph.edge_at(e).to.idx as int).state
                is Visited by {
                assert(!(graph.node_at(graph.edge_at(e).to.idx as int).state is NotVisited));
                assert(graph.has_node(graph.edge_at(e).to));
                assert(!(graph.node_at(graph.edge_at(e).to.idx as int).state is Queued));
            };
            let g0l = *old(graph);
            let gf = *graph;
            assert forall|i: int| gf.node_alive(i) implies (gf.node_at(i).state is Visited
                <==> g0l.reachable(start, NodeId { idx: i as usize })) by {
                assert(i < nlen as int);
                assert((i as usize) as int == i);
                if gf.node_at(i).state is Visited {
                    assert(g0l.reachable(start, NodeId { idx: i as usize }));
                } else {
                    if g0l.reachable(start, NodeId { idx: i as usize }) {
                        let f = |n: NodeId|
                            n.idx < gf.nodes@.len() && gf.node_alive(n.idx as int)
                                && gf.node_at(n.idx as int).state is Visited;
                        assert forall|a: NodeId, b: NodeId|
                            f(a) && #[trigger] g0l.spec_edge(a, b) implies f(b) by {
                            let e = choose|e: int|
                                #[trigger] g0l.edge_alive(e) && g0l.edge_at(e).from == a
                                    && g0l.edge_at(e).to == b;
                            assert(gf.edge_alive(e));
                            assert(g0l.has_node(b));
                            assert(gf.node_alive(b.idx as int));
                        };
                        assert(f(start)) by {
                            assert(gf.node_alive(start.idx as int));
                        };
                        g0l.lemma_reachable_in_closed_set(
                            start,
                            NodeId { idx: i as usize },
                            f,
                        );
                        assert(f(NodeId { idx: i as usize }));
                    }
                }
            };
        }
    }

    /// Runs a full traversal: reset, then plan.
    pub fn run_algorithm(&mut self, graph: &mut Graph)
        requires
            old(graph).wf(),
            old(graph).has_node(old(self).start_idx),
            old(self).timer.wf(),
        ensures
            final(graph).wf(),
            final(self).timer.wf(),
            Graph::same_but_states(old(graph).nodes@, final(graph).nodes@),
            final(graph).edges@ == Graph::reset_edges(old(graph).edges@),
            final(self).start_idx == old(self).start_idx,
            final(self).timer.interval_ms == old(self).timer.interval_ms,
            final(self).timer.enabled,
            final(self).timer.acc_ms == 0,
            forall|i: int| final(graph).node_alive(i) ==> (final(graph).node_at(i).state
                is Visited || final(graph).node_at(i).state is NotVisited),
            forall|i: int| final(graph).node_alive(i) ==> (final(graph).node_at(i).state
                is Visited <==> old(graph).reachable(
                old(self).start_idx,
                NodeId { idx: i as usize },
            )),
            forall|n: NodeId|
                count_node_steps(final(self).steps@, n, NodeState::Visited) == (
                if final(graph).has_node(n) && old(graph).reachable(old(self).start_idx, n) {
                    1nat
                } else {
                    0nat
                }),
            queued_counts_ok(final(self).steps@, *final(graph)),
            final(self).steps@ == bfs_plan(
                Graph::reset_nodes(old(graph).nodes@),
                Graph::reset_edges(old(graph).edges@),
                old(self).start_idx,
            ),
    {
        let ghost gorig = *old(graph);
        self.reset_algorithm(graph);
        let ghost g1 = *graph;
        proof {
            assert forall|i: int| g1.node_alive(i) implies g1.node_at(i).state is NotVisited by {
                assert(gorig.node_alive(i));
            };
            assert(g1.has_node(self.start_idx)) by {
                assert(gorig.node_alive(self.start_idx.idx as int));
            };
        }
        self.bfs(graph);
        proof {
            let gf = *graph;
            let s = old(self).start_idx;
            assert(Graph::same_shape(g1, gorig)) by {
                assert forall|i: int| g1.node_alive(i) <==> #[trigger] gorig.node_alive(i) by {};
                assert forall|i: int| g1.edge_alive(i) <==> #[trigger] gorig.edge_alive(i) by {};
            };
            assert(Graph::same_shape(gorig, g1)) by {
                assert forall|i: int| gorig.node_alive(i) <==> #[trigger] g1.node_alive(i) by {};
                assert forall|i: int| gorig.edge_alive(i) <==> #[trigger] g1.edge_alive(i) by {};
            };
            assert forall|i: int| gf.node_alive(i) implies (gf.node_at(i).state is Visited
                <==> gorig.reachable(s, NodeId { idx: i as usize })) by {
                if g1.reachable(s, NodeId { idx: i as usize }) {
                    Graph::lemma_same_shape_reachable(g1, gorig, s, NodeId { idx: i as usize });
                }
                if gorig.reachable(s, NodeId { idx: i as usize }) {
                    Graph::lemma_same_shape_reachable(gorig, g1, s, NodeId { idx: i as usize });
                }
            };
            assert(Graph::same_but_states(gorig.nodes@, gf.nodes@)) by {
                assert(Graph::same_but_states(g1.nodes@, gf.nodes@));
                assert forall|i: int| 0 <= i < gorig.nodes@.len() implies ((gorig.nodes@[i]
                    is Some <==> gf.nodes@[i] is Some) && (gorig.nodes@[i] is Some
                    ==> gf.nodes@[i]->Some_0 == (crate::graph::Node {
                    state: gf.nodes@[i]->Some_0.state,
                    ..gorig.nodes@[i]->Some_0
                }))) by {};
            };
            assert forall|n: NodeId|
                count_node_steps(self.steps@, n, NodeState::Visited) == (
                if gf.has_node(n) && gorig.reachable(s, n) {
                    1nat
                } else {
                    0nat
                }) by {
                if gf.has_node(n) {
                    assert(n.idx as int == n.idx);
                    assert(NodeId { idx: n.idx } == n);
                }
            };
        }
    }

    /// Plans the traversal, hands the queue to a replayable result, restores
    /// the live graph to its visual baseline with the start node pinned, and
    /// starts the clock.
    pub fn show_bfs(self, graph: &mut Graph) -> (r: StepAlgorithmResult)
        requires
            old(graph).wf(),
            old(graph).has_node(self.start_idx),
            self.timer.wf(),
        ensures
            final(graph).wf(),
            r.wf(),
            r.next == 0,
            r.start_idx == self.start_idx,
            r.timer.enabled,
            r.timer.acc_ms == 0,
            r.timer.interval_ms == self.timer.interval_ms,
            forall|n: NodeId|
                count_node_steps(r.steps@, n, NodeState::Visited) == (
                if final(graph).has_node(n) && old(graph).reachable(self.start_idx, n) {
                    1nat
                } else {
                    0nat
                }),
            r.steps@ == bfs_plan(
                Graph::reset_nodes(old(graph).nodes@),
                Graph::reset_edges(old(graph).edges@),
                self.start_idx,
            ),
            final(graph).edges@ == Graph::reset_edges(old(graph).edges@),
            final(graph).nodes@ == Graph::reset_nodes(old(graph).nodes@).update(
                self.start_idx.idx as int,
                Some(
                    (crate::graph::Node {
                        ignore_force: true,
                        state: NodeState::NotVisited,
                        ..old(graph).node_at(self.start_idx.idx as int)
                    }),
                ),
            ),
    {
        let mut alg = self;
        alg.run_algorithm(graph);
        let ghost gmid = *graph;
        let Bfs { steps, timer, start_idx } = alg;
        let ghost planned = steps@;
        let mut result = StepAlgorithmResult::new(steps, timer, start_idx);
        result.show_algorithm(graph);
        proof {
            assert(gmid.has_node(start_idx));
            assert(result.steps@ == planned);
            assert forall|n: NodeId| gmid.has_node(n) <==> final(graph).has_node(n) by {
                // the baseline restore keeps every slot's liveness
            };
            assert(final(graph).nodes@ =~= Graph::reset_nodes(old(graph).nodes@).update(
                start_idx.idx as int,
                Some(
                    (crate::graph::Node {
                        ignore_force: true,
                        state: NodeState::NotVisited,
                        ..old(graph).node_at(start_idx.idx as int)
                    }),
                ),
            ));
            assert(final(graph).edges@ =~= Graph::reset_edges(old(graph).edges@));
            assert forall|n: NodeId|
                #![trigger count_node_steps(result.steps@, n, NodeState::Visited)]
                count_node_steps(result.steps@, n, NodeState::Visited) == (
                if final(graph).has_node(n) && old(graph).reachable(self.start_idx, n) {
                    1nat
                } else {
                    0nat
                }) by {
                assert(count_node_steps(planned, n, NodeState::Visited) == (
                if gmid.has_node(n) && old(graph).reachable(self.start_idx, n) {
                    1nat
                } else {
                    0nat
                }));
                assert(gmid.has_node(n) <==> final(graph).has_node(n));
            };
        }
        result
    }
}

} // verus!
