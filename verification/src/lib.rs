//! Interactive graph-visualization core: a slot-arena graph store with stable
//! handles, a force-directed layout engine over integer coordinates, and
//! traversal planning (depth-first, breadth-first) replayed as a timed queue
//! of discrete steps.
//!
//! Windowing, rendering and widget layout are left to the host; this crate
//! holds the data model and the algorithms, each with a verified contract.

use vstd::prelude::*;

pub mod force;
pub mod graph;
pub mod step_algorithms;


verus! {

/// Interaction mode of the host: `Write` while a node label is being edited,
/// `Normal` otherwise.
#[derive(Clone, Copy, PartialEq, Eq, Structural, Debug)]
pub enum AppMode {
    Write,
    Normal,
}

/// The live graph together with the traversal being replayed, if any.
/// Structural mutation is refused while the replay has steps left, so no
/// handle recorded in a pending step can go stale mid-replay.
pub struct Session {
    pub graph: graph::Graph,
    pub algorithm: Option<step_algorithms::algorithm::StepAlgorithmResult>,
}

impl Session {
    /// The graph is well formed, and so is the replay state if one is held.
    pub open spec fn wf(self) -> bool {
        &&& self.graph.wf()
        &&& self.algorithm is Some ==> self.algorithm->Some_0.wf()
    }

    /// A replay is attached and has steps left to apply.
    pub open spec fn animating(self) -> bool {
        self.algorithm is Some && !self.algorithm->Some_0.spec_drained()
    }

    /// Creates a session with an empty graph and no replay.
    pub fn new() -> (r: Session)
        ensures
            r.wf(),
            r.graph.nodes@.len() == 0,
            r.graph.edges@.len() == 0,
            r.algorithm is None,
    {
        Session { graph: graph::Graph::new(), algorithm: None }
    }

    /// Whether structural mutation is currently refused.
    pub fn is_animating(&self) -> (r: bool)
        ensures
            r == self.animating(),
    {
        match &self.algorithm {
            Some(alg) => !alg.is_drained(),
            None => false,
        }
    }

    /// Adds a node unless a replay is in progress.
    pub fn add_node(&mut self, x: i64, y: i64) -> (r: Option<graph::NodeId>)
        requires
            old(self).wf(),
            -graph::COORD_LIMIT <= x <= graph::COORD_LIMIT,
            -graph::COORD_LIMIT <= y <= graph::COORD_LIMIT,
        ensures
            final(self).wf(),
            final(self).algorithm == old(self).algorithm,
            old(self).animating() ==> r is None && final(self).graph == old(self).graph,
            !old(self).animating() ==> {
                &&& r == Some(graph::NodeId { idx: old(self).graph.nodes@.len() as usize })
                &&& final(self).graph.edges@ == old(self).graph.edges@
                &&& final(self).graph.nodes@ == old(self).graph.nodes@.push(
                    Some(
                        (graph::Node {
                            x,
                            y,
                            vx: 0,
                            vy: 0,
                            state: graph::NodeState::NotVisited,
                            ignore_force: false,
                            label: None::<String>,
                        }),
                    ),
                )
            },
    {
        if self.is_animating() {
            None
        } else {
            Some(self.graph.add_node(x, y))
        }
    }

    /// Adds an edge unless a replay is in progress; also refused for stale
    /// endpoints.
    pub fn add_edge(&mut self, from: graph::NodeId, to: graph::NodeId) -> (r: Option<
        graph::EdgeId,
    >)
        requires
            old(self).wf(),
        ensures
            final(self).wf(),
            final(self).algorithm == old(self).algorithm,
            old(self).animating() ==> r is None && final(self).graph == old(self).graph,
            !old(self).animating() ==> final(self).graph.nodes@ == old(self).graph.nodes@,
            !old(self).animating() && old(self).graph.has_node(from) && old(self).graph.has_node(
                to,
            ) ==> {
                &&& r == Some(graph::EdgeId { idx: old(self).graph.edges@.len() as usize })
                &&& final(self).graph.edges@ == old(self).graph.edges@.push(
                    Some((graph::Edge { from, to, enabled: true })),
                )
            },
            !old(self).animating() && !(old(self).graph.has_node(from)
                && old(self).graph.has_node(to)) ==> r is None && final(self).graph.edges@ == old(
                self,
            ).graph.edges@,
    {
        if self.is_animating() {
            None
        } else {
            self.graph.add_edge(from, to)
        }
    }

    /// Removes a node (and its incident edges) unless a replay is in
    /// progress.
    pub fn remove_node(&mut self, n: graph::NodeId)
        requires
            old(self).wf(),
        ensures
            final(self).wf(),
            final(self).algorithm == old(self).algorithm,
            old(self).animating() ==> final(self).graph == old(self).graph,
            !old(self).animating() ==> !final(self).graph.has_node(n),
            !old(self).animating() && old(self).graph.has_node(n) ==> {
                &&& final(self).graph.nodes@ == old(self).graph.nodes@.update(
                    n.idx as int,
                    None::<graph::Node>,
                )
                &&& final(self).graph.edges@.len() == old(self).graph.edges@.len()
                &&& forall|j: int| 0 <= j < old(self).graph.edges@.len()
                    ==> final(self).graph.edges@[j] == (
                    if old(self).graph.edge_alive(j) && (old(self).graph.edge_at(j).from == n
                        || old(self).graph.edge_at(j).to == n) {
                        None::<graph::Edge>
                    } else {
                        old(self).graph.edges@[j]
                    }
                )
            },
            !old(self).animating() && !old(self).graph.has_node(n) ==> final(self).graph == old(
                self,
            ).graph,
    {
        if !self.is_animating() {
            self.graph.remove_node(n);
        }
    }

    /// Removes an edge unless a replay is in progress.
    pub fn remove_edge(&mut self, e: graph::EdgeId)
        requires
            old(self).wf(),
        ensures
            final(self).wf(),
            final(self).algorithm == old(self).algorithm,
            old(self).animating() ==> final(self).graph == old(self).graph,
            !old(self).animating() ==> !final(self).graph.has_edge(e),
            !old(self).animating() ==> {
                &&& final(self).graph.nodes@ == old(self).graph.nodes@
                &&& (old(self).graph.has_edge(e) ==> final(self).graph.edges@ == old(
                    self,
                ).graph.edges@.update(e.idx as int, None::<graph::Edge>))
                &&& (!old(self).graph.has_edge(e) ==> final(self).graph.edges@ == old(
                    self,
                ).graph.edges@)
            },
    {
        if !self.is_animating() {
            self.graph.remove_edge(e);
        }
    }

    /// Attaches a freshly planned replay, discarding any previous one.
    pub fn add_algorithm(&mut self, algorithm_res: step_algorithms::algorithm::StepAlgorithmResult)
        requires
            old(self).wf(),
            algorithm_res.wf(),
        ensures
            final(self).wf(),
            final(self).graph == old(self).graph,
            final(self).algorithm == Some(algorithm_res),
    {
        self.algorithm = Some(algorithm_res);
    }

    /// Begins a traversal of the chosen kind from a start node: plans the
    /// whole step queue, restores the graph's visual baseline with the start
    /// node pinned, and attaches the replay (discarding any previous one).
    /// Refused, with nothing changed, when the handle is stale.
    pub fn start(&mut self, kind: AlgorithmKind, start_node: graph::NodeId) -> (r: bool)
        requires
            old(self).wf(),
        ensures
            final(self).wf(),
            r == old(self).graph.has_node(start_node),
            !r ==> *final(self) == *old(self),
            r ==> {
                &&& final(self).algorithm is Some
                &&& final(self).algorithm->Some_0.next == 0
                &&& final(self).algorithm->Some_0.start_idx == start_node
                &&& final(self).algorithm->Some_0.timer.enabled
                &&& final(self).algorithm->Some_0.timer.acc_ms == 0
                &&& forall|n: graph::NodeId|
                    step_algorithms::algorithm::count_node_steps(
                        final(self).algorithm->Some_0.steps@,
                        n,
                        graph::NodeState::Visited,
                    ) == (if final(self).graph.has_node(n) && old(self).graph.reachable(
                        start_node,
                        n,
                    ) {
                        1nat
                    } else {
                        0nat
                    })
                &&& (kind == AlgorithmKind::Dfs ==> final(self).algorithm->Some_0.steps@
                    == step_algorithms::dfs::dfs_plan(
                    graph::Graph::reset_nodes(old(self).graph.nodes@),
                    graph::Graph::reset_edges(old(self).graph.edges@),
                    start_node,
                ))
                &&& (kind == AlgorithmKind::Bfs ==> final(self).algorithm->Some_0.steps@
                    == step_algorithms::bfs::bfs_plan(
                    graph::Graph::reset_nodes(old(self).graph.nodes@),
                    graph::Graph::reset_edges(old(self).graph.edges@),
                    start_node,
                ))
                &&& final(self).graph.edges@ == graph::Graph::reset_edges(old(self).graph.edges@)
                &&& final(self).graph.nodes@ == graph::Graph::reset_nodes(
                    old(self).graph.nodes@,
                ).update(
                    start_node.idx as int,
                    Some(
                        (graph::Node {
                            ignore_force: true,
                            state: graph::NodeState::NotVisited,
                            ..old(self).graph.node_at(start_node.idx as int)
                        }),
                    ),
                )
            },
    {
        if self.graph.state_of(start_node).is_some() {
            let planned = match kind {
                AlgorithmKind::Dfs => step_algorithms::dfs::Dfs::new(start_node).show_dfs(
                    &mut self.graph,
                ),
                AlgorithmKind::Bfs => step_algorithms::bfs::Bfs::new(start_node).show_bfs(
                    &mut self.graph,
                ),
            };
            self.algorithm = Some(planned);
            true
        } else {
            false
        }
    }

    /// One frame: the force layout tick, then the step player, in that
    /// order, against the same graph.
    pub fn update(
        &mut self,
        push_conf: &force::PushConf,
        pull_conf: &force::PullConf,
        dt_ms: u64,
    )
        requires
            old(self).wf(),
            push_conf.wf(),
            pull_conf.wf(),
            dt_ms <= 1_000_000,
        ensures
            final(self).wf(),
            final(self).graph.nodes@.len() == old(self).graph.nodes@.len(),
            final(self).graph.edges@.len() == old(self).graph.edges@.len(),
            final(self).algorithm is Some <==> old(self).algorithm is Some,
            ({
                let ticked = force::spec_tick_nodes(
                    old(self).graph.nodes@,
                    old(self).graph.edges@,
                    *push_conf,
                    *pull_conf,
                    dt_ms as int,
                    old(self).graph.nodes@.len() as int,
                );
                match old(self).algorithm {
                    Some(alg) => ({
                        let fa = final(self).algorithm->Some_0;
                        let consumed = alg.steps@.subrange(alg.next as int, fa.next as int);
                        let acc1 = alg.timer.acc_ms.saturating_add(dt_ms);
                        let interval = alg.timer.interval_ms;
                        let avail = if alg.timer.enabled {
                            acc1 as int / interval as int
                        } else {
                            0int
                        };
                        let room = alg.steps@.len() - alg.next;
                        let applied = if avail <= room {
                            avail
                        } else {
                            room as int
                        };
                        &&& fa.steps@ == alg.steps@
                        &&& fa.start_idx == alg.start_idx
                        &&& fa.next == alg.next + applied
                        &&& final(self).graph.nodes@
                            == step_algorithms::algorithm::apply_steps_nodes(ticked, consumed)
                        &&& final(self).graph.edges@
                            == step_algorithms::algorithm::apply_steps_edges(
                            old(self).graph.edges@,
                            consumed,
                        )
                    }),
                    None => {
                        &&& final(self).graph.nodes@ == ticked
                        &&& final(self).graph.edges@ == old(self).graph.edges@
                    },
                }
            }),
    {
        force::update_forces(&mut self.graph, push_conf, pull_conf, dt_ms);
        if let Some(alg) = &mut self.algorithm {
            let ghost pre_nodes = self.graph.nodes@;
            let ghost pre_edges = self.graph.edges@;
            let ghost pre_alg = *alg;
            alg.update(&mut self.graph, dt_ms);
            proof {
                step_algorithms::algorithm::lemma_apply_steps_nodes_len(
                    pre_nodes,
                    pre_alg.steps@.subrange(pre_alg.next as int, alg.next as int),
                );
                step_algorithms::algorithm::lemma_apply_steps_edges_len(
                    pre_edges,
                    pre_alg.steps@.subrange(pre_alg.next as int, alg.next as int),
                );
            }
        }
    }
}

/// Which traversal to run.
#[derive(Clone, Copy, PartialEq, Eq, Structural, Debug)]
pub enum AlgorithmKind {
    Dfs,
    Bfs,
}

/// Mode transition for one mouse event: a right click on a node enters
/// `Write`; whenever no node is under the cursor the mode falls back to
/// `Normal`; otherwise the mode is kept.
pub fn next_mode(mode: AppMode, right_click: bool, node_under_cursor: bool) -> (r: AppMode)
    ensures
        !node_under_cursor ==> r == AppMode::Normal,
        node_under_cursor && right_click ==> r == AppMode::Write,
        node_under_cursor && !right_click ==> r == mode,
{
    let m = if right_click && node_under_cursor {
        AppMode::Write
    } else {
        mode
    };
    if !node_under_cursor {
        AppMode::Normal
    } else {
        m
    }
}

} // verus!
