//! Step records produced by traversal planning, and the step player that
//! replays them against the live graph at the timer's cadence.

use vstd::prelude::*;

use crate::graph::{Graph, Node, Edge, NodeId, EdgeId, NodeState};
use crate::step_algorithms::timer::Timer;

verus! {

/// A recorded node event: this node takes this traversal state.
#[derive(Clone, Copy, PartialEq, Eq, Structural, Debug)]
pub struct NodeStep {
    pub idx: NodeId,
    pub state: NodeState,
}

impl NodeStep {
    /// Creates a node step.
    pub fn new(idx: NodeId, state: NodeState) -> (r: NodeStep)
        ensures
            r == (NodeStep { idx, state }),
    {
        NodeStep { idx, state }
    }
}

/// A recorded edge event: this edge becomes enabled.
#[derive(Clone, Copy, PartialEq, Eq, Structural, Debug)]
pub struct EdgeStep {
    pub idx: EdgeId,
}

impl EdgeStep {
    /// Creates an edge step.
    pub fn new(idx: EdgeId) -> (r: EdgeStep)
        ensures
            r == (EdgeStep { idx }),
    {
        EdgeStep { idx }
    }
}

/// One discrete visual event of a traversal replay, immutable once planned.
#[derive(Clone, Copy, PartialEq, Eq, Structural, Debug)]
pub enum AlgorithmStep {
    Node(NodeStep),
    Edge(EdgeStep),
}

/// The step marks node `n` as taking state `st`.
pub open spec fn is_node_step(s: AlgorithmStep, n: NodeId, st: NodeState) -> bool {
    s == AlgorithmStep::Node(NodeStep { idx: n, state: st })
}

/// How many steps of the sequence mark node `n` as taking state `st`.
pub open spec fn count_node_steps(s: Seq<AlgorithmStep>, n: NodeId, st: NodeState) -> nat
    decreases s.len(),
{
    if s.len() == 0 {
        0
    } else {
        count_node_steps(s.drop_last(), n, st) + (if is_node_step(s.last(), n, st) {
            1nat
        } else {
            0nat
        })
    }
}

/// Appending one step adds to the count exactly when it is the counted step.
pub proof fn lemma_count_node_steps_push(
    s: Seq<AlgorithmStep>,
    x: AlgorithmStep,
    n: NodeId,
    st: NodeState,
)
    ensures
        count_node_steps(s.push(x), n, st) == count_node_steps(s, n, st) + (if is_node_step(
            x,
            n,
            st,
        ) {
            1nat
        } else {
            0nat
        }),
{
    assert(s.push(x).drop_last() =~= s);
    assert(s.push(x).last() == x);
}

/// The step sequence holds exactly one `Visited` mark for every live node
/// now colored `Visited`, and none for any other node.
pub open spec fn visited_counts_ok(steps: Seq<AlgorithmStep>, g: Graph) -> bool {
    forall|n: NodeId|
        #![trigger count_node_steps(steps, n, NodeState::Visited)]
        count_node_steps(steps, n, NodeState::Visited) == (
        if g.has_node(n) && g.node_at(n.idx as int).state is Visited {
            1nat
        } else {
            0nat
        })
}

/// The step sequence holds exactly one `Queued` mark for every live node the
/// traversal has touched (colored `Queued` or `Visited`), and none for any
/// other node.
pub open spec fn queued_counts_ok(steps: Seq<AlgorithmStep>, g: Graph) -> bool {
    forall|n: NodeId|
        #![trigger count_node_steps(steps, n, NodeState::Queued)]
        count_node_steps(steps, n, NodeState::Queued) == (
        if g.has_node(n) && !(g.node_at(n.idx as int).state is NotVisited) {
            1nat
        } else {
            0nat
        })
}

/// Whether a node slot holds a live, still unvisited node (weight for the
/// planners' termination measure).
pub open spec fn unvisited_weight(o: Option<Node>) -> nat {
    if o is Some && o->Some_0.state is NotVisited {
        1
    } else {
        0
    }
}

/// How many slots hold a live node still in state `NotVisited`.
pub open spec fn count_unvisited(s: Seq<Option<Node>>) -> nat
    decreases s.len(),
{
    if s.len() == 0 {
        0
    } else {
        count_unvisited(s.drop_last()) + unvisited_weight(s.last())
    }
}

/// Replacing one slot shifts the unvisited count by the difference of the
/// slot weights.
pub proof fn lemma_count_unvisited_update(s: Seq<Option<Node>>, i: int, nd: Option<Node>)
    requires
        0 <= i < s.len(),
    ensures
        count_unvisited(s.update(i, nd)) + unvisited_weight(s[i]) == count_unvisited(s)
            + unvisited_weight(nd),
    decreases s.len(),
{
    if i == s.len() - 1 {
        assert(s.update(i, nd).drop_last() =~= s.drop_last());
        assert(s.update(i, nd).last() == nd);
    } else {
        assert(s.update(i, nd).drop_last() =~= s.drop_last().update(i, nd));
        assert(s.update(i, nd).last() == s.last());
        lemma_count_unvisited_update(s.drop_last(), i, nd);
    }
}

/// The node slots after recoloring the node in slot `i`; slots out of range
/// or empty are left alone, exactly as the graph's state setter behaves.
pub open spec fn set_state_slot(nodes: Seq<Option<Node>>, i: int, st: NodeState) -> Seq<
    Option<Node>,
> {
    if 0 <= i < nodes.len() && nodes[i] is Some {
        nodes.update(i, Some(Node { state: st, ..nodes[i]->Some_0 }))
    } else {
        nodes
    }
}

/// Recoloring away from `NotVisited` never raises the unvisited count, and
/// lowers it by exactly one when the slot held an unvisited node.
pub proof fn lemma_count_set_state(nodes: Seq<Option<Node>>, i: int, st: NodeState)
    requires
        !(st is NotVisited),
    ensures
        count_unvisited(set_state_slot(nodes, i, st)) <= count_unvisited(nodes),
        (0 <= i < nodes.len() && nodes[i] is Some && nodes[i]->Some_0.state is NotVisited)
            ==> count_unvisited(set_state_slot(nodes, i, st)) == count_unvisited(nodes) - 1,
        !(0 <= i < nodes.len() && nodes[i] is Some && nodes[i]->Some_0.state is NotVisited)
            ==> count_unvisited(set_state_slot(nodes, i, st)) == count_unvisited(nodes),
{
    if 0 <= i < nodes.len() && nodes[i] is Some {
        lemma_count_unvisited_update(
            nodes,
            i,
            Some(Node { state: st, ..nodes[i]->Some_0 }),
        );
    }
}

/// Edge slot `e` is a planning candidate from `u`: live, leaving `u`, and
/// pointing at a live node still colored `NotVisited`.
pub open spec fn fresh_edge_at(
    nodes: Seq<Option<Node>>,
    edges: Seq<Option<Edge>>,
    u: NodeId,
    e: int,
) -> bool {
    &&& 0 <= e < edges.len()
    &&& edges[e] is Some
    &&& edges[e]->Some_0.from == u
    &&& edges[e]->Some_0.to.idx < nodes.len()
    &&& nodes[edges[e]->Some_0.to.idx as int] is Some
    &&& nodes[edges[e]->Some_0.to.idx as int]->Some_0.state is NotVisited
}

/// The first planning candidate from `u` at or after edge slot `c`, with its
/// target node; `None` when no candidate remains.
pub open spec fn first_fresh_edge(
    nodes: Seq<Option<Node>>,
    edges: Seq<Option<Edge>>,
    u: NodeId,
    c: int,
) -> Option<(int, NodeId)>
    decreases edges.len() - c,
{
    if c < 0 || c >= edges.len() {
        None
    } else if fresh_edge_at(nodes, edges, u, c) {
        Some((c, edges[c]->Some_0.to))
    } else {
        first_fresh_edge(nodes, edges, u, c + 1)
    }
}

/// A found candidate is one, lies at or after the scan start, and its target
/// is a live unvisited node.
pub proof fn lemma_first_fresh_edge_some(
    nodes: Seq<Option<Node>>,
    edges: Seq<Option<Edge>>,
    u: NodeId,
    c: int,
)
    requires
        first_fresh_edge(nodes, edges, u, c) is Some,
    ensures
        ({
            let pair = first_fresh_edge(nodes, edges, u, c)->Some_0;
            &&& c <= pair.0
            &&& fresh_edge_at(nodes, edges, u, pair.0)
            &&& pair.1 == edges[pair.0]->Some_0.to
        }),
    decreases edges.len() - c,
{
    if !(c < 0 || c >= edges.len()) && !fresh_edge_at(nodes, edges, u, c) {
        lemma_first_fresh_edge_some(nodes, edges, u, c + 1);
    }
}

/// Scanning past a candidate-free stretch does not change what is found.
pub proof fn lemma_first_fresh_edge_skip(
    nodes: Seq<Option<Node>>,
    edges: Seq<Option<Edge>>,
    u: NodeId,
    c: int,
    j: int,
)
    requires
        0 <= c <= j <= edges.len(),
        forall|e: int| c <= e < j ==> !#[trigger] fresh_edge_at(nodes, edges, u, e),
    ensures
        first_fresh_edge(nodes, edges, u, c) == first_fresh_edge(nodes, edges, u, j),
    decreases j - c,
{
    if c < j {
        assert(!fresh_edge_at(nodes, edges, u, c));
        lemma_first_fresh_edge_skip(nodes, edges, u, c + 1, j);
    }
}

/// Node slots after one step is applied: a node step recolors its target if
/// it is still live, and anything else leaves the nodes alone.
pub open spec fn apply_step_nodes(nodes: Seq<Option<Node>>, s: AlgorithmStep) -> Seq<Option<Node>> {
    match s {
        AlgorithmStep::Node(ns) => if 0 <= ns.idx.idx < nodes.len() && nodes[ns.idx.idx as int]
            is Some {
            nodes.update(
                ns.idx.idx as int,
                Some(Node { state: ns.state, ..nodes[ns.idx.idx as int]->Some_0 }),
            )
        } else {
            nodes
        },
        AlgorithmStep::Edge(_) => nodes,
    }
}

/// Edge slots after one step is applied: an edge step enables its target if
/// it is still live, and anything else leaves the edges alone.
pub open spec fn apply_step_edges(edges: Seq<Option<Edge>>, s: AlgorithmStep) -> Seq<Option<Edge>> {
    match s {
        AlgorithmStep::Edge(es) => if 0 <= es.idx.idx < edges.len() && edges[es.idx.idx as int]
            is Some {
            edges.update(
                es.idx.idx as int,
                Some(Edge { enabled: true, ..edges[es.idx.idx as int]->Some_0 }),
            )
        } else {
            edges
        },
        AlgorithmStep::Node(_) => edges,
    }
}

/// Node slots after a whole sequence of steps is applied in order.
pub open spec fn apply_steps_nodes(nodes: Seq<Option<Node>>, steps: Seq<AlgorithmStep>) -> Seq<
    Option<Node>,
>
    decreases steps.len(),
{
    if steps.len() == 0 {
        nodes
    } else {
        apply_step_nodes(apply_steps_nodes(nodes, steps.drop_last()), steps.last())
    }
}

/// Edge slots after a whole sequence of steps is applied in order.
pub open spec fn apply_steps_edges(edges: Seq<Option<Edge>>, steps: Seq<AlgorithmStep>) -> Seq<
    Option<Edge>,
>
    decreases steps.len(),
{
    if steps.len() == 0 {
        edges
    } else {
        apply_step_edges(apply_steps_edges(edges, steps.drop_last()), steps.last())
    }
}

/// Applying steps never changes how many node slots there are.
pub proof fn lemma_apply_steps_nodes_len(nodes: Seq<Option<Node>>, steps: Seq<AlgorithmStep>)
    ensures
        apply_steps_nodes(nodes, steps).len() == nodes.len(),
    decreases steps.len(),
{
    if steps.len() > 0 {
        lemma_apply_steps_nodes_len(nodes, steps.drop_last());
    }
}

/// Applying steps never changes how many edge slots there are.
pub proof fn lemma_apply_steps_edges_len(edges: Seq<Option<Edge>>, steps: Seq<AlgorithmStep>)
    ensures
        apply_steps_edges(edges, steps).len() == edges.len(),
    decreases steps.len(),
{
    if steps.len() > 0 {
        lemma_apply_steps_edges_len(edges, steps.drop_last());
    }
}

/// A finished traversal, ready for replay: the planned step queue (consumed
/// front to back through `next`), the pacing timer, and the start node.
pub struct StepAlgorithmResult {
    pub steps: Vec<AlgorithmStep>,
    pub next: usize,
    pub timer: Timer,
    pub start_idx: NodeId,
}

impl StepAlgorithmResult {
    /// The cursor never runs past the planned queue and the timer is sound.
    pub open spec fn wf(self) -> bool {
        self.next <= self.steps@.len() && self.timer.wf()
    }

    /// Replay has consumed the whole queue.
    pub open spec fn spec_drained(self) -> bool {
        self.next == self.steps@.len()
    }

    /// Wraps a planned queue for replay from its beginning.
    pub fn new(steps: Vec<AlgorithmStep>, timer: Timer, start_idx: NodeId) -> (r:
        StepAlgorithmResult)
        requires
            timer.wf(),
        ensures
            r.wf(),
            r.steps == steps,
            r.next == 0,
            r.timer == timer,
            r.start_idx == start_idx,
    {
        StepAlgorithmResult { steps, next: 0, timer, start_idx }
    }

    /// The traversal's start node.
    pub fn start_idx(&self) -> (r: NodeId)
        ensures
            r == self.start_idx,
    {
        self.start_idx
    }

    /// Read access to the pacing timer.
    pub fn timer(&self) -> (r: &Timer)
        ensures
            r == self.timer,
    {
        &self.timer
    }

    /// The planned steps.
    pub fn steps(&self) -> (r: &Vec<AlgorithmStep>)
        ensures
            r == self.steps,
    {
        &self.steps
    }

    /// Replay progress for display: steps applied so far, and steps planned.
    pub fn current_step_progress(&self) -> (r: (usize, usize))
        ensures
            r.0 == self.next,
            r.1 == self.steps@.len(),
    {
        (self.next, self.steps.len())
    }

    /// Whether the queue is fully drained.
    pub fn is_drained(&self) -> (r: bool)
        ensures
            r == self.spec_drained(),
    {
        self.next == self.steps.len()
    }

    /// Restores the live graph to the pre-traversal visual baseline (every
    /// node `NotVisited`, every edge disabled), pins the start node so the
    /// animation keeps its anchor, and restarts the timer.
    pub fn show_algorithm(&mut self, graph: &mut Graph)
        requires
            old(graph).wf(),
            old(self).wf(),
        ensures
            final(self).wf(),
            final(graph).wf(),
            final(self).steps == old(self).steps,
            final(self).next == old(self).next,
            final(self).start_idx == old(self).start_idx,
            final(self).timer.interval_ms == old(self).timer.interval_ms,
            final(self).timer.enabled,
            final(self).timer.acc_ms == 0,
            final(graph).edges@ == Graph::reset_edges(old(graph).edges@),
            old(graph).has_node(old(self).start_idx) ==> final(graph).nodes@ == Graph::reset_nodes(
                old(graph).nodes@,
            ).update(
                old(self).start_idx.idx as int,
                Some(
                    Node {
                        ignore_force: true,
                        state: NodeState::NotVisited,
                        ..old(graph).node_at(old(self).start_idx.idx as int)
                    },
                ),
            ),
            !old(graph).has_node(old(self).start_idx) ==> final(graph).nodes@
                == Graph::reset_nodes(old(graph).nodes@),
    {
        graph.reset_states();
        graph.disable_all_edges();
        let ghost mid = *graph;
        graph.set_ignore_force(self.start_idx, true);
        proof {
            if old(graph).has_node(self.start_idx) {
                assert(mid.has_node(self.start_idx));
                assert(mid.node_at(self.start_idx.idx as int) == Node {
                    state: NodeState::NotVisited,
                    ..old(graph).node_at(self.start_idx.idx as int)
                });
            }
        }
        self.timer.restart();
    }

    /// Replays steps at the timer's cadence: each full interval accumulated
    /// applies the next planned step, in planning order, until the queue is
    /// drained; the queue itself is never changed and never overrun.
    pub fn update(&mut self, graph: &mut Graph, elapsed_ms: u64)
        requires
            old(graph).wf(),
            old(self).wf(),
        ensures
            final(self).wf(),
            final(graph).wf(),
            final(self).steps@ == old(self).steps@,
            final(self).start_idx == old(self).start_idx,
            final(self).timer.interval_ms == old(self).timer.interval_ms,
            final(self).timer.enabled == old(self).timer.enabled,
            old(self).next <= final(self).next <= old(self).steps@.len(),
            ({
                let acc1 = old(self).timer.acc_ms.saturating_add(elapsed_ms);
                let interval = old(self).timer.interval_ms;
                let avail = if old(self).timer.enabled {
                    acc1 as int / interval as int
                } else {
                    0
                };
                let room = old(self).steps@.len() - old(self).next;
                let applied = if avail <= room {
                    avail
                } else {
                    room as int
                };
                &&& final(self).next == old(self).next + applied
                &&& final(self).timer.acc_ms == acc1 - applied * interval
            }),
            final(graph).nodes@ == apply_steps_nodes(
                old(graph).nodes@,
                old(self).steps@.subrange(old(self).next as int, final(self).next as int),
            ),
            final(graph).edges@ == apply_steps_edges(
                old(graph).edges@,
                old(self).steps@.subrange(old(self).next as int, final(self).next as int),
            ),
    {
        self.timer.update(elapsed_ms);
        let ghost acc1 = self.timer.acc_ms;
        let ghost interval = self.timer.interval_ms;
        let ghost orig_next = self.next;
        let ghost orig_nodes = graph.nodes@;
        let ghost orig_edges = graph.edges@;
        let ghost orig_steps = self.steps@;
        proof {
            assert(orig_steps.subrange(orig_next as int, orig_next as int) =~= Seq::empty());
        }
        while self.timer.ready() && self.next < self.steps.len()
            invariant
                self.timer.wf(),
                graph.wf(),
                self.timer.interval_ms == interval,
                self.timer.enabled == old(self).timer.enabled,
                self.steps@ == orig_steps,
                self.start_idx == old(self).start_idx,
                orig_next <= self.next <= orig_steps.len(),
                self.timer.enabled ==> acc1 == self.timer.acc_ms + (self.next - orig_next)
                    * interval,
                !self.timer.enabled ==> self.next == orig_next && self.timer.acc_ms == acc1,
                graph.nodes@ == apply_steps_nodes(
                    orig_nodes,
                    orig_steps.subrange(orig_next as int, self.next as int),
                ),
                graph.edges@ == apply_steps_edges(
                    orig_edges,
                    orig_steps.subrange(orig_next as int, self.next as int),
                ),
            decreases orig_steps.len() - self.next,
        {
            self.timer.consume();
            let ghost pre_nodes = graph.nodes@;
            let ghost pre_edges = graph.edges@;
            let step = self.steps[self.next];
            match step {
                AlgorithmStep::Node(ns) => {
                    graph.set_state(ns.idx, ns.state);
                },
                AlgorithmStep::Edge(es) => {
                    graph.set_enabled(es.idx, true);
                },
            }
            proof {
                assert(graph.nodes@ == apply_step_nodes(pre_nodes, step));
                assert(graph.edges@ == apply_step_edges(pre_edges, step));
                let lo = orig_next as int;
                let hi = self.next as int;
                assert(orig_steps.subrange(lo, hi + 1).drop_last() =~= orig_steps.subrange(
                    lo,
                    hi,
                ));
                assert(orig_steps.subrange(lo, hi + 1).last() == orig_steps[hi]);
                assert((self.next - orig_next + 1) * interval == (self.next - orig_next)
                    * interval + interval) by (nonlinear_arith);
            }
            self.next = self.next + 1;
        }
        proof {
            let applied = self.next - orig_next;
            let room = orig_steps.len() - orig_next;
            if old(self).timer.enabled {
                assert(acc1 == self.timer.acc_ms + applied * interval);
                if self.next < orig_steps.len() {
                    assert(self.timer.acc_ms < interval);
                    vstd::arithmetic::div_mod::lemma_fundamental_div_mod_converse(
                        acc1 as int,
                        interval as int,
                        applied,
                        self.timer.acc_ms as int,
                    );
                    assert(applied == acc1 as int / interval as int);
                } else {
                    assert(applied == room);
                    assert(acc1 as int == self.timer.acc_ms + applied * (interval as int));
                    assert(self.timer.acc_ms as int / interval as int + applied == (
                    self.timer.acc_ms + applied * (interval as int)) / interval as int) by {
                        vstd::arithmetic::div_mod::lemma_hoist_over_denominator(
                            self.timer.acc_ms as int,
                            applied,
                            interval as nat,
                        );
                    };
                    assert(self.timer.acc_ms as int / interval as int >= 0) by {
                        vstd::arithmetic::div_mod::lemma_div_pos_is_pos(
                            self.timer.acc_ms as int,
                            interval as int,
                        );
                    };
                    assert(acc1 as int / interval as int >= applied);
                }
            }
        }
    }
}

} // verus!
