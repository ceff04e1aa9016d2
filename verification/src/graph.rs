//! Graph store: nodes and edges held in grow-only slot arrays, addressed by
//! stable handles. A removed element leaves an empty slot behind and slots are
//! never reused, so a stale handle is detectable and never aliases a later
//! element. Removing a node also removes every incident edge.

use vstd::prelude::*;

verus! {

/// Coordinates are kept within this bound so that squared distances and
/// force sums stay inside the machine integer ranges.
pub const COORD_LIMIT: i64 = 1_000_000_000;

/// Velocities are clamped to this bound before integration.
pub const VEL_LIMIT: i64 = 1_000_000;

/// Visual radius of a node, used by point hit-testing.
pub const NODE_RADIUS: i64 = 30;

/// Traversal coloring of a node.
#[derive(Clone, Copy, PartialEq, Eq, Structural, Debug)]
pub enum NodeState {
    NotVisited,
    Queued,
    Visited,
}

/// Stable handle to a node slot.
#[derive(Clone, Copy, PartialEq, Eq, Structural, Debug)]
pub struct NodeId {
    pub idx: usize,
}

/// Stable handle to an edge slot.
#[derive(Clone, Copy, PartialEq, Eq, Structural, Debug)]
pub struct EdgeId {
    pub idx: usize,
}

/// A node: position and velocity on the canvas, traversal state, a flag that
/// excludes it from force integration, and an optional label.
pub struct Node {
    pub x: i64,
    pub y: i64,
    pub vx: i64,
    pub vy: i64,
    pub state: NodeState,
    pub ignore_force: bool,
    pub label: Option<String>,
}

/// A directed edge between two live nodes; `enabled` gates pull forces and is
/// used to reveal edges during traversal playback.
pub struct Edge {
    pub from: NodeId,
    pub to: NodeId,
    pub enabled: bool,
}

/// Direction selector for neighbor iteration.
#[derive(Clone, Copy, PartialEq, Eq, Structural, Debug)]
pub enum Direction {
    Outgoing,
    Incoming,
    Both,
}

/// The graph: slot arrays of nodes and edges. An empty (`None`) slot marks a
/// removed element; its index is never handed out again.
pub struct Graph {
    pub nodes: Vec<Option<Node>>,
    pub edges: Vec<Option<Edge>>,
}

impl Graph {
    /// The node slot `i` holds a live node.
    pub open spec fn node_alive(self, i: int) -> bool {
        0 <= i < self.nodes@.len() && self.nodes@[i] is Some
    }

    /// The edge slot `i` holds a live edge.
    pub open spec fn edge_alive(self, i: int) -> bool {
        0 <= i < self.edges@.len() && self.edges@[i] is Some
    }

    /// The handle refers to a live node.
    pub open spec fn has_node(self, n: NodeId) -> bool {
        self.node_alive(n.idx as int)
    }

    /// The handle refers to a live edge.
    pub open spec fn has_edge(self, e: EdgeId) -> bool {
        self.edge_alive(e.idx as int)
    }

    /// The live node in slot `i`.
    pub open spec fn node_at(self, i: int) -> Node
        recommends self.node_alive(i),
    {
        self.nodes@[i]->Some_0
    }

    /// The live edge in slot `i`.
    pub open spec fn edge_at(self, i: int) -> Edge
        recommends self.edge_alive(i),
    {
        self.edges@[i]->Some_0
    }

    /// A node's coordinates and velocity are within the configured bounds.
    pub open spec fn node_in_bounds(n: Node) -> bool {
        &&& -COORD_LIMIT <= n.x <= COORD_LIMIT
        &&& -COORD_LIMIT <= n.y <= COORD_LIMIT
        &&& -VEL_LIMIT <= n.vx <= VEL_LIMIT
        &&& -VEL_LIMIT <= n.vy <= VEL_LIMIT
    }

    /// Well-formedness: every live edge joins two live nodes, and every live
    /// node lies within the coordinate and velocity bounds.
    pub open spec fn wf(self) -> bool {
        &&& forall|i: int| #[trigger] self.edge_alive(i) ==> self.has_node(self.edge_at(i).from)
            && self.has_node(self.edge_at(i).to)
        &&& forall|i: int| #[trigger] self.node_alive(i) ==> Self::node_in_bounds(self.node_at(i))
    }

    /// A node slot after a traversal reset: the state returns to
    /// `NotVisited`, everything else is kept.
    pub open spec fn reset_node_slot(s: Option<Node>) -> Option<Node> {
        match s {
            Some(n) => Some(Node { state: NodeState::NotVisited, ..n }),
            None => None,
        }
    }

    /// An edge slot after a traversal reset: the edge is disabled.
    pub open spec fn reset_edge_slot(s: Option<Edge>) -> Option<Edge> {
        match s {
            Some(e) => Some(Edge { enabled: false, ..e }),
            None => None,
        }
    }

    /// The node slots after a traversal reset.
    pub open spec fn reset_nodes(s: Seq<Option<Node>>) -> Seq<Option<Node>> {
        s.map_values(|o: Option<Node>| Self::reset_node_slot(o))
    }

    /// The edge slots after a traversal reset.
    pub open spec fn reset_edges(s: Seq<Option<Edge>>) -> Seq<Option<Edge>> {
        s.map_values(|o: Option<Edge>| Self::reset_edge_slot(o))
    }

    /// Running the traversal reset twice leaves the slots exactly as running
    /// it once: all states `NotVisited` and all edges disabled either way.
    pub proof fn lemma_reset_idempotent(nodes: Seq<Option<Node>>, edges: Seq<Option<Edge>>)
        ensures
            Self::reset_nodes(Self::reset_nodes(nodes)) == Self::reset_nodes(nodes),
            Self::reset_edges(Self::reset_edges(edges)) == Self::reset_edges(edges),
    {
        let rn = Self::reset_nodes(nodes);
        assert forall|i: int| 0 <= i < rn.len() implies Self::reset_nodes(rn)[i] == rn[i] by {
            assert(rn[i] == Self::reset_node_slot(nodes[i]));
        };
        assert(Self::reset_nodes(rn) =~= rn);
        let re = Self::reset_edges(edges);
        assert forall|i: int| 0 <= i < re.len() implies Self::reset_edges(re)[i] == re[i] by {
            assert(re[i] == Self::reset_edge_slot(edges[i]));
        };
        assert(Self::reset_edges(re) =~= re);
    }

    /// Creates an empty graph.
    pub fn new() -> (g: Graph)
        ensures
            g.wf(),
            g.nodes@.len() == 0,
            g.edges@.len() == 0,
    {
        Graph { nodes: Vec::new(), edges: Vec::new() }
    }

    /// Adds a node at the given position; returns its handle. Handles are
    /// indices into a grow-only array, so the new handle was never in use.
    pub fn add_node(&mut self, x: i64, y: i64) -> (r: NodeId)
        requires
            old(self).wf(),
            -COORD_LIMIT <= x <= COORD_LIMIT,
            -COORD_LIMIT <= y <= COORD_LIMIT,
        ensures
            final(self).wf(),
            r.idx == old(self).nodes@.len(),
            final(self).nodes@ == old(self).nodes@.push(Some(Node {
                x, y, vx: 0, vy: 0,
                state: NodeState::NotVisited,
                ignore_force: false,
                label: None::<String>,
            })),
            final(self).edges@ == old(self).edges@,
    {
        let id = NodeId { idx: self.nodes.len() };
        self.nodes.push(Some(Node {
            x, y, vx: 0, vy: 0,
            state: NodeState::NotVisited,
            ignore_force: false,
            label: None,
        }));
        proof {
            assert forall|i: int| self.edge_alive(i) implies #[trigger] self.has_node(
                self.edge_at(i).from,
            ) by {
                assert(old(self).edge_alive(i));
                assert(old(self).has_node(old(self).edge_at(i).from));
            };
            assert forall|i: int| self.edge_alive(i) implies #[trigger] self.has_node(
                self.edge_at(i).to,
            ) by {
                assert(old(self).edge_alive(i));
                assert(old(self).has_node(old(self).edge_at(i).to));
            };
            assert forall|i: int| self.node_alive(i) implies #[trigger] Self::node_in_bounds(
                self.node_at(i),
            ) by {
                if i < old(self).nodes@.len() {
                    assert(old(self).node_alive(i));
                    assert(Self::node_in_bounds(old(self).node_at(i)));
                } else {
                    assert(self.nodes@[i] == Some(Node {
                        x, y, vx: 0, vy: 0,
                        state: NodeState::NotVisited,
                        ignore_force: false,
                        label: None::<String>,
                    }));
                }
            };
        }
        id
    }

    /// Adds a directed edge between two live nodes, initially enabled, and
    /// returns its handle; with a stale endpoint handle it adds nothing.
    pub fn add_edge(&mut self, from: NodeId, to: NodeId) -> (r: Option<EdgeId>)
        requires
            old(self).wf(),
        ensures
            final(self).wf(),
            final(self).nodes@ == old(self).nodes@,
            old(self).has_node(from) && old(self).has_node(to) ==> {
                &&& r == Some(EdgeId { idx: old(self).edges@.len() as usize })
                &&& final(self).edges@ == old(self).edges@.push(Some(Edge { from, to, enabled: true }))
            },
            !(old(self).has_node(from) && old(self).has_node(to)) ==> {
                &&& r is None
                &&& final(self).edges@ == old(self).edges@
            },
    {
        if from.idx < self.nodes.len() && self.nodes[from.idx].is_some()
            && to.idx < self.nodes.len() && self.nodes[to.idx].is_some()
        {
            let id = EdgeId { idx: self.edges.len() };
            self.edges.push(Some(Edge { from, to, enabled: true }));
            proof {
                assert forall|i: int| self.edge_alive(i) implies #[trigger] self.has_node(
                    self.edge_at(i).from,
                ) by {
                    if i < old(self).edges@.len() {
                        assert(old(self).edge_alive(i));
                        assert(old(self).has_node(old(self).edge_at(i).from));
                    } else {
                        assert(self.edges@[i] == Some(Edge { from, to, enabled: true }));
                    }
                };
                assert forall|i: int| self.edge_alive(i) implies #[trigger] self.has_node(
                    self.edge_at(i).to,
                ) by {
                    if i < old(self).edges@.len() {
                        assert(old(self).edge_alive(i));
                        assert(old(self).has_node(old(self).edge_at(i).to));
                    } else {
                        assert(self.edges@[i] == Some(Edge { from, to, enabled: true }));
                    }
                };
                assert forall|i: int| self.node_alive(i) implies #[trigger] Self::node_in_bounds(
                    self.node_at(i),
                ) by {
                    assert(old(self).node_alive(i));
                    assert(Self::node_in_bounds(old(self).node_at(i)));
                };
            }
            Some(id)
        } else {
            None
        }
    }

    /// Replacing a live node slot by another in-bounds node keeps the graph
    /// well-formed.
    proof fn lemma_wf_node_replaced(g1: Graph, g2: Graph, i: int, nd: Node)
        requires
            g1.wf(),
            g1.node_alive(i),
            0 <= i < g1.nodes@.len(),
            Graph::node_in_bounds(nd),
            g2.nodes@ == g1.nodes@.update(i, Some(nd)),
            g2.edges@ == g1.edges@,
        ensures
            g2.wf(),
    {
        assert forall|j: int| #[trigger] g2.edge_alive(j) implies g2.has_node(g2.edge_at(j).from)
            && g2.has_node(g2.edge_at(j).to) by {
            assert(g1.edge_alive(j));
        };
        assert forall|j: int| #[trigger] g2.node_alive(j) implies Self::node_in_bounds(
            g2.node_at(j),
        ) by {
            if j != i {
                assert(g1.node_alive(j));
            }
        };
    }

    /// Replacing a live edge slot by an edge between the same endpoints keeps
    /// the graph well-formed.
    proof fn lemma_wf_edge_replaced(g1: Graph, g2: Graph, i: int, e: Edge)
        requires
            g1.wf(),
            g1.edge_alive(i),
            0 <= i < g1.edges@.len(),
            e.from == g1.edge_at(i).from,
            e.to == g1.edge_at(i).to,
            g2.nodes@ == g1.nodes@,
            g2.edges@ == g1.edges@.update(i, Some(e)),
        ensures
            g2.wf(),
    {
        assert forall|j: int| #[trigger] g2.edge_alive(j) implies g2.has_node(g2.edge_at(j).from)
            && g2.has_node(g2.edge_at(j).to) by {
            assert(g1.edge_alive(j));
        };
        assert forall|j: int| #[trigger] g2.node_alive(j) implies Self::node_in_bounds(
            g2.node_at(j),
        ) by {
            assert(g1.node_alive(j));
        };
    }

    /// Emptying an edge slot keeps the graph well-formed.
    proof fn lemma_wf_edge_removed(g1: Graph, g2: Graph, i: int)
        requires
            g1.wf(),
            0 <= i < g1.edges@.len(),
            g2.nodes@ == g1.nodes@,
            g2.edges@ == g1.edges@.update(i, None::<Edge>),
        ensures
            g2.wf(),
    {
        assert forall|j: int| #[trigger] g2.edge_alive(j) implies g2.has_node(g2.edge_at(j).from)
            && g2.has_node(g2.edge_at(j).to) by {
            assert(g1.edge_alive(j));
        };
        assert forall|j: int| #[trigger] g2.node_alive(j) implies Self::node_in_bounds(
            g2.node_at(j),
        ) by {
            assert(g1.node_alive(j));
        };
    }

    /// Well-formedness depends only on the slot contents, so it carries over
    /// between graphs whose slot sequences are equal.
    proof fn lemma_wf_same_views(g1: Graph, g2: Graph)
        requires
            g1.wf(),
            g2.nodes@ == g1.nodes@,
            g2.edges@ == g1.edges@,
        ensures
            g2.wf(),
    {
        assert forall|j: int| #[trigger] g2.edge_alive(j) implies g2.has_node(g2.edge_at(j).from)
            && g2.has_node(g2.edge_at(j).to) by {
            assert(g1.edge_alive(j));
        };
        assert forall|j: int| #[trigger] g2.node_alive(j) implies Self::node_in_bounds(
            g2.node_at(j),
        ) by {
            assert(g1.node_alive(j));
        };
    }

    /// Removes an edge; with a stale handle this is a no-op.
    pub fn remove_edge(&mut self, e: EdgeId)
        requires
            old(self).wf(),
        ensures
            final(self).wf(),
            final(self).nodes@ == old(self).nodes@,
            old(self).has_edge(e) ==> final(self).edges@ == old(self).edges@.update(
                e.idx as int,
                None::<Edge>,
            ),
            !old(self).has_edge(e) ==> final(self).edges@ == old(self).edges@,
    {
        if e.idx < self.edges.len() {
            let taken = self.edges[e.idx].take();
            if taken.is_some() {
                proof {
                    assert(self.edges@ =~= old(self).edges@.update(e.idx as int, None::<Edge>));
                    Self::lemma_wf_edge_removed(*old(self), *self, e.idx as int);
                }
            } else {
                proof {
                    assert(self.edges@ =~= old(self).edges@);
                    Self::lemma_wf_same_views(*old(self), *self);
                }
            }
        }
    }

    /// Sets a node's traversal state; with a stale handle this is a no-op.
    pub fn set_state(&mut self, n: NodeId, s: NodeState)
        requires
            old(self).wf(),
        ensures
            final(self).wf(),
            final(self).edges@ == old(self).edges@,
            old(self).has_node(n) ==> final(self).nodes@ == old(self).nodes@.update(
                n.idx as int,
                Some(Node { state: s, ..old(self).node_at(n.idx as int) }),
            ),
            !old(self).has_node(n) ==> final(self).nodes@ == old(self).nodes@,
    {
        if n.idx < self.nodes.len() {
            let taken = self.nodes[n.idx].take();
            if let Some(mut nd) = taken {
                nd.state = s;
                self.nodes[n.idx] = Some(nd);
                proof {
                    assert(self.nodes@ =~= old(self).nodes@.update(
                        n.idx as int,
                        Some(Node { state: s, ..old(self).node_at(n.idx as int) }),
                    ));
                    assert(old(self).node_alive(n.idx as int));
                    assert(Graph::node_in_bounds(old(self).node_at(n.idx as int)));
                    Self::lemma_wf_node_replaced(
                        *old(self),
                        *self,
                        n.idx as int,
                        Node { state: s, ..old(self).node_at(n.idx as int) },
                    );
                }
            } else {
                proof {
                    assert(self.nodes@ =~= old(self).nodes@);
                    Self::lemma_wf_same_views(*old(self), *self);
                }
            }
        }
    }

    /// Sets a node's force-exclusion flag; with a stale handle this is a
    /// no-op.
    pub fn set_ignore_force(&mut self, n: NodeId, b: bool)
        requires
            old(self).wf(),
        ensures
            final(self).wf(),
            final(self).edges@ == old(self).edges@,
            old(self).has_node(n) ==> final(self).nodes@ == old(self).nodes@.update(
                n.idx as int,
                Some(Node { ignore_force: b, ..old(self).node_at(n.idx as int) }),
            ),
            !old(self).has_node(n) ==> final(self).nodes@ == old(self).nodes@,
    {
        if n.idx < self.nodes.len() {
            let taken = self.nodes[n.idx].take();
            if let Some(mut nd) = taken {
                nd.ignore_force = b;
                self.nodes[n.idx] = Some(nd);
                proof {
                    assert(self.nodes@ =~= old(self).nodes@.update(
                        n.idx as int,
                        Some(Node { ignore_force: b, ..old(self).node_at(n.idx as int) }),
                    ));
                    assert(old(self).node_alive(n.idx as int));
                    assert(Graph::node_in_bounds(old(self).node_at(n.idx as int)));
                    Self::lemma_wf_node_replaced(
                        *old(self),
                        *self,
                        n.idx as int,
                        Node { ignore_force: b, ..old(self).node_at(n.idx as int) },
                    );
                }
            } else {
                proof {
                    assert(self.nodes@ =~= old(self).nodes@);
                    Self::lemma_wf_same_views(*old(self), *self);
                }
            }
        }
    }

    /// Sets a node's label; with a stale handle this is a no-op.
    pub fn set_label(&mut self, n: NodeId, label: Option<String>)
        requires
            old(self).wf(),
        ensures
            final(self).wf(),
            final(self).edges@ == old(self).edges@,
            old(self).has_node(n) ==> final(self).nodes@ == old(self).nodes@.update(
                n.idx as int,
                Some(Node { label, ..old(self).node_at(n.idx as int) }),
            ),
            !old(self).has_node(n) ==> final(self).nodes@ == old(self).nodes@,
    {
        if n.idx < self.nodes.len() {
            let ghost glabel = label;
            let taken = self.nodes[n.idx].take();
            if let Some(mut nd) = taken {
                nd.label = label;
                self.nodes[n.idx] = Some(nd);
                proof {
                    assert(self.nodes@ =~= old(self).nodes@.update(
                        n.idx as int,
                        Some(Node { label: glabel, ..old(self).node_at(n.idx as int) }),
                    ));
                    assert(old(self).node_alive(n.idx as int));
                    assert(Graph::node_in_bounds(old(self).node_at(n.idx as int)));
                    Self::lemma_wf_node_replaced(
                        *old(self),
                        *self,
                        n.idx as int,
                        Node { label: glabel, ..old(self).node_at(n.idx as int) },
                    );
                }
            } else {
                proof {
                    assert(self.nodes@ =~= old(self).nodes@);
                    Self::lemma_wf_same_views(*old(self), *self);
                }
            }
        }
    }

    /// Moves a node to the given position and zeroes its velocity (used by
    /// direct manipulation); with a stale handle this is a no-op.
    pub fn set_position(&mut self, n: NodeId, x: i64, y: i64)
        requires
            old(self).wf(),
            -COORD_LIMIT <= x <= COORD_LIMIT,
            -COORD_LIMIT <= y <= COORD_LIMIT,
        ensures
            final(self).wf(),
            final(self).edges@ == old(self).edges@,
            old(self).has_node(n) ==> final(self).nodes@ == old(self).nodes@.update(
                n.idx as int,
                Some(Node { x, y, vx: 0, vy: 0, ..old(self).node_at(n.idx as int) }),
            ),
            !old(self).has_node(n) ==> final(self).nodes@ == old(self).nodes@,
    {
        if n.idx < self.nodes.len() {
            let taken = self.nodes[n.idx].take();
            if let Some(mut nd) = taken {
                nd.x = x;
                nd.y = y;
                nd.vx = 0;
                nd.vy = 0;
                self.nodes[n.idx] = Some(nd);
                proof {
                    assert(self.nodes@ =~= old(self).nodes@.update(
                        n.idx as int,
                        Some(Node { x, y, vx: 0, vy: 0, ..old(self).node_at(n.idx as int) }),
                    ));
                    assert(old(self).node_alive(n.idx as int));
                    assert(Graph::node_in_bounds(old(self).node_at(n.idx as int)));
                    Self::lemma_wf_node_replaced(
                        *old(self),
                        *self,
                        n.idx as int,
                        Node { x, y, vx: 0, vy: 0, ..old(self).node_at(n.idx as int) },
                    );
                }
            } else {
                proof {
                    assert(self.nodes@ =~= old(self).nodes@);
                    Self::lemma_wf_same_views(*old(self), *self);
                }
            }
        }
    }

    /// Enables or disables an edge; with a stale handle this is a no-op.
    pub fn set_enabled(&mut self, e: EdgeId, b: bool)
        requires
            old(self).wf(),
        ensures
            final(self).wf(),
            final(self).nodes@ == old(self).nodes@,
            old(self).has_edge(e) ==> final(self).edges@ == old(self).edges@.update(
                e.idx as int,
                Some(Edge { enabled: b, ..old(self).edge_at(e.idx as int) }),
            ),
            !old(self).has_edge(e) ==> final(self).edges@ == old(self).edges@,
    {
        if e.idx < self.edges.len() {
            let taken = self.edges[e.idx].take();
            if let Some(mut ed) = taken {
                ed.enabled = b;
                self.edges[e.idx] = Some(ed);
                proof {
                    assert(self.edges@ =~= old(self).edges@.update(
                        e.idx as int,
                        Some(Edge { enabled: b, ..old(self).edge_at(e.idx as int) }),
                    ));
                    Self::lemma_wf_edge_replaced(
                        *old(self),
                        *self,
                        e.idx as int,
                        Edge { enabled: b, ..old(self).edge_at(e.idx as int) },
                    );
                }
            } else {
                proof {
                    assert(self.edges@ =~= old(self).edges@);
                    Self::lemma_wf_same_views(*old(self), *self);
                }
            }
        }
    }

    /// Removes a node and, in cascade, every edge incident to it; with a
    /// stale handle this is a no-op.
    pub fn remove_node(&mut self, n: NodeId)
        requires
            old(self).wf(),
        ensures
            final(self).wf(),
            old(self).has_node(n) ==> {
                &&& final(self).nodes@ == old(self).nodes@.update(n.idx as int, None::<Node>)
                &&& final(self).edges@.len() == old(self).edges@.len()
                &&& forall|j: int| 0 <= j < old(self).edges@.len() ==> final(self).edges@[j] == (
                    if old(self).edge_alive(j) && (old(self).edge_at(j).from == n
                        || old(self).edge_at(j).to == n) {
                        None::<Edge>
                    } else {
                        old(self).edges@[j]
                    }
                )
            },
            !old(self).has_node(n) ==> *final(self) == *old(self),
    {
        if n.idx < self.nodes.len() && self.nodes[n.idx].is_some() {
            self.nodes[n.idx] = None;
            let ghost orig = *old(self);
            let mut j: usize = 0;
            while j < self.edges.len()
                invariant
                    j <= self.edges@.len(),
                    self.edges@.len() == orig.edges@.len(),
                    n.idx < orig.nodes@.len(),
                    self.nodes@ == orig.nodes@.update(n.idx as int, None::<Node>),
                    forall|k: int| 0 <= k < j ==> #[trigger] self.edges@[k] == (
                        if orig.edge_alive(k) && (orig.edge_at(k).from == n
                            || orig.edge_at(k).to == n) {
                            None::<Edge>
                        } else {
                            orig.edges@[k]
                        }
                    ),
                    forall|k: int| j <= k < orig.edges@.len() ==> self.edges@[k] == orig.edges@[k],
                decreases self.edges@.len() - j,
            {
                let slot = &self.edges[j];
                proof {
                    assert(*slot == self.edges@[j as int]);
                }
                let remove_it = match slot {
                    Some(ed) => ed.from.idx == n.idx || ed.to.idx == n.idx,
                    None => false,
                };
                proof {
                    assert(remove_it == (self.edge_alive(j as int) && (self.edge_at(
                        j as int,
                    ).from == n || self.edge_at(j as int).to == n)));
                    assert(self.edges@[j as int] == orig.edges@[j as int]);
                }
                let ghost pre = *self;
                if remove_it {
                    self.edges[j] = None;
                }
                proof {
                    assert forall|k: int| 0 <= k < j + 1 implies #[trigger] self.edges@[k] == (
                        if orig.edge_alive(k) && (orig.edge_at(k).from == n || orig.edge_at(
                            k,
                        ).to == n) {
                            None::<Edge>
                        } else {
                            orig.edges@[k]
                        }
                    ) by {
                        if k == j {
                            assert(remove_it == (orig.edge_alive(k) && (orig.edge_at(k).from == n
                                || orig.edge_at(k).to == n)));
                            if remove_it {
                                assert(self.edges@ == pre.edges@.update(j as int, None::<Edge>));
                                assert(self.edges@[k] == None::<Edge>);
                            } else {
                                assert(self.edges@[k] == orig.edges@[k]);
                            }
                        } else {
                            if remove_it {
                                assert(self.edges@ == pre.edges@.update(j as int, None::<Edge>));
                            }
                            assert(self.edges@[k] == pre.edges@[k]);
                        }
                    };
                }
                j += 1;
            }
            proof {
                assert forall|i: int| #[trigger] self.edge_alive(i) implies self.has_node(
                    self.edge_at(i).from,
                ) && self.has_node(self.edge_at(i).to) by {
                    assert(orig.edge_alive(i));
                    assert(self.edge_at(i) == orig.edge_at(i));
                    assert(orig.edge_at(i).from != n && orig.edge_at(i).to != n);
                    assert(orig.has_node(orig.edge_at(i).from));
                    assert(orig.has_node(orig.edge_at(i).to));
                };
                assert forall|i: int| #[trigger] self.node_alive(i) implies Self::node_in_bounds(
                    self.node_at(i),
                ) by {
                    assert(orig.node_alive(i));
                };
            }
        }
    }

    /// Sets every live node's traversal state back to `NotVisited`; part of
    /// the pre-traversal reset.
    pub fn reset_states(&mut self)
        requires
            old(self).wf(),
        ensures
            final(self).wf(),
            final(self).nodes@ == Graph::reset_nodes(old(self).nodes@),
            final(self).edges@ == old(self).edges@,
    {
        let ghost orig = *old(self);
        let mut i: usize = 0;
        while i < self.nodes.len()
            invariant
                i <= self.nodes@.len(),
                self.nodes@.len() == orig.nodes@.len(),
                self.edges@ == orig.edges@,
                forall|k: int| 0 <= k < i ==> self.nodes@[k] == Graph::reset_node_slot(
                    orig.nodes@[k],
                ),
                forall|k: int| i <= k < orig.nodes@.len() ==> self.nodes@[k] == orig.nodes@[k],
            decreases self.nodes@.len() - i,
        {
            let taken = self.nodes[i].take();
            if let Some(mut nd) = taken {
                nd.state = NodeState::NotVisited;
                self.nodes[i] = Some(nd);
            }
            i += 1;
        }
        proof {
            assert(self.nodes@ =~= Graph::reset_nodes(orig.nodes@));
            assert forall|j: int| #[trigger] self.edge_alive(j) implies self.has_node(
                self.edge_at(j).from,
            ) && self.has_node(self.edge_at(j).to) by {
                assert(orig.edge_alive(j));
                assert(orig.has_node(orig.edge_at(j).from));
                assert(orig.has_node(orig.edge_at(j).to));
            };
            assert forall|j: int| #[trigger] self.node_alive(j) implies Self::node_in_bounds(
                self.node_at(j),
            ) by {
                assert(orig.node_alive(j));
            };
        }
    }

    /// Disables every live edge; part of the pre-traversal reset.
    pub fn disable_all_edges(&mut self)
        requires
            old(self).wf(),
        ensures
            final(self).wf(),
            final(self).nodes@ == old(self).nodes@,
            final(self).edges@ == Graph::reset_edges(old(self).edges@),
    {
        let ghost orig = *old(self);
        let mut i: usize = 0;
        while i < self.edges.len()
            invariant
                i <= self.edges@.len(),
                self.edges@.len() == orig.edges@.len(),
                self.nodes@ == orig.nodes@,
                forall|k: int| 0 <= k < i ==> self.edges@[k] == Graph::reset_edge_slot(
                    orig.edges@[k],
                ),
                forall|k: int| i <= k < orig.edges@.len() ==> self.edges@[k] == orig.edges@[k],
            decreases self.edges@.len() - i,
        {
            let taken = self.edges[i].take();
            if let Some(mut ed) = taken {
                ed.enabled = false;
                self.edges[i] = Some(ed);
            }
            i += 1;
        }
        proof {
            assert(self.edges@ =~= Graph::reset_edges(orig.edges@));
            assert forall|j: int| #[trigger] self.edge_alive(j) implies self.has_node(
                self.edge_at(j).from,
            ) && self.has_node(self.edge_at(j).to) by {
                assert(orig.edge_alive(j));
                assert(orig.has_node(orig.edge_at(j).from));
                assert(orig.has_node(orig.edge_at(j).to));
            };
            assert forall|j: int| #[trigger] self.node_alive(j) implies Self::node_in_bounds(
                self.node_at(j),
            ) by {
                assert(orig.node_alive(j));
            };
        }
    }

    /// The live edge in slot `i` touches `n` on the side selected by `dir`.
    pub open spec fn edge_matches(self, i: int, n: NodeId, dir: Direction) -> bool {
        self.edge_alive(i) && match dir {
            Direction::Outgoing => self.edge_at(i).from == n,
            Direction::Incoming => self.edge_at(i).to == n,
            Direction::Both => self.edge_at(i).from == n || self.edge_at(i).to == n,
        }
    }

    /// The endpoint of edge `i` that a neighbor walk from `n` reports.
    pub open spec fn other_endpoint(self, i: int, n: NodeId, dir: Direction) -> NodeId {
        match dir {
            Direction::Outgoing => self.edge_at(i).to,
            Direction::Incoming => self.edge_at(i).from,
            Direction::Both => if self.edge_at(i).from == n {
                self.edge_at(i).to
            } else {
                self.edge_at(i).from
            },
        }
    }

    /// The neighbor pairs of `n` among the first `k` edge slots, in edge
    /// insertion order.
    pub open spec fn neighbors_upto(self, n: NodeId, dir: Direction, k: int) -> Seq<
        (EdgeId, NodeId),
    >
        decreases k,
    {
        if k <= 0 {
            Seq::empty()
        } else if self.edge_matches(k - 1, n, dir) {
            self.neighbors_upto(n, dir, k - 1).push(
                (EdgeId { idx: (k - 1) as usize }, self.other_endpoint(k - 1, n, dir)),
            )
        } else {
            self.neighbors_upto(n, dir, k - 1)
        }
    }

    /// All neighbor pairs of `n` in edge insertion order.
    pub open spec fn neighbor_seq(self, n: NodeId, dir: Direction) -> Seq<(EdgeId, NodeId)> {
        self.neighbors_upto(n, dir, self.edges@.len() as int)
    }

    /// Lists the edges touching `n` in the given direction, each with the
    /// node at its far end, in edge insertion order.
    pub fn neighbors(&self, n: NodeId, dir: Direction) -> (r: Vec<(EdgeId, NodeId)>)
        ensures
            r@ == self.neighbor_seq(n, dir),
    {
        let mut r: Vec<(EdgeId, NodeId)> = Vec::new();
        let mut j: usize = 0;
        while j < self.edges.len()
            invariant
                j <= self.edges@.len(),
                r@ == self.neighbors_upto(n, dir, j as int),
            decreases self.edges@.len() - j,
        {
            match &self.edges[j] {
                Some(ed) => {
                    let touches = match dir {
                        Direction::Outgoing => ed.from.idx == n.idx,
                        Direction::Incoming => ed.to.idx == n.idx,
                        Direction::Both => ed.from.idx == n.idx || ed.to.idx == n.idx,
                    };
                    if touches {
                        let other = match dir {
                            Direction::Outgoing => ed.to,
                            Direction::Incoming => ed.from,
                            Direction::Both => if ed.from.idx == n.idx {
                                ed.to
                            } else {
                                ed.from
                            },
                        };
                        r.push((EdgeId { idx: j }, other));
                    }
                },
                None => {},
            }
            j += 1;
        }
        r
    }

    /// The point lies within the visual radius of the live node in slot `i`.
    pub open spec fn hit(self, i: int, x: int, y: int) -> bool {
        &&& self.node_alive(i)
        &&& (self.node_at(i).x - x) * (self.node_at(i).x - x) + (self.node_at(i).y - y) * (
        self.node_at(i).y - y) <= NODE_RADIUS * NODE_RADIUS
    }

    /// Hit-test: the first live node (in insertion order) whose visual radius
    /// covers the point, or `None` if the point touches no node.
    pub fn node_from_point(&self, x: i64, y: i64) -> (r: Option<NodeId>)
        requires
            self.wf(),
            -COORD_LIMIT <= x <= COORD_LIMIT,
            -COORD_LIMIT <= y <= COORD_LIMIT,
        ensures
            match r {
                Some(n) => self.hit(n.idx as int, x as int, y as int) && forall|j: int|
                    0 <= j < n.idx ==> !self.hit(j, x as int, y as int),
                None => forall|j: int| !self.hit(j, x as int, y as int),
            },
    {
        let mut i: usize = 0;
        while i < self.nodes.len()
            invariant
                self.wf(),
                -COORD_LIMIT <= x <= COORD_LIMIT,
                -COORD_LIMIT <= y <= COORD_LIMIT,
                i <= self.nodes@.len(),
                forall|j: int| 0 <= j < i ==> !self.hit(j, x as int, y as int),
            decreases self.nodes@.len() - i,
        {
            let slot = &self.nodes[i];
            proof {
                assert(*slot == self.nodes@[i as int]);
            }
            match slot {
                Some(nd) => {
                    proof {
                        assert(self.node_alive(i as int));
                        assert(*nd == self.node_at(i as int));
                        assert(Self::node_in_bounds(self.node_at(i as int)));
                    }
                    let dx = nd.x - x;
                    let dy = nd.y - y;
                    proof {
                        assert(0 <= dx * dx <= 4_000_000_000_000_000_000 && 0 <= dy * dy
                            <= 4_000_000_000_000_000_000) by (nonlinear_arith)
                            requires
                                -2_000_000_000 <= dx <= 2_000_000_000,
                                -2_000_000_000 <= dy <= 2_000_000_000,
                        ;
                    }
                    if dx * dx + dy * dy <= NODE_RADIUS * NODE_RADIUS {
                        return Some(NodeId { idx: i });
                    }
                },
                None => {},
            }
            i += 1;
        }
        None
    }

    /// Some live edge runs from `a` to `b`.
    pub open spec fn spec_edge(self, a: NodeId, b: NodeId) -> bool {
        exists|e: int|
            #[trigger] self.edge_alive(e) && self.edge_at(e).from == a && self.edge_at(e).to == b
    }

    /// `p` is a non-empty directed walk through live nodes of the graph.
    pub open spec fn is_path(self, p: Seq<NodeId>) -> bool {
        &&& p.len() >= 1
        &&& forall|i: int| 0 <= i < p.len() ==> self.has_node(#[trigger] p[i])
        &&& forall|i: int| 0 <= i < p.len() - 1 ==> self.spec_edge(#[trigger] p[i], p[i + 1])
    }

    /// `t` can be reached from `s` along directed edges.
    pub open spec fn reachable(self, s: NodeId, t: NodeId) -> bool {
        exists|p: Seq<NodeId>| #[trigger] self.is_path(p) && p.first() == s && p.last() == t
    }

    /// A live node reaches itself.
    pub proof fn lemma_reachable_refl(self, s: NodeId)
        requires
            self.has_node(s),
        ensures
            self.reachable(s, s),
    {
        let p = seq![s];
        assert(self.is_path(p));
        assert(p.first() == s && p.last() == s);
    }

    /// Reachability extends along one more edge.
    pub proof fn lemma_reachable_step(self, s: NodeId, a: NodeId, b: NodeId)
        requires
            self.reachable(s, a),
            self.spec_edge(a, b),
            self.has_node(b),
        ensures
            self.reachable(s, b),
    {
        let p = choose|p: Seq<NodeId>| #[trigger] self.is_path(p) && p.first() == s && p.last()
            == a;
        let q = p.push(b);
        assert forall|i: int| 0 <= i < q.len() implies self.has_node(#[trigger] q[i]) by {
            if i < p.len() {
                assert(self.has_node(p[i]));
            }
        };
        assert forall|i: int| 0 <= i < q.len() - 1 implies self.spec_edge(
            #[trigger] q[i],
            q[i + 1],
        ) by {
            if i < p.len() - 1 {
                assert(self.spec_edge(p[i], p[i + 1]));
            } else {
                assert(q[i] == p.last() && q[i + 1] == b);
            }
        };
        assert(self.is_path(q) && q.first() == s && q.last() == b);
    }

    /// Walking a path keeps you inside any set that contains its start and is
    /// closed under following edges.
    pub proof fn lemma_path_in_closed_set(self, p: Seq<NodeId>, f: spec_fn(NodeId) -> bool)
        requires
            self.is_path(p),
            f(p.first()),
            forall|a: NodeId, b: NodeId| f(a) && #[trigger] self.spec_edge(a, b) ==> f(b),
        ensures
            f(p.last()),
        decreases p.len(),
    {
        if p.len() > 1 {
            assert(self.spec_edge(p[0], p[1]));
            assert(f(p[1]));
            let q = p.drop_first();
            assert forall|i: int| 0 <= i < q.len() implies self.has_node(#[trigger] q[i]) by {
                assert(self.has_node(p[i + 1]));
            };
            assert forall|i: int| 0 <= i < q.len() - 1 implies self.spec_edge(
                #[trigger] q[i],
                q[i + 1],
            ) by {
                assert(self.spec_edge(p[i + 1], p[i + 2]));
            };
            assert(self.is_path(q));
            assert(q.first() == p[1]);
            self.lemma_path_in_closed_set(q, f);
            assert(q.last() == p.last());
        }
    }

    /// Every node reachable from `s` lies in any set that contains `s` and is
    /// closed under following edges.
    pub proof fn lemma_reachable_in_closed_set(
        self,
        s: NodeId,
        t: NodeId,
        f: spec_fn(NodeId) -> bool,
    )
        requires
            self.reachable(s, t),
            f(s),
            forall|a: NodeId, b: NodeId| f(a) && #[trigger] self.spec_edge(a, b) ==> f(b),
        ensures
            f(t),
    {
        let p = choose|p: Seq<NodeId>| #[trigger] self.is_path(p) && p.first() == s && p.last()
            == t;
        self.lemma_path_in_closed_set(p, f);
    }

    /// The two graphs agree on everything reachability depends on: which
    /// nodes are live and which live edges join which nodes.
    pub open spec fn same_shape(g1: Graph, g2: Graph) -> bool {
        &&& g1.nodes@.len() == g2.nodes@.len()
        &&& forall|i: int| g1.node_alive(i) <==> #[trigger] g2.node_alive(i)
        &&& g1.edges@.len() == g2.edges@.len()
        &&& forall|i: int| g1.edge_alive(i) <==> #[trigger] g2.edge_alive(i)
        &&& forall|i: int| #[trigger] g1.edge_alive(i) ==> g1.edge_at(i).from == g2.edge_at(i).from
            && g1.edge_at(i).to == g2.edge_at(i).to
    }

    /// Reachability carries over between graphs of the same shape.
    pub proof fn lemma_same_shape_reachable(g1: Graph, g2: Graph, s: NodeId, t: NodeId)
        requires
            Graph::same_shape(g1, g2),
            g1.reachable(s, t),
        ensures
            g2.reachable(s, t),
    {
        let p = choose|p: Seq<NodeId>| #[trigger] g1.is_path(p) && p.first() == s && p.last() == t;
        assert forall|i: int| 0 <= i < p.len() implies g2.has_node(#[trigger] p[i]) by {
            assert(g1.has_node(p[i]));
        };
        assert forall|i: int| 0 <= i < p.len() - 1 implies g2.spec_edge(
            #[trigger] p[i],
            p[i + 1],
        ) by {
            assert(g1.spec_edge(p[i], p[i + 1]));
            let ghost pnext = p[i + 1];
            let e = choose|e: int|
                #[trigger] g1.edge_alive(e) && g1.edge_at(e).from == p[i] && g1.edge_at(e).to
                    == pnext;
            assert(g2.edge_alive(e));
        };
        assert(g2.is_path(p) && p.first() == s && p.last() == t);
    }

    /// The node slots agree on everything but the traversal states.
    pub open spec fn same_but_states(a: Seq<Option<Node>>, b: Seq<Option<Node>>) -> bool {
        &&& a.len() == b.len()
        &&& forall|i: int| 0 <= i < a.len() ==> ((a[i] is Some <==> #[trigger] b[i] is Some) && (
        a[i] is Some ==> b[i]->Some_0 == Node { state: b[i]->Some_0.state, ..a[i]->Some_0 }))
    }

    /// Recoloring one live node keeps the slots equal up to states.
    pub proof fn lemma_same_but_states_update(
        a: Seq<Option<Node>>,
        b: Seq<Option<Node>>,
        i: int,
        st: NodeState,
    )
        requires
            Self::same_but_states(a, b),
            0 <= i < b.len(),
            b[i] is Some,
        ensures
            Self::same_but_states(a, b.update(i, Some(Node { state: st, ..b[i]->Some_0 }))),
    {
        let b2 = b.update(i, Some(Node { state: st, ..b[i]->Some_0 }));
        assert forall|k: int| 0 <= k < a.len() implies ((a[k] is Some <==> #[trigger] b2[k]
            is Some) && (a[k] is Some ==> b2[k]->Some_0 == Node {
            state: b2[k]->Some_0.state,
            ..a[k]->Some_0
        })) by {
            if k != i {
                assert(b2[k] == b[k]);
            }
        };
    }

    /// Reads a node's traversal state; `None` for a stale handle.
    pub fn state_of(&self, n: NodeId) -> (r: Option<NodeState>)
        ensures
            self.has_node(n) ==> r == Some(self.node_at(n.idx as int).state),
            !self.has_node(n) ==> r is None,
    {
        if n.idx < self.nodes.len() {
            match &self.nodes[n.idx] {
                Some(nd) => Some(nd.state),
                None => None,
            }
        } else {
            None
        }
    }

    /// Reads a node's position; `None` for a stale handle.
    pub fn position_of(&self, n: NodeId) -> (r: Option<(i64, i64)>)
        ensures
            self.has_node(n) ==> r == Some(
                (self.node_at(n.idx as int).x, self.node_at(n.idx as int).y),
            ),
            !self.has_node(n) ==> r is None,
    {
        if n.idx < self.nodes.len() {
            match &self.nodes[n.idx] {
                Some(nd) => Some((nd.x, nd.y)),
                None => None,
            }
        } else {
            None
        }
    }

    /// Reads an edge's endpoints and enabled flag; `None` for a stale handle.
    pub fn edge_of(&self, e: EdgeId) -> (r: Option<(NodeId, NodeId, bool)>)
        ensures
            self.has_edge(e) ==> r == Some(
                (
                    self.edge_at(e.idx as int).from,
                    self.edge_at(e.idx as int).to,
                    self.edge_at(e.idx as int).enabled,
                ),
            ),
            !self.has_edge(e) ==> r is None,
    {
        if e.idx < self.edges.len() {
            match &self.edges[e.idx] {
                Some(ed) => Some((ed.from, ed.to, ed.enabled)),
                None => None,
            }
        } else {
            None
        }
    }
}

} // verus!
