//! What a search finds: every node that is reached has a path from a start node, along
//! edges of the graph.

use crate::domain::digraph;
use crate::domain::digraph::EdgeDirection;
use crate::domain::edge::EdgeKind;
use crate::domain::graph;
use crate::domain::graph::{ContextGraph, NodeIndex};
use crate::domain::node::{Mutability, Node};
use crate::domain::policy;
use crate::domain::reachability;
use crate::domain::reachability::{Found, ReachedVia, Search};
use crate::domain::rules;
use vstd::prelude::*;

verus! {

/// Whether a search goes from one node to another: along an edge, or back to a caller
/// from a function that changes state and constructs nothing, or back to a writer from a
/// variable that may change.
pub open spec fn goes_to(graph: ContextGraph, a: NodeIndex, b: NodeIndex) -> bool {
    ||| exists|kind: EdgeKind| #[trigger] graph.has_link(a, b, kind)
    ||| graph.has_link(b, a, EdgeKind::Call) && graph.at(a) is Function && !graph.at(
        a,
    )->Function_0.is_constructor && rules::changes_state(graph, a)
    ||| graph.has_link(b, a, EdgeKind::Write) && graph.at(a) is Variable && graph.at(
        a,
    )->Variable_0.mutability == Mutability::Mutable
}

/// Whether a path leads from a start node to a node, and comes to no node twice.
pub open spec fn is_witness(
    graph: ContextGraph,
    starts: Seq<NodeIndex>,
    path: Seq<NodeIndex>,
    node: NodeIndex,
) -> bool {
    &&& path.len() > 0
    &&& starts.contains(path[0])
    &&& path.last() == node
    &&& path.no_duplicates()
    &&& forall|i: int|
        0 <= i < path.len() - 1 ==> goes_to(graph, #[trigger] path[i], path[i + 1])
}

/// Whether a node comes before another in a list, if the other is in it.
spec fn comes_before(list: Seq<NodeIndex>, first: NodeIndex, second: NodeIndex) -> bool {
    exists|i: int|
        0 <= i < list.len() && #[trigger] list[i] == first && forall|j: int|
            0 <= j < list.len() && #[trigger] list[j] == second ==> i < j
}

/// Whether a list stands in the queue of a search.
spec fn queued(found: Found, node: NodeIndex) -> bool {
    exists|k: int| 0 <= k < found.queue.len() && (#[trigger] found.queue[k]).0 == node
}

/// Whether all nodes of a list are in another.
spec fn all_among(list: Seq<NodeIndex>, other: Seq<NodeIndex>) -> bool {
    forall|k: int| 0 <= k < list.len() ==> other.contains(#[trigger] list[k])
}

/// A path goes on to a node that it has not come to yet.
proof fn lemma_extend_witness(
    graph: ContextGraph,
    starts: Seq<NodeIndex>,
    path: Seq<NodeIndex>,
    node: NodeIndex,
)
    requires
        is_witness(graph, starts, path, path.last()),
        goes_to(graph, path.last(), node),
        !path.contains(node),
    ensures
        is_witness(graph, starts, path.push(node), node),
{
    let longer = path.push(node);
    assert forall|k: int| 0 <= k < longer.len() - 1 implies goes_to(
        graph,
        #[trigger] longer[k],
        longer[k + 1],
    ) by {
        assert(longer[k] == path[k]);
        if k < path.len() - 1 {
            assert(goes_to(graph, path[k], path[k + 1]));
            assert(longer[k + 1] == path[k + 1]);
        }
    }
    assert forall|a: int, b: int|
        0 <= a < longer.len() && 0 <= b < longer.len() && a != b implies longer[a]
        != longer[b] by {
        if a < path.len() {
            assert(longer[a] == path[a]);
        }
        if b < path.len() {
            assert(longer[b] == path[b]);
        }
    }
    assert(longer[0] == path[0]);
}

impl Search {
    /// Whether nodes that were reached or stand in the queue have a predecessor, that
    /// came before them, unless they are start nodes.
    spec fn traced(self, found: Found) -> bool {
        &&& forall|n: NodeIndex| #[trigger]
            found.predecessors.contains_key(n) ==> {
                &&& !self.starts.contains(n)
                &&& comes_before(found.visited, found.predecessors[n], n)
                &&& goes_to(self.graph, found.predecessors[n], n)
            }
        &&& forall|n: NodeIndex| #[trigger]
            found.visited.contains(n) ==> self.starts.contains(n)
                || found.predecessors.contains_key(n)
        &&& forall|n: NodeIndex| #[trigger]
            queued(found, n) ==> self.starts.contains(n) || found.predecessors.contains_key(n)
    }

    proof fn lemma_note(self, found: Found, node: NodeIndex, from: NodeIndex)
        requires
            self.traced(found),
            found.visited.contains(from),
            goes_to(self.graph, from, node),
        ensures
            self.traced(
                (Found {
                    predecessors: self.noted(found.predecessors, node, from),
                    ..found
                }),
            ),
            self.starts.contains(node) || self.noted(
                found.predecessors,
                node,
                from,
            ).contains_key(node),
    {
        let after = Found {
            predecessors: self.noted(found.predecessors, node, from),
            ..found
        };
        assert forall|n: NodeIndex| #[trigger] queued(after, n) implies self.starts.contains(n)
            || after.predecessors.contains_key(n) by {
            assert(queued(found, n));
        }
        if !self.starts.contains(node) && !found.predecessors.contains_key(node) {
            assert(!found.visited.contains(node));
            let i = choose|i: int| 0 <= i < found.visited.len() && found.visited[i] == from;
            assert(found.visited[i] == from);
            assert forall|j: int|
                0 <= j < found.visited.len() && #[trigger] found.visited[j] == node implies i
                < j by {
                assert(found.visited.contains(node));
            }
            assert(comes_before(found.visited, from, node));
        }
    }

    proof fn lemma_queue_push(self, found: Found, node: NodeIndex, via: ReachedVia)
        requires
            self.traced(found),
            self.starts.contains(node) || found.predecessors.contains_key(node),
        ensures
            self.traced((Found { queue: found.queue.push((node, via)), ..found })),
    {
        let after = Found { queue: found.queue.push((node, via)), ..found };
        assert forall|n: NodeIndex| #[trigger] queued(after, n) implies self.starts.contains(n)
            || after.predecessors.contains_key(n) by {
            let k = choose|k: int|
                0 <= k < after.queue.len() && (#[trigger] after.queue[k]).0 == n;
            if k < found.queue.len() {
                assert(found.queue[k].0 == n);
                assert(queued(found, n));
            }
        }
    }

    proof fn lemma_visit(self, found: Found, node: NodeIndex)
        requires
            self.traced(found),
            !found.visited.contains(node),
            self.starts.contains(node) || found.predecessors.contains_key(node),
        ensures
            self.traced((Found { visited: found.visited.push(node), ..found })),
    {
        let after = Found { visited: found.visited.push(node), ..found };
        assert forall|n: NodeIndex| #[trigger] after.predecessors.contains_key(n) implies {
            &&& !self.starts.contains(n)
            &&& comes_before(after.visited, after.predecessors[n], n)
            &&& goes_to(self.graph, after.predecessors[n], n)
        } by {
            assert(found.predecessors.contains_key(n));
            let first = found.predecessors[n];
            let i = choose|i: int|
                0 <= i < found.visited.len() && #[trigger] found.visited[i] == first
                    && forall|j: int|
                    0 <= j < found.visited.len() && #[trigger] found.visited[j] == n ==> i < j;
            assert(after.visited[i] == first);
            assert forall|j: int|
                0 <= j < after.visited.len() && #[trigger] after.visited[j] == n implies i < j by {
                if j < found.visited.len() {
                    assert(found.visited[j] == n);
                }
            }
        }
        assert forall|n: NodeIndex| #[trigger]
            after.visited.contains(n) implies self.starts.contains(n)
            || after.predecessors.contains_key(n) by {
            let k = choose|k: int| 0 <= k < after.visited.len() && after.visited[k] == n;
            if k < found.visited.len() {
                assert(found.visited[k] == n);
                assert(found.visited.contains(n));
            }
        }
        assert forall|n: NodeIndex| #[trigger] queued(after, n) implies self.starts.contains(n)
            || after.predecessors.contains_key(n) by {
            assert(queued(found, n));
        }
    }

    proof fn lemma_forward_traced(
        self,
        found: Found,
        current: NodeIndex,
        edges: Seq<(NodeIndex, EdgeKind)>,
    )
        requires
            self.traced(found),
            found.visited.contains(current),
            forall|k: int|
                0 <= k < edges.len() ==> goes_to(self.graph, current, (#[trigger] edges[k]).0),
        ensures
            self.traced(self.forward_all(found, current, edges)),
            self.forward_all(found, current, edges).visited.contains(current),
        decreases edges.len(),
    {
        if edges.len() > 0 {
            let rest = edges.drop_last();
            assert(forall|k: int| 0 <= k < rest.len() ==> rest[k] == edges[k]);
            self.lemma_forward_traced(found, current, rest);
            let before = self.forward_all(found, current, rest);
            let edge = edges.last();
            assert(edges[edges.len() - 1] == edge);
            self.lemma_note(before, edge.0, current);
            let noted = Found {
                predecessors: self.noted(before.predecessors, edge.0, current),
                ..before
            };
            if !self.is_boundary(current, edge) {
                self.lemma_queue_push(noted, edge.0, ReachedVia::Forward(edge.1));
            } else if !before.visited.contains(edge.0) {
                self.lemma_visit(noted, edge.0);
                let k = choose|k: int|
                    0 <= k < before.visited.len() && before.visited[k] == current;
                assert(before.visited.push(edge.0)[k] == current);
            }
        }
    }

    proof fn lemma_offer_traced(
        self,
        found: Found,
        current: NodeIndex,
        edges: Seq<(NodeIndex, EdgeKind)>,
        via: ReachedVia,
    )
        requires
            self.traced(found),
            found.visited.contains(current),
            forall|k: int|
                0 <= k < edges.len() ==> goes_to(self.graph, current, (#[trigger] edges[k]).0),
        ensures
            self.traced(self.offer_all(found, current, edges, via)),
            self.offer_all(found, current, edges, via).visited == found.visited,
        decreases edges.len(),
    {
        if edges.len() > 0 {
            let rest = edges.drop_last();
            assert(forall|k: int| 0 <= k < rest.len() ==> rest[k] == edges[k]);
            self.lemma_offer_traced(found, current, rest, via);
            let before = self.offer_all(found, current, rest, via);
            let node = edges.last().0;
            assert(edges[edges.len() - 1] == edges.last());
            if !before.visited.contains(node) {
                self.lemma_note(before, node, current);
                self.lemma_queue_push(
                    Found { predecessors: self.noted(before.predecessors, node, current), ..before },
                    node,
                    via,
                );
            }
        }
    }

    proof fn lemma_outgoing_goes(self, current: NodeIndex)
        requires
            self.graph.wf(),
        ensures
            ({
                let edges = self.graph.by_symbol(self.graph.outgoing(current));
                forall|k: int|
                    0 <= k < edges.len() ==> goes_to(self.graph, current, (#[trigger] edges[k]).0)
            }),
    {
        let all = self.graph.outgoing(current);
        let edges = self.graph.by_symbol(all);
        digraph::lemma_links_at_len(self.graph.links(), current, EdgeDirection::Outgoing);
        reachability::lemma_by_symbol(self.graph, all);
        assert forall|k: int| 0 <= k < edges.len() implies goes_to(
            self.graph,
            current,
            (#[trigger] edges[k]).0,
        ) by {
            assert(all.contains(edges[k]));
            let j = choose|j: int| 0 <= j < all.len() && all[j] == edges[k];
            self.graph.lemma_outgoing(current, j);
            assert(self.graph.has_link(current, edges[k].0, edges[k].1));
        }
    }

    proof fn lemma_incoming_goes(self, current: NodeIndex, kind: EdgeKind)
        requires
            self.graph.wf(),
            match self.graph.at(current) {
                Node::Function(f) => kind == EdgeKind::Call && !f.is_constructor
                    && rules::changes_state(self.graph, current),
                Node::Variable(v) => kind == EdgeKind::Write && v.mutability
                    == Mutability::Mutable,
            },
        ensures
            ({
                let edges = self.graph.by_symbol(self.graph.incoming(current, Some(kind)));
                forall|k: int|
                    0 <= k < edges.len() ==> goes_to(self.graph, current, (#[trigger] edges[k]).0)
            }),
    {
        let all = self.graph.incoming(current, Some(kind));
        let edges = self.graph.by_symbol(all);
        digraph::lemma_links_at_len(self.graph.links(), current, EdgeDirection::Incoming);
        graph::lemma_of_kind_len(self.graph.all_incoming(current), Some(kind));
        reachability::lemma_by_symbol(self.graph, all);
        assert forall|k: int| 0 <= k < edges.len() implies goes_to(
            self.graph,
            current,
            (#[trigger] edges[k]).0,
        ) by {
            assert(all.contains(edges[k]));
            let j = choose|j: int| 0 <= j < all.len() && all[j] == edges[k];
            self.graph.lemma_incoming(current, Some(kind), j);
        }
    }

    proof fn lemma_step_traced(self, found: Found)
        requires
            self.valid(found),
            self.traced(found),
            found.queue.len() > 0,
        ensures
            self.traced(self.step(found)),
            forall|n: NodeIndex| #[trigger]
                found.visited.contains(n) ==> self.step(found).visited.contains(n),
            self.step(found).visited.contains(found.queue[0].0),
    {
        let (current, via) = found.queue[0];
        let rest = Found { queue: found.queue.drop_first(), ..found };
        assert(found.queue[0].0 == current);
        assert(queued(found, current));
        assert forall|n: NodeIndex| #[trigger] queued(rest, n) implies self.starts.contains(n)
            || rest.predecessors.contains_key(n) by {
            let k = choose|k: int| 0 <= k < rest.queue.len() && (#[trigger] rest.queue[k]).0 == n;
            assert(found.queue[k + 1].0 == n);
            assert(queued(found, n));
        }
        if !found.visited.contains(current) {
            let reached = Found { visited: found.visited.push(current), ..rest };
            self.lemma_visit(rest, current);
            assert(reached.visited[found.visited.len() as int] == current);
            assert forall|n: NodeIndex| #[trigger]
                found.visited.contains(n) implies reached.visited.contains(n) by {
                let k = choose|k: int| 0 <= k < found.visited.len() && found.visited[k] == n;
                assert(reached.visited[k] == n);
            }
            let out = self.graph.by_symbol(self.graph.outgoing(current));
            let callers = self.graph.by_symbol(
                self.graph.incoming(current, Some(EdgeKind::Call)),
            );
            let writers = self.graph.by_symbol(
                self.graph.incoming(current, Some(EdgeKind::Write)),
            );
            self.lemma_outgoing_goes(current);
            self.lemma_forward_traced(reached, current, out);
            self.lemma_forward_grows(reached, current, out);
            let forth = self.forward_all(reached, current, out);
            match self.graph.at(current) {
                Node::Function(f) => {
                    let incoming_edge = match via {
                        ReachedVia::Forward(kind) => Some(kind),
                        _ => None,
                    };
                    if policy::explores_callers(
                        f,
                        current,
                        incoming_edge,
                        self.params,
                        self.graph,
                    ) {
                        rules::law_side_effects_are_writes(self.graph, current);
                        self.lemma_incoming_goes(current, EdgeKind::Call);
                        self.lemma_offer_traced(forth, current, callers, ReachedVia::CallIn);
                    }
                },
                Node::Variable(v) => {
                    if v.mutability == Mutability::Mutable {
                        self.lemma_incoming_goes(current, EdgeKind::Write);
                        self.lemma_offer_traced(
                            forth,
                            current,
                            writers,
                            ReachedVia::SharedStateWrite,
                        );
                    }
                },
            }
        }
    }

    proof fn lemma_forward_grows(
        self,
        found: Found,
        current: NodeIndex,
        edges: Seq<(NodeIndex, EdgeKind)>,
    )
        ensures
            forall|n: NodeIndex| #[trigger]
                found.visited.contains(n) ==> self.forward_all(
                    found,
                    current,
                    edges,
                ).visited.contains(n),
        decreases edges.len(),
    {
        if edges.len() > 0 {
            self.lemma_forward_grows(found, current, edges.drop_last());
            let before = self.forward_all(found, current, edges.drop_last());
            let after = self.forward_all(found, current, edges);
            assert forall|n: NodeIndex| #[trigger]
                found.visited.contains(n) implies after.visited.contains(n) by {
                let k = choose|k: int| 0 <= k < before.visited.len() && before.visited[k] == n;
                assert(after.visited[k] == n);
            }
        }
    }

    proof fn lemma_run_traced(self, found: Found)
        requires
            self.valid(found),
            self.traced(found),
        ensures
            self.traced(self.run(found)),
            self.valid(self.run(found)),
            forall|n: NodeIndex| #[trigger]
                found.visited.contains(n) ==> self.run(found).visited.contains(n),
            forall|n: NodeIndex| #[trigger]
                queued(found, n) ==> self.run(found).visited.contains(n),
        decreases self.unvisited(found), found.queue.len(),
    {
        if found.queue.len() > 0 {
            self.lemma_step_valid(found);
            self.lemma_step_traced(found);
            let next = self.step(found);
            self.lemma_run_traced(next);
            assert forall|n: NodeIndex| #[trigger] queued(found, n) implies self.run(
                found,
            ).visited.contains(n) by {
                let k = choose|k: int|
                    0 <= k < found.queue.len() && (#[trigger] found.queue[k]).0 == n;
                if k == 0 {
                    assert(next.visited.contains(n));
                } else {
                    self.lemma_step_queue(found);
                    let rest = found.queue.drop_first();
                    assert(rest[k - 1] == found.queue[k]);
                    assert(next.queue.subrange(0, rest.len() as int)[k - 1] == rest[k - 1]);
                    assert(next.queue[k - 1].0 == n);
                    assert(queued(next, n));
                }
            }
        }
    }

    /// A step keeps what stands behind the first place of the queue.
    proof fn lemma_step_queue(self, found: Found)
        requires
            found.queue.len() > 0,
        ensures
            found.queue.drop_first().is_prefix_of(self.step(found).queue),
    {
        let (current, via) = found.queue[0];
        let rest = Found { queue: found.queue.drop_first(), ..found };
        let reached = Found { visited: found.visited.push(current), ..rest };
        let out = self.graph.by_symbol(self.graph.outgoing(current));
        self.lemma_forward_queue(reached, current, out);
        let forth = self.forward_all(reached, current, out);
        self.lemma_offer_queue(
            forth,
            current,
            self.graph.by_symbol(self.graph.incoming(current, Some(EdgeKind::Call))),
            ReachedVia::CallIn,
        );
        self.lemma_offer_queue(
            forth,
            current,
            self.graph.by_symbol(self.graph.incoming(current, Some(EdgeKind::Write))),
            ReachedVia::SharedStateWrite,
        );
    }

    proof fn lemma_forward_queue(
        self,
        found: Found,
        current: NodeIndex,
        edges: Seq<(NodeIndex, EdgeKind)>,
    )
        ensures
            found.queue.is_prefix_of(self.forward_all(found, current, edges).queue),
        decreases edges.len(),
    {
        if edges.len() > 0 {
            self.lemma_forward_queue(found, current, edges.drop_last());
        }
    }

    proof fn lemma_offer_queue(
        self,
        found: Found,
        current: NodeIndex,
        edges: Seq<(NodeIndex, EdgeKind)>,
        via: ReachedVia,
    )
        ensures
            found.queue.is_prefix_of(self.offer_all(found, current, edges, via).queue),
        decreases edges.len(),
    {
        if edges.len() > 0 {
            self.lemma_offer_queue(found, current, edges.drop_last(), via);
        }
    }

    /// The way back from a node that was reached.
    proof fn lemma_path(self, found: Found, i: int, passed: Set<NodeIndex>)
        requires
            self.valid(found),
            self.traced(found),
            0 <= i < found.visited.len(),
            forall|j: int| 0 <= j <= i ==> !passed.contains(#[trigger] found.visited[j]),
        ensures
            ({
                let node = found.visited[i];
                let path = reachability::path_to(found.predecessors, node, passed);
                &&& is_witness(self.graph, self.starts, path, node)
                &&& all_among(path, found.visited.take(i + 1))
            }),
        decreases i,
    {
        let node = found.visited[i];
        let path = reachability::path_to(found.predecessors, node, passed);
        assert(found.visited.contains(node));
        assert(!passed.contains(node));
        assert(found.visited.take(i + 1)[i] == node);
        if found.predecessors.contains_key(node) {
            let first = found.predecessors[node];
            let h = self.lemma_predecessor(found, i);
            let more = passed.insert(node);
            assert forall|j: int| 0 <= j <= h implies !more.contains(
                #[trigger] found.visited[j],
            ) by {
                assert(found.visited[j] != found.visited[i]);
            }
            self.lemma_path(found, h, more);
            let rest = reachability::path_to(found.predecessors, first, more);
            assert(path == rest.push(node));
            let earlier = found.visited.take(h + 1);
            let later = found.visited.take(i + 1);
            assert(!rest.contains(node)) by {
                if rest.contains(node) {
                    let k = choose|k: int| 0 <= k < rest.len() && rest[k] == node;
                    assert(earlier.contains(rest[k]));
                    let j = choose|j: int| 0 <= j < earlier.len() && earlier[j] == node;
                    assert(found.visited[j] == found.visited[i]);
                }
            }
            lemma_extend_witness(self.graph, self.starts, rest, node);
            assert forall|k: int| 0 <= k < path.len() implies later.contains(
                #[trigger] path[k],
            ) by {
                if k < rest.len() {
                    assert(path[k] == rest[k]);
                    assert(earlier.contains(rest[k]));
                    let j = choose|j: int| 0 <= j < earlier.len() && earlier[j] == rest[k];
                    assert(later[j] == path[k]);
                }
            }
        } else {
            assert(path == seq![node]);
        }
    }

    /// Where the predecessor of a node was reached.
    proof fn lemma_predecessor(self, found: Found, i: int) -> (h: int)
        requires
            self.traced(found),
            0 <= i < found.visited.len(),
            found.predecessors.contains_key(found.visited[i]),
        ensures
            0 <= h < i,
            found.visited[h] == found.predecessors[found.visited[i]],
    {
        let node = found.visited[i];
        let first = found.predecessors[node];
        assert(comes_before(found.visited, first, node));
        choose|h: int|
            0 <= h < found.visited.len() && #[trigger] found.visited[h] == first && forall|j: int|
                0 <= j < found.visited.len() && #[trigger] found.visited[j] == node ==> h < j
    }

    /// Start nodes are reached. Every node that is reached has a path to it that starts
    /// at a start node, follows edges of the graph, and comes to no node twice; this is
    /// the path that is reported.
    pub proof fn law_reached_nodes_have_witnesses(self, node: NodeIndex)
        requires
            self.graph.wf(),
            forall|i: int| 0 <= i < self.starts.len() ==> self.graph.has(#[trigger] self.starts[i]),
        ensures
            self.starts.contains(node) ==> self.outcome().visited.contains(node),
            self.outcome().visited.contains(node) ==> is_witness(
                self.graph,
                self.starts,
                reachability::path_to(self.outcome().predecessors, node, Set::empty()),
                node,
            ),
    {
        let first = self.initial();
        let found = self.outcome();
        self.lemma_initial_valid();
        assert forall|n: NodeIndex| #[trigger] queued(first, n) implies self.starts.contains(
            n,
        ) by {
            let k = choose|k: int|
                0 <= k < first.queue.len() && (#[trigger] first.queue[k]).0 == n;
            assert(self.starts[k] == n);
        }
        self.lemma_run_traced(first);
        if self.starts.contains(node) {
            let k = choose|k: int| 0 <= k < self.starts.len() && self.starts[k] == node;
            assert(first.queue[k].0 == node);
            assert(queued(first, node));
        }
        if found.visited.contains(node) {
            let i = choose|i: int| 0 <= i < found.visited.len() && found.visited[i] == node;
            self.lemma_path(found, i, Set::empty());
        }
    }

    /// No node is reached twice, and all that are reached are nodes of the graph.
    pub proof fn law_nodes_are_reached_once(self)
        requires
            self.graph.wf(),
            forall|i: int| 0 <= i < self.starts.len() ==> self.graph.has(#[trigger] self.starts[i]),
        ensures
            self.outcome().visited.no_duplicates(),
            forall|i: int|
                0 <= i < self.outcome().visited.len() ==> self.graph.has(
                    #[trigger] self.outcome().visited[i],
                ),
            self.outcome().visited.len() <= self.graph.nodes().len(),
    {
        let first = self.initial();
        self.lemma_initial_valid();
        assert forall|n: NodeIndex| #[trigger] queued(first, n) implies self.starts.contains(
            n,
        ) by {
            let k = choose|k: int|
                0 <= k < first.queue.len() && (#[trigger] first.queue[k]).0 == n;
            assert(self.starts[k] == n);
        }
        self.lemma_run_traced(first);
        policy::lemma_distinct_below(self.outcome().visited, self.graph.nodes().len());
    }

    /// A search that starts at a constructor alone offers none of its callers from it:
    /// what is found from it are targets of its edges.
    pub proof fn law_constructor_offers_no_caller(self, start: NodeIndex, node: NodeIndex)
        requires
            self.graph.wf(),
            self.graph.has(start),
            self.starts == seq![start],
            self.graph.at(start) matches Node::Function(f) && f.is_constructor,
            self.outcome().predecessors.contains_key(node),
            self.outcome().predecessors[node] == start,
        ensures
            exists|kind: EdgeKind| #[trigger] self.graph.has_link(start, node, kind),
    {
        let first = self.initial();
        self.lemma_initial_valid();
        assert forall|n: NodeIndex| #[trigger] queued(first, n) implies self.starts.contains(
            n,
        ) by {
            let k = choose|k: int|
                0 <= k < first.queue.len() && (#[trigger] first.queue[k]).0 == n;
            assert(self.starts[k] == n);
        }
        self.lemma_run_traced(first);
        assert(goes_to(self.graph, start, node));
    }

    proof fn lemma_forward_offers(
        self,
        found: Found,
        current: NodeIndex,
        edges: Seq<(NodeIndex, EdgeKind)>,
        k: int,
    )
        requires
            0 <= k < edges.len(),
        ensures
            ({
                let after = self.forward_all(found, current, edges);
                after.visited.contains(edges[k].0) || queued(after, edges[k].0)
            }),
        decreases edges.len(),
    {
        let rest = edges.drop_last();
        let before = self.forward_all(found, current, rest);
        let after = self.forward_all(found, current, edges);
        let node = edges[k].0;
        if k < rest.len() {
            self.lemma_forward_offers(found, current, rest, k);
            assert(rest[k] == edges[k]);
            if before.visited.contains(node) {
                let i = choose|i: int| 0 <= i < before.visited.len() && before.visited[i] == node;
                assert(after.visited[i] == node);
            } else {
                let i = choose|i: int|
                    0 <= i < before.queue.len() && (#[trigger] before.queue[i]).0 == node;
                assert(after.queue[i].0 == node);
            }
        } else if !self.is_boundary(current, edges[k]) {
            assert(after.queue[before.queue.len() as int].0 == node);
        } else if !before.visited.contains(node) {
            assert(after.visited[before.visited.len() as int] == node);
        }
    }

    proof fn lemma_offer_offers(
        self,
        found: Found,
        current: NodeIndex,
        edges: Seq<(NodeIndex, EdgeKind)>,
        via: ReachedVia,
        k: int,
    )
        requires
            0 <= k < edges.len(),
        ensures
            ({
                let after = self.offer_all(found, current, edges, via);
                after.visited.contains(edges[k].0) || queued(after, edges[k].0)
            }),
        decreases edges.len(),
    {
        let rest = edges.drop_last();
        let before = self.offer_all(found, current, rest, via);
        let after = self.offer_all(found, current, edges, via);
        let node = edges[k].0;
        if k < rest.len() {
            self.lemma_offer_offers(found, current, rest, via, k);
            assert(rest[k] == edges[k]);
            if !before.visited.contains(node) {
                let i = choose|i: int|
                    0 <= i < before.queue.len() && (#[trigger] before.queue[i]).0 == node;
                assert(after.queue[i].0 == node);
            }
        } else if !before.visited.contains(node) {
            assert(after.queue[before.queue.len() as int].0 == node);
        }
    }

    proof fn lemma_offer_visited(
        self,
        found: Found,
        current: NodeIndex,
        edges: Seq<(NodeIndex, EdgeKind)>,
        via: ReachedVia,
    )
        ensures
            self.offer_all(found, current, edges, via).visited == found.visited,
        decreases edges.len(),
    {
        if edges.len() > 0 {
            self.lemma_offer_visited(found, current, edges.drop_last(), via);
        }
    }

    /// What stands next to the first start node is reached: each target of an edge of it,
    /// and each caller of it, if it is a function whose callers tell more.
    pub proof fn law_neighbours_of_the_first_start_are_reached(
        self,
        node: NodeIndex,
        kind: EdgeKind,
    )
        requires
            self.graph.wf(),
            forall|i: int| 0 <= i < self.starts.len() ==> self.graph.has(#[trigger] self.starts[i]),
            self.starts.len() > 0,
        ensures
            self.graph.has_link(self.starts[0], node, kind) ==> self.outcome().visited.contains(
                node,
            ),
            self.graph.has_link(node, self.starts[0], EdgeKind::Call) && (self.graph.at(
                self.starts[0],
            ) matches Node::Function(f) && policy::explores_callers(
                f,
                self.starts[0],
                None,
                self.params,
                self.graph,
            )) ==> self.outcome().visited.contains(node),
    {
        let first = self.initial();
        let start = self.starts[0];
        self.lemma_initial_valid();
        assert forall|n: NodeIndex| #[trigger] queued(first, n) implies self.starts.contains(
            n,
        ) by {
            let k = choose|k: int|
                0 <= k < first.queue.len() && (#[trigger] first.queue[k]).0 == n;
            assert(self.starts[k] == n);
        }
        assert(first.queue[0] == (start, ReachedVia::Start));
        self.lemma_step_valid(first);
        self.lemma_step_traced(first);
        let next = self.step(first);
        self.lemma_run_traced(next);
        let rest = Found { queue: first.queue.drop_first(), ..first };
        let reached = Found { visited: first.visited.push(start), ..rest };
        let all = self.graph.outgoing(start);
        let out = self.graph.by_symbol(all);
        let forth = self.forward_all(reached, start, out);
        let every = self.graph.incoming(start, Some(EdgeKind::Call));
        let callers = self.graph.by_symbol(every);
        let writers = self.graph.by_symbol(self.graph.incoming(start, Some(EdgeKind::Write)));
        self.lemma_offer_visited(forth, start, callers, ReachedVia::CallIn);
        self.lemma_offer_visited(forth, start, writers, ReachedVia::SharedStateWrite);
        self.lemma_offer_queue(forth, start, callers, ReachedVia::CallIn);
        self.lemma_offer_queue(forth, start, writers, ReachedVia::SharedStateWrite);
        if self.graph.has_link(start, node, kind) {
            digraph::lemma_links_at_len(self.graph.links(), start, EdgeDirection::Outgoing);
            reachability::lemma_by_symbol(self.graph, all);
            self.graph.law_edges_are_listed_at_both_ends(start, node, kind);
            assert(all.contains((node, kind)));
            let j = choose|j: int| 0 <= j < all.len() && all[j] == (node, kind);
            assert(out.contains(all[j]));
            let k = choose|k: int| 0 <= k < out.len() && out[k] == (node, kind);
            self.lemma_forward_offers(reached, start, out, k);
            if forth.visited.contains(node) {
                assert(next.visited == forth.visited);
            } else {
                let i = choose|i: int|
                    0 <= i < forth.queue.len() && (#[trigger] forth.queue[i]).0 == node;
                assert(next.queue.subrange(0, forth.queue.len() as int)[i] == forth.queue[i]);
                assert(next.queue[i].0 == node);
                assert(queued(next, node));
            }
        }
        if self.graph.has_link(node, start, EdgeKind::Call) && (self.graph.at(
            start,
        ) matches Node::Function(f) && policy::explores_callers(
            f,
            start,
            None,
            self.params,
            self.graph,
        )) {
            digraph::lemma_links_at_len(self.graph.links(), start, EdgeDirection::Incoming);
            graph::lemma_of_kind_len(self.graph.all_incoming(start), Some(EdgeKind::Call));
            reachability::lemma_by_symbol(self.graph, every);
            self.graph.law_edges_are_listed_at_both_ends(node, start, EdgeKind::Call);
            assert(every.contains((node, EdgeKind::Call)));
            let j = choose|j: int| 0 <= j < every.len() && every[j] == (node, EdgeKind::Call);
            assert(callers.contains(every[j]));
            let k = choose|k: int|
                0 <= k < callers.len() && callers[k] == (node, EdgeKind::Call);
            self.lemma_offer_offers(forth, start, callers, ReachedVia::CallIn, k);
        }
    }

    /// Whether a node was found along an edge that is no boundary.
    pub open spec fn enterable(self, found: Found, node: NodeIndex) -> bool {
        exists|from: NodeIndex, kind: EdgeKind|
            found.visited.contains(from) && #[trigger] self.graph.has_link(from, node, kind)
                && !policy::forward_boundary(
                self.params,
                self.graph.at(from),
                self.graph.at(node),
                kind,
                self.graph.types(),
            )
    }

    /// Whether what stands in the queue may be left, if it was not found backwards, and
    /// only such nodes were left.
    spec fn entered(self, found: Found) -> bool {
        &&& forall|k: int|
            #![trigger found.queue[k]]
            0 <= k < found.queue.len() ==> match found.queue[k].1 {
                ReachedVia::Start => self.starts.contains(found.queue[k].0),
                ReachedVia::Forward(_) => self.enterable(found, found.queue[k].0),
                _ => true,
            }
        &&& forall|n: NodeIndex| #[trigger]
            found.predecessors.contains_key(n) ==> self.starts.contains(found.predecessors[n])
                || self.enterable(found, found.predecessors[n])
    }

    proof fn lemma_enterable(self, before: Found, after: Found, node: NodeIndex)
        requires
            self.enterable(before, node),
            forall|n: NodeIndex| #[trigger]
                before.visited.contains(n) ==> after.visited.contains(n),
        ensures
            self.enterable(after, node),
    {
        let (from, kind) = choose|from: NodeIndex, kind: EdgeKind|
            before.visited.contains(from) && #[trigger] self.graph.has_link(from, node, kind)
                && !policy::forward_boundary(
                self.params,
                self.graph.at(from),
                self.graph.at(node),
                kind,
                self.graph.types(),
            );
        assert(after.visited.contains(from) && self.graph.has_link(from, node, kind));
    }

    /// More nodes that are reached change nothing of what was entered.
    proof fn lemma_entered_visit(self, before: Found, node: NodeIndex)
        requires
            self.entered(before),
        ensures
            self.entered((Found { visited: before.visited.push(node), ..before })),
            forall|n: NodeIndex| #[trigger]
                before.visited.contains(n) ==> before.visited.push(node).contains(n),
            before.visited.push(node).contains(node),
    {
        let after = Found { visited: before.visited.push(node), ..before };
        assert(after.visited[before.visited.len() as int] == node);
        assert forall|n: NodeIndex| #[trigger]
            before.visited.contains(n) implies after.visited.contains(n) by {
            let k = choose|k: int| 0 <= k < before.visited.len() && before.visited[k] == n;
            assert(after.visited[k] == n);
        }
        assert forall|k: int|
            #![trigger after.queue[k]]
            0 <= k < after.queue.len() implies match after.queue[k].1 {
            ReachedVia::Start => self.starts.contains(after.queue[k].0),
            ReachedVia::Forward(_) => self.enterable(after, after.queue[k].0),
            _ => true,
        } by {
            assert(before.queue[k] == after.queue[k]);
            if let ReachedVia::Forward(_) = before.queue[k].1 {
                self.lemma_enterable(before, after, before.queue[k].0);
            }
        }
        assert forall|n: NodeIndex| #[trigger]
            after.predecessors.contains_key(n) implies self.starts.contains(after.predecessors[n])
            || self.enterable(after, after.predecessors[n]) by {
            assert(before.predecessors.contains_key(n));
            if self.enterable(before, before.predecessors[n]) {
                self.lemma_enterable(before, after, before.predecessors[n]);
            }
        }
    }

    proof fn lemma_forward_entered(
        self,
        found: Found,
        current: NodeIndex,
        edges: Seq<(NodeIndex, EdgeKind)>,
    )
        requires
            self.entered(found),
            found.visited.contains(current),
            self.starts.contains(current) || self.enterable(found, current),
            forall|k: int|
                0 <= k < edges.len() ==> self.graph.has_link(
                    current,
                    (#[trigger] edges[k]).0,
                    edges[k].1,
                ),
        ensures
            ({
                let after = self.forward_all(found, current, edges);
                &&& self.entered(after)
                &&& after.visited.contains(current)
                &&& self.starts.contains(current) || self.enterable(after, current)
            }),
        decreases edges.len(),
    {
        if edges.len() > 0 {
            let rest = edges.drop_last();
            let edge = edges.last();
            assert(forall|k: int| 0 <= k < rest.len() ==> rest[k] == edges[k]);
            assert(edges[edges.len() - 1] == edge);
            self.lemma_forward_entered(found, current, rest);
            let before = self.forward_all(found, current, rest);
            let after = self.forward_all(found, current, edges);
            let noted = Found {
                predecessors: self.noted(before.predecessors, edge.0, current),
                ..before
            };
            assert forall|node: NodeIndex| #[trigger] self.enterable(before, node) implies
                self.enterable(noted, node) by {
                self.lemma_enterable(before, noted, node);
            }
            assert(self.entered(noted)) by {
                assert forall|k: int|
                    #![trigger noted.queue[k]]
                    0 <= k < noted.queue.len() implies match noted.queue[k].1 {
                    ReachedVia::Start => self.starts.contains(noted.queue[k].0),
                    ReachedVia::Forward(_) => self.enterable(noted, noted.queue[k].0),
                    _ => true,
                } by {
                    assert(before.queue[k] == noted.queue[k]);
                }
                assert forall|n: NodeIndex| #[trigger]
                    noted.predecessors.contains_key(n) implies self.starts.contains(
                    noted.predecessors[n],
                ) || self.enterable(noted, noted.predecessors[n]) by {
                    if before.predecessors.contains_key(n) {
                        assert(noted.predecessors[n] == before.predecessors[n]);
                    }
                }
            }
            if !self.is_boundary(current, edge) {
                assert(self.graph.has_link(current, edge.0, edge.1));
                assert(self.enterable(noted, edge.0));
                assert forall|node: NodeIndex| #[trigger] self.enterable(noted, node) implies
                    self.enterable(after, node) by {
                    self.lemma_enterable(noted, after, node);
                }
                assert forall|k: int|
                    #![trigger after.queue[k]]
                    0 <= k < after.queue.len() implies match after.queue[k].1 {
                    ReachedVia::Start => self.starts.contains(after.queue[k].0),
                    ReachedVia::Forward(_) => self.enterable(after, after.queue[k].0),
                    _ => true,
                } by {
                    if k < noted.queue.len() {
                        assert(noted.queue[k] == after.queue[k]);
                    }
                }
                assert(after.predecessors == noted.predecessors);
            } else if !before.visited.contains(edge.0) {
                self.lemma_entered_visit(noted, edge.0);
                if self.enterable(noted, current) {
                    self.lemma_enterable(noted, after, current);
                }
            }
        }
    }

    proof fn lemma_offer_entered(
        self,
        found: Found,
        current: NodeIndex,
        edges: Seq<(NodeIndex, EdgeKind)>,
        via: ReachedVia,
    )
        requires
            self.entered(found),
            self.starts.contains(current) || self.enterable(found, current),
            (via == ReachedVia::CallIn || via == ReachedVia::SharedStateWrite),
        ensures
            self.entered(self.offer_all(found, current, edges, via)),
        decreases edges.len(),
    {
        if edges.len() > 0 {
            let rest = edges.drop_last();
            self.lemma_offer_entered(found, current, rest, via);
            self.lemma_offer_visited(found, current, rest, via);
            let before = self.offer_all(found, current, rest, via);
            let after = self.offer_all(found, current, edges, via);
            assert forall|node: NodeIndex| #[trigger] self.enterable(before, node) implies
                self.enterable(after, node) by {
                self.lemma_enterable(before, after, node);
            }
            if self.enterable(found, current) {
                self.lemma_enterable(found, after, current);
            }
            assert forall|k: int|
                #![trigger after.queue[k]]
                0 <= k < after.queue.len() implies match after.queue[k].1 {
                ReachedVia::Start => self.starts.contains(after.queue[k].0),
                ReachedVia::Forward(_) => self.enterable(after, after.queue[k].0),
                _ => true,
            } by {
                if k < before.queue.len() {
                    assert(before.queue[k] == after.queue[k]);
                }
            }
            assert forall|n: NodeIndex| #[trigger]
                after.predecessors.contains_key(n) implies self.starts.contains(
                after.predecessors[n],
            ) || self.enterable(after, after.predecessors[n]) by {
                if before.predecessors.contains_key(n) {
                    assert(after.predecessors[n] == before.predecessors[n]);
                }
            }
        }
    }

    proof fn lemma_step_entered(self, found: Found)
        requires
            self.valid(found),
            self.entered(found),
            found.queue.len() > 0,
        ensures
            self.entered(self.step(found)),
    {
        let (current, via) = found.queue[0];
        let rest = Found { queue: found.queue.drop_first(), ..found };
        assert(found.queue[0] == (current, via));
        assert forall|node: NodeIndex| #[trigger] self.enterable(found, node) implies
            self.enterable(rest, node) by {
            self.lemma_enterable(found, rest, node);
        }
        assert(self.entered(rest)) by {
            assert forall|k: int|
                #![trigger rest.queue[k]]
                0 <= k < rest.queue.len() implies match rest.queue[k].1 {
                ReachedVia::Start => self.starts.contains(rest.queue[k].0),
                ReachedVia::Forward(_) => self.enterable(rest, rest.queue[k].0),
                _ => true,
            } by {
                assert(found.queue[k + 1] == rest.queue[k]);
            }
        }
        if !found.visited.contains(current) {
            let reached = Found { visited: found.visited.push(current), ..rest };
            self.lemma_entered_visit(rest, current);
            if self.enterable(rest, current) {
                self.lemma_enterable(rest, reached, current);
            }
            if via != ReachedVia::CallIn && via != ReachedVia::SharedStateWrite {
                let all = self.graph.outgoing(current);
                let out = self.graph.by_symbol(all);
                digraph::lemma_links_at_len(self.graph.links(), current, EdgeDirection::Outgoing);
                reachability::lemma_by_symbol(self.graph, all);
                assert forall|k: int| 0 <= k < out.len() implies self.graph.has_link(
                    current,
                    (#[trigger] out[k]).0,
                    out[k].1,
                ) by {
                    assert(all.contains(out[k]));
                    let j = choose|j: int| 0 <= j < all.len() && all[j] == out[k];
                    self.graph.lemma_outgoing(current, j);
                }
                self.lemma_forward_entered(reached, current, out);
                let forth = self.forward_all(reached, current, out);
                self.lemma_offer_entered(
                    forth,
                    current,
                    self.graph.by_symbol(self.graph.incoming(current, Some(EdgeKind::Call))),
                    ReachedVia::CallIn,
                );
                self.lemma_offer_entered(
                    forth,
                    current,
                    self.graph.by_symbol(self.graph.incoming(current, Some(EdgeKind::Write))),
                    ReachedVia::SharedStateWrite,
                );
            }
        }
    }

    proof fn lemma_run_entered(self, found: Found)
        requires
            self.valid(found),
            self.entered(found),
        ensures
            self.entered(self.run(found)),
        decreases self.unvisited(found), found.queue.len(),
    {
        if found.queue.len() > 0 {
            self.lemma_step_valid(found);
            self.lemma_step_entered(found);
            self.lemma_run_entered(self.step(found));
        }
    }

    /// A search goes on only from start nodes, and from nodes to which an edge leads from
    /// a node that was reached and that is no boundary. So boundaries are reached and not
    /// left, and neither are callers and writers that were found backwards.
    pub proof fn law_boundaries_are_not_left(self, node: NodeIndex)
        requires
            self.graph.wf(),
            forall|i: int| 0 <= i < self.starts.len() ==> self.graph.has(#[trigger] self.starts[i]),
            self.outcome().predecessors.contains_key(node),
        ensures
            ({
                let from = self.outcome().predecessors[node];
                self.starts.contains(from) || self.enterable(self.outcome(), from)
            }),
    {
        let first = self.initial();
        self.lemma_initial_valid();
        assert forall|k: int|
            #![trigger first.queue[k]]
            0 <= k < first.queue.len() implies match first.queue[k].1 {
            ReachedVia::Start => self.starts.contains(first.queue[k].0),
            ReachedVia::Forward(_) => self.enterable(first, first.queue[k].0),
            _ => true,
        } by {
            assert(self.starts[k] == first.queue[k].0);
        }
        self.lemma_run_entered(first);
    }

    /// Whether nothing stands in the way of a search, and nothing is looked for backwards:
    /// no edge is a boundary, the callers of no function are explored, and no variable that
    /// may change is written.
    pub open spec fn unobstructed(self) -> bool {
        &&& forall|a: NodeIndex, b: NodeIndex, kind: EdgeKind| #[trigger]
            self.graph.has_link(a, b, kind) ==> !policy::forward_boundary(
                self.params,
                self.graph.at(a),
                self.graph.at(b),
                kind,
                self.graph.types(),
            )
        &&& forall|idx: NodeIndex, incoming: Option<EdgeKind>|
            self.graph.at(idx) is Function ==> !#[trigger] policy::explores_callers(
                self.graph.at(idx)->Function_0,
                idx,
                incoming,
                self.params,
                self.graph,
            )
        &&& forall|a: NodeIndex, b: NodeIndex| #[trigger]
            self.graph.has_link(a, b, EdgeKind::Write) ==> !(self.graph.at(
                b,
            ) matches Node::Variable(v) && v.mutability == Mutability::Mutable)
    }

    /// Whether the targets of what was reached are reached or stand in the queue.
    spec fn covered(self, found: Found) -> bool {
        &&& forall|k: int|
            #![trigger found.queue[k]]
            0 <= k < found.queue.len() ==> found.queue[k].1 == ReachedVia::Start
                || found.queue[k].1 is Forward
        &&& forall|m: NodeIndex, t: NodeIndex, kind: EdgeKind| #[trigger]
            self.graph.has_link(m, t, kind) && found.visited.contains(m)
                ==> found.visited.contains(t) || queued(found, t)
    }

    proof fn lemma_forward_covers(
        self,
        found: Found,
        current: NodeIndex,
        edges: Seq<(NodeIndex, EdgeKind)>,
    )
        requires
            self.unobstructed(),
            forall|k: int|
                0 <= k < edges.len() ==> self.graph.has_link(
                    current,
                    (#[trigger] edges[k]).0,
                    edges[k].1,
                ),
            forall|k: int|
                #![trigger found.queue[k]]
                0 <= k < found.queue.len() ==> found.queue[k].1 == ReachedVia::Start
                    || found.queue[k].1 is Forward,
        ensures
            ({
                let after = self.forward_all(found, current, edges);
                &&& after.visited == found.visited
                &&& forall|n: NodeIndex| #[trigger] queued(found, n) ==> queued(after, n)
                &&& forall|k: int|
                    #![trigger after.queue[k]]
                    0 <= k < after.queue.len() ==> after.queue[k].1 == ReachedVia::Start
                        || after.queue[k].1 is Forward
            }),
        decreases edges.len(),
    {
        if edges.len() > 0 {
            let rest = edges.drop_last();
            assert(forall|k: int| 0 <= k < rest.len() ==> rest[k] == edges[k]);
            self.lemma_forward_covers(found, current, rest);
            let before = self.forward_all(found, current, rest);
            let after = self.forward_all(found, current, edges);
            let edge = edges.last();
            assert(edges[edges.len() - 1] == edge);
            assert(self.graph.has_link(current, edge.0, edge.1));
            assert(!self.is_boundary(current, edge));
            assert forall|n: NodeIndex| #[trigger] queued(found, n) implies queued(after, n) by {
                assert(queued(before, n));
                let k = choose|k: int|
                    0 <= k < before.queue.len() && (#[trigger] before.queue[k]).0 == n;
                assert(after.queue[k].0 == n);
            }
            assert forall|k: int|
                #![trigger after.queue[k]]
                0 <= k < after.queue.len() implies after.queue[k].1 == ReachedVia::Start
                || after.queue[k].1 is Forward by {
                if k < before.queue.len() {
                    assert(after.queue[k] == before.queue[k]);
                }
            }
        }
    }

    proof fn lemma_step_covers(self, found: Found)
        requires
            self.valid(found),
            self.unobstructed(),
            self.covered(found),
            found.queue.len() > 0,
        ensures
            self.covered(self.step(found)),
    {
        let (current, via) = found.queue[0];
        let rest = Found { queue: found.queue.drop_first(), ..found };
        let next = self.step(found);
        assert(found.queue[0] == (current, via));
        assert forall|k: int|
            #![trigger rest.queue[k]]
            0 <= k < rest.queue.len() implies rest.queue[k].1 == ReachedVia::Start
            || rest.queue[k].1 is Forward by {
            assert(rest.queue[k] == found.queue[k + 1]);
        }
        assert forall|n: NodeIndex| #[trigger] queued(found, n) && n != current implies queued(
            rest,
            n,
        ) by {
            let k = choose|k: int|
                0 <= k < found.queue.len() && (#[trigger] found.queue[k]).0 == n;
            assert(rest.queue[k - 1].0 == n);
        }
        if found.visited.contains(current) {
            assert(next == rest);
        } else {
            let reached = Found { visited: found.visited.push(current), ..rest };
            let all = self.graph.outgoing(current);
            let out = self.graph.by_symbol(all);
            digraph::lemma_links_at_len(self.graph.links(), current, EdgeDirection::Outgoing);
            reachability::lemma_by_symbol(self.graph, all);
            assert forall|k: int| 0 <= k < out.len() implies self.graph.has_link(
                current,
                (#[trigger] out[k]).0,
                out[k].1,
            ) by {
                assert(all.contains(out[k]));
                let j = choose|j: int| 0 <= j < all.len() && all[j] == out[k];
                self.graph.lemma_outgoing(current, j);
            }
            self.lemma_forward_covers(reached, current, out);
            let forth = self.forward_all(reached, current, out);
            self.lemma_nothing_backwards(forth, current, via);
            assert(next == forth);
            assert(reached.visited[found.visited.len() as int] == current);
            assert forall|m: NodeIndex, t: NodeIndex, kind: EdgeKind| #[trigger]
                self.graph.has_link(m, t, kind) && next.visited.contains(m) implies
                next.visited.contains(t) || queued(next, t) by {
                if m == current {
                    self.graph.law_edges_are_listed_at_both_ends(m, t, kind);
                    let j = choose|j: int| 0 <= j < all.len() && all[j] == (t, kind);
                    assert(out.contains(all[j]));
                    let k = choose|k: int| 0 <= k < out.len() && out[k] == (t, kind);
                    self.lemma_forward_offers(reached, current, out, k);
                } else {
                    let i = choose|i: int|
                        0 <= i < next.visited.len() && next.visited[i] == m;
                    assert(found.visited[i] == m);
                    assert(found.visited.contains(m));
                    if found.visited.contains(t) {
                        let j = choose|j: int|
                            0 <= j < found.visited.len() && found.visited[j] == t;
                        assert(next.visited[j] == t);
                    } else if t != current {
                        assert(queued(rest, t));
                        let k = choose|k: int|
                            0 <= k < rest.queue.len() && (#[trigger] rest.queue[k]).0 == t;
                        assert(reached.queue[k].0 == t);
                        assert(queued(reached, t));
                    }
                }
            }
        }
    }

    proof fn lemma_nothing_backwards(self, found: Found, current: NodeIndex, via: ReachedVia)
        requires
            self.graph.wf(),
            self.unobstructed(),
        ensures
            self.backward(found, current, via) == found,
    {
        if let Node::Variable(v) = self.graph.at(current) {
            let every = self.graph.incoming(current, Some(EdgeKind::Write));
            if v.mutability == Mutability::Mutable && every.len() > 0 {
                self.graph.lemma_incoming(current, Some(EdgeKind::Write), 0);
                assert(self.graph.has_link(every[0].0, current, EdgeKind::Write));
            }
            if every.len() == 0 {
                digraph::lemma_links_at_len(self.graph.links(), current, EdgeDirection::Incoming);
                reachability::lemma_by_symbol(self.graph, every);
            }
        }
    }

    proof fn lemma_run_covers(self, found: Found)
        requires
            self.valid(found),
            self.unobstructed(),
            self.covered(found),
        ensures
            self.covered(self.run(found)),
            self.run(found).queue.len() == 0,
        decreases self.unvisited(found), found.queue.len(),
    {
        if found.queue.len() > 0 {
            self.lemma_step_valid(found);
            self.lemma_step_covers(found);
            self.lemma_run_covers(self.step(found));
        }
    }

    /// Where nothing stands in its way and nothing is looked for backwards, a search
    /// reaches whatever the edges of reached nodes lead to.
    pub proof fn law_open_graphs_are_searched_through(
        self,
        node: NodeIndex,
        target: NodeIndex,
        kind: EdgeKind,
    )
        requires
            self.graph.wf(),
            forall|i: int| 0 <= i < self.starts.len() ==> self.graph.has(#[trigger] self.starts[i]),
            self.unobstructed(),
            self.outcome().visited.contains(node),
            self.graph.has_link(node, target, kind),
        ensures
            self.outcome().visited.contains(target),
    {
        self.lemma_initial_valid();
        self.lemma_run_covers(self.initial());
    }
}

} // verus!
