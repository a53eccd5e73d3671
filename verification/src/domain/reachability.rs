//! Which nodes are reached from others, and by which path.

use crate::domain::edge::EdgeKind;
use crate::domain::digraph;
use crate::domain::digraph::EdgeDirection;
use crate::domain::graph;
use crate::domain::graph::{ContextGraph, NodeIndex};
use crate::domain::node::{Mutability, Node, NodeId};
use crate::domain::policy;
use crate::domain::policy::{
    evaluate_forward, should_explore_callers, BoundaryPolicy, PruningDecision, PruningParams,
};
use crate::domain::solver;
use crate::domain::solver::CfSolver;
use crate::domain::sort;
use crate::domain::sort::sort_texts;
use std::collections::{HashMap, HashSet, VecDeque};
use vstd::prelude::*;

verus! {

/// What to report of reachability.
#[derive(Debug, Clone, Copy, PartialEq, Eq, Structural)]
pub struct ReachabilityOptions {
    /// Whether to report paths to the targets.
    pub witness_paths: bool,
    /// How many paths to report at most.
    pub max_paths: usize,
}

impl Default for ReachabilityOptions {
    fn default() -> (r: Self)
        ensures
            r == (ReachabilityOptions { witness_paths: false, max_paths: 1 }),
    {
        ReachabilityOptions { witness_paths: false, max_paths: 1 }
    }
}

/// Which targets were reached.
#[derive(Debug)]
pub struct ReachabilityResult {
    pub reachable: bool,
    pub hit_targets: Vec<NodeId>,
    pub visited_set: HashSet<NodeId>,
    pub visited_node_count: usize,
    pub witness_paths: Vec<Vec<NodeId>>,
}

/// How a node was reached.
#[derive(Debug, Clone, Copy, PartialEq, Eq, Structural)]
pub enum ReachedVia {
    Start,
    Forward(EdgeKind),
    /// As a caller of the node before (call-in exploration).
    CallIn,
    /// As a writer of the variable before (shared state).
    SharedStateWrite,
}

/// A search, as far as it has come.
pub struct Found {
    /// Nodes in the order in which they were reached.
    pub visited: Seq<NodeIndex>,
    /// For each node that is no start, the node from which it was first found.
    pub predecessors: Map<NodeIndex, NodeIndex>,
    pub queue: Seq<(NodeIndex, ReachedVia)>,
}

/// What a search is run on.
pub struct Search {
    pub graph: ContextGraph,
    pub params: PruningParams,
    pub starts: Seq<NodeIndex>,
}

impl Search {
    /// Records where a node was first found from. Start nodes are not found.
    pub open spec fn noted(
        self,
        predecessors: Map<NodeIndex, NodeIndex>,
        node: NodeIndex,
        from: NodeIndex,
    ) -> Map<NodeIndex, NodeIndex> {
        if self.starts.contains(node) || predecessors.contains_key(node) {
            predecessors
        } else {
            predecessors.insert(node, from)
        }
    }

    pub open spec fn is_boundary(self, current: NodeIndex, edge: (NodeIndex, EdgeKind)) -> bool {
        policy::forward_boundary(
            self.params,
            self.graph.at(current),
            self.graph.at(edge.0),
            edge.1,
            self.graph.types(),
        )
    }

    /// Follows an edge: a transparent target joins the queue, a boundary is reached
    /// but not left.
    pub open spec fn forward(
        self,
        found: Found,
        current: NodeIndex,
        edge: (NodeIndex, EdgeKind),
    ) -> Found {
        let predecessors = self.noted(found.predecessors, edge.0, current);
        if !self.is_boundary(current, edge) {
            Found {
                predecessors,
                queue: found.queue.push((edge.0, ReachedVia::Forward(edge.1))),
                ..found
            }
        } else if !found.visited.contains(edge.0) {
            Found { predecessors, visited: found.visited.push(edge.0), ..found }
        } else {
            found
        }
    }

    pub open spec fn forward_all(
        self,
        found: Found,
        current: NodeIndex,
        edges: Seq<(NodeIndex, EdgeKind)>,
    ) -> Found
        decreases edges.len(),
    {
        if edges.len() == 0 {
            found
        } else {
            self.forward(
                self.forward_all(found, current, edges.drop_last()),
                current,
                edges.last(),
            )
        }
    }

    /// Puts a node in the queue unless it was reached.
    pub open spec fn offer(
        self,
        found: Found,
        current: NodeIndex,
        node: NodeIndex,
        via: ReachedVia,
    ) -> Found {
        if found.visited.contains(node) {
            found
        } else {
            Found {
                predecessors: self.noted(found.predecessors, node, current),
                queue: found.queue.push((node, via)),
                ..found
            }
        }
    }

    pub open spec fn offer_all(
        self,
        found: Found,
        current: NodeIndex,
        edges: Seq<(NodeIndex, EdgeKind)>,
        via: ReachedVia,
    ) -> Found
        decreases edges.len(),
    {
        if edges.len() == 0 {
            found
        } else {
            self.offer(
                self.offer_all(found, current, edges.drop_last(), via),
                current,
                edges.last().0,
                via,
            )
        }
    }

    /// Looks backwards from a node: at the callers of a function that its own
    /// contract does not explain, and at the writers of a variable that is read and
    /// may change.
    pub open spec fn backward(self, found: Found, current: NodeIndex, via: ReachedVia) -> Found {
        match self.graph.at(current) {
            Node::Function(f) => {
                let incoming_edge = match via {
                    ReachedVia::Forward(kind) => Some(kind),
                    _ => None,
                };
                if policy::explores_callers(f, current, incoming_edge, self.params, self.graph) {
                    self.offer_all(
                        found,
                        current,
                        self.graph.by_symbol(
                            self.graph.incoming(current, Some(EdgeKind::Call)),
                        ),
                        ReachedVia::CallIn,
                    )
                } else {
                    found
                }
            },
            Node::Variable(v) => if v.mutability == Mutability::Mutable && via
                == ReachedVia::Forward(EdgeKind::Read) {
                self.offer_all(
                    found,
                    current,
                    self.graph.by_symbol(self.graph.incoming(current, Some(EdgeKind::Write))),
                    ReachedVia::SharedStateWrite,
                )
            } else {
                found
            },
        }
    }

    /// One step: the first node of the queue is reached, unless it was before. Nodes
    /// that were found backwards are not left again.
    pub open spec fn step(self, found: Found) -> Found {
        let (current, via) = found.queue[0];
        let rest = Found { queue: found.queue.drop_first(), ..found };
        if found.visited.contains(current) {
            rest
        } else {
            let reached = Found { visited: found.visited.push(current), ..rest };
            if via == ReachedVia::CallIn || via == ReachedVia::SharedStateWrite {
                reached
            } else {
                self.backward(
                    self.forward_all(
                        reached,
                        current,
                        self.graph.by_symbol(self.graph.outgoing(current)),
                    ),
                    current,
                    via,
                )
            }
        }
    }

    /// Whether nodes are nodes of the graph, and none is reached twice.
    pub open spec fn valid(self, found: Found) -> bool {
        &&& self.graph.wf()
        &&& found.visited.no_duplicates()
        &&& forall|i: int|
            0 <= i < found.visited.len() ==> self.graph.has(#[trigger] found.visited[i])
        &&& forall|i: int|
            0 <= i < found.queue.len() ==> self.graph.has((#[trigger] found.queue[i]).0)
        &&& found.predecessors.dom().finite()
        &&& forall|node: NodeIndex| #[trigger]
            found.predecessors.contains_key(node) ==> self.graph.has(node) && self.graph.has(
                found.predecessors[node],
            )
    }

    pub open spec fn unvisited(self, found: Found) -> int {
        self.graph.nodes().len() - found.visited.len()
    }

    /// Steps until the queue is empty.
    pub open spec fn run(self, found: Found) -> Found
        decreases self.unvisited(found), found.queue.len(),
        when self.valid(found)
        via Self::run_decreases
    {
        if found.queue.len() == 0 {
            found
        } else {
            self.run(self.step(found))
        }
    }

    #[via_fn]
    proof fn run_decreases(self, found: Found) {
        if found.queue.len() > 0 {
            self.lemma_step_valid(found);
        }
    }

    /// A search before its first step.
    pub open spec fn initial(self) -> Found {
        Found {
            visited: Seq::empty(),
            predecessors: Map::empty(),
            queue: self.starts.map_values(|start: NodeIndex| (start, ReachedVia::Start)),
        }
    }

    /// What is found from the start nodes.
    pub open spec fn outcome(self) -> Found {
        self.run(self.initial())
    }

    pub proof fn lemma_forward_all(
        self,
        found: Found,
        current: NodeIndex,
        edges: Seq<(NodeIndex, EdgeKind)>,
    )
        requires
            self.valid(found),
            self.graph.has(current),
            forall|k: int| 0 <= k < edges.len() ==> self.graph.has((#[trigger] edges[k]).0),
        ensures
            self.valid(self.forward_all(found, current, edges)),
            self.forward_all(found, current, edges).visited.len() >= found.visited.len(),
        decreases edges.len(),
    {
        if edges.len() > 0 {
            let rest = edges.drop_last();
            assert(forall|k: int| 0 <= k < rest.len() ==> rest[k] == edges[k]);
            self.lemma_forward_all(found, current, rest);
            assert(self.graph.has(edges[edges.len() - 1].0));
        }
    }

    pub proof fn lemma_offer_all(
        self,
        found: Found,
        current: NodeIndex,
        edges: Seq<(NodeIndex, EdgeKind)>,
        via: ReachedVia,
    )
        requires
            self.valid(found),
            self.graph.has(current),
            forall|k: int| 0 <= k < edges.len() ==> self.graph.has((#[trigger] edges[k]).0),
        ensures
            self.valid(self.offer_all(found, current, edges, via)),
            self.offer_all(found, current, edges, via).visited == found.visited,
        decreases edges.len(),
    {
        if edges.len() > 0 {
            let rest = edges.drop_last();
            assert(forall|k: int| 0 <= k < rest.len() ==> rest[k] == edges[k]);
            self.lemma_offer_all(found, current, rest, via);
            assert(self.graph.has(edges[edges.len() - 1].0));
        }
    }

    /// A step keeps a search valid, and brings its end nearer.
    pub proof fn lemma_step_valid(self, found: Found)
        requires
            self.valid(found),
            found.queue.len() > 0,
        ensures
            self.valid(self.step(found)),
            self.unvisited(found) >= 0,
            self.unvisited(self.step(found)) >= 0,
            self.unvisited(self.step(found)) < self.unvisited(found) || (self.unvisited(
                self.step(found),
            ) == self.unvisited(found) && self.step(found).queue.len() < found.queue.len()),
    {
        let (current, via) = found.queue[0];
        let rest = Found { queue: found.queue.drop_first(), ..found };
        assert(self.graph.has(found.queue[0].0));
        assert forall|i: int| 0 <= i < rest.queue.len() implies self.graph.has(
            (#[trigger] rest.queue[i]).0,
        ) by {
            assert(rest.queue[i] == found.queue[i + 1]);
        }
        policy::lemma_distinct_below(found.visited, self.graph.nodes().len());
        if !found.visited.contains(current) {
            let reached = Found { visited: found.visited.push(current), ..rest };
            assert(self.valid(reached));
            let out = self.graph.by_symbol(self.graph.outgoing(current));
            let callers = self.graph.by_symbol(
                self.graph.incoming(current, Some(EdgeKind::Call)),
            );
            let writers = self.graph.by_symbol(
                self.graph.incoming(current, Some(EdgeKind::Write)),
            );
            lemma_outgoing_by_symbol(self.graph, current);
            lemma_incoming_by_symbol(self.graph, current, EdgeKind::Call);
            lemma_incoming_by_symbol(self.graph, current, EdgeKind::Write);
            self.lemma_forward_all(reached, current, out);
            let forth = self.forward_all(reached, current, out);
            self.lemma_offer_all(forth, current, callers, ReachedVia::CallIn);
            self.lemma_offer_all(forth, current, writers, ReachedVia::SharedStateWrite);
        }
        policy::lemma_distinct_below(self.step(found).visited, self.graph.nodes().len());
    }

    pub proof fn lemma_initial_valid(self)
        requires
            self.graph.wf(),
            forall|i: int| 0 <= i < self.starts.len() ==> self.graph.has(#[trigger] self.starts[i]),
        ensures
            self.valid(self.initial()),
    {
        assert forall|i: int| 0 <= i < self.initial().queue.len() implies self.graph.has(
            (#[trigger] self.initial().queue[i]).0,
        ) by {
            assert(self.graph.has(self.starts[i]));
        }
    }
}

/// Sorting only rearranges.
pub proof fn lemma_by_symbol(graph: ContextGraph, edges: Seq<(NodeIndex, EdgeKind)>)
    requires
        edges.len() <= u32::MAX,
    ensures
        graph.by_symbol(edges).len() == edges.len(),
        forall|k: int|
            0 <= k < edges.len() ==> edges.contains(#[trigger] graph.by_symbol(edges)[k]),
        forall|k: int|
            0 <= k < edges.len() ==> graph.by_symbol(edges).contains(#[trigger] edges[k]),
{
    let names = edges.map_values(|edge: (NodeIndex, EdgeKind)| graph.symbol_of(edge.0));
    sort::lemma_text_order_exists(names);
    let order = sort::stable_order(edges.len(), sort::text_first(names));
    assert forall|k: int| 0 <= k < edges.len() implies edges.contains(
        #[trigger] graph.by_symbol(edges)[k],
    ) by {
        assert(order[k] < edges.len());
        assert(graph.by_symbol(edges)[k] == edges[order[k] as int]);
    }
    assert forall|k: int| 0 <= k < edges.len() implies graph.by_symbol(edges).contains(
        #[trigger] edges[k],
    ) by {
        assert(order.contains(k as usize));
        let j = choose|j: int| 0 <= j < order.len() && order[j] == k as usize;
        assert(graph.by_symbol(edges)[j] == edges[k]);
    }
}

proof fn lemma_outgoing_by_symbol(graph: ContextGraph, idx: NodeIndex)
    requires
        graph.wf(),
    ensures
        forall|k: int|
            0 <= k < graph.by_symbol(graph.outgoing(idx)).len() ==> graph.has(
                (#[trigger] graph.by_symbol(graph.outgoing(idx))[k]).0,
            ),
{
    let edges = graph.outgoing(idx);
    digraph::lemma_links_at_len(graph.links(), idx, EdgeDirection::Outgoing);
    let sorted = graph.by_symbol(edges);
    lemma_by_symbol(graph, edges);
    assert forall|k: int| 0 <= k < sorted.len() implies graph.has((#[trigger] sorted[k]).0) by {
        assert(edges.contains(sorted[k]));
        let j = choose|j: int| 0 <= j < edges.len() && edges[j] == sorted[k];
        graph.lemma_outgoing(idx, j);
    }
}

proof fn lemma_incoming_by_symbol(graph: ContextGraph, idx: NodeIndex, kind: EdgeKind)
    requires
        graph.wf(),
    ensures
        forall|k: int|
            0 <= k < graph.by_symbol(graph.incoming(idx, Some(kind))).len() ==> graph.has(
                (#[trigger] graph.by_symbol(graph.incoming(idx, Some(kind)))[k]).0,
            ),
{
    let edges = graph.incoming(idx, Some(kind));
    digraph::lemma_links_at_len(graph.links(), idx, EdgeDirection::Incoming);
    graph::lemma_of_kind_len(graph.all_incoming(idx), Some(kind));
    let sorted = graph.by_symbol(edges);
    lemma_by_symbol(graph, edges);
    assert forall|k: int| 0 <= k < sorted.len() implies graph.has((#[trigger] sorted[k]).0) by {
        assert(edges.contains(sorted[k]));
        let j = choose|j: int| 0 <= j < edges.len() && edges[j] == sorted[k];
        graph.lemma_incoming(idx, Some(kind), j);
    }
}

/// The way back from a node along its predecessors, from the far end to the node. It
/// ends where it would come to a node again.
pub open spec fn path_to(
    predecessors: Map<NodeIndex, NodeIndex>,
    node: NodeIndex,
    passed: Set<NodeIndex>,
) -> Seq<NodeIndex>
    decreases predecessors.dom().difference(passed).len(),
    when predecessors.dom().finite()
{
    if predecessors.contains_key(node) && !passed.contains(node) {
        proof {
            let rest = predecessors.dom().difference(passed);
            assert(rest.contains(node));
            assert(predecessors.dom().difference(passed.insert(node)) =~= rest.remove(node));
        }
        path_to(predecessors, predecessors[node], passed.insert(node)).push(node)
    } else {
        seq![node]
    }
}

/// The identifiers of the targets that were reached, each once, and the paths to
/// them.
pub struct Hits {
    pub ids: Seq<NodeId>,
    pub paths: Seq<Seq<NodeId>>,
}

pub open spec fn hits(
    graph: ContextGraph,
    found: Found,
    targets: Seq<NodeIndex>,
    options: ReachabilityOptions,
) -> Hits
    decreases targets.len(),
{
    if targets.len() == 0 {
        Hits { ids: Seq::empty(), paths: Seq::empty() }
    } else {
        let before = hits(graph, found, targets.drop_last(), options);
        let target = targets.last();
        let id = graph.at(target).node_core().id;
        if found.visited.contains(target) && !before.ids.contains(id) {
            Hits {
                ids: before.ids.push(id),
                paths: if options.witness_paths && before.paths.len() < options.max_paths {
                    before.paths.push(
                        solver::node_ids(
                            graph,
                            path_to(found.predecessors, target, Set::empty()),
                        ),
                    )
                } else {
                    before.paths
                },
            }
        } else {
            before
        }
    }
}

/// A running search.
struct SearchState {
    visited: Vec<NodeIndex>,
    seen: HashSet<u32>,
    predecessors: HashMap<u32, u32>,
    queue: VecDeque<(NodeIndex, ReachedVia)>,
}

impl SearchState {
    spec fn found(&self) -> Found {
        Found {
            visited: self.visited@,
            predecessors: Map::new(
                |node: NodeIndex| self.predecessors@.contains_key(node.ix),
                |node: NodeIndex| NodeIndex { ix: self.predecessors@[node.ix] },
            ),
            queue: self.queue@,
        }
    }

    spec fn wf(&self) -> bool {
        forall|x: u32|
            #![trigger self.seen@.contains(x)]
            self.seen@.contains(x) <==> self.visited@.contains(NodeIndex { ix: x })
    }

    fn is_visited(&self, node: NodeIndex) -> (r: bool)
        requires
            self.wf(),
        ensures
            r == self.found().visited.contains(node),
    {
        assert(NodeIndex { ix: node.ix } == node);
        self.seen.contains(&node.ix)
    }

    fn visit(&mut self, node: NodeIndex)
        requires
            old(self).wf(),
        ensures
            final(self).wf(),
            final(self).found() == (Found {
                visited: old(self).found().visited.push(node),
                ..old(self).found()
            }),
    {
        let ghost before = self.found();
        self.seen.insert(node.ix);
        self.visited.push(node);
        proof {
            assert forall|x: u32|
                #![trigger self.seen@.contains(x)]
                self.seen@.contains(x) <==> self.visited@.contains(NodeIndex { ix: x }) by {
                let other = NodeIndex { ix: x };
                if before.visited.contains(other) {
                    let k = choose|k: int|
                        0 <= k < before.visited.len() && before.visited[k] == other;
                    assert(self.visited@[k] == other);
                }
                if self.visited@.contains(other) {
                    let k = choose|k: int|
                        0 <= k < self.visited@.len() && self.visited@[k] == other;
                    if k < before.visited.len() {
                        assert(before.visited[k] == other);
                    }
                }
                assert(self.visited@[before.visited.len() as int] == node);
            }
            assert(self.found().predecessors =~= before.predecessors);
        }
    }

    fn push(&mut self, node: NodeIndex, via: ReachedVia)
        requires
            old(self).wf(),
        ensures
            final(self).wf(),
            final(self).found() == (Found {
                queue: old(self).found().queue.push((node, via)),
                ..old(self).found()
            }),
    {
        let ghost before = self.found();
        self.queue.push_back((node, via));
        assert(self.found().predecessors =~= before.predecessors);
    }

    fn note(
        &mut self,
        node: NodeIndex,
        from: NodeIndex,
        starts: &HashSet<u32>,
        Ghost(search): Ghost<Search>,
    )
        requires
            old(self).wf(),
            forall|x: u32| #[trigger]
                starts@.contains(x) <==> search.starts.contains(NodeIndex { ix: x }),
        ensures
            final(self).wf(),
            final(self).found() == (Found {
                predecessors: search.noted(old(self).found().predecessors, node, from),
                ..old(self).found()
            }),
    {
        let ghost before = self.found();
        assert(NodeIndex { ix: node.ix } == node);
        if !starts.contains(&node.ix) && !self.predecessors.contains_key(&node.ix) {
            self.predecessors.insert(node.ix, from.ix);
            assert(self.found().predecessors =~= before.predecessors.insert(node, from));
        }
        assert(self.found().predecessors =~= search.noted(before.predecessors, node, from));
    }
}

/// Sorts edges by the symbols of their nodes.
fn sort_edges(
    graph: &ContextGraph,
    names: &Vec<&str>,
    edges: &Vec<(NodeIndex, EdgeKind)>,
) -> (r: Vec<(NodeIndex, EdgeKind)>)
    requires
        names@.len() == graph.nodes().len(),
        graph.nodes().len() <= u32::MAX,
        forall|i: int|
            0 <= i < names@.len() ==> (#[trigger] names@[i])@ == graph.symbol_of(
                NodeIndex { ix: i as u32 },
            ),
        forall|k: int| 0 <= k < edges@.len() ==> graph.has((#[trigger] edges@[k]).0),
    ensures
        r@ == graph.by_symbol(edges@),
        forall|k: int| 0 <= k < r@.len() ==> graph.has((#[trigger] r@[k]).0),
{
    let ghost symbols = edges@.map_values(
        |edge: (NodeIndex, EdgeKind)| graph.symbol_of(edge.0),
    );
    let mut keys: Vec<&str> = Vec::new();
    let mut i: usize = 0;
    while i < edges.len()
        invariant
            names@.len() == graph.nodes().len(),
            forall|i: int|
                0 <= i < names@.len() ==> (#[trigger] names@[i])@ == graph.symbol_of(
                    NodeIndex { ix: i as u32 },
                ),
            forall|k: int| 0 <= k < edges@.len() ==> graph.has((#[trigger] edges@[k]).0),
            symbols == edges@.map_values(
                |edge: (NodeIndex, EdgeKind)| graph.symbol_of(edge.0),
            ),
            i <= edges@.len(),
            sort::views(keys@) == symbols.take(i as int),
        decreases edges@.len() - i,
    {
        let idx = edges[i].0;
        let ghost before = keys@;
        assert(graph.has(edges@[i as int].0));
        let key: &str = names[idx.ix as usize];
        keys.push(key);
        proof {
            assert(NodeIndex { ix: (idx.ix as int) as u32 } == idx);
            assert(sort::views(keys@) =~= sort::views(before).push(key@));
            assert(symbols.take(i + 1) =~= symbols.take(i as int).push(symbols[i as int]));
        }
        i += 1;
    }
    proof {
        assert(symbols.take(i as int) =~= symbols);
        assert(sort::views(keys@).len() == keys@.len());
    }
    let order = sort_texts(&keys);
    let mut r: Vec<(NodeIndex, EdgeKind)> = Vec::new();
    let mut j: usize = 0;
    while j < order.len()
        invariant
            order@.len() == edges@.len(),
            forall|k: int| 0 <= k < order@.len() ==> (#[trigger] order@[k]) < edges@.len(),
            graph.by_symbol(edges@) == order@.map_values(|k: usize| edges@[k as int]),
            forall|k: int| 0 <= k < edges@.len() ==> graph.has((#[trigger] edges@[k]).0),
            j <= order@.len(),
            r@ == graph.by_symbol(edges@).take(j as int),
            forall|k: int| 0 <= k < r@.len() ==> graph.has((#[trigger] r@[k]).0),
        decreases order@.len() - j,
    {
        assert(graph.has(edges@[order@[j as int] as int].0));
        r.push(edges[order[j]]);
        j += 1;
        assert(r@ =~= graph.by_symbol(edges@).take(j as int));
    }
    assert(graph.by_symbol(edges@).take(j as int) =~= graph.by_symbol(edges@));
    r
}

impl<P: BoundaryPolicy> CfSolver<P> {
    /// The search from some nodes.
    pub open spec fn search(&self, starts: Seq<NodeIndex>) -> Search {
        Search { graph: *self.graph, params: self.params, starts }
    }

    fn follow_forward(
        &self,
        s: &mut SearchState,
        current: NodeIndex,
        edges: &Vec<(NodeIndex, EdgeKind)>,
        start_set: &HashSet<u32>,
        Ghost(search): Ghost<Search>,
    )
        requires
            search == self.search(search.starts),
            self.graph.wf(),
            self.graph.has(current),
            old(s).wf(),
            forall|k: int| 0 <= k < edges@.len() ==> self.graph.has((#[trigger] edges@[k]).0),
            forall|x: u32| #[trigger]
                start_set@.contains(x) <==> search.starts.contains(NodeIndex { ix: x }),
        ensures
            final(s).wf(),
            final(s).found() == search.forward_all(old(s).found(), current, edges@),
    {
        let ghost before = s.found();
        let mut i: usize = 0;
        assert(edges@.take(0) =~= Seq::empty());
        while i < edges.len()
            invariant
                search == self.search(search.starts),
                self.graph.wf(),
                self.graph.has(current),
                s.wf(),
                forall|k: int| 0 <= k < edges@.len() ==> self.graph.has((#[trigger] edges@[k]).0),
                forall|x: u32| #[trigger]
                    start_set@.contains(x) <==> search.starts.contains(NodeIndex { ix: x }),
                i <= edges@.len(),
                s.found() == search.forward_all(before, current, edges@.take(i as int)),
            decreases edges@.len() - i,
        {
            let (neighbor, edge_kind) = edges[i];
            assert(edges@.take(i + 1).drop_last() =~= edges@.take(i as int));
            let decision = evaluate_forward(
                &self.params,
                self.graph.node(current),
                self.graph.node(neighbor),
                &edge_kind,
                &self.graph,
            );
            if decision == PruningDecision::Transparent {
                s.note(neighbor, current, start_set, Ghost(search));
                s.push(neighbor, ReachedVia::Forward(edge_kind));
            } else if !s.is_visited(neighbor) {
                s.note(neighbor, current, start_set, Ghost(search));
                s.visit(neighbor);
            }
            i += 1;
        }
        assert(edges@.take(i as int) =~= edges@);
    }

    fn follow_backward(
        &self,
        s: &mut SearchState,
        current: NodeIndex,
        edges: &Vec<(NodeIndex, EdgeKind)>,
        via: ReachedVia,
        start_set: &HashSet<u32>,
        Ghost(search): Ghost<Search>,
    )
        requires
            old(s).wf(),
            forall|x: u32| #[trigger]
                start_set@.contains(x) <==> search.starts.contains(NodeIndex { ix: x }),
        ensures
            final(s).wf(),
            final(s).found() == search.offer_all(old(s).found(), current, edges@, via),
    {
        let ghost before = s.found();
        let mut i: usize = 0;
        assert(edges@.take(0) =~= Seq::empty());
        while i < edges.len()
            invariant
                s.wf(),
                forall|x: u32| #[trigger]
                    start_set@.contains(x) <==> search.starts.contains(NodeIndex { ix: x }),
                i <= edges@.len(),
                s.found() == search.offer_all(before, current, edges@.take(i as int), via),
            decreases edges@.len() - i,
        {
            let node = edges[i].0;
            assert(edges@.take(i + 1).drop_last() =~= edges@.take(i as int));
            if !s.is_visited(node) {
                s.note(node, current, start_set, Ghost(search));
                s.push(node, via);
            }
            i += 1;
        }
        assert(edges@.take(i as int) =~= edges@);
    }

    /// Takes the first node out of the queue, and leaves it if it is new.
    fn search_next(
        &self,
        s: &mut SearchState,
        names: &Vec<&str>,
        start_set: &HashSet<u32>,
        Ghost(search): Ghost<Search>,
    )
        requires
            search == self.search(search.starts),
            old(s).wf(),
            search.valid(old(s).found()),
            old(s).found().queue.len() > 0,
            names@.len() == self.graph.nodes().len(),
            forall|i: int|
                0 <= i < names@.len() ==> (#[trigger] names@[i])@ == self.graph.symbol_of(
                    NodeIndex { ix: i as u32 },
                ),
            forall|x: u32| #[trigger]
                start_set@.contains(x) <==> search.starts.contains(NodeIndex { ix: x }),
        ensures
            final(s).wf(),
            final(s).found() == search.step(old(s).found()),
    {
        let ghost before = s.found();
        let (current, via) = match s.queue.pop_front() {
            Some(entry) => entry,
            None => {
                return;
            },
        };
        proof {
            assert((current, via) == before.queue[0]);
            assert(self.graph.has(before.queue[0].0));
            assert(s.found().queue =~= before.queue.drop_first());
            assert(s.found().predecessors =~= before.predecessors);
        }
        if s.is_visited(current) {
            return;
        }
        s.visit(current);
        match via {
            ReachedVia::CallIn | ReachedVia::SharedStateWrite => {
                return;
            },
            _ => {},
        }
        let out_edges = self.graph.outgoing_edges(current);
        let sorted = sort_edges(&self.graph, names, &out_edges);
        self.follow_forward(s, current, &sorted, start_set, Ghost(search));
        match self.graph.node(current) {
            Node::Function(f) => {
                let incoming_edge: Option<&EdgeKind> = match &via {
                    ReachedVia::Forward(kind) => Some(kind),
                    _ => None,
                };
                if should_explore_callers(f, current, incoming_edge, &self.params, &self.graph) {
                    let callers = self.graph.incoming_edges(current, Some(EdgeKind::Call));
                    let sorted_callers = sort_edges(&self.graph, names, &callers);
                    self.follow_backward(
                        s,
                        current,
                        &sorted_callers,
                        ReachedVia::CallIn,
                        start_set,
                        Ghost(search),
                    );
                }
            },
            Node::Variable(v) => {
                if v.mutability == Mutability::Mutable && via == ReachedVia::Forward(
                    EdgeKind::Read,
                ) {
                    let writers = self.graph.incoming_edges(current, Some(EdgeKind::Write));
                    let sorted_writers = sort_edges(&self.graph, names, &writers);
                    self.follow_backward(
                        s,
                        current,
                        &sorted_writers,
                        ReachedVia::SharedStateWrite,
                        start_set,
                        Ghost(search),
                    );
                }
            },
        }
    }

    /// Searches from the start nodes.
    fn traverse(&self, starts: &[NodeIndex]) -> (s: SearchState)
        requires
            self.graph.wf(),
            forall|i: int| 0 <= i < starts@.len() ==> self.graph.has(#[trigger] starts@[i]),
        ensures
            s.wf(),
            s.found() == self.search(starts@).outcome(),
            self.search(starts@).valid(s.found()),
    {
        let ghost search = self.search(starts@);
        let names = self.graph.symbol_names();
        let mut start_set: HashSet<u32> = HashSet::new();
        let mut s = SearchState {
            visited: Vec::new(),
            seen: HashSet::new(),
            predecessors: HashMap::new(),
            queue: VecDeque::new(),
        };
        let ghost first = search.initial();
        proof {
            assert(s.found().predecessors =~= first.predecessors);
            assert(s.found().queue =~= first.queue.take(0));
        }
        let mut i: usize = 0;
        while i < starts.len()
            invariant
                s.wf(),
                search == self.search(starts@),
                first == search.initial(),
                i <= starts@.len(),
                s.found() == (Found { queue: first.queue.take(i as int), ..first }),
                forall|x: u32| #[trigger]
                    start_set@.contains(x) <==> starts@.take(i as int).contains(
                        NodeIndex { ix: x },
                    ),
            decreases starts@.len() - i,
        {
            let start = starts[i];
            let ghost before = starts@.take(i as int);
            start_set.insert(start.ix);
            s.push(start, ReachedVia::Start);
            proof {
                let after = starts@.take(i + 1);
                assert(s.found().queue =~= first.queue.take(i + 1));
                assert(after =~= before.push(start));
                assert forall|x: u32| #[trigger]
                    start_set@.contains(x) <==> after.contains(NodeIndex { ix: x }) by {
                    let node = NodeIndex { ix: x };
                    if before.contains(node) {
                        let k = choose|k: int| 0 <= k < before.len() && before[k] == node;
                        assert(after[k] == node);
                    }
                    if after.contains(node) {
                        let k = choose|k: int| 0 <= k < after.len() && after[k] == node;
                        if k < before.len() {
                            assert(before[k] == node);
                        }
                    }
                    assert(after[i as int] == start);
                }
            }
            i += 1;
        }
        proof {
            assert(first.queue.take(i as int) =~= first.queue);
            assert(starts@.take(i as int) =~= starts@);
            search.lemma_initial_valid();
        }
        while s.queue.len() > 0
            invariant
                search == self.search(starts@),
                search == self.search(search.starts),
                s.wf(),
                search.valid(s.found()),
                search.run(s.found()) == search.outcome(),
                names@.len() == self.graph.nodes().len(),
                forall|i: int|
                    0 <= i < names@.len() ==> (#[trigger] names@[i])@ == self.graph.symbol_of(
                        NodeIndex { ix: i as u32 },
                    ),
                forall|x: u32| #[trigger]
                    start_set@.contains(x) <==> search.starts.contains(NodeIndex { ix: x }),
            decreases search.unvisited(s.found()), s.found().queue.len(),
        {
            let ghost before = s.found();
            self.search_next(&mut s, &names, &start_set, Ghost(search));
            proof {
                search.lemma_step_valid(before);
            }
        }
        s
    }
}

impl<P: BoundaryPolicy> CfSolver<P> {
    /// The identifiers on the way to a node, along its predecessors.
    fn reconstruct_path(&self, target: NodeIndex, s: &SearchState) -> (path: Vec<NodeId>)
        requires
            self.graph.has(target),
            s.found().predecessors.dom().finite(),
            forall|node: NodeIndex| #[trigger]
                s.found().predecessors.contains_key(node) ==> self.graph.has(
                    s.found().predecessors[node],
                ),
        ensures
            path@ == solver::node_ids(
                *self.graph,
                path_to(s.found().predecessors, target, Set::empty()),
            ),
    {
        let ghost predecessors = s.found().predecessors;
        let ghost full = path_to(predecessors, target, Set::empty());
        let ghost mut passed: Set<NodeIndex> = Set::empty();
        let mut nodes: Vec<NodeIndex> = Vec::new();
        nodes.push(target);
        let mut cursor = target;
        let mut seen: HashSet<u32> = HashSet::new();
        let mut more = true;
        proof {
            lemma_path_last(predecessors, target, passed);
            assert(nodes@.reverse() =~= seq![target]);
            assert(full =~= full.drop_last() + nodes@.reverse());
        }
        while more
            invariant
                self.graph.has(cursor),
                predecessors == s.found().predecessors,
                predecessors.dom().finite(),
                forall|node: NodeIndex| #[trigger]
                    predecessors.contains_key(node) ==> self.graph.has(predecessors[node]),
                full == path_to(predecessors, target, Set::empty()),
                forall|x: u32| #[trigger]
                    seen@.contains(x) <==> passed.contains(NodeIndex { ix: x }),
                nodes@.len() > 0,
                nodes@.last() == cursor,
                forall|k: int| 0 <= k < nodes@.len() ==> self.graph.has(#[trigger] nodes@[k]),
                more ==> full == path_to(predecessors, cursor, passed).drop_last()
                    + nodes@.reverse(),
                !more ==> full == nodes@.reverse(),
            decreases (if more { 1int } else { 0int }), predecessors.dom().difference(passed).len(),
        {
            assert(NodeIndex { ix: cursor.ix } == cursor);
            let step: Option<u32> = match s.predecessors.get(&cursor.ix) {
                Some(parent) => if seen.contains(&cursor.ix) {
                    None
                } else {
                    Some(*parent)
                },
                None => None,
            };
            match step {
                Some(parent_ix) => {
                    let parent = NodeIndex { ix: parent_ix };
                    let ghost before = nodes@;
                    let ghost before_passed = passed;
                    assert(predecessors.contains_key(cursor));
                    assert(parent == predecessors[cursor]);
                    seen.insert(cursor.ix);
                    nodes.push(parent);
                    proof {
                        let longer = path_to(predecessors, parent, passed.insert(cursor));
                        assert(path_to(predecessors, cursor, passed) == longer.push(cursor));
                        assert(longer.push(cursor).drop_last() =~= longer);
                        lemma_path_last(predecessors, parent, passed.insert(cursor));
                        assert(longer =~= longer.drop_last().push(parent));
                        assert(nodes@.reverse() =~= seq![parent] + before.reverse());
                        assert(full =~= longer.drop_last() + nodes@.reverse());
                        let rest = predecessors.dom().difference(passed);
                        assert(rest.contains(cursor));
                        assert(predecessors.dom().difference(passed.insert(cursor))
                            =~= rest.remove(cursor));
                        passed = passed.insert(cursor);
                        assert forall|x: u32| #[trigger]
                            seen@.contains(x) <==> passed.contains(NodeIndex { ix: x }) by {
                            let node = NodeIndex { ix: x };
                            assert(before_passed.contains(node) || node == cursor
                                <==> passed.contains(node));
                        }
                    }
                    cursor = parent;
                },
                None => {
                    proof {
                        assert(path_to(predecessors, cursor, passed) == seq![cursor]);
                        assert(full =~= nodes@.reverse());
                    }
                    more = false;
                },
            }
        }
        let mut path: Vec<NodeId> = Vec::new();
        let mut i: usize = nodes.len();
        assert(full.take(0) =~= Seq::empty());
        while i > 0
            invariant
                i <= nodes@.len(),
                full == nodes@.reverse(),
                forall|k: int| 0 <= k < nodes@.len() ==> self.graph.has(#[trigger] nodes@[k]),
                path@ == solver::node_ids(*self.graph, full.take(nodes@.len() - i)),
            decreases i,
        {
            i -= 1;
            assert(full[nodes@.len() - i - 1] == nodes@[i as int]);
            path.push(self.graph.node(nodes[i]).node_core().id);
            assert(path@ =~= solver::node_ids(*self.graph, full.take(nodes@.len() - i)));
        }
        assert(full.take(nodes@.len() as int) =~= full);
        path
    }

    /// Tells which of the targets are reached from the start nodes.
    pub fn reachable(
        &self,
        starts: &[NodeIndex],
        targets: &[NodeIndex],
        options: ReachabilityOptions,
    ) -> (r: ReachabilityResult)
        requires
            self.graph.wf(),
            forall|i: int| 0 <= i < starts@.len() ==> self.graph.has(#[trigger] starts@[i]),
            forall|i: int| 0 <= i < targets@.len() ==> self.graph.has(#[trigger] targets@[i]),
        ensures
            ({
                let found = self.search(starts@).outcome();
                let hit = hits(*self.graph, found, targets@, options);
                &&& r.reachable == (exists|i: int|
                    0 <= i < targets@.len() && found.visited.contains(#[trigger] targets@[i]))
                &&& r.hit_targets@ == hit.ids
                &&& r.visited_set@ == solver::node_ids(*self.graph, found.visited).to_set()
                &&& r.visited_node_count == found.visited.len()
                &&& r.witness_paths@.map_values(|path: Vec<NodeId>| path@) == hit.paths
            }),
    {
        let s = self.traverse(starts);
        let ghost found = self.search(starts@).outcome();
        let ghost graph = self.context();
        let mut visited_set: HashSet<NodeId> = HashSet::new();
        let mut i: usize = 0;
        while i < s.visited.len()
            invariant
                found == s.found(),
                self.search(starts@).valid(found),
                graph == *self.graph,
                i <= s.visited@.len(),
                visited_set@ == solver::node_ids(graph, found.visited.take(i as int)).to_set(),
            decreases s.visited@.len() - i,
        {
            assert(self.graph.has(found.visited[i as int]));
            let id: NodeId = self.graph.node(s.visited[i]).node_core().id;
            visited_set.insert(id);
            proof {
                let before = solver::node_ids(graph, found.visited.take(i as int));
                assert(solver::node_ids(graph, found.visited.take(i + 1)) =~= before.push(id));
                before.lemma_push_to_set_commute(id);
            }
            i += 1;
        }
        assert(found.visited.take(i as int) =~= found.visited);
        let mut hit_targets: Vec<NodeId> = Vec::new();
        let mut witness_paths: Vec<Vec<NodeId>> = Vec::new();
        let mut seen_hits: HashSet<NodeId> = HashSet::new();
        let mut j: usize = 0;
        assert(targets@.take(0) =~= Seq::empty());
        assert(witness_paths@.map_values(|path: Vec<NodeId>| path@) =~= Seq::empty());
        while j < targets.len()
            invariant
                s.wf(),
                found == s.found(),
                self.search(starts@).valid(found),
                graph == *self.graph,
                forall|i: int| 0 <= i < targets@.len() ==> self.graph.has(#[trigger] targets@[i]),
                j <= targets@.len(),
                hit_targets@ == hits(graph, found, targets@.take(j as int), options).ids,
                witness_paths@.map_values(|path: Vec<NodeId>| path@) == hits(
                    graph,
                    found,
                    targets@.take(j as int),
                    options,
                ).paths,
                forall|x: NodeId| #[trigger] seen_hits@.contains(x) <==> hit_targets@.contains(x),
                hit_targets@.len() > 0 <==> exists|i: int|
                    0 <= i < j && found.visited.contains(#[trigger] targets@[i]),
            decreases targets@.len() - j,
        {
            let target = targets[j];
            let ghost before = hits(graph, found, targets@.take(j as int), options);
            assert(targets@.take(j + 1).drop_last() =~= targets@.take(j as int));
            if s.is_visited(target) {
                let target_id: NodeId = self.graph.node(target).node_core().id;
                if !seen_hits.contains(&target_id) {
                    seen_hits.insert(target_id);
                    hit_targets.push(target_id);
                    if options.witness_paths && witness_paths.len() < options.max_paths {
                        let path = self.reconstruct_path(target, &s);
                        let ghost paths = witness_paths@;
                        witness_paths.push(path);
                        assert(witness_paths@.map_values(|path: Vec<NodeId>| path@)
                            =~= paths.map_values(|path: Vec<NodeId>| path@).push(path@));
                    }
                    proof {
                        assert forall|x: NodeId| #[trigger]
                            seen_hits@.contains(x) <==> hit_targets@.contains(x) by {
                            if before.ids.contains(x) {
                                let k = choose|k: int|
                                    0 <= k < before.ids.len() && before.ids[k] == x;
                                assert(hit_targets@[k] == x);
                            }
                            if hit_targets@.contains(x) {
                                let k = choose|k: int|
                                    0 <= k < hit_targets@.len() && hit_targets@[k] == x;
                                if k < before.ids.len() {
                                    assert(before.ids[k] == x);
                                }
                            }
                            assert(hit_targets@[before.ids.len() as int] == target_id);
                        }
                    }
                } else {
                    assert(hit_targets@.contains(target_id));
                }
                assert(found.visited.contains(targets@[j as int]));
            }
            j += 1;
        }
        assert(targets@.take(j as int) =~= targets@);
        ReachabilityResult {
            reachable: !hit_targets.is_empty(),
            hit_targets,
            visited_node_count: s.visited.len(),
            visited_set,
            witness_paths,
        }
    }
}

/// A path ends with the node that it leads to.
proof fn lemma_path_last(
    predecessors: Map<NodeIndex, NodeIndex>,
    node: NodeIndex,
    passed: Set<NodeIndex>,
)
    requires
        predecessors.dom().finite(),
    ensures
        path_to(predecessors, node, passed).len() > 0,
        path_to(predecessors, node, passed).last() == node,
{
}

} // verus!
