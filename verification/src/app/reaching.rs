//! What a search between symbols answers, said over its response.

use crate::app::anchors;
use crate::app::dto::{ReachabilityRequest, ReachabilityResponse};
use crate::app::engine::ContextEngine;
use crate::app::footprints;
use crate::app::paths;
use crate::domain::edge::EdgeKind;
use crate::domain::graph::{ContextGraph, NodeIndex};
use crate::domain::node::NodeId;
use crate::domain::reachability;
use crate::domain::reachability::{Found, ReachabilityOptions};
use crate::domain::solver;
use crate::domain::text;
use crate::domain::witness;
use vstd::prelude::*;

verus! {

/// Whether a path leads from the node of one of some symbols to a node, going on as a
/// search does.
pub open spec fn leads(
    graph: ContextGraph,
    from: Seq<Seq<char>>,
    path: Seq<NodeIndex>,
    node: NodeIndex,
) -> bool {
    &&& path.len() > 0
    &&& path.last() == node
    &&& exists|k: int|
        0 <= k < from.len() && graph.symbol_to_node@.contains_key(#[trigger] from[k])
            && graph.symbol_to_node@[from[k]] == path[0]
    &&& forall|i: int|
        0 <= i < path.len() - 1 ==> witness::goes_to(graph, #[trigger] path[i], path[i + 1])
}

proof fn lemma_split(graph: ContextGraph, symbols: Seq<Seq<char>>)
    ensures
        paths::unresolved(graph, symbols) == symbols.filter(
            |symbol: Seq<char>| !graph.symbol_to_node@.contains_key(symbol),
        ),
        paths::resolved(graph, symbols) == symbols.filter(
            |symbol: Seq<char>| graph.symbol_to_node@.contains_key(symbol),
        ),
        forall|k: int|
            0 <= k < paths::resolved(graph, symbols).len() ==> symbols.contains(
                #[trigger] paths::resolved(graph, symbols)[k],
            ) && graph.symbol_to_node@.contains_key(paths::resolved(graph, symbols)[k]),
        forall|k: int|
            #![trigger symbols[k]]
            0 <= k < symbols.len() && graph.symbol_to_node@.contains_key(symbols[k])
                ==> paths::resolved(graph, symbols).contains(symbols[k]),
    decreases symbols.len(),
{
    reveal(Seq::filter);
    if symbols.len() > 0 {
        let rest = symbols.drop_last();
        let before = paths::resolved(graph, rest);
        let after = paths::resolved(graph, symbols);
        lemma_split(graph, rest);
        assert forall|k: int| 0 <= k < after.len() implies symbols.contains(#[trigger] after[k])
            && graph.symbol_to_node@.contains_key(after[k]) by {
            if k < before.len() {
                assert(after[k] == before[k]);
                let j = choose|j: int| 0 <= j < rest.len() && rest[j] == before[k];
                assert(symbols[j] == after[k]);
            } else {
                assert(symbols[symbols.len() - 1] == after[k]);
            }
        }
        assert forall|k: int|
            #![trigger symbols[k]]
            0 <= k < symbols.len() && graph.symbol_to_node@.contains_key(symbols[k]) implies
            after.contains(symbols[k]) by {
            if k < rest.len() {
                assert(rest[k] == symbols[k]);
                assert(before.contains(rest[k]));
                let j = choose|j: int| 0 <= j < before.len() && before[j] == rest[k];
                assert(after[j] == symbols[k]);
            } else {
                assert(after[before.len() as int] == symbols[k]);
            }
        }
    }
}

/// Targets that were reached, by their identifiers, and the paths to them.
proof fn lemma_hits(
    graph: ContextGraph,
    found: Found,
    targets: Seq<NodeIndex>,
    options: ReachabilityOptions,
)
    ensures
        ({
            let r = reachability::hits(graph, found, targets, options);
            &&& forall|x: NodeId| #[trigger]
                r.ids.contains(x) ==> exists|k: int|
                    0 <= k < targets.len() && found.visited.contains(#[trigger] targets[k])
                        && graph.at(targets[k]).node_core().id == x
            &&& forall|k: int|
                #![trigger targets[k]]
                0 <= k < targets.len() && found.visited.contains(targets[k]) ==> r.ids.contains(
                    graph.at(targets[k]).node_core().id,
                )
            &&& !options.witness_paths ==> r.paths.len() == 0
            &&& options.witness_paths ==> r.paths.len() == if r.ids.len() < options.max_paths {
                r.ids.len()
            } else {
                options.max_paths as nat
            }
            &&& forall|i: int|
                #![trigger r.paths[i]]
                0 <= i < r.paths.len() ==> is_path_to_target(graph, found, targets, r.paths[i])
        }),
    decreases targets.len(),
{
    let r = reachability::hits(graph, found, targets, options);
    if targets.len() > 0 {
        let rest = targets.drop_last();
        let target = targets.last();
        let before = reachability::hits(graph, found, rest, options);
        lemma_hits(graph, found, rest, options);
        assert(targets[targets.len() - 1] == target);
        assert(forall|k: int| 0 <= k < rest.len() ==> rest[k] == targets[k]);
        assert forall|x: NodeId| #[trigger] r.ids.contains(x) implies exists|k: int|
            0 <= k < targets.len() && found.visited.contains(#[trigger] targets[k]) && graph.at(
                targets[k],
            ).node_core().id == x by {
            let i = choose|i: int| 0 <= i < r.ids.len() && r.ids[i] == x;
            if i < before.ids.len() {
                assert(before.ids[i] == x);
                assert(before.ids.contains(x));
                let k = choose|k: int|
                    0 <= k < rest.len() && found.visited.contains(#[trigger] rest[k]) && graph.at(
                        rest[k],
                    ).node_core().id == x;
                assert(targets[k] == rest[k]);
            }
        }
        assert forall|k: int|
            #![trigger targets[k]]
            0 <= k < targets.len() && found.visited.contains(targets[k]) implies r.ids.contains(
            graph.at(targets[k]).node_core().id,
        ) by {
            let id = graph.at(targets[k]).node_core().id;
            if k < rest.len() {
                assert(rest[k] == targets[k]);
                assert(before.ids.contains(id));
            }
            if before.ids.contains(id) {
                let i = choose|i: int| 0 <= i < before.ids.len() && before.ids[i] == id;
                assert(r.ids[i] == id);
            } else {
                assert(r.ids[before.ids.len() as int] == id);
            }
        }
        assert forall|i: int|
            #![trigger r.paths[i]]
            0 <= i < r.paths.len() implies is_path_to_target(
            graph,
            found,
            targets,
            r.paths[i],
        ) by {
            if i < before.paths.len() {
                assert(r.paths[i] == before.paths[i]);
                assert(is_path_to_target(graph, found, rest, before.paths[i]));
                let k = choose|k: int|
                    0 <= k < rest.len() && found.visited.contains(#[trigger] rest[k])
                        && before.paths[i] == solver::node_ids(
                        graph,
                        reachability::path_to(found.predecessors, rest[k], Set::empty()),
                    );
                assert(targets[k] == rest[k]);
            }
        }
    }
}

/// Whether identifiers are those of the path to a target that was reached.
spec fn is_path_to_target(
    graph: ContextGraph,
    found: Found,
    targets: Seq<NodeIndex>,
    ids: Seq<NodeId>,
) -> bool {
    exists|k: int|
        0 <= k < targets.len() && found.visited.contains(#[trigger] targets[k]) && ids
            == solver::node_ids(
            graph,
            reachability::path_to(found.predecessors, targets[k], Set::empty()),
        )
}

proof fn lemma_hit_symbols(graph: ContextGraph, symbols: Seq<Seq<char>>, ids: Seq<NodeId>)
    ensures
        forall|x: Seq<char>| #[trigger]
            paths::hit_symbols(graph, symbols, ids).contains(x) <==> symbols.contains(x)
                && ids.contains(graph.at(graph.symbol_to_node@[x]).node_core().id),
        paths::hit_symbols(graph, symbols, ids).no_duplicates(),
    decreases symbols.len(),
{
    if symbols.len() > 0 {
        let rest = symbols.drop_last();
        let before = paths::hit_symbols(graph, rest, ids);
        let after = paths::hit_symbols(graph, symbols, ids);
        lemma_hit_symbols(graph, rest, ids);
        assert(symbols[symbols.len() - 1] == symbols.last());
        assert forall|x: Seq<char>| #[trigger]
            after.contains(x) <==> symbols.contains(x) && ids.contains(
                graph.at(graph.symbol_to_node@[x]).node_core().id,
            ) by {
            if after.contains(x) {
                let k = choose|k: int| 0 <= k < after.len() && after[k] == x;
                if k < before.len() {
                    assert(before[k] == x);
                    assert(before.contains(x));
                    let j = choose|j: int| 0 <= j < rest.len() && rest[j] == x;
                    assert(symbols[j] == x);
                }
            }
            if symbols.contains(x) && ids.contains(
                graph.at(graph.symbol_to_node@[x]).node_core().id,
            ) {
                let j = choose|j: int| 0 <= j < symbols.len() && symbols[j] == x;
                if j < rest.len() {
                    assert(rest[j] == x);
                    assert(before.contains(x));
                }
                if before.contains(x) {
                    let k = choose|k: int| 0 <= k < before.len() && before[k] == x;
                    assert(after[k] == x);
                } else {
                    assert(after[before.len() as int] == x);
                }
            }
        }
    }
}

impl ContextEngine {
    /// The symbols of a request that are not those of nodes are listed as unresolved, in
    /// their order.
    pub proof fn law_unresolved_symbols_are_listed(
        &self,
        req: ReachabilityRequest,
        response: ReachabilityResponse,
    )
        requires
            self.wf(),
            self.answers_reachable(req, Ok(response)),
        ensures
            text::texts(response.unresolved_from@) == text::texts(req.from@).filter(
                |symbol: Seq<char>| !self.graph.symbol_to_node@.contains_key(symbol),
            ),
            text::texts(response.unresolved_to@) == text::texts(req.to@).filter(
                |symbol: Seq<char>| !self.graph.symbol_to_node@.contains_key(symbol),
            ),
    {
        lemma_split(self.context_graph(), text::texts(req.from@));
        lemma_split(self.context_graph(), text::texts(req.to@));
    }

    proof fn lemma_start_nodes(&self, from: Seq<Seq<char>>) -> (starts: Seq<NodeIndex>)
        requires
            self.wf(),
        ensures
            starts == anchors::nodes_of(
                self.context_graph(),
                paths::resolved(self.context_graph(), from),
            ),
            forall|i: int| 0 <= i < starts.len() ==> self.graph.has(#[trigger] starts[i]),
    {
        let graph = self.context_graph();
        let known = paths::resolved(graph, from);
        let starts = anchors::nodes_of(graph, known);
        lemma_split(graph, from);
        assert forall|i: int| 0 <= i < starts.len() implies self.graph.has(#[trigger] starts[i]) by {
            assert(starts[i] == graph.symbol_to_node@[known[i]]);
            assert(self.graph.symbol_to_node@.contains_key(known[i]));
        }
        starts
    }

    /// The targets that are hit are symbols of nodes among those asked for, each once;
    /// each has a path to a node with its identifier. Something is reachable exactly if
    /// a target is hit.
    pub proof fn law_hit_targets_are_reached(
        &self,
        req: ReachabilityRequest,
        response: ReachabilityResponse,
        symbol: Seq<char>,
    )
        requires
            self.wf(),
            self.answers_reachable(req, Ok(response)),
        ensures
            response.reachable <==> response.hit_targets@.len() > 0,
            text::texts(response.hit_targets@).no_duplicates(),
            text::texts(response.hit_targets@).contains(symbol) ==> {
                &&& text::texts(req.to@).contains(symbol)
                &&& self.graph.symbol_to_node@.contains_key(symbol)
                &&& exists|path: Seq<NodeIndex>| #[trigger]
                    leads(self.context_graph(), text::texts(req.from@), path, path.last())
                        && self.graph.at(path.last()).node_core().id == self.graph.at(
                        self.graph.symbol_to_node@[symbol],
                    ).node_core().id
            },
    {
        let graph = self.context_graph();
        let from = text::texts(req.from@);
        let to = text::texts(req.to@);
        let known = paths::resolved(graph, to);
        let targets = anchors::nodes_of(graph, known);
        let found = self.found_from(req.policy, from);
        let options = ReachabilityOptions {
            witness_paths: req.witness_paths,
            max_paths: req.max_paths,
        };
        let hit = reachability::hits(graph, found, targets, options);
        let listed = text::texts(response.hit_targets@);
        lemma_split(graph, from);
        lemma_split(graph, to);
        lemma_hits(graph, found, targets, options);
        lemma_hit_symbols(graph, known, hit.ids);
        assert(listed.len() == response.hit_targets@.len());
        if response.reachable {
            let i = choose|i: int|
                0 <= i < targets.len() && found.visited.contains(#[trigger] targets[i]);
            assert(targets[i] == graph.symbol_to_node@[known[i]]);
            assert(hit.ids.contains(graph.at(targets[i]).node_core().id));
            assert(known.contains(known[i]));
            assert(listed.contains(known[i]));
        }
        if listed.len() > 0 {
            assert(listed.contains(listed[0]));
            let x = graph.at(graph.symbol_to_node@[listed[0]]).node_core().id;
            assert(hit.ids.contains(x));
        }
        if listed.contains(symbol) {
            let x = graph.at(graph.symbol_to_node@[symbol]).node_core().id;
            assert(known.contains(symbol));
            let j = choose|j: int| 0 <= j < known.len() && known[j] == symbol;
            assert(to.contains(known[j]));
            assert(hit.ids.contains(x));
            let k = choose|k: int|
                0 <= k < targets.len() && found.visited.contains(#[trigger] targets[k])
                    && graph.at(targets[k]).node_core().id == x;
            let path = self.lemma_witness(req.policy, from, targets[k]);
            assert(leads(graph, from, path, path.last()));
        }
    }

    proof fn lemma_witness(
        &self,
        policy: crate::app::dto::PolicyKind,
        from: Seq<Seq<char>>,
        node: NodeIndex,
    ) -> (path: Seq<NodeIndex>)
        requires
            self.wf(),
            self.found_from(policy, from).visited.contains(node),
        ensures
            path == reachability::path_to(
                self.found_from(policy, from).predecessors,
                node,
                Set::empty(),
            ),
            leads(self.context_graph(), from, path, node),
    {
        let graph = self.context_graph();
        let starts = self.lemma_start_nodes(from);
        let search = self.solver_for(policy).search(starts);
        let path = reachability::path_to(search.outcome().predecessors, node, Set::empty());
        search.law_reached_nodes_have_witnesses(node);
        assert(witness::is_witness(graph, starts, path, node));
        let known = paths::resolved(graph, from);
        lemma_split(graph, from);
        let i = choose|i: int| 0 <= i < starts.len() && starts[i] == path[0];
        assert(starts[i] == graph.symbol_to_node@[known[i]]);
        assert(from.contains(known[i]));
        let k = choose|k: int| 0 <= k < from.len() && from[k] == known[i];
        assert(graph.symbol_to_node@.contains_key(from[k]));
        path
    }

    proof fn lemma_visited_target(
        &self,
        req: ReachabilityRequest,
        response: ReachabilityResponse,
        symbol: Seq<char>,
    )
        requires
            self.wf(),
            self.answers_reachable(req, Ok(response)),
            text::texts(req.to@).contains(symbol),
            self.graph.symbol_to_node@.contains_key(symbol),
            self.found_from(req.policy, text::texts(req.from@)).visited.contains(
                self.graph.symbol_to_node@[symbol],
            ),
        ensures
            response.reachable,
            text::texts(response.hit_targets@).contains(symbol),
    {
        let graph = self.context_graph();
        let to = text::texts(req.to@);
        let known = paths::resolved(graph, to);
        let targets = anchors::nodes_of(graph, known);
        let found = self.found_from(req.policy, text::texts(req.from@));
        let options = ReachabilityOptions {
            witness_paths: req.witness_paths,
            max_paths: req.max_paths,
        };
        let hit = reachability::hits(graph, found, targets, options);
        lemma_split(graph, to);
        lemma_hits(graph, found, targets, options);
        lemma_hit_symbols(graph, known, hit.ids);
        let i = choose|i: int| 0 <= i < to.len() && to[i] == symbol;
        assert(known.contains(to[i]));
        let k = choose|k: int| 0 <= k < known.len() && known[k] == symbol;
        assert(targets[k] == graph.symbol_to_node@[symbol]);
        assert(hit.ids.contains(graph.at(targets[k]).node_core().id));
    }

    /// A target is hit that is one of the symbols where the search starts, or the target
    /// of an edge of the first of them that is a node.
    pub proof fn law_nearby_targets_are_hit(
        &self,
        req: ReachabilityRequest,
        response: ReachabilityResponse,
        start: Seq<char>,
        symbol: Seq<char>,
        kind: EdgeKind,
    )
        requires
            self.wf(),
            self.answers_reachable(req, Ok(response)),
            self.graph.symbol_to_node@.contains_key(start),
            text::texts(req.to@).contains(symbol),
            self.graph.symbol_to_node@.contains_key(symbol),
            text::texts(req.from@).contains(start) && start == symbol || text::texts(
                req.from@,
            ).len() > 0 && text::texts(req.from@)[0] == start && self.graph.has_link(
                self.graph.symbol_to_node@[start],
                self.graph.symbol_to_node@[symbol],
                kind,
            ),
        ensures
            response.reachable,
            text::texts(response.hit_targets@).contains(symbol),
    {
        let graph = self.context_graph();
        let from = text::texts(req.from@);
        let known = paths::resolved(graph, from);
        let starts = self.lemma_start_nodes(from);
        let search = self.solver_for(req.policy).search(starts);
        let node = graph.symbol_to_node@[symbol];
        lemma_split(graph, from);
        if from.contains(start) && start == symbol {
            let i = choose|i: int| 0 <= i < from.len() && from[i] == start;
            assert(known.contains(from[i]));
            let k = choose|k: int| 0 <= k < known.len() && known[k] == start;
            assert(starts[k] == node);
            assert(starts.contains(node));
            search.law_reached_nodes_have_witnesses(node);
        } else {
            lemma_first_resolved(graph, from);
            assert(starts[0] == graph.symbol_to_node@[start]);
            search.law_neighbours_of_the_first_start_are_reached(node, kind);
        }
        self.lemma_visited_target(req, response, symbol);
    }

    /// Paths are given exactly if they were asked for, something is reachable, and the
    /// number of paths is not limited to none. There are never more than that number.
    pub proof fn law_paths_are_given_on_request(
        &self,
        req: ReachabilityRequest,
        response: ReachabilityResponse,
    )
        requires
            self.wf(),
            self.answers_reachable(req, Ok(response)),
        ensures
            response.witness_paths@.len() <= req.max_paths,
            response.witness_paths@.len() > 0 <==> req.witness_paths && req.max_paths > 0
                && response.reachable,
    {
        let graph = self.context_graph();
        let to = text::texts(req.to@);
        let known = paths::resolved(graph, to);
        let targets = anchors::nodes_of(graph, known);
        let found = self.found_from(req.policy, text::texts(req.from@));
        let options = ReachabilityOptions {
            witness_paths: req.witness_paths,
            max_paths: req.max_paths,
        };
        let hit = reachability::hits(graph, found, targets, options);
        lemma_hits(graph, found, targets, options);
        let named = response.witness_paths@.map_values(|path: Vec<String>| text::texts(path@));
        assert(named.len() == response.witness_paths@.len());
        assert(named.len() == hit.paths.len());
        if response.reachable {
            let i = choose|i: int|
                0 <= i < targets.len() && found.visited.contains(#[trigger] targets[i]);
            assert(hit.ids.contains(graph.at(targets[i]).node_core().id));
            assert(hit.ids.len() > 0);
        } else if hit.ids.len() > 0 {
            assert(hit.ids.contains(hit.ids[0]));
        }
    }

    /// A path that is given leads from a node where the search starts to one of the
    /// targets. Where all its nodes have symbols, it lists one symbol for each of them,
    /// in their order.
    pub proof fn law_given_paths_lead_to_targets(
        &self,
        req: ReachabilityRequest,
        response: ReachabilityResponse,
        i: int,
    ) -> (path: Seq<NodeIndex>)
        requires
            self.wf(),
            self.answers_reachable(req, Ok(response)),
            0 <= i < response.witness_paths@.len(),
        ensures
            leads(self.context_graph(), text::texts(req.from@), path, path.last()),
            exists|k: int|
                0 <= k < req.to@.len() && self.graph.symbol_to_node@.contains_key(
                    (#[trigger] req.to@[k])@,
                ) && self.graph.symbol_to_node@[req.to@[k]@] == path.last(),
            (forall|j: int|
                0 <= j < path.len() ==> self.symbols().contains_key(
                    self.graph.at(#[trigger] path[j]).node_core().id,
                )) ==> {
                let given = response.witness_paths@[i]@;
                &&& given.len() == path.len()
                &&& forall|j: int|
                    #![trigger given[j]]
                    0 <= j < given.len() ==> self.graph.symbol_to_node@.contains_key(given[j]@)
                        && self.graph.at(
                        self.graph.symbol_to_node@[given[j]@],
                    ).node_core().id == self.graph.at(path[j]).node_core().id
            },
    {
        let graph = self.context_graph();
        let from = text::texts(req.from@);
        let to = text::texts(req.to@);
        let known = paths::resolved(graph, to);
        let targets = anchors::nodes_of(graph, known);
        let found = self.found_from(req.policy, from);
        let options = ReachabilityOptions {
            witness_paths: req.witness_paths,
            max_paths: req.max_paths,
        };
        let hit = reachability::hits(graph, found, targets, options);
        lemma_split(graph, to);
        lemma_hits(graph, found, targets, options);
        let named = response.witness_paths@.map_values(|path: Vec<String>| text::texts(path@));
        assert(named.len() == response.witness_paths@.len());
        assert(named.len() == hit.paths.len());
        let ids = hit.paths[i];
        let given = text::texts(response.witness_paths@[i]@);
        assert(named[i] == given);
        assert(given == paths::path_symbols(self.symbols(), ids));
        assert(is_path_to_target(graph, found, targets, ids));
        let k = choose|k: int|
            0 <= k < targets.len() && found.visited.contains(#[trigger] targets[k]) && ids
                == solver::node_ids(
                graph,
                reachability::path_to(found.predecessors, targets[k], Set::empty()),
            );
        let path = self.lemma_witness(req.policy, from, targets[k]);
        assert(to.contains(known[k]));
        let t = choose|t: int| 0 <= t < to.len() && to[t] == known[k];
        assert(req.to@[t]@ == to[t]);
        assert(targets[k] == graph.symbol_to_node@[known[k]]);
        if forall|j: int|
            0 <= j < path.len() ==> self.symbols().contains_key(
                self.graph.at(#[trigger] path[j]).node_core().id,
            ) {
            assert forall|j: int| 0 <= j < ids.len() implies self.symbols().contains_key(
                #[trigger] ids[j],
            ) by {
                assert(ids[j] == graph.at(path[j]).node_core().id);
            }
            lemma_path_symbols(self.symbols(), ids);
            assert(response.witness_paths@[i]@.len() == given.len());
            assert forall|j: int|
                #![trigger response.witness_paths@[i]@[j]]
                0 <= j < given.len() implies self.graph.symbol_to_node@.contains_key(
                response.witness_paths@[i]@[j]@,
            ) && self.graph.at(
                self.graph.symbol_to_node@[response.witness_paths@[i]@[j]@],
            ).node_core().id == self.graph.at(path[j]).node_core().id by {
                assert(given[j] == response.witness_paths@[i]@[j]@);
                assert(given[j] == self.symbols()[ids[j]]);
                assert(self.symbols().contains_key(ids[j]));
                self.lemma_symbol(ids[j]);
            }
        }
        path
    }

    /// The symbol of an identifier is that of a node which has it.
    proof fn lemma_symbol(&self, id: NodeId)
        requires
            self.wf(),
            self.symbols().contains_key(id),
        ensures
            self.graph.symbol_to_node@.contains_key(self.symbols()[id]),
            self.graph.at(
                self.graph.symbol_to_node@[self.symbols()[id]],
            ).node_core().id == id,
    {
        let symbols = self.graph.symbol_to_node.symbols();
        footprints::lemma_symbol_by_id(self.context_graph(), symbols, id);
        self.graph.symbol_to_node.lemma_symbols();
        let j = choose|j: int| 0 <= j < symbols.len() && symbols[j] == self.symbols()[id];
        assert(self.graph.symbol_to_node@.contains_key(symbols[j]));
    }

    /// Nodes are counted that were reached: at least one where the search starts at one,
    /// none where it starts at none, and never more than there are.
    pub proof fn law_reached_nodes_are_counted(
        &self,
        req: ReachabilityRequest,
        response: ReachabilityResponse,
    )
        requires
            self.wf(),
            self.answers_reachable(req, Ok(response)),
        ensures
            response.visited_node_count <= self.graph.nodes().len(),
            response.visited_node_count > 0 <==> exists|k: int|
                0 <= k < req.from@.len() && self.graph.symbol_to_node@.contains_key(
                    (#[trigger] req.from@[k])@,
                ),
            response.reachable ==> response.visited_node_count > 0,
    {
        let graph = self.context_graph();
        let from = text::texts(req.from@);
        let known = paths::resolved(graph, from);
        let starts = self.lemma_start_nodes(from);
        let search = self.solver_for(req.policy).search(starts);
        let found = search.outcome();
        lemma_split(graph, from);
        search.law_nodes_are_reached_once();
        if exists|k: int|
            0 <= k < req.from@.len() && self.graph.symbol_to_node@.contains_key(
                (#[trigger] req.from@[k])@,
            ) {
            let k = choose|k: int|
                0 <= k < req.from@.len() && self.graph.symbol_to_node@.contains_key(
                    (#[trigger] req.from@[k])@,
                );
            assert(from[k] == req.from@[k]@);
            assert(known.contains(from[k]));
            let i = choose|i: int| 0 <= i < known.len() && known[i] == from[k];
            assert(starts.contains(starts[i]));
            search.law_reached_nodes_have_witnesses(starts[i]);
        }
        if found.visited.len() > 0 {
            let node = found.visited[0];
            assert(found.visited.contains(node));
            let path = self.lemma_witness(req.policy, from, node);
            let k = choose|k: int|
                0 <= k < from.len() && graph.symbol_to_node@.contains_key(#[trigger] from[k])
                    && graph.symbol_to_node@[from[k]] == path[0];
            assert(from[k] == req.from@[k]@);
        }
    }
}

proof fn lemma_first_resolved(graph: ContextGraph, symbols: Seq<Seq<char>>)
    requires
        symbols.len() > 0,
        graph.symbol_to_node@.contains_key(symbols[0]),
    ensures
        paths::resolved(graph, symbols).len() > 0,
        paths::resolved(graph, symbols)[0] == symbols[0],
    decreases symbols.len(),
{
    if symbols.len() > 1 {
        lemma_first_resolved(graph, symbols.drop_last());
    } else {
        assert(paths::resolved(graph, symbols.drop_last()) =~= Seq::empty());
    }
}

proof fn lemma_path_symbols(symbols: Map<NodeId, Seq<char>>, ids: Seq<NodeId>)
    requires
        forall|j: int| 0 <= j < ids.len() ==> symbols.contains_key(#[trigger] ids[j]),
    ensures
        paths::path_symbols(symbols, ids).len() == ids.len(),
        forall|j: int|
            0 <= j < ids.len() ==> #[trigger] paths::path_symbols(symbols, ids)[j]
                == symbols[ids[j]],
    decreases ids.len(),
{
    if ids.len() > 0 {
        let rest = ids.drop_last();
        assert(forall|j: int| 0 <= j < rest.len() ==> rest[j] == ids[j]);
        lemma_path_symbols(symbols, rest);
        assert(symbols.contains_key(ids[ids.len() - 1]));
    }
}

} // verus!
