//! Reachability between symbols.

use crate::app::dto::{ReachabilityRequest, ReachabilityResponse};
use crate::app::engine::{ContextEngine, EngineError};
use crate::domain::graph::{ContextGraph, NodeIndex};
use crate::domain::node::NodeId;
use crate::domain::reachability;
use crate::domain::reachability::{Found, ReachabilityOptions};
use crate::domain::text;
use std::collections::HashSet;
use vstd::hash_set::StringHashSet;
use vstd::prelude::*;

verus! {

/// Those symbols of a list that are nodes.
pub open spec fn resolved(graph: ContextGraph, symbols: Seq<Seq<char>>) -> Seq<Seq<char>>
    decreases symbols.len(),
{
    if symbols.len() == 0 {
        Seq::empty()
    } else {
        let rest = resolved(graph, symbols.drop_last());
        if graph.symbol_to_node@.contains_key(symbols.last()) {
            rest.push(symbols.last())
        } else {
            rest
        }
    }
}

/// Those symbols of a list that are no nodes.
pub open spec fn unresolved(graph: ContextGraph, symbols: Seq<Seq<char>>) -> Seq<Seq<char>>
    decreases symbols.len(),
{
    if symbols.len() == 0 {
        Seq::empty()
    } else {
        let rest = unresolved(graph, symbols.drop_last());
        if graph.symbol_to_node@.contains_key(symbols.last()) {
            rest
        } else {
            rest.push(symbols.last())
        }
    }
}

/// Those symbols of a list whose nodes have one of some identifiers, each once.
pub open spec fn hit_symbols(
    graph: ContextGraph,
    symbols: Seq<Seq<char>>,
    ids: Seq<NodeId>,
) -> Seq<Seq<char>>
    decreases symbols.len(),
{
    if symbols.len() == 0 {
        Seq::empty()
    } else {
        let rest = hit_symbols(graph, symbols.drop_last(), ids);
        let symbol = symbols.last();
        if ids.contains(graph.at(graph.symbol_to_node@[symbol]).node_core().id) && !rest.contains(
            symbol,
        ) {
            rest.push(symbol)
        } else {
            rest
        }
    }
}

/// The symbols of a list of identifiers, as far as they have one.
pub open spec fn path_symbols(symbols: Map<NodeId, Seq<char>>, ids: Seq<NodeId>) -> Seq<Seq<char>>
    decreases ids.len(),
{
    if ids.len() == 0 {
        Seq::empty()
    } else {
        let rest = path_symbols(symbols, ids.drop_last());
        if symbols.contains_key(ids.last()) {
            rest.push(symbols[ids.last()])
        } else {
            rest
        }
    }
}

impl ContextEngine {
    /// What is found from some symbols under a policy.
    pub open spec fn found_from(
        &self,
        policy: crate::app::dto::PolicyKind,
        from: Seq<Seq<char>>,
    ) -> Found {
        self.solver_for(policy).search(
            crate::app::anchors::nodes_of(*self.graph, resolved(*self.graph, from)),
        ).outcome()
    }

    /// Separates the symbols of a list that are nodes from those that are not.
    fn split_symbols(&self, symbols: &Vec<String>) -> (r: (
        Vec<String>,
        Vec<NodeIndex>,
        Vec<String>,
    ))
        requires
            self.wf(),
        ensures
            text::texts(r.0@) == resolved(*self.graph, text::texts(symbols@)),
            r.1@ == crate::app::anchors::nodes_of(*self.graph, text::texts(r.0@)),
            forall|k: int| 0 <= k < r.1@.len() ==> self.graph.has(#[trigger] r.1@[k]),
            text::texts(r.2@) == unresolved(*self.graph, text::texts(symbols@)),
    {
        let ghost graph = self.context_graph();
        let ghost all = text::texts(symbols@);
        let mut known: Vec<String> = Vec::new();
        let mut nodes: Vec<NodeIndex> = Vec::new();
        let mut unknown: Vec<String> = Vec::new();
        let mut i: usize = 0;
        proof {
            assert(all.take(0) =~= Seq::empty());
            assert(text::texts(known@) =~= Seq::empty());
            assert(text::texts(unknown@) =~= Seq::empty());
            assert(nodes@ =~= crate::app::anchors::nodes_of(graph, text::texts(known@)));
        }
        while i < symbols.len()
            invariant
                self.wf(),
                graph == *self.graph,
                all == text::texts(symbols@),
                i <= symbols@.len(),
                text::texts(known@) == resolved(graph, all.take(i as int)),
                nodes@ == crate::app::anchors::nodes_of(graph, text::texts(known@)),
                forall|k: int| 0 <= k < nodes@.len() ==> self.graph.has(#[trigger] nodes@[k]),
                text::texts(unknown@) == unresolved(graph, all.take(i as int)),
            decreases symbols@.len() - i,
        {
            let symbol = symbols[i].clone();
            proof {
                assert(all.take(i + 1).drop_last() =~= all.take(i as int));
                assert(all.take(i + 1).last() == symbol@);
            }
            match self.graph.get_node_by_symbol(symbol.as_str()) {
                Some(idx) => {
                    let ghost before = text::texts(known@);
                    known.push(symbol);
                    nodes.push(idx);
                    assert(text::texts(known@) =~= before.push(symbol@));
                    assert(nodes@ =~= crate::app::anchors::nodes_of(
                        graph,
                        text::texts(known@),
                    ));
                },
                None => {
                    let ghost before = text::texts(unknown@);
                    unknown.push(symbol);
                    assert(text::texts(unknown@) =~= before.push(symbol@));
                },
            }
            i += 1;
        }
        assert(all.take(i as int) =~= all);
        (known, nodes, unknown)
    }

    /// The symbols of targets that were hit, each once.
    fn collect_hits(
        &self,
        symbols: &Vec<String>,
        nodes: &Vec<NodeIndex>,
        ids: &Vec<NodeId>,
    ) -> (r: Vec<String>)
        requires
            self.wf(),
            nodes@ == crate::app::anchors::nodes_of(*self.graph, text::texts(symbols@)),
            forall|k: int| 0 <= k < nodes@.len() ==> self.graph.has(#[trigger] nodes@[k]),
        ensures
            text::texts(r@) == hit_symbols(*self.graph, text::texts(symbols@), ids@),
    {
        let ghost graph = self.context_graph();
        let ghost all = text::texts(symbols@);
        let mut hit_ids: HashSet<NodeId> = HashSet::new();
        let mut i: usize = 0;
        while i < ids.len()
            invariant
                i <= ids@.len(),
                forall|x: NodeId| #[trigger]
                    hit_ids@.contains(x) <==> ids@.take(i as int).contains(x),
            decreases ids@.len() - i,
        {
            let ghost before = ids@.take(i as int);
            hit_ids.insert(ids[i]);
            proof {
                let after = ids@.take(i + 1);
                assert(after =~= before.push(ids@[i as int]));
                assert forall|x: NodeId| #[trigger]
                    hit_ids@.contains(x) <==> after.contains(x) by {
                    if before.contains(x) {
                        let k = choose|k: int| 0 <= k < before.len() && before[k] == x;
                        assert(after[k] == x);
                    }
                    if after.contains(x) {
                        let k = choose|k: int| 0 <= k < after.len() && after[k] == x;
                        if k < before.len() {
                            assert(before[k] == x);
                        }
                    }
                    assert(after[i as int] == ids@[i as int]);
                }
            }
            i += 1;
        }
        assert(ids@.take(i as int) =~= ids@);
        let mut r: Vec<String> = Vec::new();
        let mut seen: StringHashSet = StringHashSet::new();
        let mut j: usize = 0;
        assert(all.take(0) =~= Seq::empty());
        assert(text::texts(r@) =~= Seq::empty());
        while j < symbols.len()
            invariant
                self.wf(),
                graph == *self.graph,
                all == text::texts(symbols@),
                nodes@ == crate::app::anchors::nodes_of(graph, all),
                forall|k: int| 0 <= k < nodes@.len() ==> self.graph.has(#[trigger] nodes@[k]),
                forall|x: NodeId| #[trigger] hit_ids@.contains(x) <==> ids@.contains(x),
                j <= symbols@.len(),
                text::texts(r@) == hit_symbols(graph, all.take(j as int), ids@),
                forall|x: Seq<char>| #[trigger] seen@.contains(x) <==> text::texts(r@).contains(x),
            decreases symbols@.len() - j,
        {
            let symbol = symbols[j].clone();
            proof {
                assert(all.take(j + 1).drop_last() =~= all.take(j as int));
                assert(all.take(j + 1).last() == symbol@);
                assert(nodes@[j as int] == graph.symbol_to_node@[all[j as int]]);
            }
            let id: NodeId = self.graph.node(nodes[j]).node_core().id;
            if hit_ids.contains(&id) && !seen.contains(symbol.as_str()) {
                let ghost before = text::texts(r@);
                seen.insert(symbol.clone());
                r.push(symbol);
                proof {
                    let after = text::texts(r@);
                    assert(after =~= before.push(symbol@));
                    assert forall|x: Seq<char>| #[trigger]
                        seen@.contains(x) <==> after.contains(x) by {
                        if before.contains(x) {
                            let k = choose|k: int| 0 <= k < before.len() && before[k] == x;
                            assert(after[k] == x);
                        }
                        if after.contains(x) {
                            let k = choose|k: int| 0 <= k < after.len() && after[k] == x;
                            if k < before.len() {
                                assert(before[k] == x);
                            }
                        }
                        assert(after[before.len() as int] == symbol@);
                    }
                }
            }
            j += 1;
        }
        assert(all.take(j as int) =~= all);
        r
    }

    /// The symbols of the nodes on a path.
    fn name_path(&self, ids: &Vec<NodeId>) -> (r: Vec<String>)
        requires
            self.wf(),
        ensures
            text::texts(r@) == path_symbols(self.symbols(), ids@),
    {
        let mut r: Vec<String> = Vec::new();
        let mut i: usize = 0;
        assert(ids@.take(0) =~= Seq::empty());
        assert(text::texts(r@) =~= Seq::empty());
        while i < ids.len()
            invariant
                self.wf(),
                i <= ids@.len(),
                text::texts(r@) == path_symbols(self.symbols(), ids@.take(i as int)),
            decreases ids@.len() - i,
        {
            proof {
                assert(ids@.take(i + 1).drop_last() =~= ids@.take(i as int));
                assert(self.node_id_to_symbol@.map_values(
                    |symbol: String| symbol@,
                ).contains_key(ids@[i as int]) == self.node_id_to_symbol@.contains_key(
                    ids@[i as int],
                ));
            }
            if let Some(symbol) = self.node_id_to_symbol.get(&ids[i]) {
                let ghost before = text::texts(r@);
                r.push(symbol.clone());
                assert(text::texts(r@) =~= before.push(symbol@));
            }
            i += 1;
        }
        assert(ids@.take(i as int) =~= ids@);
        r
    }

    /// What is answered to a request for reachability.
    pub open spec fn answers_reachable(
        &self,
        req: ReachabilityRequest,
        r: Result<ReachabilityResponse, EngineError>,
    ) -> bool {
        let graph = *self.graph;
        let from = text::texts(req.from@);
        let to = text::texts(req.to@);
        let found = self.found_from(req.policy, from);
        let targets = crate::app::anchors::nodes_of(graph, resolved(graph, to));
        let hit = reachability::hits(
            graph,
            found,
            targets,
            ReachabilityOptions {
                witness_paths: req.witness_paths,
                max_paths: req.max_paths,
            },
        );
        &&& r is Ok
        &&& r->Ok_0.reachable == (exists|i: int|
            0 <= i < targets.len() && found.visited.contains(#[trigger] targets[i]))
        &&& text::texts(r->Ok_0.hit_targets@) == hit_symbols(
            graph,
            resolved(graph, to),
            hit.ids,
        )
        &&& text::texts(r->Ok_0.unresolved_from@) == unresolved(graph, from)
        &&& text::texts(r->Ok_0.unresolved_to@) == unresolved(graph, to)
        &&& r->Ok_0.visited_node_count == found.visited.len()
        &&& r->Ok_0.witness_paths@.map_values(|path: Vec<String>| text::texts(path@))
            == hit.paths.map_values(
            |path: Seq<NodeId>| path_symbols(self.symbols(), path),
        )
    }

    /// Tells which symbols are reached from others.
    pub fn reachable(&self, req: ReachabilityRequest) -> (r: Result<
        ReachabilityResponse,
        EngineError,
    >)
        requires
            self.wf(),
        ensures
            self.answers_reachable(req, r),
    {
        let (_starts, start_indices, unresolved_from) = self.split_symbols(&req.from);
        let (targets, target_indices, unresolved_to) = self.split_symbols(&req.to);
        let solver = self.make_solver(req.policy);
        let result = solver.reachable(
            start_indices.as_slice(),
            target_indices.as_slice(),
            ReachabilityOptions { witness_paths: req.witness_paths, max_paths: req.max_paths },
        );
        let hit_targets = self.collect_hits(&targets, &target_indices, &result.hit_targets);
        let ghost paths = result.witness_paths@.map_values(|path: Vec<NodeId>| path@);
        let ghost named = paths.map_values(
            |path: Seq<NodeId>| path_symbols(self.symbols(), path),
        );
        let mut witness_paths: Vec<Vec<String>> = Vec::new();
        let mut i: usize = 0;
        assert(witness_paths@.map_values(|path: Vec<String>| text::texts(path@)) =~= named.take(
            0,
        ));
        while i < result.witness_paths.len()
            invariant
                self.wf(),
                paths == result.witness_paths@.map_values(|path: Vec<NodeId>| path@),
                named == paths.map_values(
                    |path: Seq<NodeId>| path_symbols(self.symbols(), path),
                ),
                i <= result.witness_paths@.len(),
                witness_paths@.map_values(|path: Vec<String>| text::texts(path@)) == named.take(
                    i as int,
                ),
            decreases result.witness_paths@.len() - i,
        {
            let path = self.name_path(&result.witness_paths[i]);
            let ghost before = witness_paths@;
            witness_paths.push(path);
            assert(witness_paths@.map_values(|path: Vec<String>| text::texts(path@))
                =~= before.map_values(|path: Vec<String>| text::texts(path@)).push(
                text::texts(path@),
            ));
            assert(named.take(i + 1) =~= named.take(i as int).push(named[i as int]));
            i += 1;
        }
        assert(named.take(i as int) =~= named);
        Ok(
            ReachabilityResponse {
                reachable: result.reachable,
                hit_targets,
                unresolved_from,
                unresolved_to,
                visited_node_count: result.visited_node_count,
                witness_paths,
            },
        )
    }
}

} // verus!
