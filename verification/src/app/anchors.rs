//! Footprints of symbols: which nodes a symbol stands for, and what is reported.

use crate::app::dto;
use crate::app::dto::{
    AnchorResolution, AnchorView, BoundaryStopView, ComputeRequest, ComputeResponse, PolicyKind,
    ReachableNode,
};
use crate::app::engine;
use crate::app::engine::{
    boundary_stop_dtos, detailed_node_type_str, expand_class_anchor, pruning_params,
    ContextEngine, EngineError,
};
use crate::domain::graph::{ContextGraph, NodeIndex};
use crate::domain::node::NodeId;
use crate::domain::policy::{BoundaryPolicy, SyntacticBoundaryPolicy};
use crate::domain::solver;
use crate::domain::solver::{BoundaryStop, CfSolver, Footprint};
use crate::domain::sort;
use crate::domain::text;
use std::sync::Arc;
use vstd::prelude::*;
use vstd::string::StringExecFns;

verus! {

/// What is reported of a footprint, besides its nodes.
#[verifier::ext_equal]
pub struct Summary {
    pub total_context_size: nat,
    pub cf_total: nat,
    pub cf_out: nat,
    pub cf_in: nat,
    pub cf_overlap: nat,
    pub out_fragments: Seq<Seq<char>>,
    pub in_fragments: Seq<Seq<char>>,
    pub truncated: bool,
    pub unresolved_state_count: nat,
    pub boundary_stop_count: nat,
    pub boundary_stops: Seq<BoundaryStopView>,
    pub boundary_policy_id: Seq<char>,
    pub size_function_id: Seq<char>,
    pub measurement_scope_id: Seq<char>,
    pub graph_total_references: nat,
    pub graph_unresolved_calls: nat,
    pub graph_total_functions: nat,
    pub graph_functions_with_explicit_fragments: nat,
    pub reachable_node_count: nat,
}

/// What is reported of a footprint in a graph under a policy.
pub open spec fn summary_of(
    graph: ContextGraph,
    policy_name: Seq<char>,
    footprint: Footprint,
) -> Summary {
    let stops = footprint.out.stops + footprint.incoming.stops;
    Summary {
        total_context_size: footprint.cf_total(),
        cf_total: footprint.cf_total(),
        cf_out: footprint.cf_out(),
        cf_in: footprint.cf_in(),
        cf_overlap: footprint.cf_overlap(),
        out_fragments: sort::sorted_texts(solver::charge_ids(footprint.out.fragments)),
        in_fragments: sort::sorted_texts(solver::charge_ids(footprint.incoming.fragments)),
        truncated: footprint.out.truncated || footprint.incoming.truncated,
        unresolved_state_count: (footprint.out.unresolved + footprint.incoming.unresolved).len(),
        boundary_stop_count: stops.len(),
        boundary_stops: stops.map_values(|stop: BoundaryStop| engine::stop_view(stop)),
        boundary_policy_id: policy_name,
        size_function_id: graph.size_function_id@,
        measurement_scope_id: graph.measurement_scope_id@,
        graph_total_references: graph.coverage.total_references as nat,
        graph_unresolved_calls: graph.coverage.unresolved_calls as nat,
        graph_total_functions: graph.coverage.total_functions as nat,
        graph_functions_with_explicit_fragments:
            graph.coverage.functions_with_explicit_fragments as nat,
        reachable_node_count: solver::node_ids(graph, footprint.nodes()).to_set().len(),
    }
}

/// What a response to a computation reports.
pub open spec fn compute_summary(r: ComputeResponse) -> Summary {
    Summary {
        total_context_size: r.total_context_size as nat,
        cf_total: r.cf_total as nat,
        cf_out: r.cf_out as nat,
        cf_in: r.cf_in as nat,
        cf_overlap: r.cf_overlap as nat,
        out_fragments: text::texts(r.out_fragments@),
        in_fragments: text::texts(r.in_fragments@),
        truncated: r.truncated,
        unresolved_state_count: r.unresolved_state_count as nat,
        boundary_stop_count: r.boundary_stop_count as nat,
        boundary_stops: engine::stop_views(r.boundary_stops@),
        boundary_policy_id: r.boundary_policy_id@,
        size_function_id: r.size_function_id@,
        measurement_scope_id: r.measurement_scope_id@,
        graph_total_references: r.graph_total_references as nat,
        graph_unresolved_calls: r.graph_unresolved_calls as nat,
        graph_total_functions: r.graph_total_functions as nat,
        graph_functions_with_explicit_fragments:
            r.graph_functions_with_explicit_fragments as nat,
        reachable_node_count: r.reachable_node_count as nat,
    }
}

/// How a symbol is resolved: to its node, as a class to its public methods, or not.
pub open spec fn resolution_of(graph: ContextGraph, symbol: Seq<char>) -> AnchorView {
    if graph.symbol_to_node@.contains_key(symbol) {
        AnchorView {
            input: symbol,
            resolved_kind: engine::detailed_type_text(graph.at(graph.symbol_to_node@[symbol])),
            expanded_to: None,
            unresolved_reason: None,
        }
    } else if graph.types().contains_key(symbol) {
        let members = engine::public_members(graph, symbol);
        AnchorView {
            input: symbol,
            resolved_kind: "class"@,
            expanded_to: Some(members),
            unresolved_reason: if members.len() == 0 {
                Some("Class resolved but has no expandable members"@)
            } else {
                None
            },
        }
    } else {
        AnchorView {
            input: symbol,
            resolved_kind: "unknown"@,
            expanded_to: None,
            unresolved_reason: Some("Symbol not found in graph or type registry"@),
        }
    }
}

/// Whether a symbol is a node or a type.
pub open spec fn is_known(graph: ContextGraph, symbol: Seq<char>) -> bool {
    graph.symbol_to_node@.contains_key(symbol) || graph.types().contains_key(symbol)
}

/// The nodes that a symbol stands for, by their symbols.
pub open spec fn anchor_symbols(graph: ContextGraph, symbol: Seq<char>) -> Seq<Seq<char>> {
    if graph.symbol_to_node@.contains_key(symbol) {
        seq![symbol]
    } else if graph.types().contains_key(symbol) {
        engine::public_members(graph, symbol)
    } else {
        Seq::empty()
    }
}

/// The nodes that the symbols of a list stand for, by their symbols.
pub open spec fn all_anchor_symbols(
    graph: ContextGraph,
    symbols: Seq<Seq<char>>,
) -> Seq<Seq<char>>
    decreases symbols.len(),
{
    if symbols.len() == 0 {
        Seq::empty()
    } else {
        all_anchor_symbols(graph, symbols.drop_last()) + anchor_symbols(graph, symbols.last())
    }
}

/// The nodes with the symbols of a list.
pub open spec fn nodes_of(graph: ContextGraph, symbols: Seq<Seq<char>>) -> Seq<NodeIndex> {
    symbols.map_values(|symbol: Seq<char>| graph.symbol_to_node@[symbol])
}

/// Whether all symbols of a list are nodes.
spec fn all_nodes(graph: ContextGraph, symbols: Seq<Seq<char>>) -> bool {
    forall|k: int|
        0 <= k < symbols.len() ==> graph.symbol_to_node@.contains_key(#[trigger] symbols[k])
}

proof fn lemma_public_members(graph: ContextGraph, symbols: Seq<Seq<char>>)
    requires
        all_nodes(graph, symbols),
    ensures
        all_nodes(graph, engine::public_among(graph, symbols)),
    decreases symbols.len(),
{
    if symbols.len() > 0 {
        let rest = symbols.drop_last();
        let before = engine::public_among(graph, rest);
        let after = engine::public_among(graph, symbols);
        assert forall|k: int| 0 <= k < rest.len() implies graph.symbol_to_node@.contains_key(
            #[trigger] rest[k],
        ) by {
            assert(rest[k] == symbols[k]);
        }
        lemma_public_members(graph, rest);
        assert(symbols[symbols.len() - 1] == symbols.last());
        assert forall|k: int| 0 <= k < after.len() implies graph.symbol_to_node@.contains_key(
            #[trigger] after[k],
        ) by {
            if k < before.len() {
                assert(after[k] == before[k]);
            }
        }
    }
}

/// Symbols of nodes stand for themselves.
proof fn lemma_nodes_stand_for_themselves(graph: ContextGraph, symbols: Seq<Seq<char>>)
    requires
        all_nodes(graph, symbols),
    ensures
        all_anchor_symbols(graph, symbols) == symbols,
    decreases symbols.len(),
{
    if symbols.len() > 0 {
        let rest = symbols.drop_last();
        assert forall|k: int| 0 <= k < rest.len() implies graph.symbol_to_node@.contains_key(
            #[trigger] rest[k],
        ) by {
            assert(rest[k] == symbols[k]);
        }
        lemma_nodes_stand_for_themselves(graph, rest);
        assert(symbols[symbols.len() - 1] == symbols.last());
        assert(rest + seq![symbols.last()] =~= symbols);
    } else {
        assert(symbols =~= Seq::empty());
    }
}

/// A class stands for its public methods: asking for the class and asking for the
/// methods is the same.
pub proof fn law_class_stands_for_its_methods(graph: ContextGraph, class_symbol: Seq<char>)
    requires
        graph.wf(),
        graph.types().contains_key(class_symbol),
        !graph.symbol_to_node@.contains_key(class_symbol),
    ensures
        all_anchor_symbols(graph, seq![class_symbol]) == engine::public_members(
            graph,
            class_symbol,
        ),
        all_anchor_symbols(graph, engine::public_members(graph, class_symbol))
            == engine::public_members(graph, class_symbol),
{
    let members = graph.class_members(class_symbol);
    let methods = engine::public_members(graph, class_symbol);
    assert forall|k: int| 0 <= k < members.len() implies graph.symbol_to_node@.contains_key(
        #[trigger] members[k],
    ) by {
        assert(members.contains(members[k]));
        graph.law_class_members(class_symbol, members[k]);
    }
    lemma_public_members(graph, members);
    lemma_nodes_stand_for_themselves(graph, methods);
    let one = seq![class_symbol];
    assert(one.drop_last() =~= Seq::empty());
    assert(all_anchor_symbols(graph, one.drop_last()) =~= Seq::empty());
    assert(all_anchor_symbols(graph, one) =~= methods);
}

/// A function, method or variable stands for itself.
pub proof fn law_node_stands_for_itself(graph: ContextGraph, symbol: Seq<char>)
    requires
        graph.symbol_to_node@.contains_key(symbol),
    ensures
        all_anchor_symbols(graph, seq![symbol]) == seq![symbol],
        nodes_of(graph, all_anchor_symbols(graph, seq![symbol])) == seq![
            graph.symbol_to_node@[symbol],
        ],
{
    lemma_nodes_stand_for_themselves(graph, seq![symbol]);
    assert(nodes_of(graph, seq![symbol]) =~= seq![graph.symbol_to_node@[symbol]]);
}

impl ContextEngine {
    /// The solver for a policy.
    pub open spec fn solver_for(&self, policy: PolicyKind) -> CfSolver<SyntacticBoundaryPolicy> {
        CfSolver {
            graph: self.graph,
            params: engine::params_of(policy),
            boundary_policy: Arc::new(
                SyntacticBoundaryPolicy { params: engine::params_of(policy) },
            ),
        }
    }

    /// The footprint of some nodes under a policy.
    pub open spec fn footprint(
        &self,
        policy: PolicyKind,
        starts: Seq<NodeIndex>,
        max_tokens: Option<u32>,
    ) -> Footprint {
        self.solver_for(policy).footprint(starts, max_tokens)
    }

    /// The identifiers of the nodes of a footprint.
    pub open spec fn footprint_ids(&self, footprint: Footprint) -> Seq<NodeId> {
        solver::node_ids(*self.graph, footprint.nodes())
    }

    /// Whether a footprint can be reported: sizes fit, and so do line numbers.
    pub open spec fn footprint_reportable(&self, footprint: Footprint) -> bool {
        &&& footprint.representable()
        &&& self.all_reportable(self.footprint_ids(footprint))
    }

    /// What is reported of a footprint under a policy.
    pub open spec fn summary(&self, policy: PolicyKind, footprint: Footprint) -> Summary {
        summary_of(*self.graph, self.solver_for(policy).boundary_policy.name(), footprint)
    }

    pub(crate) fn make_solver(&self, policy: PolicyKind) -> (r: CfSolver<SyntacticBoundaryPolicy>)
        ensures
            r == self.solver_for(policy),
    {
        CfSolver::new(self.graph.clone(), pruning_params(policy))
    }

    /// Resolves a symbol: a function, method or variable, or a class.
    pub fn resolve_anchor(&self, symbol: &str) -> (r: AnchorResolution)
        requires
            self.wf(),
        ensures
            r@ == resolution_of(*self.graph, symbol@),
            r.expanded_to matches Some(list) ==> forall|k: int|
                0 <= k < list@.len() ==> self.graph.symbol_to_node@.contains_key(
                    (#[trigger] list@[k])@,
                ),
    {
        if let Some(idx) = self.graph.get_node_by_symbol(symbol) {
            return AnchorResolution {
                input: symbol.to_owned(),
                resolved_kind: String::from_str(detailed_node_type_str(self.graph.node(idx))),
                expanded_to: None,
                unresolved_reason: None,
            };
        }
        if self.graph.type_registry.contains(symbol) {
            let expanded = expand_class_anchor(&self.graph, symbol);
            assert(text::texts(expanded@).len() == expanded@.len());
            let unresolved_reason = if expanded.is_empty() {
                Some(String::from_str("Class resolved but has no expandable members"))
            } else {
                None
            };
            return AnchorResolution {
                input: symbol.to_owned(),
                resolved_kind: String::from_str("class"),
                expanded_to: Some(expanded),
                unresolved_reason,
            };
        }
        AnchorResolution {
            input: symbol.to_owned(),
            resolved_kind: String::from_str("unknown"),
            expanded_to: None,
            unresolved_reason: Some(
                String::from_str("Symbol not found in graph or type registry"),
            ),
        }
    }

    /// The nodes that symbols stand for, and how each symbol was resolved.
    fn resolve_anchors(&self, symbols: &Vec<String>) -> (r: Result<
        (Vec<String>, Vec<NodeIndex>, Vec<AnchorResolution>),
        String,
    >)
        requires
            self.wf(),
        ensures
            match r {
                Ok((effective, starts, resolutions)) => {
                    &&& forall|k: int|
                        0 <= k < symbols@.len() ==> is_known(
                            *self.graph,
                            (#[trigger] symbols@[k])@,
                        )
                    &&& text::texts(effective@) == all_anchor_symbols(
                        *self.graph,
                        text::texts(symbols@),
                    )
                    &&& starts@ == nodes_of(*self.graph, text::texts(effective@))
                    &&& forall|k: int|
                        0 <= k < starts@.len() ==> self.graph.has(#[trigger] starts@[k])
                    &&& resolutions@.map_values(|a: AnchorResolution| a@) == text::texts(
                        symbols@,
                    ).map_values(|symbol: Seq<char>| resolution_of(*self.graph, symbol))
                },
                Err(symbol) => exists|k: int|
                    {
                        &&& 0 <= k < symbols@.len()
                        &&& symbol@ == (#[trigger] symbols@[k])@
                        &&& !is_known(*self.graph, symbols@[k]@)
                        &&& forall|j: int|
                            0 <= j < k ==> is_known(*self.graph, (#[trigger] symbols@[j])@)
                    },
            },
    {
        let ghost graph = self.context_graph();
        let ghost all = text::texts(symbols@);
        let ghost expected = all.map_values(|symbol: Seq<char>| resolution_of(graph, symbol));
        let mut effective: Vec<String> = Vec::new();
        let mut starts: Vec<NodeIndex> = Vec::new();
        let mut resolutions: Vec<AnchorResolution> = Vec::new();
        let mut i: usize = 0;
        proof {
            assert(all.take(0) =~= Seq::empty());
            assert(text::texts(effective@) =~= Seq::empty());
            assert(starts@ =~= nodes_of(graph, text::texts(effective@)));
            assert(resolutions@.map_values(|a: AnchorResolution| a@) =~= expected.take(0));
        }
        while i < symbols.len()
            invariant
                self.wf(),
                graph == *self.graph,
                all == text::texts(symbols@),
                expected == all.map_values(|symbol: Seq<char>| resolution_of(graph, symbol)),
                i <= symbols@.len(),
                forall|k: int| 0 <= k < i ==> is_known(graph, (#[trigger] symbols@[k])@),
                text::texts(effective@) == all_anchor_symbols(graph, all.take(i as int)),
                starts@ == nodes_of(graph, text::texts(effective@)),
                forall|k: int| 0 <= k < starts@.len() ==> self.graph.has(#[trigger] starts@[k]),
                resolutions@.map_values(|a: AnchorResolution| a@) == expected.take(i as int),
            decreases symbols@.len() - i,
        {
            let symbol = &symbols[i];
            let resolution = self.resolve_anchor(symbol.as_str());
            proof {
                assert(all.take(i + 1).drop_last() =~= all.take(i as int));
                assert(all.take(i + 1).last() == symbol@);
                assert(expected.take(i + 1) =~= expected.take(i as int).push(
                    expected[i as int],
                ));
            }
            let ghost before_effective = text::texts(effective@);
            match &resolution.expanded_to {
                Some(expanded) => {
                    let ghost members = text::texts(expanded@);
                    let mut j: usize = 0;
                    assert(before_effective + members.take(0) =~= before_effective);
                    while j < expanded.len()
                        invariant
                            self.wf(),
                            graph == *self.graph,
                            members == text::texts(expanded@),
                            j <= expanded@.len(),
                            forall|k: int|
                                0 <= k < expanded@.len() ==> graph.symbol_to_node@.contains_key(
                                    (#[trigger] expanded@[k])@,
                                ),
                            text::texts(effective@) == before_effective + members.take(j as int),
                            starts@ == nodes_of(graph, text::texts(effective@)),
                            forall|k: int|
                                0 <= k < starts@.len() ==> self.graph.has(#[trigger] starts@[k]),
                        decreases expanded@.len() - j,
                    {
                        if let Some(idx) = self.graph.get_node_by_symbol(expanded[j].as_str()) {
                            let ghost had = text::texts(effective@);
                            let member = expanded[j].clone();
                            starts.push(idx);
                            effective.push(member);
                            proof {
                                assert(text::texts(effective@) =~= had.push(member@));
                                assert(starts@ =~= nodes_of(graph, text::texts(effective@)));
                                assert(members.take(j + 1) =~= members.take(j as int).push(
                                    member@,
                                ));
                                assert(before_effective + members.take(j + 1) =~= had.push(
                                    member@,
                                ));
                            }
                        }
                        j += 1;
                    }
                    assert(members.take(j as int) =~= members);
                },
                None => {
                    if resolution.unresolved_reason.is_some() {
                        return Err(symbol.clone());
                    }
                    if let Some(idx) = self.graph.get_node_by_symbol(symbol.as_str()) {
                        starts.push(idx);
                        effective.push(symbol.clone());
                        proof {
                            assert(text::texts(effective@) =~= before_effective + seq![symbol@]);
                            assert(starts@ =~= nodes_of(graph, text::texts(effective@)));
                        }
                    }
                },
            }
            let ghost before_resolutions = resolutions@.map_values(|a: AnchorResolution| a@);
            resolutions.push(resolution);
            assert(resolutions@.map_values(|a: AnchorResolution| a@)
                =~= before_resolutions.push(resolution@));
            i += 1;
        }
        assert(all.take(i as int) =~= all);
        assert(expected.take(i as int) =~= expected);
        Ok((effective, starts, resolutions))
    }

    /// What is answered to a request for a footprint.
    pub open spec fn answers_compute(
        &self,
        req: ComputeRequest,
        r: Result<ComputeResponse, EngineError>,
    ) -> bool {
        let symbols = text::texts(req.symbols@);
        let starts = nodes_of(*self.graph, all_anchor_symbols(*self.graph, symbols));
        let footprint = self.footprint(req.policy, starts, req.max_tokens);
        match r {
            Err(EngineError::SymbolNotFound(symbol)) => exists|k: int|
                {
                    &&& 0 <= k < symbols.len()
                    &&& symbol@ == #[trigger] symbols[k]
                    &&& !is_known(*self.graph, symbols[k])
                    &&& forall|j: int|
                        0 <= j < k ==> is_known(*self.graph, #[trigger] symbols[j])
                },
            Err(EngineError::Unrepresentable) => (forall|k: int|
                0 <= k < symbols.len() ==> is_known(*self.graph, #[trigger] symbols[k]))
                && !self.footprint_reportable(footprint),
            Ok(response) => {
                let nodes = self.footprint_ids(footprint).map_values(
                    |id: NodeId| self.reported_node(id),
                );
                &&& forall|k: int|
                    0 <= k < symbols.len() ==> is_known(*self.graph, #[trigger] symbols[k])
                &&& self.footprint_reportable(footprint)
                &&& text::texts(response.starting_symbols@) == all_anchor_symbols(
                    *self.graph,
                    symbols,
                )
                &&& compute_summary(response) == self.summary(req.policy, footprint)
                &&& response.out_fragments@.len() == footprint.out.fragments.len()
                &&& response.in_fragments@.len() == footprint.incoming.fragments.len()
                &&& dto::reachable_views(response.reachable_nodes_ordered@) == nodes
                &&& response.reachable_nodes_by_layer@.len() == 1
                &&& dto::reachable_views(response.reachable_nodes_by_layer@[0]@) == nodes
                &&& response.anchor_resolutions is Some
                &&& response.anchor_resolutions->0@.map_values(|a: AnchorResolution| a@)
                    == symbols.map_values(
                    |symbol: Seq<char>| resolution_of(*self.graph, symbol),
                )
            },
        }
    }

    /// Computes the footprint of some symbols. A class stands for its public methods.
    pub fn compute(&self, req: ComputeRequest) -> (r: Result<ComputeResponse, EngineError>)
        requires
            self.wf(),
        ensures
            self.answers_compute(req, r),
    {
        let ghost symbols = text::texts(req.symbols@);
        let (effective, starts, resolutions) = match self.resolve_anchors(&req.symbols) {
            Ok(resolved) => resolved,
            Err(symbol) => {
                proof {
                    let k = choose|k: int|
                        {
                            &&& 0 <= k < req.symbols@.len()
                            &&& symbol@ == (#[trigger] req.symbols@[k])@
                            &&& !is_known(*self.graph, req.symbols@[k]@)
                            &&& forall|j: int|
                                0 <= j < k ==> is_known(*self.graph, (#[trigger] req.symbols@[j])@)
                        };
                    assert(symbols[k] == req.symbols@[k]@);
                    assert forall|j: int| 0 <= j < k implies is_known(
                        *self.graph,
                        #[trigger] symbols[j],
                    ) by {
                        assert(is_known(*self.graph, req.symbols@[j]@));
                    }
                }
                return Err(EngineError::SymbolNotFound(symbol));
            },
        };
        proof {
            assert forall|k: int| 0 <= k < symbols.len() implies is_known(
                *self.graph,
                #[trigger] symbols[k],
            ) by {
                assert(is_known(*self.graph, req.symbols@[k]@));
            }
        }
        let ghost footprint = self.footprint(req.policy, starts@, req.max_tokens);
        let solver = self.make_solver(req.policy);
        let result = match solver.try_compute_cf(starts.as_slice(), req.max_tokens) {
            Some(result) => result,
            None => {
                return Err(EngineError::Unrepresentable);
            },
        };
        if !self.check_reportable(&result.reachable_nodes_ordered) {
            return Err(EngineError::Unrepresentable);
        }
        assert(result.reachable_nodes_by_layer@[0]@ == result.reachable_nodes_ordered@);
        let boundary_stops = boundary_stop_dtos(&result.boundary_stops);
        let reachable_nodes_ordered = self.reachable_nodes(&result.reachable_nodes_ordered);
        let mut reachable_nodes_by_layer: Vec<Vec<ReachableNode>> = Vec::new();
        reachable_nodes_by_layer.push(self.reachable_nodes(&result.reachable_nodes_by_layer[0]));
        let response = ComputeResponse {
            starting_symbols: effective,
            total_context_size: result.total_context_size,
            cf_total: result.cf_total,
            cf_out: result.cf_out,
            cf_in: result.cf_in,
            cf_overlap: result.cf_overlap,
            out_fragments: result.out_fragments,
            in_fragments: result.in_fragments,
            truncated: result.truncated,
            unresolved_state_count: result.unresolved_states.len(),
            boundary_stop_count: result.boundary_stops.len(),
            boundary_stops,
            boundary_policy_id: result.boundary_policy_id,
            size_function_id: result.size_function_id,
            measurement_scope_id: result.measurement_scope_id,
            graph_total_references: result.graph_total_references,
            graph_unresolved_calls: result.graph_unresolved_calls,
            graph_total_functions: result.graph_total_functions,
            graph_functions_with_explicit_fragments: result.graph_functions_with_explicit_fragments,
            reachable_node_count: result.reachable_set.len(),
            reachable_nodes_by_layer,
            reachable_nodes_ordered,
            anchor_resolutions: Some(resolutions),
        };
        assert(compute_summary(response) =~= self.summary(req.policy, footprint));
        Ok(response)
    }
}

} // verus!
