//! What computations and searches for paths answer, said over their responses.

use crate::app::anchors;
use crate::app::dto;
use crate::app::dto::{
    ComputeRequest, ComputeResponse, HealthResponse, PolicyKind, ReachableNode,
};
use crate::app::engine;
use crate::app::engine::{ContextEngine, EngineError};
use crate::domain::boundaries;
use crate::domain::graph::{ContextGraph, NodeIndex};
use crate::domain::node::{
    FunctionNode, Mutability, Node, NodeId, VariableKind, Visibility,
};
use crate::domain::policy::{BoundaryDecision, BoundaryPolicy, ReasoningMode, ReasoningRelation};
use crate::domain::closure;
use crate::domain::solver;
use crate::domain::solver::Direction;
use crate::domain::sort;
use crate::domain::traversal;
use crate::domain::traversal::Charge;
use crate::domain::text;
use vstd::prelude::*;

verus! {

proof fn lemma_anchors_split(graph: ContextGraph, a: Seq<Seq<char>>, b: Seq<Seq<char>>)
    ensures
        anchors::all_anchor_symbols(graph, a + b) == anchors::all_anchor_symbols(graph, a)
            + anchors::all_anchor_symbols(graph, b),
    decreases b.len(),
{
    if b.len() == 0 {
        assert(a + b =~= a);
        assert(anchors::all_anchor_symbols(graph, b) =~= Seq::empty());
    } else {
        lemma_anchors_split(graph, a, b.drop_last());
        assert((a + b).drop_last() =~= a + b.drop_last());
        assert((a + b).last() == b.last());
    }
    assert(anchors::all_anchor_symbols(graph, a + b) =~= anchors::all_anchor_symbols(graph, a)
        + anchors::all_anchor_symbols(graph, b));
}

proof fn lemma_public_among(graph: ContextGraph, symbols: Seq<Seq<char>>)
    ensures
        forall|x: Seq<char>| #[trigger]
            engine::public_among(graph, symbols).contains(x) <==> symbols.contains(x)
                && engine::is_public(graph.at(graph.symbol_to_node@[x])),
    decreases symbols.len(),
{
    if symbols.len() > 0 {
        let rest = symbols.drop_last();
        let before = engine::public_among(graph, rest);
        let after = engine::public_among(graph, symbols);
        lemma_public_among(graph, rest);
        assert forall|x: Seq<char>| #[trigger]
            after.contains(x) <==> symbols.contains(x) && engine::is_public(
                graph.at(graph.symbol_to_node@[x]),
            ) by {
            if after.contains(x) {
                let k = choose|k: int| 0 <= k < after.len() && after[k] == x;
                if k < before.len() {
                    assert(before[k] == x);
                    assert(before.contains(x));
                    let j = choose|j: int| 0 <= j < rest.len() && rest[j] == x;
                    assert(symbols[j] == x);
                } else {
                    assert(symbols[symbols.len() - 1] == x);
                }
            }
            if symbols.contains(x) && engine::is_public(graph.at(graph.symbol_to_node@[x])) {
                let j = choose|j: int| 0 <= j < symbols.len() && symbols[j] == x;
                if j < rest.len() {
                    assert(rest[j] == x);
                    assert(before.contains(x));
                    let k = choose|k: int| 0 <= k < before.len() && before[k] == x;
                    assert(after[k] == x);
                } else {
                    assert(after[before.len() as int] == x);
                }
            }
        }
    }
}

impl ContextEngine {
    /// A request for several symbols starts where requests for the parts of its list
    /// start, one after the other.
    pub proof fn law_starts_of_lists_are_joined(
        &self,
        req: ComputeRequest,
        first: ComputeRequest,
        second: ComputeRequest,
        response: ComputeResponse,
        of_first: ComputeResponse,
        of_second: ComputeResponse,
    )
        requires
            self.wf(),
            text::texts(req.symbols@) == text::texts(first.symbols@) + text::texts(
                second.symbols@,
            ),
            self.answers_compute(req, Ok(response)),
            self.answers_compute(first, Ok(of_first)),
            self.answers_compute(second, Ok(of_second)),
        ensures
            text::texts(response.starting_symbols@) == text::texts(of_first.starting_symbols@)
                + text::texts(of_second.starting_symbols@),
    {
        lemma_anchors_split(
            self.context_graph(),
            text::texts(first.symbols@),
            text::texts(second.symbols@),
        );
    }

    /// A request for one symbol starts at it, if it is that of a node. If it is a type
    /// that is no node, the request starts at the public functions whose scope is the
    /// type, and at nothing else.
    pub proof fn law_symbol_starts_at_its_node_or_methods(
        &self,
        req: ComputeRequest,
        symbol: Seq<char>,
        response: ComputeResponse,
        other: Seq<char>,
    )
        requires
            self.wf(),
            text::texts(req.symbols@) == seq![symbol],
            self.answers_compute(req, Ok(response)),
        ensures
            ({
                let starts = text::texts(response.starting_symbols@);
                let known = self.graph.symbol_to_node@;
                &&& known.contains_key(symbol) ==> starts == seq![symbol]
                &&& !known.contains_key(symbol) ==> {
                    &&& self.graph.types().contains_key(symbol)
                    &&& starts.contains(other) <==> known.contains_key(other) && match self.graph.at(
                        known[other],
                    ) {
                        Node::Function(f) => f.visibility == Visibility::Public && f.core.scope
                            is Some && f.core.scope->0@ == symbol,
                        Node::Variable(_) => false,
                    }
                }
            }),
    {
        let graph = self.context_graph();
        assert(anchors::is_known(self.context_graph(), seq![symbol][0]));
        if self.graph.symbol_to_node@.contains_key(symbol) {
            anchors::law_node_stands_for_itself(graph, symbol);
        } else {
            anchors::law_class_stands_for_its_methods(graph, symbol);
            lemma_public_among(graph, graph.class_members(symbol));
            self.graph.law_class_members(symbol, other);
        }
    }

    /// A request is refused for an unknown symbol exactly if one of its symbols is neither
    /// that of a node nor a type, and then the first such symbol is named.
    pub proof fn law_unknown_symbols_are_refused(
        &self,
        req: ComputeRequest,
        r: Result<ComputeResponse, EngineError>,
        k: int,
    )
        requires
            self.wf(),
            self.answers_compute(req, r),
            0 <= k < req.symbols@.len(),
            !self.graph.symbol_to_node@.contains_key(req.symbols@[k]@),
            !self.graph.types().contains_key(req.symbols@[k]@),
            forall|j: int|
                0 <= j < k ==> self.graph.symbol_to_node@.contains_key(
                    (#[trigger] req.symbols@[j])@,
                ) || self.graph.types().contains_key(req.symbols@[j]@),
        ensures
            r matches Err(EngineError::SymbolNotFound(symbol)) && symbol@ == req.symbols@[k]@,
    {
        let symbols = text::texts(req.symbols@);
        assert(symbols[k] == req.symbols@[k]@);
        assert(!anchors::is_known(self.context_graph(), symbols[k]));
        if let Err(EngineError::SymbolNotFound(symbol)) = r {
            let i = choose|i: int|
                {
                    &&& 0 <= i < symbols.len()
                    &&& symbol@ == #[trigger] symbols[i]
                    &&& !anchors::is_known(self.context_graph(), symbols[i])
                    &&& forall|j: int|
                        0 <= j < i ==> anchors::is_known(self.context_graph(), #[trigger] symbols[j])
                };
            assert(symbols[i] == req.symbols@[i]@);
            if k < i {
                assert(anchors::is_known(self.context_graph(), symbols[k]));
            }
        }
    }

    /// Requests for known symbols are never refused for an unknown one.
    pub proof fn law_known_symbols_are_found(
        &self,
        req: ComputeRequest,
        r: Result<ComputeResponse, EngineError>,
    )
        requires
            self.wf(),
            self.answers_compute(req, r),
            forall|j: int|
                0 <= j < req.symbols@.len() ==> self.graph.symbol_to_node@.contains_key(
                    (#[trigger] req.symbols@[j])@,
                ) || self.graph.types().contains_key(req.symbols@[j]@),
        ensures
            !(r matches Err(EngineError::SymbolNotFound(_))),
    {
        let symbols = text::texts(req.symbols@);
        if let Err(EngineError::SymbolNotFound(symbol)) = r {
            let i = choose|i: int|
                {
                    &&& 0 <= i < symbols.len()
                    &&& symbol@ == #[trigger] symbols[i]
                    &&& !anchors::is_known(self.context_graph(), symbols[i])
                    &&& forall|j: int|
                        0 <= j < i ==> anchors::is_known(self.context_graph(), #[trigger] symbols[j])
                };
            assert(symbols[i] == req.symbols@[i]@);
        }
    }

    proof fn lemma_starts_known(&self, symbols: Seq<Seq<char>>)
        requires
            self.wf(),
        ensures
            ({
                let starts = anchors::nodes_of(
                    self.context_graph(),
                    anchors::all_anchor_symbols(self.context_graph(), symbols),
                );
                forall|i: int| 0 <= i < starts.len() ==> self.graph.has(#[trigger] starts[i])
            }),
        decreases symbols.len(),
    {
        if symbols.len() > 0 {
            let graph = self.context_graph();
            let rest = anchors::all_anchor_symbols(graph, symbols.drop_last());
            let more = anchors::anchor_symbols(graph, symbols.last());
            let all = anchors::all_anchor_symbols(graph, symbols);
            let starts = anchors::nodes_of(graph, all);
            self.lemma_starts_known(symbols.drop_last());
            lemma_public_among(graph, graph.class_members(symbols.last()));
            assert forall|i: int| 0 <= i < starts.len() implies self.graph.has(
                #[trigger] starts[i],
            ) by {
                if i < rest.len() {
                    assert(all[i] == rest[i]);
                    assert(self.graph.has(anchors::nodes_of(graph, rest)[i]));
                } else {
                    let x = more[i - rest.len()];
                    assert(all[i] == x);
                    assert(more.contains(x));
                    self.graph.law_class_members(symbols.last(), x);
                    assert(self.graph.symbol_to_node@.contains_key(x));
                }
            }
        }
    }

    /// The sizes of a response fit together: the total is reported twice, it is no less
    /// than what is reached outwards and no more than both directions together, and the
    /// overlap is part of what is reached outwards. Where each fragment has one size, the
    /// total is that of both directions less the overlap.
    pub proof fn law_reported_sizes_fit_together(
        &self,
        req: ComputeRequest,
        response: ComputeResponse,
    )
        requires
            self.wf(),
            self.answers_compute(req, Ok(response)),
        ensures
            response.total_context_size == response.cf_total,
            response.cf_out <= response.cf_total <= response.cf_out + response.cf_in,
            response.cf_overlap <= response.cf_out,
            boundaries::sizes_consistent(self.context_graph()) ==> response.cf_total == response.cf_out
                + response.cf_in - response.cf_overlap && response.cf_overlap <= response.cf_in,
    {
        let symbols = text::texts(req.symbols@);
        let starts = anchors::nodes_of(
            self.context_graph(),
            anchors::all_anchor_symbols(self.context_graph(), symbols),
        );
        let footprint = self.footprint(req.policy, starts, req.max_tokens);
        let reported = anchors::compute_summary(response);
        assert(reported == self.summary(req.policy, footprint));
        footprint.law_total_is_out_plus_in_less_shared();
        self.lemma_starts_known(symbols);
        if boundaries::sizes_consistent(self.context_graph()) {
            let solver = self.solver_for(req.policy);
            boundaries::law_directions_agree_on_sizes(solver, starts, req.max_tokens);
            solver.law_footprint_total(starts, req.max_tokens);
        }
        assert(reported.cf_total == response.cf_total as nat);
        assert(reported.total_context_size == response.total_context_size as nat);
        assert(reported.cf_out == response.cf_out as nat);
        assert(reported.cf_in == response.cf_in as nat);
        assert(reported.cf_overlap == response.cf_overlap as nat);
    }

    /// What a response counts is what it lists: boundaries, and nodes by their
    /// identifiers. Its only layer lists the same nodes. What the graph says of itself is
    /// passed on, and so is the name of the policy.
    pub proof fn law_reported_counts_are_of_the_lists(
        &self,
        req: ComputeRequest,
        response: ComputeResponse,
    )
        requires
            self.wf(),
            self.answers_compute(req, Ok(response)),
        ensures
            response.boundary_stop_count == response.boundary_stops@.len(),
            response.reachable_node_count == response.reachable_nodes_ordered@.map_values(
                |node: ReachableNode| node.id,
            ).to_set().len(),
            response.reachable_nodes_by_layer@.len() == 1,
            response.reachable_nodes_by_layer@[0]@.map_values(|node: ReachableNode| node@)
                == response.reachable_nodes_ordered@.map_values(|node: ReachableNode| node@),
            response.size_function_id@ == self.graph.size_function_id@,
            response.measurement_scope_id@ == self.graph.measurement_scope_id@,
            response.graph_total_references == self.graph.coverage.total_references,
            response.graph_unresolved_calls == self.graph.coverage.unresolved_calls,
            response.graph_total_functions == self.graph.coverage.total_functions,
            response.graph_functions_with_explicit_fragments
                == self.graph.coverage.functions_with_explicit_fragments,
            response.boundary_policy_id@ == match req.policy {
                PolicyKind::Academic => "syntactic:academic:doc="@ + engine::params_of(
                    req.policy,
                ).doc_threshold.thousandths(),
                PolicyKind::Strict => "syntactic:strict:doc="@ + engine::params_of(
                    req.policy,
                ).doc_threshold.thousandths(),
            },
    {
        let starts = anchors::nodes_of(
            self.context_graph(),
            anchors::all_anchor_symbols(self.context_graph(), text::texts(req.symbols@)),
        );
        let footprint = self.footprint(req.policy, starts, req.max_tokens);
        let reported = anchors::compute_summary(response);
        let ids = self.footprint_ids(footprint);
        assert(reported == self.summary(req.policy, footprint));
        assert(reported.boundary_stops.len() == response.boundary_stops@.len());
        assert(reported.boundary_stops.len() == (footprint.out.stops
            + footprint.incoming.stops).len());
        let views = dto::reachable_views(response.reachable_nodes_ordered@);
        assert(views.len() == response.reachable_nodes_ordered@.len());
        assert(response.reachable_nodes_ordered@.map_values(|node: ReachableNode| node.id)
            =~= ids) by {
            assert(views == ids.map_values(|id: NodeId| self.reported_node(id)));
            assert forall|k: int| 0 <= k < views.len() implies (
            #[trigger] response.reachable_nodes_ordered@[k]).id == ids[k] by {
                assert(views[k] == response.reachable_nodes_ordered@[k]@);
                assert(views[k] == self.reported_node(ids[k]));
            }
        }
        assert(reported.reachable_node_count == ids.to_set().len());
        reveal_strlit("syntactic:");
        reveal_strlit("academic");
        reveal_strlit("strict");
        reveal_strlit(":doc=");
        reveal_strlit("syntactic:academic:doc=");
        reveal_strlit("syntactic:strict:doc=");
        assert("syntactic:"@ + "academic"@ + ":doc="@ =~= "syntactic:academic:doc="@);
        assert("syntactic:"@ + "strict"@ + ":doc="@ =~= "syntactic:strict:doc="@);
    }

    /// Each node of a response is one of the graph, and shows what the graph says of it;
    /// lines are given counted from zero and from one. Its symbol is one under which a
    /// node with its identifier is known, or its name where there is none.
    pub proof fn law_reported_nodes_are_of_the_graph(
        &self,
        req: ComputeRequest,
        response: ComputeResponse,
        k: int,
    )
        requires
            self.wf(),
            self.answers_compute(req, Ok(response)),
            0 <= k < response.reachable_nodes_ordered@.len(),
        ensures
            exists|idx: NodeIndex| #[trigger]
                self.graph.has(idx) && shows(
                    self.graph.at(idx),
                    response.reachable_nodes_ordered@[k],
                ) && is_label(
                    self.context_graph(),
                    self.graph.at(idx),
                    response.reachable_nodes_ordered@[k].symbol@,
                ),
    {
        let starts = anchors::nodes_of(
            self.context_graph(),
            anchors::all_anchor_symbols(self.context_graph(), text::texts(req.symbols@)),
        );
        let footprint = self.footprint(req.policy, starts, req.max_tokens);
        let ids = self.footprint_ids(footprint);
        let views = dto::reachable_views(response.reachable_nodes_ordered@);
        let id = ids[k];
        assert(views.len() == response.reachable_nodes_ordered@.len());
        assert(views[k] == response.reachable_nodes_ordered@[k]@);
        assert(views[k] == self.reported_node(id));
        self.lemma_starts_known(text::texts(req.symbols@));
        self.solver_for(req.policy).lemma_footprint_nodes(starts, req.max_tokens);
        let place = footprint.nodes()[k];
        assert(self.graph.has(place));
        assert(self.graph.at(place).node_core().id == id);
        assert(self.reportable(ids[k]));
        let idx = engine::index_by_id(self.graph.nodes())[id];
        engine::lemma_index_by_id(self.graph.nodes(), place.ix as int);
        assert(self.graph.has(idx));
        assert(shows(self.graph.at(idx), response.reachable_nodes_ordered@[k]));
        let symbols = self.graph.symbol_to_node.symbols();
        lemma_symbol_by_id(self.context_graph(), symbols, id);
        self.graph.symbol_to_node.lemma_symbols();
        if self.symbols().contains_key(id) {
            let j = choose|j: int| 0 <= j < symbols.len() && symbols[j] == self.symbols()[id];
            assert(self.graph.symbol_to_node@.contains_key(symbols[j]));
        } else {
            let known = self.graph.symbol_to_node@;
            assert forall|other: Seq<char>| #[trigger]
                known.contains_key(other) implies self.graph.at(known[other]).node_core().id
                != id by {
                assert(symbols.contains(other));
            }
        }
    }

    /// The directions of a footprint are reported apart: what is reached outwards, and what
    /// is reached inwards, each with the sum of its sizes and the names of its fragments in
    /// strict order. A response is truncated if either direction is, and counts what both
    /// left open. The overlap is the sum of what is reached outwards and also inwards.
    pub proof fn law_directions_are_reported_apart(
        &self,
        req: ComputeRequest,
        response: ComputeResponse,
        id: Seq<char>,
    )
        requires
            self.wf(),
            self.answers_compute(req, Ok(response)),
        ensures
            ({
                let starts = anchors::nodes_of(
                    self.context_graph(),
                    anchors::all_anchor_symbols(self.context_graph(), text::texts(req.symbols@)),
                );
                let solver = self.solver_for(req.policy);
                let out = solver.out_walk(req.max_tokens).outcome(starts);
                let incoming = solver.in_walk(req.max_tokens, out.fragments).outcome(starts);
                let add_size = |sum: int, charge: Charge| sum + charge.size;
                &&& response.cf_out == out.fragments.fold_left(0int, add_size)
                &&& response.cf_in == incoming.fragments.fold_left(0int, add_size)
                &&& response.cf_overlap == out.fragments.filter(
                    |charge: Charge| traversal::charged(incoming.fragments, charge.id),
                ).fold_left(0int, add_size)
                &&& text::texts(response.out_fragments@).contains(id) <==> traversal::charged(
                    out.fragments,
                    id,
                )
                &&& text::texts(response.in_fragments@).contains(id) <==> traversal::charged(
                    incoming.fragments,
                    id,
                )
                &&& sort::strictly_sorted(text::texts(response.out_fragments@))
                &&& sort::strictly_sorted(text::texts(response.in_fragments@))
                &&& response.truncated == (out.truncated || incoming.truncated)
                &&& response.unresolved_state_count == out.unresolved.len()
                    + incoming.unresolved.len()
            }),
    {
        let symbols = text::texts(req.symbols@);
        let starts = anchors::nodes_of(
            self.context_graph(),
            anchors::all_anchor_symbols(self.context_graph(), symbols),
        );
        let solver = self.solver_for(req.policy);
        let footprint = self.footprint(req.policy, starts, req.max_tokens);
        let reported = anchors::compute_summary(response);
        assert(reported == self.summary(req.policy, footprint));
        self.lemma_starts_known(symbols);
        solver.lemma_charged_once(starts, req.max_tokens);
        let out = footprint.out.fragments;
        let incoming = footprint.incoming.fragments;
        lemma_sizes(out);
        lemma_sizes(incoming);
        lemma_shared(out, incoming);
        lemma_sizes(traversal::shared(out, incoming));
        assert(response.out_fragments.len() == out.len());
        assert(response.in_fragments.len() == incoming.len());
        lemma_names(out, id);
        lemma_names(incoming, id);
        assert(reported.cf_out == response.cf_out as nat);
        assert(reported.cf_in == response.cf_in as nat);
        assert(reported.cf_overlap == response.cf_overlap as nat);
    }

    /// A response says of each symbol that was asked for how it was resolved: to its node,
    /// with the detailed kind of that; as a class, to its public methods; and in no other
    /// way. Only a class without such methods has a reason why it stands for nothing.
    pub proof fn law_resolutions_are_reported(
        &self,
        req: ComputeRequest,
        response: ComputeResponse,
        k: int,
    )
        requires
            self.wf(),
            self.answers_compute(req, Ok(response)),
            0 <= k < req.symbols@.len(),
        ensures
            response.anchor_resolutions is Some,
            response.anchor_resolutions->0@.len() == req.symbols@.len(),
            ({
                let symbol = req.symbols@[k]@;
                let r = response.anchor_resolutions->0@[k];
                let known = self.graph.symbol_to_node@;
                &&& r.input@ == symbol
                &&& known.contains_key(symbol) ==> {
                    &&& r.expanded_to is None
                    &&& r.unresolved_reason is None
                    &&& r.resolved_kind@ == match self.graph.at(known[symbol]) {
                        Node::Function(f) => if f.core.scope is Some {
                            "method"@
                        } else {
                            "function"@
                        },
                        Node::Variable(v) => if v.variable_kind == VariableKind::ClassField {
                            "class_variable"@
                        } else if v.mutability == Mutability::Const {
                            "constant"@
                        } else if v.variable_kind == VariableKind::Global {
                            "module_variable"@
                        } else {
                            "variable"@
                        },
                    }
                }
                &&& !known.contains_key(symbol) ==> {
                    &&& self.graph.types().contains_key(symbol)
                    &&& r.resolved_kind@ == "class"@
                    &&& r.expanded_to is Some
                    &&& r.unresolved_reason is Some <==> r.expanded_to->0@.len() == 0
                    &&& r.unresolved_reason is Some ==> r.unresolved_reason->0@
                        == "Class resolved but has no expandable members"@
                    &&& text::texts(r.expanded_to->0@) == anchors::all_anchor_symbols(
                        self.context_graph(),
                        seq![symbol],
                    )
                }
            }),
    {
        let graph = self.context_graph();
        let symbols = text::texts(req.symbols@);
        let symbol = req.symbols@[k]@;
        let list = response.anchor_resolutions->0@;
        let views = list.map_values(|a: crate::app::dto::AnchorResolution| a@);
        let expected = symbols.map_values(
            |symbol: Seq<char>| anchors::resolution_of(graph, symbol),
        );
        assert(views == expected);
        assert(views.len() == list.len());
        assert(expected.len() == req.symbols@.len());
        assert(symbols[k] == symbol);
        assert(views[k] == list[k]@);
        assert(expected[k] == anchors::resolution_of(graph, symbol));
        assert(anchors::is_known(graph, symbols[k]));
        if !graph.symbol_to_node@.contains_key(symbol) {
            anchors::law_class_stands_for_its_methods(graph, symbol);
            assert(text::texts(list[k].expanded_to->0@).len() == list[k].expanded_to->0@.len());
        }
    }

    /// What an engine says that it has loaded: where from, and how many nodes and edges.
    pub proof fn law_health_is_that_of_the_graph(&self, r: HealthResponse)
        requires
            self.is_health(r),
        ensures
            r.semantic_path@ == self.semantic_path@,
            r.project_root@ == self.project_root@,
            r.node_count == self.graph.nodes().len(),
            r.edge_count == self.graph.links().len(),
    {
    }

    /// The nodes of a response are those that were reached in either direction: first all
    /// that were reached outwards, in their order, and then the others.
    pub proof fn law_nodes_of_both_directions_are_reported(
        &self,
        req: ComputeRequest,
        response: ComputeResponse,
        idx: NodeIndex,
        k: int,
    )
        requires
            self.wf(),
            self.answers_compute(req, Ok(response)),
        ensures
            ({
                let starts = anchors::nodes_of(
                    self.context_graph(),
                    anchors::all_anchor_symbols(self.context_graph(), text::texts(req.symbols@)),
                );
                let footprint = self.footprint(req.policy, starts, req.max_tokens);
                let out = footprint.out.nodes;
                let shown = response.reachable_nodes_ordered@;
                &&& out.contains(idx) || footprint.incoming.nodes.contains(idx) ==> exists|i: int|
                    0 <= i < shown.len() && (#[trigger] shown[i]).id == self.graph.at(
                        idx,
                    ).node_core().id
                &&& shown.len() >= out.len()
                &&& 0 <= k < out.len() ==> shown[k].id == self.graph.at(out[k]).node_core().id
                &&& out.len() <= k < shown.len() ==> exists|i: int|
                    0 <= i < footprint.incoming.nodes.len() && shown[k].id == self.graph.at(
                        #[trigger] footprint.incoming.nodes[i],
                    ).node_core().id
            }),
    {
        let starts = anchors::nodes_of(
            self.context_graph(),
            anchors::all_anchor_symbols(self.context_graph(), text::texts(req.symbols@)),
        );
        let footprint = self.footprint(req.policy, starts, req.max_tokens);
        let out = footprint.out.nodes;
        let incoming = footprint.incoming.nodes;
        let nodes = footprint.nodes();
        let shown = response.reachable_nodes_ordered@;
        let ids = self.footprint_ids(footprint);
        let views = dto::reachable_views(shown);
        assert(views.len() == shown.len());
        assert(views == ids.map_values(|id: NodeId| self.reported_node(id)));
        assert forall|i: int| 0 <= i < shown.len() implies (#[trigger] shown[i]).id
            == self.graph.at(nodes[i]).node_core().id by {
            assert(views[i] == shown[i]@);
            assert(views[i] == self.reported_node(ids[i]));
        }
        lemma_merged(out, incoming);
        if out.contains(idx) || incoming.contains(idx) {
            assert(nodes.contains(idx));
            let i = choose|i: int| 0 <= i < nodes.len() && nodes[i] == idx;
            assert(shown[i].id == self.graph.at(nodes[i]).node_core().id);
        }
        if 0 <= k < out.len() {
            assert(nodes[k] == out[k]);
            assert(shown[k].id == self.graph.at(nodes[k]).node_core().id);
        }
        if out.len() <= k < shown.len() {
            assert(shown[k].id == self.graph.at(nodes[k]).node_core().id);
            assert(incoming.contains(nodes[k]));
            let i = choose|i: int| 0 <= i < incoming.len() && incoming[i] == nodes[k];
            assert(incoming[i] == nodes[k]);
        }
    }

    /// A response shows the boundaries of both directions, those outwards first, with their
    /// directions and relations in words.
    pub proof fn law_stops_are_shown_in_words(
        &self,
        req: ComputeRequest,
        response: ComputeResponse,
        k: int,
    )
        requires
            self.wf(),
            self.answers_compute(req, Ok(response)),
            0 <= k < response.boundary_stops@.len(),
        ensures
            ({
                let starts = anchors::nodes_of(
                    self.context_graph(),
                    anchors::all_anchor_symbols(self.context_graph(), text::texts(req.symbols@)),
                );
                let footprint = self.footprint(req.policy, starts, req.max_tokens);
                let stop = (footprint.out.stops + footprint.incoming.stops)[k];
                let shown = response.boundary_stops@[k];
                &&& shown.source_node_id == stop.source
                &&& shown.target_node_id == stop.target
                &&& stop.direction == Direction::In ==> shown.direction@ == "In"@
                &&& stop.direction == Direction::Out ==> shown.direction@ == "Out"@
                &&& stop.relation == ReasoningRelation::Call ==> shown.relation@ == "Call"@
                &&& stop.relation == ReasoningRelation::Read ==> shown.relation@ == "Read"@
                &&& stop.relation == ReasoningRelation::Write ==> shown.relation@ == "Write"@
                &&& stop.relation == ReasoningRelation::Annotates ==> shown.relation@
                    == "Annotates"@
                &&& stop.relation == ReasoningRelation::DynamicDispatch ==> shown.relation@
                    == "DynamicDispatch"@
                &&& stop.relation == ReasoningRelation::ValueProvenance ==> shown.relation@
                    == "ValueProvenance"@
                &&& stop.relation == ReasoningRelation::UsageEvidence ==> shown.relation@
                    == "UsageEvidence"@
                &&& stop.relation == ReasoningRelation::ParentContract ==> shown.relation@
                    == "ParentContract"@
                &&& stop.relation == ReasoningRelation::ChildImplementationEvidence
                    ==> shown.relation@ == "ChildImplementationEvidence"@
                &&& stop.relation == ReasoningRelation::ObservedBy ==> shown.relation@
                    == "ObservedBy"@
            }),
    {
        let starts = anchors::nodes_of(
            self.context_graph(),
            anchors::all_anchor_symbols(self.context_graph(), text::texts(req.symbols@)),
        );
        let footprint = self.footprint(req.policy, starts, req.max_tokens);
        let stops = footprint.out.stops + footprint.incoming.stops;
        let reported = anchors::compute_summary(response);
        assert(reported == self.summary(req.policy, footprint));
        assert(reported.boundary_stops.len() == response.boundary_stops@.len());
        assert(reported.boundary_stops[k] == response.boundary_stops@[k]@);
        assert(reported.boundary_stops[k] == engine::stop_view(stops[k]));
    }

    /// Under the academic policy, a function of the project that is neither wired nor an
    /// interface method, and returns no registered type, stops a call exactly if its
    /// signature is complete and its documentation is rated one half or better. Under the
    /// strict policy it never does. An interface method stops a call exactly if its
    /// signature is complete and its documentation is rated one half or better under the
    /// academic policy, and four fifths or better under the strict one.
    pub proof fn law_policies_ask_for_documentation(
        &self,
        mode: ReasoningMode,
        source: Node,
        f: FunctionNode,
    )
        requires
            !f.core.is_external,
            !f.is_di_wired,
            f.core.doc_score.bits <= 0x3f80_0000,
            forall|i: int|
                0 <= i < f.return_types@.len() ==> !self.graph.types().contains_key(
                    (#[trigger] f.return_types@[i])@,
                ),
            forall|i: int|
                0 <= i < f.parameters@.len() && (
                #[trigger] f.parameters@[i]).param_type is Some ==> !self.graph.types().contains_key(
                    f.parameters@[i].param_type->0@,
                ),
        ensures
            ({
                let typed = f.return_types@.len() > 0 && forall|i: int|
                    0 <= i < f.parameters@.len() ==> (
                    #[trigger] f.parameters@[i]).param_type is Some;
                let academic = self.solver_for(PolicyKind::Academic).boundary_policy.decision(
                    mode,
                    ReasoningRelation::Call,
                    source,
                    Node::Function(f),
                    self.graph.type_registry,
                );
                let strict = self.solver_for(PolicyKind::Strict).boundary_policy.decision(
                    mode,
                    ReasoningRelation::Call,
                    source,
                    Node::Function(f),
                    self.graph.type_registry,
                );
                &&& academic == BoundaryDecision::StopAtSurface <==> typed
                    && f.core.doc_score.bits >= 0x3f00_0000
                &&& strict == BoundaryDecision::StopAtSurface <==> typed && f.is_interface_method
                    && f.core.doc_score.bits >= 0x3f4c_cccd
            }),
    {
    }
}

proof fn lemma_merged(a: Seq<NodeIndex>, b: Seq<NodeIndex>)
    ensures
        ({
            let r = solver::merged_nodes(a, b);
            &&& r.len() >= a.len()
            &&& forall|i: int| 0 <= i < a.len() ==> #[trigger] r[i] == a[i]
            &&& forall|i: int| a.len() <= i < r.len() ==> b.contains(#[trigger] r[i])
            &&& forall|x: NodeIndex| #[trigger] b.contains(x) ==> r.contains(x)
            &&& forall|x: NodeIndex| #[trigger] a.contains(x) ==> r.contains(x)
        }),
    decreases b.len(),
{
    let r = solver::merged_nodes(a, b);
    if b.len() > 0 {
        let rest = b.drop_last();
        let before = solver::merged_nodes(a, rest);
        lemma_merged(a, rest);
        assert(b[b.len() - 1] == b.last());
        assert forall|i: int| a.len() <= i < r.len() implies b.contains(#[trigger] r[i]) by {
            if i < before.len() {
                assert(rest.contains(before[i]));
                let j = choose|j: int| 0 <= j < rest.len() && rest[j] == before[i];
                assert(b[j] == r[i]);
            }
        }
        assert forall|x: NodeIndex| #[trigger] b.contains(x) implies r.contains(x) by {
            let j = choose|j: int| 0 <= j < b.len() && b[j] == x;
            if j < rest.len() {
                assert(rest[j] == x);
                assert(rest.contains(x));
            }
            if before.contains(x) {
                let i = choose|i: int| 0 <= i < before.len() && before[i] == x;
                assert(r[i] == x);
            } else {
                assert(r[before.len() as int] == x);
            }
        }
    }
    assert forall|x: NodeIndex| #[trigger] a.contains(x) implies r.contains(x) by {
        let i = choose|i: int| 0 <= i < a.len() && a[i] == x;
        assert(r[i] == x);
    }
}

proof fn lemma_sizes(list: Seq<Charge>)
    ensures
        traversal::total(list) == list.fold_left(
            0int,
            |sum: int, charge: Charge| sum + charge.size,
        ),
    decreases list.len(),
{
    if list.len() > 0 {
        lemma_sizes(list.drop_last());
    }
}

proof fn lemma_shared(list: Seq<Charge>, other: Seq<Charge>)
    ensures
        traversal::shared(list, other) == list.filter(
            |charge: Charge| traversal::charged(other, charge.id),
        ),
    decreases list.len(),
{
    reveal(Seq::filter);
    if list.len() > 0 {
        lemma_shared(list.drop_last(), other);
    }
}

/// The sorted names of fragments that are charged once.
proof fn lemma_names(list: Seq<Charge>, id: Seq<char>)
    requires
        closure::charged_once(list),
        list.len() <= usize::MAX,
    ensures
        sort::sorted_texts(solver::charge_ids(list)).contains(id) <==> traversal::charged(
            list,
            id,
        ),
        sort::strictly_sorted(sort::sorted_texts(solver::charge_ids(list))),
{
    let ids = solver::charge_ids(list);
    assert(ids.no_duplicates()) by {
        assert forall|i: int, j: int|
            0 <= i < ids.len() && 0 <= j < ids.len() && i != j implies ids[i] != ids[j] by {
            assert(ids[i] == list[i].id && ids[j] == list[j].id);
        }
    }
    sort::law_sorting_different_texts(ids);
    if ids.contains(id) {
        let k = choose|k: int| 0 <= k < ids.len() && ids[k] == id;
        assert(list[k].id == id);
    }
    if traversal::charged(list, id) {
        let k = choose|k: int| 0 <= k < list.len() && (#[trigger] list[k]).id == id;
        assert(ids[k] == id);
    }
}

/// Whether a symbol is that of a node with the same identifier, or the name of the node
/// where there is no such symbol.
pub open spec fn is_label(graph: ContextGraph, node: Node, symbol: Seq<char>) -> bool {
    let known = graph.symbol_to_node@;
    let id = node.node_core().id;
    ||| known.contains_key(symbol) && graph.at(known[symbol]).node_core().id == id
    ||| symbol == node.node_core().name@ && forall|other: Seq<char>| #[trigger]
        known.contains_key(other) ==> graph.at(known[other]).node_core().id != id
}

/// Whether a node is shown with what is known of it.
pub open spec fn shows(node: Node, shown: ReachableNode) -> bool {
    let about = node.node_core();
    &&& shown.id == about.id
    &&& shown.node_type@ == if node is Function {
        "function"@
    } else {
        "variable"@
    }
    &&& shown.context_size == about.context_size
    &&& shown.file_path@ == about.file_path@
    &&& shown.doc_score == about.doc_score
    &&& shown.is_external == about.is_external
    &&& shown.span.start_line == about.span.start_line
    &&& shown.span.end_line == about.span.end_line
    &&& shown.span.start_column == about.span.start_column
    &&& shown.span.end_column == about.span.end_column
    &&& shown.span.start_line_1based == about.span.start_line + 1
    &&& shown.span.end_line_1based == about.span.end_line + 1
}

pub proof fn lemma_symbol_by_id(graph: ContextGraph, symbols: Seq<Seq<char>>, id: NodeId)
    ensures
        ({
            let map = engine::symbol_by_id(graph, symbols);
            map.contains_key(id) ==> symbols.contains(map[id]) && graph.at(
                graph.symbol_to_node@[map[id]],
            ).node_core().id == id
        }),
        forall|other: Seq<char>| #[trigger]
            symbols.contains(other) && graph.at(graph.symbol_to_node@[other]).node_core().id == id
                ==> engine::symbol_by_id(graph, symbols).contains_key(id),
    decreases symbols.len(),
{
    if symbols.len() > 0 {
        let rest = symbols.drop_last();
        lemma_symbol_by_id(graph, rest, id);
        let map = engine::symbol_by_id(graph, symbols);
        if map.contains_key(id) {
            if rest.contains(map[id]) {
                let k = choose|k: int| 0 <= k < rest.len() && rest[k] == map[id];
                assert(symbols[k] == map[id]);
            } else {
                assert(symbols[symbols.len() - 1] == map[id]);
            }
        }
        assert forall|other: Seq<char>| #[trigger]
            symbols.contains(other) && graph.at(graph.symbol_to_node@[other]).node_core().id
                == id implies map.contains_key(id) by {
            let k = choose|k: int| 0 <= k < symbols.len() && symbols[k] == other;
            if k < rest.len() {
                assert(rest[k] == other);
                assert(rest.contains(other));
            }
        }
    }
}

} // verus!
