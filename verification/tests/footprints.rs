//! Footprints and reachability on given graphs.

use context_footprint::domain::edge::EdgeKind;
use context_footprint::domain::graph::{ContextGraph, NodeIndex};
use context_footprint::domain::node::{
    ContextFragment, FunctionNode, Mutability, Node, NodeCore, Parameter, SourceSpan, VariableKind,
    VariableNode, Visibility,
};
use context_footprint::domain::policy::{
    should_explore_callers, BoundaryDecision, BoundaryPolicy, PruningDecision, PruningParams,
    ReasoningMode, ReasoningRelation, SyntacticBoundaryPolicy,
};
use context_footprint::domain::score::Score;
use context_footprint::domain::solver::{
    CfResult, CfSolver, Direction, ReachabilityOptions, TraversalStep,
};
use context_footprint::domain::symbol_table::SymbolTable;
use context_footprint::domain::type_registry::{
    TypeDefAttribute, TypeInfo, TypeKind, TypeRegistry, TypeVarInfo,
};
use std::collections::HashSet;
use std::sync::Arc;

fn score(value: f32) -> Score {
    Score::from_bits(value.to_bits())
}

fn span() -> SourceSpan {
    SourceSpan {
        start_line: 0,
        start_column: 0,
        end_line: 1,
        end_column: 0,
    }
}

/// A function with a surface and an implementation. A reliable one is typed and
/// documented.
fn function(id: u32, name: &str, surface: u32, implementation: u32, reliable: bool) -> Node {
    let core = NodeCore::with_fragments(
        id,
        name.to_string(),
        None,
        ContextFragment::new(format!("{name}:surface"), Some(span()), None, surface),
        Some(ContextFragment::new(
            format!("{name}:implementation"),
            Some(span()),
            None,
            implementation,
        )),
        span(),
        score(if reliable { 1.0 } else { 0.0 }),
        Vec::new(),
        false,
        "a.py".to_string(),
    );
    Node::Function(FunctionNode {
        core,
        parameters: Vec::new(),
        is_async: false,
        is_generator: false,
        visibility: Visibility::Public,
        return_types: if reliable {
            vec!["int#".to_string()]
        } else {
            Vec::new()
        },
        is_interface_method: false,
        is_constructor: false,
        is_di_wired: false,
    })
}

fn external(id: u32, name: &str, surface: u32) -> Node {
    let mut node = function(id, name, surface, 0, false);
    if let Node::Function(f) = &mut node {
        f.core.is_external = true;
        f.core.implementation_fragment = None;
    }
    node
}

fn variable(id: u32, name: &str, size: u32, mutability: Mutability) -> Node {
    Node::Variable(VariableNode {
        core: NodeCore::with_fragments(
            id,
            name.to_string(),
            None,
            ContextFragment::new(format!("{name}:surface"), Some(span()), None, size),
            None,
            span(),
            score(0.0),
            Vec::new(),
            false,
            "a.py".to_string(),
        ),
        var_type: None,
        mutability,
        variable_kind: VariableKind::Global,
    })
}

fn academic(graph: &Arc<ContextGraph>) -> CfSolver<SyntacticBoundaryPolicy> {
    CfSolver::new(Arc::clone(graph), PruningParams::academic(score(0.5)))
}

fn strict(graph: &Arc<ContextGraph>) -> CfSolver<SyntacticBoundaryPolicy> {
    CfSolver::new(Arc::clone(graph), PruningParams::strict(score(0.8)))
}

fn all_nodes(graph: &ContextGraph) -> Vec<NodeIndex> {
    (0..graph.node_count()).map(NodeIndex::new).collect()
}

/// A unit that calls, reads and writes, with callers, an implementation and a parent.
fn sample() -> Arc<ContextGraph> {
    let mut g = ContextGraph::new();
    let unit = g.add_node("unit".into(), function(0, "unit", 2, 8, false));
    let reliable = g.add_node("reliable".into(), function(1, "reliable", 3, 30, true));
    let helper = g.add_node("helper".into(), function(2, "helper", 4, 5, false));
    let library = g.add_node("library".into(), external(3, "library", 6));
    let state = g.add_node("state".into(), variable(4, "state", 1, Mutability::Mutable));
    let limit = g.add_node("limit".into(), variable(5, "limit", 7, Mutability::Const));
    let writer = g.add_node("writer".into(), function(6, "writer", 11, 12, false));
    let reader = g.add_node("reader".into(), function(7, "reader", 13, 14, false));
    let caller = g.add_node("caller".into(), function(8, "caller", 15, 16, false));
    let parent = g.add_node("parent".into(), function(9, "parent", 17, 18, true));
    let child = g.add_node("child".into(), function(10, "child", 19, 20, false));
    g.add_edge(unit, reliable, EdgeKind::Call);
    g.add_edge(reliable, helper, EdgeKind::Call);
    g.add_edge(unit, helper, EdgeKind::Call);
    g.add_edge(helper, library, EdgeKind::Call);
    g.add_edge(unit, state, EdgeKind::Write);
    g.add_edge(helper, limit, EdgeKind::Read);
    g.add_edge(writer, state, EdgeKind::Write);
    g.add_edge(reader, state, EdgeKind::Read);
    g.add_edge(caller, unit, EdgeKind::Call);
    g.add_edge(parent, unit, EdgeKind::OverriddenBy);
    g.add_edge(unit, child, EdgeKind::OverriddenBy);
    Arc::new(g)
}

fn texts(list: &[&str]) -> Vec<String> {
    list.iter().map(|text| text.to_string()).collect()
}

fn size_of(graph: &ContextGraph, fragments: &[String]) -> u32 {
    let mut total = 0;
    for idx in all_nodes(graph) {
        let core = graph.node(idx).node_core();
        if fragments.contains(&core.surface_fragment.id) {
            total += core.surface_fragment.context_size;
        }
        if let Some(fragment) = &core.implementation_fragment {
            if fragments.contains(&fragment.id) {
                total += fragment.context_size;
            }
        }
    }
    total
}

fn check_sums(graph: &ContextGraph, result: &CfResult) {
    assert_eq!(result.cf_out, size_of(graph, &result.out_fragments));
    assert_eq!(result.cf_in, size_of(graph, &result.in_fragments));
    assert_eq!(result.cf_total, result.cf_out + result.cf_in - result.cf_overlap);
    assert_eq!(result.total_context_size, result.cf_total);
    let shared: Vec<String> = result
        .out_fragments
        .iter()
        .filter(|id| result.in_fragments.contains(id))
        .cloned()
        .collect();
    assert_eq!(result.cf_overlap, size_of(graph, &shared));
}

#[test]
fn footprint_of_a_unit_with_everything_around_it() {
    let graph = sample();
    let result = academic(&graph).compute_cf(&[NodeIndex::new(0)], None);
    assert_eq!(
        result.out_fragments,
        texts(&[
            "child:implementation",
            "child:surface",
            "helper:implementation",
            "helper:surface",
            "library:surface",
            "limit:surface",
            "reliable:surface",
            "state:surface",
            "unit:implementation",
            "unit:surface",
        ])
    );
    assert_eq!(
        result.in_fragments,
        texts(&[
            "caller:implementation",
            "caller:surface",
            "child:implementation",
            "child:surface",
            "parent:surface",
            "reader:implementation",
            "reader:surface",
            "state:surface",
            "unit:implementation",
            "unit:surface",
        ])
    );
    assert_eq!(result.cf_out, 10 + 3 + 9 + 6 + 1 + 7 + 39);
    assert_eq!(result.cf_in, 10 + 31 + 17 + 39 + 1 + 27);
    assert_eq!(result.cf_overlap, 10 + 1 + 39);
    assert_eq!(result.cf_total, 75 + 125 - 50);
    assert!(!result.truncated);
    assert!(result.unresolved_states.is_empty());
    assert_eq!(result.boundary_policy_id, "syntactic:academic:doc=0.500");
    check_sums(&graph, &result);
}

#[test]
fn boundaries_that_stop_a_traversal_are_recorded() {
    let graph = sample();
    let result = academic(&graph).compute_cf(&[NodeIndex::new(0)], None);
    let stops: Vec<(u32, u32, Direction, ReasoningRelation)> = result
        .boundary_stops
        .iter()
        .map(|stop| (stop.source, stop.target, stop.direction, stop.relation))
        .collect();
    for expected in [
        (0, 1, Direction::Out, ReasoningRelation::Call),
        (2, 5, Direction::Out, ReasoningRelation::Read),
    ] {
        assert!(stops.contains(&expected), "{:?}", expected);
    }
    // Neither the library nor what is written nor the parent would have been entered.
    assert_eq!(stops.len(), 2);
}

#[test]
fn implementations_that_are_boundaries_are_recorded() {
    let mut g = ContextGraph::new();
    let parent = g.add_node("parent".into(), function(0, "parent", 1, 1, false));
    let child = g.add_node("child".into(), function(1, "child", 3, 30, true));
    let inner = g.add_node("inner".into(), function(2, "inner", 5, 50, false));
    g.add_edge(parent, child, EdgeKind::OverriddenBy);
    g.add_edge(child, inner, EdgeKind::Call);
    let result = academic(&Arc::new(g)).compute_cf(&[parent], None);
    assert_eq!(
        result.out_fragments,
        texts(&["child:surface", "parent:implementation", "parent:surface"])
    );
    assert_eq!(result.boundary_stops.len(), 1);
    assert_eq!(result.boundary_stops[0].relation, ReasoningRelation::DynamicDispatch);
    assert_eq!((result.boundary_stops[0].source, result.boundary_stops[0].target), (0, 1));
}

#[test]
fn implementations_are_judged_by_their_own_contracts() {
    // A reliable parent does not keep an unreliable implementation from being entered.
    let mut g = ContextGraph::new();
    let parent = g.add_node("parent".into(), function(0, "parent", 1, 1, true));
    let child = g.add_node("child".into(), function(1, "child", 3, 30, false));
    let inner = g.add_node("inner".into(), function(2, "inner", 5, 50, false));
    g.add_edge(parent, child, EdgeKind::OverriddenBy);
    g.add_edge(child, inner, EdgeKind::Call);
    let result = academic(&Arc::new(g)).compute_cf(&[parent], None);
    assert_eq!(
        result.out_fragments,
        texts(&[
            "child:implementation",
            "child:surface",
            "inner:implementation",
            "inner:surface",
            "parent:implementation",
            "parent:surface",
        ])
    );
    assert!(result.boundary_stops.is_empty());
}

#[test]
fn steps_tell_how_nodes_were_reached() {
    let mut g = ContextGraph::new();
    let a = g.add_node("a".into(), function(0, "a", 1, 2, false));
    let b = g.add_node("b".into(), function(1, "b", 4, 8, false));
    g.add_edge(a, b, EdgeKind::Call);
    let solver = CfSolver::new(Arc::new(g), PruningParams::strict(score(0.5)));
    let steps = solver.compute_cf(&[a], None).traversal_steps;
    assert_eq!(
        steps,
        vec![
            TraversalStep {
                node_id: 0,
                incoming_edge_kind: None,
                decision: None,
            },
            TraversalStep {
                node_id: 1,
                incoming_edge_kind: Some(EdgeKind::Call),
                decision: Some(PruningDecision::Transparent),
            },
        ]
    );
    let graph = sample();
    let result = academic(&graph).compute_cf(&[NodeIndex::new(0)], None);
    let expected = [
        (1, EdgeKind::Call, PruningDecision::Boundary),
        (2, EdgeKind::Call, PruningDecision::Transparent),
        (3, EdgeKind::Call, PruningDecision::Boundary),
        (4, EdgeKind::Write, PruningDecision::Boundary),
        (5, EdgeKind::Read, PruningDecision::Boundary),
        (7, EdgeKind::Read, PruningDecision::Transparent),
        (8, EdgeKind::Call, PruningDecision::Transparent),
        (9, EdgeKind::OverriddenBy, PruningDecision::Boundary),
        (10, EdgeKind::OverriddenBy, PruningDecision::Transparent),
    ];
    assert_eq!(result.traversal_steps.len(), 10);
    for step in &result.traversal_steps {
        let found = expected.iter().find(|(id, _, _)| *id == step.node_id);
        assert_eq!(step.incoming_edge_kind, found.map(|(_, kind, _)| *kind));
        assert_eq!(step.decision, found.map(|(_, _, decision)| *decision));
    }
}

#[test]
fn writers_are_needed_with_their_callers() {
    for reliable in [false, true] {
        let mut g = ContextGraph::new();
        let reader = g.add_node("reader".into(), function(0, "reader", 1, 2, false));
        let state = g.add_node("state".into(), variable(1, "state", 4, Mutability::Mutable));
        let writer = g.add_node("writer".into(), function(2, "writer", 8, 16, reliable));
        let caller = g.add_node("caller".into(), function(3, "caller", 32, 64, false));
        g.add_edge(reader, state, EdgeKind::Read);
        g.add_edge(writer, state, EdgeKind::Write);
        g.add_edge(caller, writer, EdgeKind::Call);
        let result = academic(&Arc::new(g)).compute_cf(&[reader], None);
        // A writer with a contract that can be relied on needs no callers.
        assert_eq!(
            result.out_fragments,
            if reliable {
                texts(&[
                    "reader:implementation",
                    "reader:surface",
                    "state:surface",
                    "writer:implementation",
                    "writer:surface",
                ])
            } else {
                texts(&[
                    "caller:implementation",
                    "caller:surface",
                    "reader:implementation",
                    "reader:surface",
                    "state:surface",
                    "writer:implementation",
                    "writer:surface",
                ])
            }
        );
        assert_eq!(result.cf_out, if reliable { 31 } else { 127 });
    }
}

#[test]
fn external_writers_are_needed_with_their_surfaces() {
    let mut g = ContextGraph::new();
    let reader = g.add_node("reader".into(), function(0, "reader", 1, 2, false));
    let state = g.add_node("state".into(), variable(1, "state", 4, Mutability::Mutable));
    let library = g.add_node("library".into(), external(2, "library", 8));
    let caller = g.add_node("caller".into(), function(3, "caller", 32, 64, false));
    g.add_edge(reader, state, EdgeKind::Read);
    g.add_edge(library, state, EdgeKind::Write);
    g.add_edge(caller, library, EdgeKind::Call);
    let result = academic(&Arc::new(g)).compute_cf(&[reader], None);
    assert_eq!(result.cf_out, 15);
    assert!(result.boundary_stops.is_empty());
}

/// A unit with a caller that has a parent, an implementation, a caller of its own, and
/// that writes what another reads.
fn used_unit(reliable: bool) -> (ContextGraph, NodeIndex) {
    let mut g = ContextGraph::new();
    let unit = g.add_node("unit".into(), function(0, "unit", 1, 1, false));
    let caller = g.add_node("caller".into(), function(1, "caller", 1, 1, reliable));
    let parent = g.add_node("parent".into(), function(2, "parent", 1, 1, false));
    let child = g.add_node("child".into(), function(3, "child", 1, 1, false));
    let state = g.add_node("state".into(), variable(4, "state", 1, Mutability::Mutable));
    let reader = g.add_node("reader".into(), function(5, "reader", 1, 1, false));
    let first = g.add_node("first".into(), function(6, "first", 1, 1, false));
    let user = g.add_node("user".into(), function(7, "user", 1, 1, false));
    g.add_edge(caller, unit, EdgeKind::Call);
    g.add_edge(parent, caller, EdgeKind::OverriddenBy);
    g.add_edge(caller, child, EdgeKind::OverriddenBy);
    g.add_edge(caller, state, EdgeKind::Write);
    g.add_edge(reader, state, EdgeKind::Read);
    g.add_edge(first, caller, EdgeKind::Call);
    g.add_edge(user, parent, EdgeKind::Call);
    (g, unit)
}

#[test]
fn callers_need_all_evidence_of_their_use() {
    let (g, unit) = used_unit(false);
    let result = academic(&Arc::new(g)).compute_cf(&[unit], None);
    assert_eq!(
        result.in_fragments,
        texts(&[
            "caller:implementation",
            "caller:surface",
            "child:implementation",
            "child:surface",
            "first:implementation",
            "first:surface",
            "parent:surface",
            "reader:implementation",
            "reader:surface",
            "state:surface",
            "unit:implementation",
            "unit:surface",
            "user:implementation",
            "user:surface",
        ])
    );
}

#[test]
fn reliable_callers_need_their_parents_alone() {
    let (g, unit) = used_unit(true);
    let result = academic(&Arc::new(g)).compute_cf(&[unit], None);
    assert_eq!(
        result.in_fragments,
        texts(&[
            "caller:implementation",
            "caller:surface",
            "parent:surface",
            "unit:implementation",
            "unit:surface",
        ])
    );
}

#[test]
fn nodes_of_a_footprint_are_listed_once() {
    let graph = sample();
    let result = academic(&graph).compute_cf(&[NodeIndex::new(0)], None);
    assert_eq!(result.reachable_nodes_ordered.len(), result.reachable_set.len());
    assert_eq!(result.reachable_nodes_by_layer, vec![result.reachable_nodes_ordered.clone()]);
    let mut nodes = result.reachable_nodes_ordered.clone();
    nodes.sort();
    assert_eq!(nodes, vec![0, 1, 2, 3, 4, 5, 7, 8, 9, 10]);
    let steps: Vec<u32> = result.traversal_steps.iter().map(|step| step.node_id).collect();
    assert_eq!(steps, result.reachable_nodes_ordered);
}

#[test]
fn totals_are_sums_of_fragments_for_every_node() {
    let graph = sample();
    for idx in all_nodes(&graph) {
        for solver in [academic(&graph), strict(&graph)] {
            let result = solver.compute_cf(&[idx], None);
            check_sums(&graph, &result);
            assert_eq!(solver.compute_cf_total(idx), result.cf_total);
            // The unit itself is part of both directions.
            let core = graph.node(idx).node_core();
            let body = core.implementation_fragment.as_ref().map_or(0, |f| f.context_size);
            assert!(result.cf_overlap >= core.surface_fragment.context_size + body);
        }
    }
}

#[test]
fn limits_are_kept_and_give_lower_bounds() {
    let graph = sample();
    for idx in all_nodes(&graph) {
        let whole = academic(&graph).compute_cf(&[idx], None);
        assert!(!whole.truncated);
        assert!(whole.unresolved_states.is_empty());
        for limit in 0..160 {
            let part = academic(&graph).compute_cf(&[idx], Some(limit));
            assert!(part.cf_total <= limit);
            assert!(part.cf_total <= whole.cf_total);
            assert!(part.cf_out <= whole.cf_out);
            assert!(part.cf_in <= whole.cf_in);
            assert_eq!(part.truncated, !part.unresolved_states.is_empty());
            assert_eq!(part.truncated, whole.cf_total > limit);
            check_sums(&graph, &part);
            if !part.truncated {
                assert_eq!(part.out_fragments, whole.out_fragments);
                assert_eq!(part.in_fragments, whole.in_fragments);
                assert_eq!(part.cf_total, whole.cf_total);
            }
        }
    }
}

#[test]
fn policies_that_stop_more_cost_no_more() {
    let graph = sample();
    for idx in all_nodes(&graph) {
        let more = CfSolver::new(Arc::clone(&graph), PruningParams::academic(score(0.5)))
            .compute_cf(&[idx], None);
        let less = CfSolver::new(Arc::clone(&graph), PruningParams::strict(score(0.5)))
            .compute_cf(&[idx], None);
        let least = CfSolver::new(Arc::clone(&graph), PruningParams::strict(score(2.0)))
            .compute_cf(&[idx], None);
        for (a, b) in [(&more, &less), (&less, &least)] {
            assert!(a.cf_total <= b.cf_total);
            assert!(a.out_fragments.iter().all(|id| b.out_fragments.contains(id)));
            assert!(a.in_fragments.iter().all(|id| b.in_fragments.contains(id)));
            assert!(a.reachable_set.is_subset(&b.reachable_set));
        }
        let both = academic(&graph).compute_cf(&[idx, NodeIndex::new(0)], None);
        assert!(more.cf_total <= both.cf_total);
    }
}

/// Says the same of every boundary.
struct Same(BoundaryDecision);

impl BoundaryPolicy for Same {
    fn evaluate(
        &self,
        _reasoning_mode: ReasoningMode,
        _relation: ReasoningRelation,
        _source: &Node,
        _target: &Node,
        _type_registry: &TypeRegistry,
    ) -> BoundaryDecision {
        self.0
    }

    fn evaluate_contract(
        &self,
        _reasoning_mode: ReasoningMode,
        _node: &Node,
        _type_registry: &TypeRegistry,
    ) -> BoundaryDecision {
        self.0
    }

    fn id(&self) -> String {
        "same".to_string()
    }
}

#[test]
fn unknown_boundaries_are_entered() {
    let graph = sample();
    let params = PruningParams::academic(score(0.5));
    let with = |decision: BoundaryDecision| {
        CfSolver::with_policy(Arc::clone(&graph), params, Arc::new(Same(decision)))
            .compute_cf(&[NodeIndex::new(0)], None)
    };
    let unknown = with(BoundaryDecision::Unknown);
    let entered = with(BoundaryDecision::EnterImplementation);
    let stopped = with(BoundaryDecision::StopAtSurface);
    assert_eq!(unknown.out_fragments, entered.out_fragments);
    assert_eq!(unknown.in_fragments, entered.in_fragments);
    assert_eq!(unknown.reachable_set, entered.reachable_set);
    assert_eq!(unknown.reachable_nodes_ordered, entered.reachable_nodes_ordered);
    assert_eq!(unknown.reachable_nodes_by_layer, entered.reachable_nodes_by_layer);
    assert_eq!(unknown.traversal_steps, entered.traversal_steps);
    assert_eq!(unknown.boundary_stops, entered.boundary_stops);
    assert_eq!(unknown.unresolved_states, entered.unresolved_states);
    assert_eq!(unknown.truncated, entered.truncated);
    assert_eq!(unknown.cf_total, entered.cf_total);
    assert_eq!(unknown.cf_overlap, entered.cf_overlap);
    // What cannot change is a boundary whatever the policy says.
    assert_eq!(unknown.boundary_stops.len(), 1);
    assert_eq!(unknown.boundary_stops[0].relation, ReasoningRelation::Read);
    assert_eq!(unknown.boundary_policy_id, "same");
    assert!(unknown.out_fragments.contains(&"reliable:implementation".to_string()));
    assert_eq!(
        stopped.out_fragments,
        texts(&[
            "child:surface",
            "helper:surface",
            "reliable:surface",
            "state:surface",
            "unit:implementation",
            "unit:surface",
        ])
    );
    assert_eq!(
        stopped.in_fragments,
        texts(&["parent:surface", "unit:implementation", "unit:surface"])
    );
}

#[test]
fn functions_that_are_read_are_up_to_the_policy() {
    let mut g = ContextGraph::new();
    let unit = g.add_node("unit".into(), function(0, "unit", 1, 2, false));
    let callback = g.add_node("callback".into(), function(1, "callback", 4, 8, true));
    let inner = g.add_node("inner".into(), function(2, "inner", 16, 32, false));
    g.add_edge(unit, callback, EdgeKind::Read);
    g.add_edge(callback, inner, EdgeKind::Call);
    let graph = Arc::new(g);
    let params = PruningParams::academic(score(0.5));
    let with = |decision: BoundaryDecision| {
        CfSolver::with_policy(Arc::clone(&graph), params, Arc::new(Same(decision)))
            .compute_cf(&[unit], None)
    };
    let stopped = with(BoundaryDecision::StopAtSurface);
    assert_eq!(stopped.cf_out, 7);
    assert_eq!(stopped.boundary_stops.len(), 1);
    assert_eq!(stopped.boundary_stops[0].relation, ReasoningRelation::Read);
    assert_eq!(stopped.traversal_steps[1].incoming_edge_kind, Some(EdgeKind::Read));
    assert_eq!(stopped.traversal_steps[1].decision, Some(PruningDecision::Boundary));
    // What is read is not behavior: nothing that it calls is needed.
    assert_eq!(with(BoundaryDecision::EnterImplementation).cf_out, 15);
    assert_eq!(with(BoundaryDecision::Unknown).cf_out, 15);
    assert_eq!(academic(&graph).compute_cf(&[unit], None).cf_out, 15);
}

#[test]
fn variables_that_implement_are_judged_by_what_they_implement() {
    let policy = SyntacticBoundaryPolicy::new(PruningParams::academic(score(0.5)));
    let types = TypeRegistry::new();
    let judge = |source: &Node, target: &Node| {
        policy.evaluate(
            ReasoningMode::NeedBehavior,
            ReasoningRelation::DynamicDispatch,
            source,
            target,
            &types,
        )
    };
    let value = variable(0, "value", 1, Mutability::Const);
    let reliable = function(1, "reliable", 1, 1, true);
    let other = function(2, "other", 1, 1, false);
    assert_eq!(judge(&reliable, &value), BoundaryDecision::StopAtSurface);
    assert_eq!(judge(&other, &value), BoundaryDecision::EnterImplementation);
    assert_eq!(judge(&other, &reliable), BoundaryDecision::StopAtSurface);
    assert_eq!(judge(&reliable, &other), BoundaryDecision::EnterImplementation);
}

#[test]
fn prepaid_fragments_matter_to_limits_alone() {
    let graph = sample();
    let solver = academic(&graph);
    let nothing: SymbolTable<u32> = SymbolTable::new();
    let mut prepaid: SymbolTable<u32> = SymbolTable::new();
    prepaid.insert("unit:surface".to_string(), 2);
    prepaid.insert("helper:implementation".to_string(), 5);
    prepaid.insert("elsewhere".to_string(), 100);
    for direction in [Direction::Out, Direction::In] {
        for idx in all_nodes(&graph) {
            let first = solver.traverse_reasoning(&[idx], direction, None, &nothing);
            let second = solver.traverse_reasoning(&[idx], direction, None, &prepaid);
            assert_eq!(first.sorted_fragment_ids(), second.sorted_fragment_ids());
        }
    }
    // Under a limit, what was paid for leaves less for the rest.
    let unit = NodeIndex::new(0);
    let first = solver.traverse_reasoning(&[unit], Direction::Out, Some(12), &nothing);
    let second = solver.traverse_reasoning(&[unit], Direction::Out, Some(12), &prepaid);
    assert_eq!(first.sorted_fragment_ids(), texts(&["unit:implementation", "unit:surface"]));
    assert_eq!(second.sorted_fragment_ids(), texts(&["unit:surface"]));
}

#[test]
fn reliable_units_need_their_parents_alone() {
    let mut g = ContextGraph::new();
    let unit = g.add_node("unit".into(), function(0, "unit", 1, 2, true));
    let caller = g.add_node("caller".into(), function(1, "caller", 4, 8, false));
    let parent = g.add_node("parent".into(), function(2, "parent", 16, 32, false));
    let other = g.add_node("other".into(), function(3, "other", 64, 128, false));
    g.add_edge(caller, unit, EdgeKind::Call);
    g.add_edge(parent, unit, EdgeKind::OverriddenBy);
    g.add_edge(other, parent, EdgeKind::Call);
    let result = academic(&Arc::new(g)).compute_cf(&[unit], None);
    assert_eq!(
        result.in_fragments,
        texts(&["parent:surface", "unit:implementation", "unit:surface"])
    );
    assert_eq!(result.cf_in, 19);
    assert_eq!(result.cf_out, 3);
    assert_eq!(result.cf_overlap, 3);
}

#[test]
fn unreliable_units_need_the_uses_of_their_parents() {
    let mut g = ContextGraph::new();
    let unit = g.add_node("unit".into(), function(0, "unit", 1, 2, false));
    let parent = g.add_node("parent".into(), function(1, "parent", 4, 8, false));
    let user = g.add_node("user".into(), function(2, "user", 16, 32, false));
    let aside = g.add_node("aside".into(), function(3, "aside", 64, 128, false));
    g.add_edge(parent, unit, EdgeKind::OverriddenBy);
    g.add_edge(user, parent, EdgeKind::Call);
    g.add_edge(user, aside, EdgeKind::Call);
    let result = academic(&Arc::new(g)).compute_cf(&[unit], None);
    assert_eq!(
        result.in_fragments,
        texts(&[
            "parent:surface",
            "unit:implementation",
            "unit:surface",
            "user:implementation",
            "user:surface",
        ])
    );
}

#[test]
fn external_nodes_lead_nowhere() {
    let mut g = ContextGraph::new();
    let unit = g.add_node("unit".into(), function(0, "unit", 1, 2, false));
    let library = g.add_node("library".into(), external(1, "library", 4));
    let inner = g.add_node("inner".into(), function(2, "inner", 8, 16, false));
    g.add_edge(unit, library, EdgeKind::Call);
    g.add_edge(library, inner, EdgeKind::Call);
    let graph = Arc::new(g);
    let result = academic(&graph).compute_cf(&[unit], None);
    assert_eq!(
        result.out_fragments,
        texts(&["library:surface", "unit:implementation", "unit:surface"])
    );
    let alone = academic(&graph).compute_cf(&[library], None);
    assert_eq!(alone.cf_total, 4);
}

#[test]
fn external_nodes_are_not_entered_whatever_the_policy_says() {
    let mut g = ContextGraph::new();
    let unit = g.add_node("unit".into(), function(0, "unit", 1, 2, false));
    let mut vendored = function(1, "vendored", 4, 8, false);
    if let Node::Function(f) = &mut vendored {
        f.core.is_external = true;
    }
    let vendored = g.add_node("vendored".into(), vendored);
    g.add_edge(unit, vendored, EdgeKind::Call);
    g.add_edge(vendored, unit, EdgeKind::Call);
    let policy = Arc::new(Same(BoundaryDecision::EnterImplementation));
    let params = PruningParams::academic(score(0.5));
    let result = CfSolver::with_policy(Arc::new(g), params, policy).compute_cf(&[unit], None);
    assert_eq!(result.out_fragments, result.in_fragments);
    assert_eq!(result.cf_total, 7);
    assert!(result.boundary_stops.is_empty());
}

#[test]
fn types_of_a_signature_belong_to_its_surface() {
    let mut g = ContextGraph::new();
    g.type_registry.register(
        "m.T#".to_string(),
        TypeInfo {
            definition: TypeDefAttribute {
                type_kind: TypeKind::Class,
                is_abstract: false,
                type_param_count: 0,
                type_var_info: None,
            },
            context_size: 9,
            surface_fragment: ContextFragment::new("m.T#:surface".to_string(), None, None, 9),
            doc_score: score(0.0),
            documentation: Vec::new(),
        },
    );
    let mut node = function(0, "unit", 1, 2, false);
    if let Node::Function(f) = &mut node {
        f.parameters.push(Parameter {
            name: "x".to_string(),
            param_type: Some("m.T#".to_string()),
            is_high_freedom_type: false,
        });
        f.return_types.push("m.T#".to_string());
        f.return_types.push("m.Unknown#".to_string());
    }
    let unit = g.add_node("unit".into(), node);
    let result = academic(&Arc::new(g)).compute_cf(&[unit], None);
    assert_eq!(
        result.out_fragments,
        texts(&["m.T#:surface", "unit:implementation", "unit:surface"])
    );
    assert_eq!(result.cf_total, 12);
}

fn register_type(g: &mut ContextGraph, name: &str, size: u32, limits: Option<TypeVarInfo>) {
    g.type_registry.register(
        name.to_string(),
        TypeInfo {
            definition: TypeDefAttribute {
                type_kind: if limits.is_some() {
                    TypeKind::TypeVar
                } else {
                    TypeKind::Class
                },
                is_abstract: false,
                type_param_count: 0,
                type_var_info: limits,
            },
            context_size: size,
            surface_fragment: ContextFragment::new(format!("{name}:surface"), None, None, size),
            doc_score: score(0.0),
            documentation: Vec::new(),
        },
    );
}

#[test]
fn types_that_limit_type_parameters_belong_to_the_surface() {
    let mut g = ContextGraph::new();
    let limits = |bound: Option<&str>, constraints: &[&str]| {
        Some(TypeVarInfo {
            bound: bound.map(|id| id.to_string()),
            constraints: texts(constraints),
        })
    };
    // T is limited by U and A, and U in turn by B, by itself and by T.
    register_type(&mut g, "T#", 1, limits(Some("U#"), &["A#", "Missing#"]));
    register_type(&mut g, "U#", 2, limits(None, &["B#", "U#", "T#"]));
    register_type(&mut g, "A#", 4, None);
    register_type(&mut g, "B#", 8, None);
    register_type(&mut g, "C#", 16, None);
    let mut node = function(0, "unit", 32, 64, false);
    if let Node::Function(f) = &mut node {
        f.return_types.push("T#".to_string());
    }
    let unit = g.add_node("unit".into(), node);
    let mut value = variable(1, "value", 128, Mutability::Const);
    if let Node::Variable(v) = &mut value {
        v.var_type = Some("A#".to_string());
    }
    let value = g.add_node("value".into(), value);
    let graph = Arc::new(g);
    let result = academic(&graph).compute_cf(&[unit], None);
    assert_eq!(
        result.out_fragments,
        texts(&[
            "A#:surface",
            "B#:surface",
            "T#:surface",
            "U#:surface",
            "unit:implementation",
            "unit:surface",
        ])
    );
    assert_eq!(result.cf_total, 15 + 96);
    assert_eq!(academic(&graph).compute_cf_total(value), 132);
}

#[test]
fn footprints_of_several_units_are_unions() {
    let graph = sample();
    for a in all_nodes(&graph) {
        for b in all_nodes(&graph) {
            let x = academic(&graph).compute_cf(&[a], None);
            let y = academic(&graph).compute_cf(&[b], None);
            let z = academic(&graph).compute_cf(&[a, b], None);
            let nodes: HashSet<u32> = x.reachable_set.union(&y.reachable_set).copied().collect();
            assert_eq!(z.reachable_set, nodes);
            for (of_x, of_y, of_z) in [
                (&x.out_fragments, &y.out_fragments, &z.out_fragments),
                (&x.in_fragments, &y.in_fragments, &z.in_fragments),
            ] {
                let mut both: Vec<String> = of_x.iter().chain(of_y.iter()).cloned().collect();
                both.sort();
                both.dedup();
                assert_eq!(&both, of_z);
            }
            assert!(x.cf_total <= z.cf_total && y.cf_total <= z.cf_total);
            // The order of the units does not matter, nor how often they are named.
            let again = academic(&graph).compute_cf(&[b, a, b], None);
            assert_eq!(again.reachable_set, z.reachable_set);
            assert_eq!(again.out_fragments, z.out_fragments);
            assert_eq!(again.in_fragments, z.in_fragments);
            assert_eq!(
                (again.cf_out, again.cf_in, again.cf_overlap, again.cf_total),
                (z.cf_out, z.cf_in, z.cf_overlap, z.cf_total)
            );
        }
    }
}

#[test]
fn sizes_that_do_not_fit_give_no_result() {
    let mut g = ContextGraph::new();
    let a = g.add_node("a".into(), function(0, "a", u32::MAX, 0, false));
    let b = g.add_node("b".into(), function(1, "b", 1, 0, false));
    g.add_edge(a, b, EdgeKind::Call);
    let graph = Arc::new(g);
    let solver = academic(&graph);
    assert!(solver.try_compute_cf(&[a], None).is_none());
    assert!(solver.try_compute_cf_total(a).is_none());
    // Going inwards from the second there is the first.
    assert!(solver.try_compute_cf(&[b], None).is_none());
    let limited = solver.try_compute_cf(&[a], Some(7)).unwrap();
    assert!(limited.truncated);
    assert_eq!(limited.cf_total, 0);
    let largest = solver.try_compute_cf(&[a], Some(u32::MAX));
    assert!(largest.is_none() || largest.unwrap().cf_total == u32::MAX);
}

#[test]
fn reported_paths_follow_edges() {
    let graph = sample();
    let targets = all_nodes(&graph);
    let result = strict(&graph).reachable(
        &[NodeIndex::new(0)],
        &targets,
        ReachabilityOptions {
            witness_paths: true,
            max_paths: 100,
        },
    );
    assert!(result.reachable);
    assert_eq!(result.witness_paths.len(), result.hit_targets.len());
    for (path, target) in result.witness_paths.iter().zip(&result.hit_targets) {
        assert_eq!(path[0], 0);
        assert_eq!(path.last(), Some(target));
        for (i, node) in path.iter().enumerate() {
            assert!(!path[..i].contains(node));
        }
        for pair in path.windows(2) {
            let from = NodeIndex::new(pair[0] as usize);
            let to = NodeIndex::new(pair[1] as usize);
            let linked = graph.outgoing_edges(from).iter().any(|(n, _)| *n == to)
                || graph.outgoing_edges(to).iter().any(|(n, _)| *n == from);
            assert!(linked, "{:?}", pair);
        }
    }
    let short = strict(&graph).reachable(
        &[NodeIndex::new(0)],
        &targets,
        ReachabilityOptions {
            witness_paths: true,
            max_paths: 2,
        },
    );
    assert_eq!(short.witness_paths.len(), 2);
    assert_eq!(short.hit_targets, result.hit_targets);
    let plain = strict(&graph).reachable(
        &[NodeIndex::new(0)],
        &targets,
        ReachabilityOptions::default(),
    );
    assert!(plain.witness_paths.is_empty());
}

#[test]
fn callers_are_explored_for_impure_functions() {
    let mut g = ContextGraph::new();
    let unit = g.add_node("unit".into(), function(0, "unit", 10, 10, false));
    let state = g.add_node("state".into(), variable(1, "state", 1, Mutability::Mutable));
    let pure = g.add_node("pure".into(), function(2, "pure", 10, 10, false));
    g.add_edge(unit, state, EdgeKind::Write);
    let params = PruningParams::academic(score(0.5));
    let explores = |g: &ContextGraph, idx: NodeIndex, edge: Option<&EdgeKind>| match g.node(idx) {
        Node::Function(f) => should_explore_callers(f, idx, edge, &params, g),
        Node::Variable(_) => panic!("a function"),
    };
    assert!(explores(&g, unit, None));
    assert!(explores(&g, unit, Some(&EdgeKind::Read)));
    assert!(!explores(&g, unit, Some(&EdgeKind::Call)));
    assert!(!explores(&g, pure, None));
    // Three callers for twenty tokens make it a utility.
    for id in 3..6 {
        let caller = g.add_node(format!("caller{id}"), function(id, "caller", 1, 1, false));
        g.add_edge(caller, unit, EdgeKind::Call);
    }
    assert!(!explores(&g, unit, None));
}

#[test]
fn edges_are_listed_at_both_ends() {
    let graph = sample();
    for idx in all_nodes(&graph) {
        for (target, kind) in graph.outgoing_edges(idx) {
            assert!(graph.incoming_edges(target, Some(kind)).contains(&(idx, kind)));
            assert!(graph.incoming_edges(target, None).contains(&(idx, kind)));
        }
        for (source, kind) in graph.incoming_edges(idx, None) {
            assert!(graph.outgoing_edges(source).contains(&(idx, kind)));
        }
    }
    assert_eq!(graph.edge_count(), 11);
    assert!(graph.incoming_edges(NodeIndex::new(0), Some(EdgeKind::Read)).is_empty());
}

#[test]
fn parallel_edges_keep_their_kinds() {
    let mut g = ContextGraph::new();
    let a = g.add_node("a".into(), function(0, "a", 1, 1, false));
    let v = g.add_node("v".into(), variable(1, "v", 1, Mutability::Mutable));
    g.add_edge(a, v, EdgeKind::Read);
    g.add_edge(a, v, EdgeKind::Write);
    g.add_edge(a, v, EdgeKind::Read);
    let edges = g.outgoing_edges(a);
    assert_eq!(
        edges,
        vec![(v, EdgeKind::Read), (v, EdgeKind::Write), (v, EdgeKind::Read)]
    );
    assert!(g.outgoing_edges(v).is_empty());
    assert_eq!(g.incoming_edges(v, Some(EdgeKind::Write)), vec![(a, EdgeKind::Write)]);
    assert_eq!(g.incoming_edges(v, Some(EdgeKind::Read)).len(), 2);
    assert_eq!(g.incoming_edges(v, None).len(), 3);
    assert!(g.incoming_edges(a, None).is_empty());
    // A loop is listed in both directions.
    g.add_edge(a, a, EdgeKind::Call);
    assert_eq!(g.incoming_edges(a, None), vec![(a, EdgeKind::Call)]);
    assert_eq!(g.outgoing_edges(a)[0], (a, EdgeKind::Call));
    assert_eq!(g.outgoing_edges(a).len(), 4);
}

#[test]
fn symbols_must_name_nodes() {
    let mut g = ContextGraph::new();
    assert!(g.is_consistent());
    g.add_node("a".into(), function(0, "a", 1, 1, false));
    let b = g.add_node("b".into(), function(1, "b", 1, 1, false));
    assert!(g.is_consistent());
    // A node may have several names.
    g.symbol_to_node.insert("c".to_string(), b);
    assert!(g.is_consistent());
    assert_eq!(g.symbol_names(), vec!["a", "c"]);
    g.symbol_to_node.insert("d".to_string(), NodeIndex::new(2));
    assert!(!g.is_consistent());
    assert!(sample().is_consistent());
}

#[test]
fn members_of_a_type_are_its_methods() {
    let mut g = ContextGraph::new();
    for (id, (symbol, scope)) in [("b", Some("C#")), ("a", Some("C#")), ("c", Some("D#")), ("d", None)]
        .iter()
        .enumerate()
    {
        let mut node = function(id as u32, symbol, 1, 1, false);
        if let Node::Function(f) = &mut node {
            f.core.scope = scope.map(|s| s.to_string());
        }
        g.add_node(symbol.to_string(), node);
    }
    let mut field = variable(4, "e", 1, Mutability::Mutable);
    if let Node::Variable(v) = &mut field {
        v.core.scope = Some("C#".to_string());
    }
    g.add_node("e".into(), field);
    assert_eq!(
        g.find_class_members("C#"),
        vec![
            ("a".to_string(), NodeIndex::new(1)),
            ("b".to_string(), NodeIndex::new(0)),
        ]
    );
    assert!(g.find_class_members("E#").is_empty());
}
