//! What policies decide, said over the nodes and the registered types themselves.

use crate::domain::edge::EdgeKind;
use crate::domain::graph::{ContextGraph, NodeIndex};
use crate::domain::node::{FunctionNode, Mutability, Node};
use crate::domain::policy;
use crate::domain::policy::{
    BoundaryDecision, BoundaryPolicy, PruningParams, ReasoningMode, ReasoningRelation,
    SyntacticBoundaryPolicy,
};
use crate::domain::type_registry::{TypeKind, TypeRegistry};
use vstd::prelude::*;

verus! {

/// Under the strict policy, an internal function that is neither wired by dependency
/// injection nor an interface method stops a call at its surface exactly if it has a
/// return type, all its parameters have types that say something, and one of its return
/// types is registered as abstract. The same holds of a function that annotates or
/// implements another, and of the edges that a search follows.
pub proof fn law_strict_policy_stops_at_abstract_factories(
    p: SyntacticBoundaryPolicy,
    mode: ReasoningMode,
    relation: ReasoningRelation,
    source: Node,
    kind: EdgeKind,
    f: FunctionNode,
    types: TypeRegistry,
)
    requires
        !p.params.treat_typed_documented_function_as_boundary,
        relation == ReasoningRelation::Call || relation == ReasoningRelation::Annotates
            || relation == ReasoningRelation::DynamicDispatch,
        !f.core.is_external,
        !f.is_di_wired,
        !f.is_interface_method,
    ensures
        ({
            let returns_abstract_type = exists|i: int|
                0 <= i < f.return_types@.len() && types@.contains_key(
                    (#[trigger] f.return_types@[i])@,
                ) && types@[f.return_types@[i]@].definition.is_abstract;
            let typed = forall|i: int|
                0 <= i < f.parameters@.len() ==> {
                    let annotation = (#[trigger] f.parameters@[i]).param_type;
                    annotation is Some && (types@.contains_key(annotation->0@)
                        && types@[annotation->0@].definition.type_kind == TypeKind::TypeVar ==> {
                        let limits = types@[annotation->0@].definition.type_var_info;
                        limits is Some && (limits->0.bound is Some || limits->0.constraints@.len()
                            > 0)
                    })
                };
            &&& p.decision(mode, relation, source, Node::Function(f), types)
                == BoundaryDecision::StopAtSurface <==> returns_abstract_type && typed
            &&& p.decision(mode, relation, source, Node::Function(f), types)
                != BoundaryDecision::Unknown
            &&& source.node_core().context_size > 0 ==> (policy::forward_boundary(
                p.params,
                source,
                Node::Function(f),
                kind,
                types@,
            ) <==> returns_abstract_type && typed)
        }),
{
}

/// When an internal function stops a call at its surface: it has a return type, all its
/// parameters have types that say something, and it is wired by dependency injection, or
/// documented well enough where it is an interface method or the policy relies on
/// documentation, or it returns an abstract type and is no interface method. A search
/// along edges decides alike, unless it comes from a stub of size zero.
pub proof fn law_functions_are_boundaries_by_their_signatures(
    p: SyntacticBoundaryPolicy,
    mode: ReasoningMode,
    source: Node,
    kind: EdgeKind,
    f: FunctionNode,
    types: TypeRegistry,
)
    requires
        !f.core.is_external,
    ensures
        ({
            let typed = f.return_types@.len() > 0 && forall|i: int|
                0 <= i < f.parameters@.len() ==> {
                    let annotation = (#[trigger] f.parameters@[i]).param_type;
                    annotation is Some && (types@.contains_key(annotation->0@)
                        && types@[annotation->0@].definition.type_kind == TypeKind::TypeVar ==> {
                        let limits = types@[annotation->0@].definition.type_var_info;
                        limits is Some && (limits->0.bound is Some || limits->0.constraints@.len()
                            > 0)
                    })
                };
            let returns_abstract_type = exists|i: int|
                0 <= i < f.return_types@.len() && types@.contains_key(
                    (#[trigger] f.return_types@[i])@,
                ) && types@[f.return_types@[i]@].definition.is_abstract;
            let documented = f.core.doc_score.spec_at_least(p.params.doc_threshold);
            let reliable = typed && (f.is_di_wired || (documented && (f.is_interface_method
                || p.params.treat_typed_documented_function_as_boundary)) || (
            returns_abstract_type && !f.is_interface_method));
            &&& p.decision(mode, ReasoningRelation::Call, source, Node::Function(f), types)
                == if reliable {
                BoundaryDecision::StopAtSurface
            } else {
                BoundaryDecision::EnterImplementation
            }
            &&& policy::forward_boundary(p.params, source, Node::Function(f), kind, types@)
                <==> source.node_core().context_size == 0 || reliable
            &&& p.contract_decision(mode, Node::Function(f), types) == if typed && (f.is_di_wired
                || documented) {
                BoundaryDecision::StopAtSurface
            } else {
                BoundaryDecision::EnterImplementation
            }
        }),
{
}

/// What better documentation, or a lower threshold, does to a function: where it stopped
/// before, it still does. A policy that relies on documentation stops wherever one does
/// that does not.
pub proof fn law_documentation_only_adds_boundaries(
    p: SyntacticBoundaryPolicy,
    q: SyntacticBoundaryPolicy,
    mode: ReasoningMode,
    relation: ReasoningRelation,
    source: Node,
    f: FunctionNode,
    g: FunctionNode,
    types: TypeRegistry,
)
    requires
        p.params.doc_threshold == q.params.doc_threshold,
        p.params.treat_typed_documented_function_as_boundary
            ==> q.params.treat_typed_documented_function_as_boundary,
        f.parameters == g.parameters,
        f.return_types == g.return_types,
        f.is_di_wired == g.is_di_wired,
        f.is_interface_method == g.is_interface_method,
        f.core.is_external == g.core.is_external,
        g.core.doc_score.spec_at_least(f.core.doc_score),
        p.decision(mode, relation, source, Node::Function(f), types)
            == BoundaryDecision::StopAtSurface,
    ensures
        q.decision(mode, relation, source, Node::Function(g), types)
            == BoundaryDecision::StopAtSurface,
{
}

/// What relations decide by themselves, in any mode. External targets are never entered.
/// Evidence always is, and written variables and contracts of parents never are. What is
/// decorated or implemented is judged like what is called. A variable that is called, or a
/// function that is read, is not told about. An implementation that is a variable is
/// judged by the contract of what it implements.
pub proof fn law_relations_decide_by_themselves(
    p: SyntacticBoundaryPolicy,
    mode: ReasoningMode,
    other_mode: ReasoningMode,
    relation: ReasoningRelation,
    source: Node,
    target: Node,
    types: TypeRegistry,
)
    ensures
        p.decision(mode, relation, source, target, types) == p.decision(
            other_mode,
            relation,
            source,
            target,
            types,
        ),
        p.contract_decision(mode, target, types) == p.contract_decision(other_mode, target, types),
        target.node_core().is_external ==> p.decision(mode, relation, source, target, types)
            == BoundaryDecision::StopAtSurface && p.contract_decision(mode, target, types)
            == BoundaryDecision::StopAtSurface,
        !target.node_core().is_external ==> {
            let decided = p.decision(mode, relation, source, target, types);
            let called = p.decision(mode, ReasoningRelation::Call, source, target, types);
            match relation {
                ReasoningRelation::UsageEvidence
                | ReasoningRelation::ValueProvenance
                | ReasoningRelation::ChildImplementationEvidence
                | ReasoningRelation::ObservedBy => decided
                    == BoundaryDecision::EnterImplementation,
                ReasoningRelation::ParentContract | ReasoningRelation::Write => decided
                    == BoundaryDecision::StopAtSurface,
                ReasoningRelation::Read => decided == BoundaryDecision::Unknown
                    <==> target is Function,
                ReasoningRelation::Call => decided == BoundaryDecision::Unknown
                    <==> target is Variable,
                ReasoningRelation::Annotates => decided == called,
                ReasoningRelation::DynamicDispatch => if target is Function {
                    decided == called
                } else {
                    decided == p.contract_decision(mode, source, types)
                },
            }
        },
{
}

/// Along edges, a search never goes on from a stub of size zero, nor into what is external.
pub proof fn law_searches_stop_at_stubs_and_external_targets(
    params: PruningParams,
    source: Node,
    target: Node,
    kind: EdgeKind,
    types: TypeRegistry,
)
    ensures
        source.node_core().context_size == 0 || target.node_core().is_external
            ==> policy::forward_boundary(params, source, target, kind, types@),
{
}

/// What is said of a variable: one that cannot change is a boundary where it is read and
/// where its own contract is asked for, and one that may change is not. Along edges, a
/// variable that is written is never a boundary.
pub proof fn law_variables_are_boundaries_if_they_cannot_change(
    p: SyntacticBoundaryPolicy,
    mode: ReasoningMode,
    source: Node,
    target: Node,
    kind: EdgeKind,
    types: TypeRegistry,
)
    requires
        target is Variable,
        !target.node_core().is_external,
        source.node_core().context_size > 0,
    ensures
        ({
            let changes = target->Variable_0.mutability == Mutability::Mutable;
            &&& p.decision(mode, ReasoningRelation::Read, source, target, types) == if changes {
                BoundaryDecision::EnterImplementation
            } else {
                BoundaryDecision::StopAtSurface
            }
            &&& p.contract_decision(mode, target, types) == if changes {
                BoundaryDecision::EnterImplementation
            } else {
                BoundaryDecision::StopAtSurface
            }
            &&& policy::forward_boundary(p.params, source, target, kind, types@) <==> !changes
                && kind != EdgeKind::Write
        }),
{
}

/// Whether each node of a path has an edge to the next that says that it calls it.
pub open spec fn calls_along(graph: ContextGraph, path: Seq<NodeIndex>) -> bool {
    forall|k: int|
        0 <= k < path.len() - 1 ==> graph.has_link(
            #[trigger] path[k],
            path[k + 1],
            EdgeKind::Call,
        )
}

/// Whether a node writes some variable, by an edge of the graph.
pub open spec fn has_write(graph: ContextGraph, node: NodeIndex) -> bool {
    exists|variable: NodeIndex| #[trigger] graph.has_link(node, variable, EdgeKind::Write)
}

/// Whether a node writes some variable, itself or through what it calls.
pub open spec fn changes_state(graph: ContextGraph, node: NodeIndex) -> bool {
    exists|path: Seq<NodeIndex>|
        path.len() > 0 && path[0] == node && #[trigger] calls_along(graph, path) && has_write(
            graph,
            path.last(),
        )
}

proof fn lemma_call_path(graph: ContextGraph, path: Seq<NodeIndex>)
    requires
        graph.wf(),
        path.len() > 0,
    ensures
        policy::is_call_path(graph, path) <==> calls_along(graph, path),
        policy::writes(graph, path.last()) <==> has_write(graph, path.last()),
{
    if policy::is_call_path(graph, path) {
        assert forall|k: int| 0 <= k < path.len() - 1 implies graph.has_link(
            #[trigger] path[k],
            path[k + 1],
            EdgeKind::Call,
        ) by {
            assert(policy::has_edge(graph, path[k], path[k + 1], EdgeKind::Call));
            graph.law_edges_are_listed_at_both_ends(path[k], path[k + 1], EdgeKind::Call);
        }
    }
    if calls_along(graph, path) {
        assert forall|k: int|
            #![trigger path[k]]
            0 <= k < path.len() - 1 implies policy::has_edge(
            graph,
            path[k],
            path[k + 1],
            EdgeKind::Call,
        ) by {
            assert(graph.has_link(path[k], path[k + 1], EdgeKind::Call));
            graph.law_edges_are_listed_at_both_ends(path[k], path[k + 1], EdgeKind::Call);
        }
    }
    let node = path.last();
    if policy::writes(graph, node) {
        let target = choose|target: NodeIndex|
            policy::has_edge(graph, node, target, EdgeKind::Write);
        graph.law_edges_are_listed_at_both_ends(node, target, EdgeKind::Write);
        assert(graph.has_link(node, target, EdgeKind::Write));
    }
    if has_write(graph, node) {
        let target = choose|target: NodeIndex| #[trigger]
            graph.has_link(node, target, EdgeKind::Write);
        graph.law_edges_are_listed_at_both_ends(node, target, EdgeKind::Write);
        assert(policy::has_edge(graph, node, target, EdgeKind::Write));
    }
}

/// A function has side effects exactly if it writes a variable, itself or through what
/// it calls.
pub proof fn law_side_effects_are_writes(graph: ContextGraph, node: NodeIndex)
    requires
        graph.wf(),
    ensures
        policy::has_side_effects(graph, node) <==> changes_state(graph, node),
{
    if policy::has_side_effects(graph, node) {
        let path = choose|path: Seq<NodeIndex>| #[trigger]
            policy::is_call_path(graph, path) && path[0] == node && policy::writes(
                graph,
                path.last(),
            );
        lemma_call_path(graph, path);
        assert(path.len() > 0 && path[0] == node && calls_along(graph, path) && has_write(
            graph,
            path.last(),
        ));
    }
    if changes_state(graph, node) {
        let path = choose|path: Seq<NodeIndex>|
            path.len() > 0 && path[0] == node && #[trigger] calls_along(graph, path) && has_write(
                graph,
                path.last(),
            );
        lemma_call_path(graph, path);
        assert(policy::is_call_path(graph, path) && path[0] == node && policy::writes(
            graph,
            path.last(),
        ));
    }
}

/// The callers of a constructor are never explored, whatever its size, its edges, its
/// signature and its documentation.
pub proof fn law_callers_of_constructors_are_not_explored(
    f: FunctionNode,
    idx: NodeIndex,
    incoming: Option<EdgeKind>,
    params: PruningParams,
    graph: ContextGraph,
)
    requires
        f.is_constructor,
    ensures
        !policy::explores_callers(f, idx, incoming, params, graph),
{
}

/// When the callers of a function are explored: it was not reached by a call, does not
/// construct a type, writes a variable itself or through what it calls, has at least ten
/// tokens for each of its callers or not more than one of them, and leaves open what it
/// takes: a parameter or the result has no type that says something, or a parameter
/// leaves much freedom and the documentation is below the threshold.
pub proof fn law_callers_are_explored_where_they_tell_more(
    f: FunctionNode,
    idx: NodeIndex,
    incoming: Option<EdgeKind>,
    params: PruningParams,
    graph: ContextGraph,
)
    requires
        graph.wf(),
    ensures
        ({
            let types = graph.type_registry@;
            let callers = graph.incoming(idx, Some(EdgeKind::Call)).len();
            let typed = f.return_types@.len() > 0 && forall|i: int|
                0 <= i < f.parameters@.len() ==> {
                    let annotation = (#[trigger] f.parameters@[i]).param_type;
                    annotation is Some && (types.contains_key(annotation->0@)
                        && types[annotation->0@].definition.type_kind == TypeKind::TypeVar ==> {
                        let limits = types[annotation->0@].definition.type_var_info;
                        limits is Some && (limits->0.bound is Some || limits->0.constraints@.len()
                            > 0)
                    })
                };
            let free = exists|i: int|
                0 <= i < f.parameters@.len() && (
                #[trigger] f.parameters@[i]).is_high_freedom_type;
            policy::explores_callers(f, idx, incoming, params, graph) <==> {
                &&& incoming != Some(EdgeKind::Call)
                &&& !f.is_constructor
                &&& changes_state(graph, idx)
                &&& callers <= 1 || f.core.context_size >= 10 * callers
                &&& !typed || (free && f.core.doc_score.spec_below(params.doc_threshold))
            }
        }),
{
    law_side_effects_are_writes(graph, idx);
    let callers = graph.incoming(idx, Some(EdgeKind::Call)).len() as int;
    let size = f.core.context_size as int;
    if callers > 1 {
        assert(size / callers < 10 <==> size < 10 * callers) by (nonlinear_arith)
            requires
                callers > 1,
                size >= 0,
        ;
    }
}

} // verus!
