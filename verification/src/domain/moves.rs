//! Where a traversal goes and what it needs, said over the edges and nodes of the graph.

use crate::domain::boundaries;
use crate::domain::edge::EdgeKind;
use crate::domain::graph::{ContextGraph, NodeIndex};
use crate::domain::node::{Mutability, Node};
use crate::domain::policy::{
    BoundaryDecision, BoundaryPolicy, PruningDecision, ReasoningMode, ReasoningRelation,
};
use crate::domain::solver::Direction;
use crate::domain::text;
use crate::domain::traversal;
use crate::domain::traversal::{Move, ReasoningState, Walk};
use crate::domain::type_closure;
use vstd::prelude::*;

verus! {

impl<P: BoundaryPolicy> Walk<P> {
    /// What the behavior of a unit leads to along one of its edges. Of an external
    /// target, and of what is written, only the surface is needed. A variable that is read
    /// leads to where its value comes from if it may change, and else to its surface. What
    /// is called, decorates or implements, or is read and is a function, is entered unless
    /// the policy stops there.
    pub proof fn law_behavior_enters_what_edges_say(
        self,
        unit: NodeIndex,
        target: NodeIndex,
        kind: EdgeKind,
    )
        requires
            self.graph.wf(),
            !self.graph.at(unit).node_core().is_external,
            self.graph.has_link(unit, target, kind),
        ensures
            ({
                let asked = |relation: ReasoningRelation|
                    self.policy.decision(
                        ReasoningMode::NeedBehavior,
                        relation,
                        self.graph.at(unit),
                        self.graph.at(target),
                        self.graph.type_registry,
                    ) == BoundaryDecision::StopAtSurface;
                let mode = if self.graph.at(target).node_core().is_external {
                    ReasoningMode::NeedSurface
                } else {
                    match kind {
                        EdgeKind::Write => ReasoningMode::NeedSurface,
                        EdgeKind::Read => match self.graph.at(target) {
                            Node::Variable(v) => if v.mutability == Mutability::Mutable {
                                ReasoningMode::NeedValueProvenance
                            } else {
                                ReasoningMode::NeedSurface
                            },
                            Node::Function(_) => if asked(ReasoningRelation::Read) {
                                ReasoningMode::NeedSurface
                            } else {
                                ReasoningMode::NeedValueProvenance
                            },
                        },
                        EdgeKind::Call => if asked(ReasoningRelation::Call) {
                            ReasoningMode::NeedSurface
                        } else {
                            ReasoningMode::NeedBehavior
                        },
                        EdgeKind::Annotates => if asked(ReasoningRelation::Annotates) {
                            ReasoningMode::NeedSurface
                        } else {
                            ReasoningMode::NeedBehavior
                        },
                        EdgeKind::OverriddenBy => if asked(ReasoningRelation::DynamicDispatch) {
                            ReasoningMode::NeedSurface
                        } else {
                            ReasoningMode::NeedBehavior
                        },
                    }
                };
                self.leads_to(
                    ReasoningState {
                        node_index: unit,
                        direction: Direction::Out,
                        reasoning_mode: ReasoningMode::NeedBehavior,
                    },
                    ReasoningState {
                        node_index: target,
                        direction: Direction::Out,
                        reasoning_mode: mode,
                    },
                )
            }),
    {
        let a = ReasoningState {
            node_index: unit,
            direction: Direction::Out,
            reasoning_mode: ReasoningMode::NeedBehavior,
        };
        self.graph.law_edges_are_listed_at_both_ends(unit, target, kind);
        let edges = self.graph.outgoing(unit);
        let k = choose|k: int| 0 <= k < edges.len() && edges[k] == (target, kind);
        assert(self.moves(a)[k] == traversal::behavior_move((target, kind)));
        assert(self.successor(a, self.moves(a)[k]) is Some);
    }

    /// How a node is said to be reached: by the kind of edge that the relation is about, as
    /// a boundary exactly if the move stops there, and by overriding where the use of a
    /// parent is looked into.
    pub proof fn law_arrivals_name_the_edge(
        self,
        state: ReasoningState,
        target: NodeIndex,
        relation: ReasoningRelation,
        enter_mode: ReasoningMode,
        next: ReasoningState,
    )
        ensures
            ({
                let arrival = self.arrival(state, Move::Follow { target, relation, enter_mode });
                &&& arrival == self.arrival(
                    state,
                    Move::Besides { target, relation, enter_mode },
                )
                &&& arrival.decision == PruningDecision::Boundary <==> self.stops(
                    state,
                    target,
                    relation,
                )
                &&& arrival.edge_kind == EdgeKind::Call <==> relation == ReasoningRelation::Call
                    || relation == ReasoningRelation::UsageEvidence
                &&& arrival.edge_kind == EdgeKind::Read <==> relation == ReasoningRelation::Read
                    || relation == ReasoningRelation::ObservedBy
                &&& arrival.edge_kind == EdgeKind::Write <==> relation == ReasoningRelation::Write
                    || relation == ReasoningRelation::ValueProvenance
                &&& arrival.edge_kind == EdgeKind::Annotates <==> relation
                    == ReasoningRelation::Annotates
            }),
            self.arrival(state, Move::Continue(next)).edge_kind == EdgeKind::OverriddenBy,
            self.arrival(state, Move::Continue(next)).decision == PruningDecision::Transparent,
    {
    }

    /// What the use of a unit leads to, in each mode that asks for it, where the policy
    /// does not rely on its contract: to how its callers are used, to the contracts that
    /// it inherits and how those are used, to the implementations of what overrides it,
    /// and of the readers of variables that it writes and that may change. Of external
    /// units only the surface is needed.
    pub proof fn law_usage_enters_all_evidence(
        self,
        a: ReasoningState,
        other: NodeIndex,
        variable: NodeIndex,
    )
        requires
            self.graph.wf(),
            self.graph.has(a.node_index),
            !self.graph.at(a.node_index).node_core().is_external,
            a.reasoning_mode == ReasoningMode::NeedContractEvidence || a.reasoning_mode
                == ReasoningMode::NeedUsageEvidence || a.reasoning_mode
                == ReasoningMode::NeedParentUsage,
            self.policy.contract_decision(
                if a.reasoning_mode == ReasoningMode::NeedContractEvidence {
                    ReasoningMode::NeedContractEvidence
                } else {
                    ReasoningMode::NeedUsageEvidence
                },
                self.graph.at(a.node_index),
                self.graph.type_registry,
            ) != BoundaryDecision::StopAtSurface,
        ensures
            ({
                let external = self.graph.at(other).node_core().is_external;
                let enters = |mode: ReasoningMode|
                    self.leads_to(
                        a,
                        ReasoningState {
                            node_index: other,
                            direction: a.direction,
                            reasoning_mode: mode,
                        },
                    );
                let unless_external = |mode: ReasoningMode|
                    if external {
                        ReasoningMode::NeedSurface
                    } else {
                        mode
                    };
                &&& self.graph.has_link(other, a.node_index, EdgeKind::Call) ==> enters(
                    unless_external(ReasoningMode::NeedUsageEvidence),
                )
                &&& self.graph.has_link(other, a.node_index, EdgeKind::OverriddenBy) ==> enters(
                    ReasoningMode::NeedSurface,
                ) && enters(ReasoningMode::NeedParentUsage)
                &&& self.graph.has_link(a.node_index, other, EdgeKind::OverriddenBy) ==> enters(
                    unless_external(ReasoningMode::NeedImplementation),
                )
                &&& self.graph.has_link(a.node_index, variable, EdgeKind::Write) && (
                self.graph.at(variable) matches Node::Variable(v) && v.mutability
                    == Mutability::Mutable) && self.graph.has_link(
                    other,
                    variable,
                    EdgeKind::Read,
                ) ==> enters(unless_external(ReasoningMode::NeedImplementation))
            }),
    {
        let graph = self.graph;
        let idx = a.node_index;
        let parents = graph.incoming(idx, Some(EdgeKind::OverriddenBy));
        let callers = graph.incoming(idx, Some(EdgeKind::Call));
        let edges = graph.outgoing(idx);
        let x = traversal::caller_moves(graph, idx);
        let y = traversal::parent_moves(parents, true, a.direction);
        let z = traversal::child_moves(edges);
        let w = traversal::reader_moves(graph, edges);
        let moves = self.moves(a);
        assert(moves == x + y + z + w);
        if graph.has_link(other, idx, EdgeKind::Call) {
            graph.law_edges_are_listed_at_both_ends(other, idx, EdgeKind::Call);
            let i = choose|i: int| 0 <= i < callers.len() && callers[i] == (other, EdgeKind::Call);
            assert(moves[i] == x[i]);
            assert(self.successor(a, self.moves(a)[i]) is Some);
        }
        if graph.has_link(other, idx, EdgeKind::OverriddenBy) {
            graph.law_edges_are_listed_at_both_ends(other, idx, EdgeKind::OverriddenBy);
            let i = choose|i: int|
                0 <= i < parents.len() && parents[i] == (other, EdgeKind::OverriddenBy);
            boundaries::lemma_parent_move(parents, a.direction, i);
            assert(moves[x.len() + 2 * i] == y[2 * i]);
            assert(moves[x.len() + (2 * i + 1)] == y[2 * i + 1]);
            assert(self.successor(a, self.moves(a)[x.len() + 2 * i]) is Some);
            assert(self.successor(a, self.moves(a)[x.len() + (2 * i + 1)]) is Some);
        }
        if graph.has_link(idx, other, EdgeKind::OverriddenBy) {
            graph.law_edges_are_listed_at_both_ends(idx, other, EdgeKind::OverriddenBy);
            let i = boundaries::lemma_child_move_listed(edges, other);
            assert(moves[x.len() + y.len() + i] == z[i]);
            assert(self.successor(a, self.moves(a)[x.len() + y.len() + i]) is Some);
        }
        if graph.has_link(idx, variable, EdgeKind::Write) && (graph.at(
            variable,
        ) matches Node::Variable(v) && v.mutability == Mutability::Mutable) && graph.has_link(
            other,
            variable,
            EdgeKind::Read,
        ) {
            graph.law_edges_are_listed_at_both_ends(idx, variable, EdgeKind::Write);
            graph.law_edges_are_listed_at_both_ends(other, variable, EdgeKind::Read);
            let i = boundaries::lemma_reader_move_listed(graph, edges, variable, other);
            assert(moves[x.len() + y.len() + z.len() + i] == w[i]);
            assert(self.successor(a, self.moves(a)[x.len() + y.len() + z.len() + i]) is Some);
        }
    }
}

/// What a state needs of its unit: the surface first, and the implementation last, if
/// there is one, unless only the surface or the use of a parent is asked for. What else it
/// needs does not depend on the mode or the direction.
pub proof fn law_modes_differ_by_the_implementation(
    graph: ContextGraph,
    state: ReasoningState,
    other: ReasoningState,
)
    requires
        state.node_index == other.node_index,
        other.reasoning_mode == ReasoningMode::NeedSurface,
    ensures
        ({
            let about = graph.at(state.node_index).node_core();
            let needed = traversal::required(graph, state);
            let surfaces = traversal::required(graph, other);
            &&& surfaces[0].id == about.surface_fragment.id@
            &&& surfaces[0].size == about.surface_fragment.context_size
            &&& about.implementation_fragment is None || state.reasoning_mode
                == ReasoningMode::NeedSurface || state.reasoning_mode
                == ReasoningMode::NeedParentUsage ==> needed == surfaces
            &&& about.implementation_fragment is Some && state.reasoning_mode
                != ReasoningMode::NeedSurface && state.reasoning_mode
                != ReasoningMode::NeedParentUsage ==> needed.len() == surfaces.len() + 1
                && needed.drop_last() == surfaces && needed.last().id
                == about.implementation_fragment->0.id@ && needed.last().size
                == about.implementation_fragment->0.context_size
        }),
{
    let needed = traversal::required(graph, state);
    assert(needed.drop_last().push(needed.last()) =~= needed || needed.len() == 0);
    if let Some(fragment) = graph.at(state.node_index).node_core().implementation_fragment {
        if traversal::needs_implementation(state.reasoning_mode) {
            let surfaces = traversal::required(graph, other);
            assert(needed == surfaces.push(traversal::charge_of(fragment)));
            assert(surfaces.push(traversal::charge_of(fragment)).drop_last() =~= surfaces);
        }
    }
}

/// Every registered type that annotates a parameter of a function, is one of its return
/// types, or annotates a variable, has its surface among what each state of that unit
/// needs.
pub proof fn law_annotated_types_are_needed(
    graph: ContextGraph,
    state: ReasoningState,
    type_id: Seq<char>,
)
    requires
        graph.wf(),
        graph.types().contains_key(type_id),
        match graph.at(state.node_index) {
            Node::Function(f) => {
                ||| exists|i: int|
                    0 <= i < f.parameters@.len() && (
                    #[trigger] f.parameters@[i]).param_type is Some
                        && f.parameters@[i].param_type->0@ == type_id
                ||| exists|i: int|
                    0 <= i < f.return_types@.len() && (#[trigger] f.return_types@[i])@ == type_id
            },
            Node::Variable(v) => v.var_type is Some && v.var_type->0@ == type_id,
        },
    ensures
        exists|k: int|
            0 <= k < traversal::required(graph, state).len() && (
            #[trigger] traversal::required(graph, state)[k]).id
                == graph.types()[type_id].surface_fragment.id@
                && traversal::required(graph, state)[k].size
                == graph.types()[type_id].surface_fragment.context_size,
{
    let node = graph.at(state.node_index);
    let mentioned = traversal::mentioned_types(node);
    assert(mentioned.contains(type_id)) by {
        match node {
            Node::Function(f) => {
                let params = traversal::parameter_types(f.parameters@);
                let results = text::texts(f.return_types@);
                if exists|i: int|
                    0 <= i < f.parameters@.len() && (
                    #[trigger] f.parameters@[i]).param_type is Some
                        && f.parameters@[i].param_type->0@ == type_id {
                    let i = choose|i: int|
                        0 <= i < f.parameters@.len() && (
                        #[trigger] f.parameters@[i]).param_type is Some
                            && f.parameters@[i].param_type->0@ == type_id;
                    let k = lemma_parameter_type(f.parameters@, i);
                    assert(mentioned[k] == params[k]);
                } else {
                    let i = choose|i: int|
                        0 <= i < f.return_types@.len() && (#[trigger] f.return_types@[i])@
                            == type_id;
                    assert(results[i] == type_id);
                    assert(mentioned[params.len() + i] == results[i]);
                }
            },
            Node::Variable(v) => {
                assert(mentioned[0] == type_id);
            },
        }
    }
    graph.type_registry.lemma_finite();
    type_closure::law_named_types_are_the_closure(mentioned, graph.types(), graph.types().dom());
    let names = type_closure::named_types(mentioned, graph.types());
    let k = boundaries::lemma_type_charge_listed(names, graph.types(), type_id);
    let c = traversal::charge_of(graph.types()[type_id].surface_fragment);
    assert(traversal::required(graph, state)[k + 1] == c);
}

proof fn lemma_parameter_type(parameters: Seq<crate::domain::node::Parameter>, i: int) -> (k: int)
    requires
        0 <= i < parameters.len(),
        parameters[i].param_type is Some,
    ensures
        0 <= k < traversal::parameter_types(parameters).len(),
        traversal::parameter_types(parameters)[k] == parameters[i].param_type->0@,
    decreases parameters.len(),
{
    let rest = parameters.drop_last();
    let older = traversal::parameter_types(rest);
    if i < rest.len() {
        let k = lemma_parameter_type(rest, i);
        assert(traversal::parameter_types(parameters)[k] == older[k]);
        k
    } else {
        older.len() as int
    }
}

} // verus!
