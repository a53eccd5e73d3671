//! What a reasoning traversal is: states, the fragments they need, and the states
//! they lead to.
//!
//! The definitions here say in which order states are visited and fragments are
//! charged. The solver computes them.

use crate::domain::edge::EdgeKind;
use crate::domain::graph::{ContextGraph, NodeIndex};
use crate::domain::node::{ContextFragment, Mutability, Node, NodeId};
use crate::domain::policy::{
    BoundaryDecision, BoundaryPolicy, PruningDecision, ReasoningMode, ReasoningRelation,
};
use crate::domain::text;
use crate::domain::type_closure;
use crate::domain::type_registry::TypeInfo;
use vstd::prelude::*;

verus! {

/// Which way dependencies are followed.
#[derive(Debug, Clone, Copy, PartialEq, Eq, Hash, Structural)]
pub enum Direction {
    /// Towards what depends on the unit.
    In,
    /// Towards what the unit depends on.
    Out,
}

/// A node together with the reason for loading it.
#[derive(Debug, Clone, Copy, PartialEq, Eq, Hash, Structural)]
pub struct ReasoningState {
    pub node_index: NodeIndex,
    pub direction: Direction,
    pub reasoning_mode: ReasoningMode,
}

/// A boundary at which traversal stopped.
#[derive(Debug, Clone, Copy, PartialEq, Eq, Structural)]
pub struct BoundaryStop {
    pub source: NodeId,
    pub target: NodeId,
    pub direction: Direction,
    pub relation: ReasoningRelation,
}

/// How a node was reached: the kind of edge that was followed, and whether the node
/// was a boundary.
#[derive(Debug, Clone, Copy, PartialEq, Eq, Structural)]
pub struct Arrival {
    pub edge_kind: EdgeKind,
    pub decision: PruningDecision,
}

/// A fragment that is charged, with its size.
pub struct Charge {
    pub id: Seq<char>,
    pub size: nat,
}

/// What a fragment costs.
pub open spec fn charge_of(fragment: ContextFragment) -> Charge {
    Charge { id: fragment.id@, size: fragment.context_size as nat }
}

/// Whether a fragment is among those charged.
pub open spec fn charged(list: Seq<Charge>, id: Seq<char>) -> bool {
    exists|i: int| 0 <= i < list.len() && (#[trigger] list[i]).id == id
}

/// The sum of the sizes.
pub open spec fn total(list: Seq<Charge>) -> nat
    decreases list.len(),
{
    if list.len() == 0 {
        0
    } else {
        total(list.drop_last()) + list.last().size
    }
}

/// The charges of fragments that are not in another list.
pub open spec fn beyond(list: Seq<Charge>, other: Seq<Charge>) -> Seq<Charge>
    decreases list.len(),
{
    if list.len() == 0 {
        Seq::empty()
    } else {
        let rest = beyond(list.drop_last(), other);
        if charged(other, list.last().id) {
            rest
        } else {
            rest.push(list.last())
        }
    }
}

/// The charges of fragments that are in another list too.
pub open spec fn shared(list: Seq<Charge>, other: Seq<Charge>) -> Seq<Charge>
    decreases list.len(),
{
    if list.len() == 0 {
        Seq::empty()
    } else {
        let rest = shared(list.drop_last(), other);
        if charged(other, list.last().id) {
            rest.push(list.last())
        } else {
            rest
        }
    }
}

/// The annotations of a list of parameters, in order.
pub open spec fn parameter_types(
    parameters: Seq<crate::domain::node::Parameter>,
) -> Seq<Seq<char>>
    decreases parameters.len(),
{
    if parameters.len() == 0 {
        Seq::empty()
    } else {
        let rest = parameter_types(parameters.drop_last());
        match parameters.last().param_type {
            Some(type_id) => rest.push(type_id@),
            None => rest,
        }
    }
}

/// The types that the signature of a node mentions, in order.
pub open spec fn mentioned_types(node: Node) -> Seq<Seq<char>> {
    match node {
        Node::Function(f) => parameter_types(f.parameters@) + text::texts(f.return_types@),
        Node::Variable(v) => match v.var_type {
            Some(type_id) => seq![type_id@],
            None => Seq::empty(),
        },
    }
}

/// The surfaces of those types of a list that are registered.
pub open spec fn type_charges(
    type_ids: Seq<Seq<char>>,
    types: Map<Seq<char>, TypeInfo>,
) -> Seq<Charge>
    decreases type_ids.len(),
{
    if type_ids.len() == 0 {
        Seq::empty()
    } else {
        let rest = type_charges(type_ids.drop_last(), types);
        if types.contains_key(type_ids.last()) {
            rest.push(charge_of(types[type_ids.last()].surface_fragment))
        } else {
            rest
        }
    }
}

/// Whether a mode needs the implementation besides the surface.
pub open spec fn needs_implementation(mode: ReasoningMode) -> bool {
    mode != ReasoningMode::NeedSurface && mode != ReasoningMode::NeedParentUsage
}

/// The fragments that a state needs, in order: the surface, the surfaces of the types
/// that it brings in, and the implementation if the mode calls for it.
pub open spec fn required(graph: ContextGraph, state: ReasoningState) -> Seq<Charge> {
    let node = graph.at(state.node_index);
    let surfaces = seq![charge_of(node.node_core().surface_fragment)] + type_charges(
        type_closure::named_types(mentioned_types(node), graph.types()),
        graph.types(),
    );
    match node.node_core().implementation_fragment {
        Some(fragment) => if needs_implementation(state.reasoning_mode) {
            surfaces.push(charge_of(fragment))
        } else {
            surfaces
        },
        None => surfaces,
    }
}

/// A step from one state to another that a policy may cut short.
pub enum Move {
    /// Follow a relation, and enter the target in a mode unless a boundary stops it.
    Follow { target: NodeIndex, relation: ReasoningRelation, enter_mode: ReasoningMode },
    /// Enter the target of a relation in a further mode, unless a boundary stops it.
    Besides { target: NodeIndex, relation: ReasoningRelation, enter_mode: ReasoningMode },
    /// Go on to a state whatever the policy says.
    Continue(ReasoningState),
}

/// A move along each edge of a list.
pub open spec fn follow_each(
    edges: Seq<(NodeIndex, EdgeKind)>,
    relation: ReasoningRelation,
    enter_mode: ReasoningMode,
) -> Seq<Move> {
    edges.map_values(
        |edge: (NodeIndex, EdgeKind)| Move::Follow { target: edge.0, relation, enter_mode },
    )
}

/// A further move along each edge of a list.
pub open spec fn besides_each(
    edges: Seq<(NodeIndex, EdgeKind)>,
    relation: ReasoningRelation,
    enter_mode: ReasoningMode,
) -> Seq<Move> {
    edges.map_values(
        |edge: (NodeIndex, EdgeKind)| Move::Besides { target: edge.0, relation, enter_mode },
    )
}

/// The kind of edge that a relation follows, in one direction or the other.
pub open spec fn relation_edge(relation: ReasoningRelation) -> EdgeKind {
    match relation {
        ReasoningRelation::Call | ReasoningRelation::UsageEvidence => EdgeKind::Call,
        ReasoningRelation::Read | ReasoningRelation::ObservedBy => EdgeKind::Read,
        ReasoningRelation::Write | ReasoningRelation::ValueProvenance => EdgeKind::Write,
        ReasoningRelation::Annotates => EdgeKind::Annotates,
        ReasoningRelation::DynamicDispatch
        | ReasoningRelation::ParentContract
        | ReasoningRelation::ChildImplementationEvidence => EdgeKind::OverriddenBy,
    }
}

/// How the behavior of a unit depends on the target of an edge.
pub open spec fn behavior_move(edge: (NodeIndex, EdgeKind)) -> Move {
    let (relation, enter_mode) = match edge.1 {
        EdgeKind::Call => (ReasoningRelation::Call, ReasoningMode::NeedBehavior),
        EdgeKind::Read => (ReasoningRelation::Read, ReasoningMode::NeedValueProvenance),
        EdgeKind::Write => (ReasoningRelation::Write, ReasoningMode::NeedSurface),
        EdgeKind::Annotates => (ReasoningRelation::Annotates, ReasoningMode::NeedBehavior),
        EdgeKind::OverriddenBy => (
            ReasoningRelation::DynamicDispatch,
            ReasoningMode::NeedBehavior,
        ),
    };
    Move::Follow { target: edge.0, relation, enter_mode }
}

/// The behavior of a unit depends on everything it refers to.
pub open spec fn behavior_moves(graph: ContextGraph, idx: NodeIndex) -> Seq<Move> {
    graph.outgoing(idx).map_values(|edge: (NodeIndex, EdgeKind)| behavior_move(edge))
}

pub open spec fn is_mutable_variable(node: Node) -> bool {
    match node {
        Node::Variable(v) => v.mutability == Mutability::Mutable,
        Node::Function(_) => false,
    }
}

/// The value of a variable that may change comes from its writers: from what they do,
/// and from how they are used, since what they write may be handed to them.
pub open spec fn provenance_moves(graph: ContextGraph, idx: NodeIndex) -> Seq<Move> {
    if is_mutable_variable(graph.at(idx)) {
        let writers = graph.incoming(idx, Some(EdgeKind::Write));
        follow_each(
            writers,
            ReasoningRelation::ValueProvenance,
            ReasoningMode::NeedBehavior,
        ) + besides_each(
            writers,
            ReasoningRelation::ValueProvenance,
            ReasoningMode::NeedUsageEvidence,
        )
    } else {
        Seq::empty()
    }
}

/// Callers are evidence of how a unit is used.
pub open spec fn caller_moves(graph: ContextGraph, idx: NodeIndex) -> Seq<Move> {
    follow_each(
        graph.incoming(idx, Some(EdgeKind::Call)),
        ReasoningRelation::UsageEvidence,
        ReasoningMode::NeedUsageEvidence,
    )
}

/// The contracts that a unit inherits. Where its own contract is not reliable, the
/// uses of the parents bear on it too.
pub open spec fn parent_moves(
    parents: Seq<(NodeIndex, EdgeKind)>,
    with_usage: bool,
    direction: Direction,
) -> Seq<Move>
    decreases parents.len(),
{
    if parents.len() == 0 {
        Seq::empty()
    } else {
        let rest = parent_moves(parents.drop_last(), with_usage, direction);
        let target = parents.last().0;
        let contract = Move::Follow {
            target,
            relation: ReasoningRelation::ParentContract,
            enter_mode: ReasoningMode::NeedSurface,
        };
        if with_usage {
            rest.push(contract).push(
                Move::Continue(
                    ReasoningState {
                        node_index: target,
                        direction,
                        reasoning_mode: ReasoningMode::NeedParentUsage,
                    },
                ),
            )
        } else {
            rest.push(contract)
        }
    }
}

/// Implementations of a unit are evidence of its contract.
pub open spec fn child_moves(edges: Seq<(NodeIndex, EdgeKind)>) -> Seq<Move>
    decreases edges.len(),
{
    if edges.len() == 0 {
        Seq::empty()
    } else {
        let rest = child_moves(edges.drop_last());
        if edges.last().1 == EdgeKind::OverriddenBy {
            rest.push(
                Move::Follow {
                    target: edges.last().0,
                    relation: ReasoningRelation::ChildImplementationEvidence,
                    enter_mode: ReasoningMode::NeedImplementation,
                },
            )
        } else {
            rest
        }
    }
}

/// What a unit leaves in a variable that may change is observed by its readers.
pub open spec fn reader_moves(
    graph: ContextGraph,
    edges: Seq<(NodeIndex, EdgeKind)>,
) -> Seq<Move>
    decreases edges.len(),
{
    if edges.len() == 0 {
        Seq::empty()
    } else {
        let rest = reader_moves(graph, edges.drop_last());
        let variable = edges.last().0;
        if edges.last().1 == EdgeKind::Write && is_mutable_variable(graph.at(variable)) {
            rest.push(
                Move::Follow {
                    target: variable,
                    relation: ReasoningRelation::Write,
                    enter_mode: ReasoningMode::NeedSurface,
                },
            ) + follow_each(
                graph.incoming(variable, Some(EdgeKind::Read)),
                ReasoningRelation::ObservedBy,
                ReasoningMode::NeedImplementation,
            )
        } else {
            rest
        }
    }
}

/// Whether a mode asks how a unit is used.
pub open spec fn is_usage(mode: ReasoningMode) -> bool {
    mode == ReasoningMode::NeedContractEvidence || mode == ReasoningMode::NeedUsageEvidence
        || mode == ReasoningMode::NeedParentUsage
}

/// The mode in which a policy is asked about the contract of a unit whose use is
/// looked into.
pub open spec fn gate_mode(mode: ReasoningMode) -> ReasoningMode {
    if mode == ReasoningMode::NeedContractEvidence {
        ReasoningMode::NeedContractEvidence
    } else {
        ReasoningMode::NeedUsageEvidence
    }
}

/// How a unit is used. The contracts that it inherits bear on that in any case. Only
/// where its own contract cannot be relied on, the callers, the uses of the parents,
/// the implementations of implementors and the readers of what it writes do too.
pub open spec fn usage_moves(
    graph: ContextGraph,
    idx: NodeIndex,
    leaky: bool,
    direction: Direction,
) -> Seq<Move> {
    let parents = graph.incoming(idx, Some(EdgeKind::OverriddenBy));
    if leaky {
        caller_moves(graph, idx) + parent_moves(parents, true, direction) + child_moves(
            graph.outgoing(idx),
        ) + reader_moves(graph, graph.outgoing(idx))
    } else {
        parent_moves(parents, false, direction)
    }
}

/// A traversal in one direction, as far as it has come.
pub struct Progress {
    /// States still to be visited, in order.
    pub queue: Seq<ReasoningState>,
    pub visited: Set<ReasoningState>,
    /// Nodes in the order in which they were first visited.
    pub nodes: Seq<NodeIndex>,
    /// How each node was first reached. Start nodes are there from the beginning.
    pub reached: Map<NodeIndex, Option<Arrival>>,
    /// Fragments in the order in which they were charged.
    pub fragments: Seq<Charge>,
    pub stops: Seq<BoundaryStop>,
    /// States that a limit left unvisited, or not fully loaded.
    pub unresolved: Seq<ReasoningState>,
    pub truncated: bool,
}

impl Progress {
    /// Whether it is known of every visited node how it was reached.
    pub open spec fn nodes_reached(self) -> bool {
        forall|idx: NodeIndex| #[trigger]
            self.nodes.contains(idx) ==> self.reached.contains_key(idx)
    }
}

/// What a traversal is run on. Fragments that were paid for already do not count
/// towards the limit again.
pub struct Walk<P: BoundaryPolicy> {
    pub graph: ContextGraph,
    pub policy: P,
    pub direction: Direction,
    pub limit: Option<u32>,
    pub prepaid: Seq<Charge>,
}

/// The mode in which a traversal enters its start nodes.
pub open spec fn initial_mode(direction: Direction) -> ReasoningMode {
    match direction {
        Direction::Out => ReasoningMode::NeedBehavior,
        Direction::In => ReasoningMode::NeedContractEvidence,
    }
}

/// The states in which a traversal starts.
pub open spec fn initial_states(
    starts: Seq<NodeIndex>,
    direction: Direction,
) -> Seq<ReasoningState> {
    starts.map_values(
        |node_index: NodeIndex|
            ReasoningState { node_index, direction, reasoning_mode: initial_mode(direction) },
    )
}

/// A traversal before its first step.
pub open spec fn initial(starts: Seq<NodeIndex>, direction: Direction) -> Progress {
    Progress {
        queue: initial_states(starts, direction),
        visited: Set::empty(),
        nodes: Seq::empty(),
        reached: Map::new(|idx: NodeIndex| starts.contains(idx), |idx: NodeIndex| None),
        fragments: Seq::empty(),
        stops: Seq::empty(),
        unresolved: Seq::empty(),
        truncated: false,
    }
}

impl<P: BoundaryPolicy> Walk<P> {
    /// What was paid so far, each fragment once.
    pub open spec fn spent(self, fragments: Seq<Charge>) -> nat {
        total(self.prepaid) + total(beyond(fragments, self.prepaid))
    }

    /// Whether a fragment still fits under the limit. Sums are held at the largest
    /// size that can be represented.
    pub open spec fn affordable(self, fragments: Seq<Charge>, size: nat) -> bool {
        match self.limit {
            None => true,
            Some(limit) => {
                let sum = self.spent(fragments) + size;
                (if sum <= u32::MAX { sum } else { u32::MAX as nat }) <= limit
            },
        }
    }

    /// Charges a fragment for a state, unless it was charged before. One that the
    /// limit does not allow ends the traversal.
    pub open spec fn charge(
        self,
        progress: Progress,
        charge: Charge,
        state: ReasoningState,
    ) -> Progress {
        if charged(progress.fragments, charge.id) {
            progress
        } else if charged(self.prepaid, charge.id) || self.affordable(
            progress.fragments,
            charge.size,
        ) {
            Progress { fragments: progress.fragments.push(charge), ..progress }
        } else {
            Progress {
                truncated: true,
                unresolved: progress.unresolved.push(state),
                ..progress
            }
        }
    }

    /// Charges fragments one after the other, as far as the limit allows.
    pub open spec fn charge_all(
        self,
        progress: Progress,
        list: Seq<Charge>,
        state: ReasoningState,
    ) -> Progress
        decreases list.len(),
    {
        if list.len() == 0 {
            progress
        } else {
            let before = self.charge_all(progress, list.drop_last(), state);
            if before.truncated {
                before
            } else {
                self.charge(before, list.last(), state)
            }
        }
    }

    /// Whether the policy does not rely on the contract of a node.
    pub open spec fn leaky(self, mode: ReasoningMode, idx: NodeIndex) -> bool {
        self.policy.contract_decision(mode, self.graph.at(idx), self.graph.type_registry)
            != BoundaryDecision::StopAtSurface
    }

    /// The moves that a state makes.
    pub open spec fn moves(self, state: ReasoningState) -> Seq<Move> {
        let graph = self.graph;
        let idx = state.node_index;
        match (state.direction, state.reasoning_mode) {
            (Direction::Out, ReasoningMode::NeedBehavior) => behavior_moves(graph, idx),
            (Direction::Out, ReasoningMode::NeedValueProvenance) => provenance_moves(graph, idx),
            (_, ReasoningMode::NeedContractEvidence)
            | (_, ReasoningMode::NeedUsageEvidence)
            | (_, ReasoningMode::NeedParentUsage) => usage_moves(
                graph,
                idx,
                self.leaky(gate_mode(state.reasoning_mode), idx),
                state.direction,
            ),
            _ => Seq::empty(),
        }
    }

    /// What the policy says of following a relation from a state to a target.
    pub open spec fn verdict(
        self,
        state: ReasoningState,
        target: NodeIndex,
        relation: ReasoningRelation,
    ) -> BoundaryDecision {
        self.policy.decision(
            state.reasoning_mode,
            relation,
            self.graph.at(state.node_index),
            self.graph.at(target),
            self.graph.type_registry,
        )
    }

    /// Whether following a relation stops at the surface of the target. External targets,
    /// written variables and contracts of parents are never entered, nor variables that
    /// cannot change; variables that may change, and evidence of use, always are. About
    /// the rest the policy is asked.
    pub open spec fn stops(
        self,
        state: ReasoningState,
        target: NodeIndex,
        relation: ReasoningRelation,
    ) -> bool {
        self.graph.at(target).node_core().is_external || match relation {
            ReasoningRelation::Write | ReasoningRelation::ParentContract => true,
            ReasoningRelation::Read => match self.graph.at(target) {
                Node::Variable(v) => v.mutability != Mutability::Mutable,
                Node::Function(_) => self.verdict(state, target, relation)
                    == BoundaryDecision::StopAtSurface,
            },
            ReasoningRelation::UsageEvidence
            | ReasoningRelation::ChildImplementationEvidence
            | ReasoningRelation::ObservedBy => false,
            ReasoningRelation::Call
            | ReasoningRelation::Annotates
            | ReasoningRelation::DynamicDispatch
            | ReasoningRelation::ValueProvenance => self.verdict(state, target, relation)
                == BoundaryDecision::StopAtSurface,
        }
    }

    /// The state that a move leads to. Where it stops, only the surface of the target is
    /// needed.
    pub open spec fn successor(self, state: ReasoningState, step: Move) -> Option<ReasoningState> {
        match step {
            Move::Continue(next) => Some(next),
            Move::Follow { target, relation, enter_mode } => Some(
                ReasoningState {
                    node_index: target,
                    direction: state.direction,
                    reasoning_mode: if self.stops(state, target, relation) {
                        ReasoningMode::NeedSurface
                    } else {
                        enter_mode
                    },
                },
            ),
            Move::Besides { target, relation, enter_mode } => if self.stops(
                state,
                target,
                relation,
            ) {
                None
            } else {
                Some(
                    ReasoningState {
                        node_index: target,
                        direction: state.direction,
                        reasoning_mode: enter_mode,
                    },
                )
            },
        }
    }

    /// The boundary that a move stops at: one that cuts off what would be entered else.
    /// External targets, written variables and contracts of parents never are, so no
    /// boundary is in the way there.
    pub open spec fn stop(self, state: ReasoningState, step: Move) -> Option<BoundaryStop> {
        match step {
            Move::Follow { target, relation, .. } => if self.stops(state, target, relation)
                && relation != ReasoningRelation::Write && relation
                != ReasoningRelation::ParentContract && !self.graph.at(
                target,
            ).node_core().is_external {
                Some(
                    BoundaryStop {
                        source: self.graph.at(state.node_index).node_core().id,
                        target: self.graph.at(target).node_core().id,
                        direction: state.direction,
                        relation,
                    },
                )
            } else {
                None
            },
            Move::Besides { .. } | Move::Continue(_) => None,
        }
    }

    /// How a move arrives where it leads.
    pub open spec fn arrival(self, state: ReasoningState, step: Move) -> Arrival {
        match step {
            Move::Follow { target, relation, .. } | Move::Besides { target, relation, .. } => {
                Arrival {
                    edge_kind: relation_edge(relation),
                    decision: if self.stops(state, target, relation) {
                        PruningDecision::Boundary
                    } else {
                        PruningDecision::Transparent
                    },
                }
            },
            Move::Continue(_) => Arrival {
                edge_kind: EdgeKind::OverriddenBy,
                decision: PruningDecision::Transparent,
            },
        }
    }

    /// What is known of how nodes were reached, after a move.
    pub open spec fn reach(
        self,
        reached: Map<NodeIndex, Option<Arrival>>,
        state: ReasoningState,
        step: Move,
    ) -> Map<NodeIndex, Option<Arrival>> {
        match self.successor(state, step) {
            Some(next) => if reached.contains_key(next.node_index) {
                reached
            } else {
                reached.insert(next.node_index, Some(self.arrival(state, step)))
            },
            None => reached,
        }
    }

    /// Makes a move: records the boundary, and puts the next state in the queue.
    pub open spec fn make_move(
        self,
        progress: Progress,
        state: ReasoningState,
        step: Move,
    ) -> Progress {
        Progress {
            stops: match self.stop(state, step) {
                Some(stop) => progress.stops.push(stop),
                None => progress.stops,
            },
            queue: match self.successor(state, step) {
                Some(next) => progress.queue.push(next),
                None => progress.queue,
            },
            reached: self.reach(progress.reached, state, step),
            ..progress
        }
    }

    /// Makes moves one after the other.
    pub open spec fn make_moves(
        self,
        progress: Progress,
        state: ReasoningState,
        steps: Seq<Move>,
    ) -> Progress
        decreases steps.len(),
    {
        if steps.len() == 0 {
            progress
        } else {
            self.make_move(
                self.make_moves(progress, state, steps.drop_last()),
                state,
                steps.last(),
            )
        }
    }

    /// Takes a state out of the queue and enters it: it is visited now, and its node
    /// is reached.
    pub open spec fn enter(self, progress: Progress) -> Progress {
        let state = progress.queue[0];
        Progress {
            queue: progress.queue.drop_first(),
            visited: progress.visited.insert(state),
            nodes: if progress.nodes.contains(state.node_index) {
                progress.nodes
            } else {
                progress.nodes.push(state.node_index)
            },
            ..progress
        }
    }

    /// One step: the first state of the queue is visited, unless it was before. Its
    /// fragments are charged, and then its moves are made, which external nodes have
    /// none of. When a fragment cannot be charged, all that is left stays unresolved.
    pub open spec fn step(self, progress: Progress) -> Progress {
        let state = progress.queue[0];
        if progress.visited.contains(state) {
            Progress { queue: progress.queue.drop_first(), ..progress }
        } else {
            let loaded = self.charge_all(
                self.enter(progress),
                required(self.graph, state),
                state,
            );
            if loaded.truncated {
                Progress {
                    unresolved: loaded.unresolved + loaded.queue,
                    queue: Seq::empty(),
                    ..loaded
                }
            } else if self.graph.at(state.node_index).node_core().is_external {
                loaded
            } else {
                self.make_moves(loaded, state, self.moves(state))
            }
        }
    }

    /// Whether a state is one of this walk.
    pub open spec fn is_state(self, state: ReasoningState) -> bool {
        state.direction == self.direction && self.graph.has(state.node_index)
    }

    /// Whether all states are states of this walk.
    pub open spec fn valid(self, progress: Progress) -> bool {
        &&& self.graph.wf()
        &&& progress.visited.finite()
        &&& forall|state: ReasoningState| #[trigger]
            progress.visited.contains(state) ==> self.is_state(state)
        &&& forall|i: int|
            0 <= i < progress.queue.len() ==> self.is_state(#[trigger] progress.queue[i])
    }

    /// How many states there are left to visit, at most.
    pub open spec fn unvisited(self, progress: Progress) -> int {
        8 * self.graph.nodes().len() - progress.visited.len()
    }

    /// Steps until the queue is empty.
    pub open spec fn run(self, progress: Progress) -> Progress
        decreases self.unvisited(progress), progress.queue.len(),
        when self.valid(progress)
        via Self::run_decreases
    {
        if progress.queue.len() == 0 {
            progress
        } else {
            self.run(self.step(progress))
        }
    }

    #[via_fn]
    proof fn run_decreases(self, progress: Progress) {
        if progress.queue.len() > 0 {
            self.lemma_step_valid(progress);
        }
    }

    /// Charging changes only what is charged, and whether the limit was met.
    pub proof fn lemma_charge_all(
        self,
        progress: Progress,
        list: Seq<Charge>,
        state: ReasoningState,
    )
        ensures
            ({
                let after = self.charge_all(progress, list, state);
                &&& after.queue == progress.queue
                &&& after.visited == progress.visited
                &&& after.nodes == progress.nodes
                &&& after.stops == progress.stops
                &&& after.reached == progress.reached
            }),
        decreases list.len(),
    {
        if list.len() > 0 {
            self.lemma_charge_all(progress, list.drop_last(), state);
        }
    }

    /// Moves that lead to states of the walk keep a traversal valid.
    pub proof fn lemma_make_moves(self, progress: Progress, state: ReasoningState, steps: Seq<Move>)
        requires
            self.valid(progress),
            forall|i: int|
                0 <= i < steps.len() ==> match self.successor(state, #[trigger] steps[i]) {
                    Some(next) => self.is_state(next),
                    None => true,
                },
        ensures
            self.valid(self.make_moves(progress, state, steps)),
            self.make_moves(progress, state, steps).visited == progress.visited,
        decreases steps.len(),
    {
        if steps.len() > 0 {
            let rest = steps.drop_last();
            assert forall|i: int| 0 <= i < rest.len() implies match self.successor(
                state,
                #[trigger] rest[i],
            ) {
                Some(next) => self.is_state(next),
                None => true,
            } by {
                assert(rest[i] == steps[i]);
            }
            self.lemma_make_moves(progress, state, rest);
            assert(steps.last() == steps[steps.len() - 1]);
        }
    }

    /// Whether a move goes to a node of the graph, in this direction.
    pub open spec fn is_move(self, step: Move) -> bool {
        match step {
            Move::Follow { target, .. } | Move::Besides { target, .. } => self.graph.has(target),
            Move::Continue(next) => self.is_state(next),
        }
    }

    proof fn lemma_follow_each(
        self,
        edges: Seq<(NodeIndex, EdgeKind)>,
        relation: ReasoningRelation,
        enter_mode: ReasoningMode,
    )
        requires
            forall|k: int| 0 <= k < edges.len() ==> self.graph.has((#[trigger] edges[k]).0),
        ensures
            forall|k: int|
                0 <= k < follow_each(edges, relation, enter_mode).len() ==> self.is_move(
                    #[trigger] follow_each(edges, relation, enter_mode)[k],
                ),
    {
        assert forall|k: int|
            0 <= k < follow_each(edges, relation, enter_mode).len() implies self.is_move(
            #[trigger] follow_each(edges, relation, enter_mode)[k],
        ) by {
            assert(self.graph.has(edges[k].0));
        }
    }

    proof fn lemma_besides_each(
        self,
        edges: Seq<(NodeIndex, EdgeKind)>,
        relation: ReasoningRelation,
        enter_mode: ReasoningMode,
    )
        requires
            forall|k: int| 0 <= k < edges.len() ==> self.graph.has((#[trigger] edges[k]).0),
        ensures
            forall|k: int|
                0 <= k < besides_each(edges, relation, enter_mode).len() ==> self.is_move(
                    #[trigger] besides_each(edges, relation, enter_mode)[k],
                ),
    {
        assert forall|k: int|
            0 <= k < besides_each(edges, relation, enter_mode).len() implies self.is_move(
            #[trigger] besides_each(edges, relation, enter_mode)[k],
        ) by {
            assert(self.graph.has(edges[k].0));
        }
    }

    proof fn lemma_parent_moves(self, parents: Seq<(NodeIndex, EdgeKind)>, with_usage: bool)
        requires
            forall|k: int| 0 <= k < parents.len() ==> self.graph.has((#[trigger] parents[k]).0),
        ensures
            forall|k: int|
                0 <= k < parent_moves(parents, with_usage, self.direction).len() ==> self.is_move(
                    #[trigger] parent_moves(parents, with_usage, self.direction)[k],
                ),
        decreases parents.len(),
    {
        if parents.len() > 0 {
            let rest = parents.drop_last();
            assert(forall|k: int| 0 <= k < rest.len() ==> rest[k] == parents[k]);
            self.lemma_parent_moves(rest, with_usage);
            assert(self.graph.has(parents[parents.len() - 1].0));
            let older = parent_moves(rest, with_usage, self.direction);
            assert forall|k: int|
                0 <= k < parent_moves(
                    parents,
                    with_usage,
                    self.direction,
                ).len() implies self.is_move(
                #[trigger] parent_moves(parents, with_usage, self.direction)[k],
            ) by {
                if k < older.len() {
                    assert(parent_moves(parents, with_usage, self.direction)[k] == older[k]);
                }
            }
        }
    }

    proof fn lemma_child_moves(self, edges: Seq<(NodeIndex, EdgeKind)>)
        requires
            forall|k: int| 0 <= k < edges.len() ==> self.graph.has((#[trigger] edges[k]).0),
        ensures
            forall|k: int|
                0 <= k < child_moves(edges).len() ==> self.is_move(
                    #[trigger] child_moves(edges)[k],
                ),
        decreases edges.len(),
    {
        if edges.len() > 0 {
            let rest = edges.drop_last();
            assert(forall|k: int| 0 <= k < rest.len() ==> rest[k] == edges[k]);
            self.lemma_child_moves(rest);
            assert(self.graph.has(edges[edges.len() - 1].0));
            let older = child_moves(rest);
            assert forall|k: int| 0 <= k < child_moves(edges).len() implies self.is_move(
                #[trigger] child_moves(edges)[k],
            ) by {
                if k < older.len() {
                    assert(child_moves(edges)[k] == older[k]);
                }
            }
        }
    }

    proof fn lemma_incoming(self, idx: NodeIndex, filter: Option<EdgeKind>)
        requires
            self.graph.wf(),
        ensures
            forall|k: int|
                0 <= k < self.graph.incoming(idx, filter).len() ==> self.graph.has(
                    (#[trigger] self.graph.incoming(idx, filter)[k]).0,
                ),
    {
        assert forall|k: int|
            0 <= k < self.graph.incoming(idx, filter).len() implies self.graph.has(
            (#[trigger] self.graph.incoming(idx, filter)[k]).0,
        ) by {
            self.graph.lemma_incoming(idx, filter, k);
        }
    }

    proof fn lemma_outgoing(self, idx: NodeIndex)
        requires
            self.graph.wf(),
        ensures
            forall|k: int|
                0 <= k < self.graph.outgoing(idx).len() ==> self.graph.has(
                    (#[trigger] self.graph.outgoing(idx)[k]).0,
                ),
    {
        assert forall|k: int| 0 <= k < self.graph.outgoing(idx).len() implies self.graph.has(
            (#[trigger] self.graph.outgoing(idx)[k]).0,
        ) by {
            self.graph.lemma_outgoing(idx, k);
        }
    }

    proof fn lemma_reader_moves(self, edges: Seq<(NodeIndex, EdgeKind)>)
        requires
            self.graph.wf(),
            forall|k: int| 0 <= k < edges.len() ==> self.graph.has((#[trigger] edges[k]).0),
        ensures
            forall|k: int|
                0 <= k < reader_moves(self.graph, edges).len() ==> self.is_move(
                    #[trigger] reader_moves(self.graph, edges)[k],
                ),
        decreases edges.len(),
    {
        if edges.len() > 0 {
            let rest = edges.drop_last();
            assert(forall|k: int| 0 <= k < rest.len() ==> rest[k] == edges[k]);
            self.lemma_reader_moves(rest);
            let variable = edges[edges.len() - 1].0;
            assert(self.graph.has(variable));
            self.lemma_incoming(variable, Some(EdgeKind::Read));
            self.lemma_follow_each(
                self.graph.incoming(variable, Some(EdgeKind::Read)),
                ReasoningRelation::ObservedBy,
                ReasoningMode::NeedImplementation,
            );
            let older = reader_moves(self.graph, rest);
            let readers = follow_each(
                self.graph.incoming(variable, Some(EdgeKind::Read)),
                ReasoningRelation::ObservedBy,
                ReasoningMode::NeedImplementation,
            );
            assert forall|k: int| 0 <= k < reader_moves(self.graph, edges).len() implies self.is_move(
                #[trigger] reader_moves(self.graph, edges)[k],
            ) by {
                if k < older.len() {
                    assert(reader_moves(self.graph, edges)[k] == older[k]);
                } else if k > older.len() {
                    assert(reader_moves(self.graph, edges)[k] == readers[k - older.len() - 1]);
                }
            }
        }
    }

    /// The moves that ask how a unit is used go to nodes of the graph.
    proof fn lemma_usage_moves(self, idx: NodeIndex, leaky: bool)
        requires
            self.graph.wf(),
        ensures
            forall|k: int|
                0 <= k < usage_moves(self.graph, idx, leaky, self.direction).len()
                    ==> self.is_move(
                    #[trigger] usage_moves(self.graph, idx, leaky, self.direction)[k],
                ),
    {
        let graph = self.graph;
        let parents = graph.incoming(idx, Some(EdgeKind::OverriddenBy));
        let steps = usage_moves(graph, idx, leaky, self.direction);
        self.lemma_outgoing(idx);
        self.lemma_incoming(idx, Some(EdgeKind::Call));
        self.lemma_incoming(idx, Some(EdgeKind::OverriddenBy));
        self.lemma_parent_moves(parents, leaky);
        if leaky {
            self.lemma_follow_each(
                graph.incoming(idx, Some(EdgeKind::Call)),
                ReasoningRelation::UsageEvidence,
                ReasoningMode::NeedUsageEvidence,
            );
            self.lemma_child_moves(graph.outgoing(idx));
            self.lemma_reader_moves(graph.outgoing(idx));
            let a = caller_moves(graph, idx);
            let b = parent_moves(parents, true, self.direction);
            let c = child_moves(graph.outgoing(idx));
            let d = reader_moves(graph, graph.outgoing(idx));
            assert forall|k: int| 0 <= k < steps.len() implies self.is_move(
                #[trigger] steps[k],
            ) by {
                if k < a.len() {
                    assert(steps[k] == a[k]);
                } else if k < a.len() + b.len() {
                    assert(steps[k] == b[k - a.len()]);
                } else if k < a.len() + b.len() + c.len() {
                    assert(steps[k] == c[k - a.len() - b.len()]);
                } else {
                    assert(steps[k] == d[k - a.len() - b.len() - c.len()]);
                }
            }
        }
    }

    /// The moves of a state go to nodes of the graph.
    pub proof fn lemma_moves(self, state: ReasoningState)
        requires
            self.graph.wf(),
            self.is_state(state),
        ensures
            forall|k: int|
                0 <= k < self.moves(state).len() ==> self.is_move(#[trigger] self.moves(state)[k]),
    {
        let graph = self.graph;
        let idx = state.node_index;
        let writers = graph.incoming(idx, Some(EdgeKind::Write));
        self.lemma_outgoing(idx);
        self.lemma_incoming(idx, Some(EdgeKind::Write));
        self.lemma_follow_each(
            writers,
            ReasoningRelation::ValueProvenance,
            ReasoningMode::NeedBehavior,
        );
        self.lemma_besides_each(
            writers,
            ReasoningRelation::ValueProvenance,
            ReasoningMode::NeedUsageEvidence,
        );
        self.lemma_usage_moves(idx, self.leaky(gate_mode(state.reasoning_mode), idx));
        assert forall|k: int|
            0 <= k < behavior_moves(graph, idx).len() implies self.is_move(
            #[trigger] behavior_moves(graph, idx)[k],
        ) by {
            assert(self.graph.has(graph.outgoing(idx)[k].0));
        }
        assert forall|k: int|
            0 <= k < provenance_moves(graph, idx).len() implies self.is_move(
            #[trigger] provenance_moves(graph, idx)[k],
        ) by {
            let a = follow_each(
                writers,
                ReasoningRelation::ValueProvenance,
                ReasoningMode::NeedBehavior,
            );
            let b = besides_each(
                writers,
                ReasoningRelation::ValueProvenance,
                ReasoningMode::NeedUsageEvidence,
            );
            if k < a.len() {
                assert(provenance_moves(graph, idx)[k] == a[k]);
            } else {
                assert(provenance_moves(graph, idx)[k] == b[k - a.len()]);
            }
        }
    }

    /// There are at most so many states as modes and nodes allow.
    proof fn lemma_visited_bound(self, visited: Set<ReasoningState>)
        requires
            visited.finite(),
            forall|state: ReasoningState| #[trigger]
                visited.contains(state) ==> self.is_state(state),
        ensures
            visited.len() <= 8 * self.graph.nodes().len(),
    {
        let code = |state: ReasoningState| state_code(state);
        let codes = visited.map(code);
        let bound = 8 * self.graph.nodes().len() as int;
        assert(vstd::relations::injective_on(code, visited)) by {
            assert forall|a: ReasoningState, b: ReasoningState|
                visited.contains(a) && visited.contains(b) && #[trigger] code(a)
                    == #[trigger] code(b) implies a == b by {
                assert(self.is_state(a) && self.is_state(b));
                lemma_state_code(a, b);
            }
        }
        vstd::set_lib::lemma_map_size(visited, codes, code);
        vstd::set_lib::lemma_int_range(0, bound);
        assert(codes.subset_of(vstd::set_lib::set_int_range(0, bound))) by {
            assert forall|x: int| #[trigger] codes.contains(x) implies 0 <= x < bound by {
                let state = choose|state: ReasoningState|
                    visited.contains(state) && code(state) == x;
                assert(self.is_state(state));
            }
        }
        vstd::set_lib::lemma_len_subset(codes, vstd::set_lib::set_int_range(0, bound));
    }

    /// A step keeps a traversal valid, and brings its end nearer.
    pub proof fn lemma_step_valid(self, progress: Progress)
        requires
            self.valid(progress),
            progress.queue.len() > 0,
        ensures
            self.valid(self.step(progress)),
            self.unvisited(self.step(progress)) >= 0,
            self.unvisited(progress) >= 0,
            self.unvisited(self.step(progress)) < self.unvisited(progress) || (self.unvisited(
                self.step(progress),
            ) == self.unvisited(progress) && self.step(progress).queue.len()
                < progress.queue.len()),
    {
        let state = progress.queue[0];
        self.lemma_visited_bound(progress.visited);
        if progress.visited.contains(state) {
            let rest = progress.queue.drop_first();
            assert forall|i: int| 0 <= i < rest.len() implies self.is_state(
                #[trigger] rest[i],
            ) by {
                assert(rest[i] == progress.queue[i + 1]);
            }
        } else {
            let entered = self.enter(progress);
            assert(self.is_state(state));
            assert forall|i: int| 0 <= i < entered.queue.len() implies self.is_state(
                #[trigger] entered.queue[i],
            ) by {
                assert(entered.queue[i] == progress.queue[i + 1]);
            }
            self.lemma_charge_all(entered, required(self.graph, state), state);
            let loaded = self.charge_all(entered, required(self.graph, state), state);
            self.lemma_moves(state);
            let steps = self.moves(state);
            assert forall|i: int| 0 <= i < steps.len() implies match self.successor(
                state,
                #[trigger] steps[i],
            ) {
                Some(next) => self.is_state(next),
                None => true,
            } by {
                assert(self.is_move(steps[i]));
            }
            self.lemma_make_moves(loaded, state, steps);
            self.lemma_visited_bound(entered.visited);
        }
    }

    /// The start states are states of the walk.
    pub proof fn lemma_initial_valid(self, starts: Seq<NodeIndex>)
        requires
            self.graph.wf(),
            forall|i: int| 0 <= i < starts.len() ==> self.graph.has(#[trigger] starts[i]),
        ensures
            self.valid(initial(starts, self.direction)),
    {
        let progress = initial(starts, self.direction);
        assert forall|i: int| 0 <= i < progress.queue.len() implies self.is_state(
            #[trigger] progress.queue[i],
        ) by {
            assert(self.graph.has(starts[i]));
        }
    }

    /// Whether all reached nodes are nodes of the graph.
    pub open spec fn nodes_valid(self, progress: Progress) -> bool {
        forall|i: int|
            0 <= i < progress.nodes.len() ==> self.graph.has(#[trigger] progress.nodes[i])
    }

    proof fn lemma_make_moves_nodes(
        self,
        progress: Progress,
        state: ReasoningState,
        steps: Seq<Move>,
    )
        ensures
            self.make_moves(progress, state, steps).nodes == progress.nodes,
        decreases steps.len(),
    {
        if steps.len() > 0 {
            self.lemma_make_moves_nodes(progress, state, steps.drop_last());
        }
    }

    proof fn lemma_run_nodes(self, progress: Progress)
        requires
            self.valid(progress),
            self.nodes_valid(progress),
        ensures
            self.nodes_valid(self.run(progress)),
        decreases self.unvisited(progress), progress.queue.len(),
    {
        if progress.queue.len() > 0 {
            let state = progress.queue[0];
            assert(self.is_state(state));
            self.lemma_step_valid(progress);
            let entered = self.enter(progress);
            let loaded = self.charge_all(entered, required(self.graph, state), state);
            self.lemma_charge_all(entered, required(self.graph, state), state);
            self.lemma_make_moves_nodes(loaded, state, self.moves(state));
            self.lemma_run_nodes(self.step(progress));
        }
    }

    /// The nodes that a traversal reaches are nodes of the graph.
    pub proof fn lemma_nodes(self, starts: Seq<NodeIndex>)
        requires
            self.graph.wf(),
            forall|i: int| 0 <= i < starts.len() ==> self.graph.has(#[trigger] starts[i]),
        ensures
            self.nodes_valid(self.outcome(starts)),
    {
        self.lemma_initial_valid(starts);
        self.lemma_run_nodes(initial(starts, self.direction));
    }

    /// The outcome of a traversal from some nodes.
    pub open spec fn outcome(self, starts: Seq<NodeIndex>) -> Progress {
        self.run(initial(starts, self.direction))
    }
}

/// A number for each mode.
pub open spec fn mode_code(mode: ReasoningMode) -> int {
    match mode {
        ReasoningMode::NeedSurface => 0,
        ReasoningMode::NeedBehavior => 1,
        ReasoningMode::NeedValueProvenance => 2,
        ReasoningMode::NeedUsageEvidence => 3,
        ReasoningMode::NeedContractEvidence => 4,
        ReasoningMode::NeedImplementation => 5,
        ReasoningMode::NeedParentUsage => 6,
    }
}

/// A number for each state of one direction.
pub open spec fn state_code(state: ReasoningState) -> int {
    state.node_index.ix * 8 + mode_code(state.reasoning_mode)
}

/// Different states of one direction have different numbers.
pub proof fn lemma_state_code(a: ReasoningState, b: ReasoningState)
    requires
        a.direction == b.direction,
        state_code(a) == state_code(b),
    ensures
        a == b,
{
    assert(a.node_index.ix == b.node_index.ix);
    assert(mode_code(a.reasoning_mode) == mode_code(b.reasoning_mode));
}

} // verus!
